//! What the UDP voice server does with a datagram from a client, whom a
//! player's audio reaches, and the keep-alives it sends.
use vstd::prelude::*;

use crate::rate_limiter::allow_outcome;
use crate::secret::{opened_under, AES_GCM_MAX_PLAINTEXT};
use crate::state::{lists_keep_alive_targets, PeerAddress, PlayerState, StateManager};
use crate::voice::{
    frames_sealed, read_authenticate, read_mic, read_ping, seal_datagram, AuthenticatePacket,
    GroupSoundPacket, MicPacket, PingPacket, PlayerSoundPacket, VoicePacket, MAGIC_BYTE,
    AUTHENTICATE_PACKET, CONNECTION_CHECK_PACKET, MIC_PACKET, PING_PACKET,
};
use crate::wire::{be_value, get_be, get_byte_array, read_byte_array, rest};

verus! {

/// The player a client datagram claims to come from: it must be at least
/// 17 bytes and start with the magic byte, then the player's UUID.
pub open spec fn datagram_player(d: Seq<u8>) -> Option<u128> {
    if d.len() >= 17 && d[0] == MAGIC_BYTE {
        Some(be_value(d.subrange(1, 17)) as u128)
    } else {
        None
    }
}

/// The player a client datagram claims to come from (see `datagram_player`).
pub fn datagram_sender(data: &[u8]) -> (r: Option<u128>)
    ensures
        r == datagram_player(data@),
{
    if data.len() < 17 || data[0] != MAGIC_BYTE {
        None
    } else {
        Some(get_be(data, 1, 16))
    }
}

/// The encrypted payload of a client datagram: the byte array after the
/// UUID, or nothing when none can be read there.
pub open spec fn datagram_payload(d: Seq<u8>) -> Seq<u8> {
    match read_byte_array(d.skip(17)) {
        Some((b, _)) => b,
        None => Seq::empty(),
    }
}

/// A datagram whose bytes after the UUID hold no readable, non-empty byte
/// array is dropped.
pub open spec fn payload_dropped(d: Seq<u8>) -> bool {
    datagram_payload(d).len() == 0 && d.len() > 17
}

/// What came of a datagram from a client.
#[derive(Debug)]
pub enum UdpEvent {
    /// Nothing to do.
    Ignored,
    /// The payload of a known player did not decrypt.
    Undecryptable { player: u128, payload_len: usize },
    /// Audio from a player, to route.
    Mic { sender: PlayerState, packet: MicPacket },
    /// The player proved its secret; its endpoint is now known, and the
    /// acknowledgement is to be sent back.
    Authenticated { player: u128, reply: Vec<u8> },
    /// A ping to echo back.
    Pong { player: u128, reply: Vec<u8> },
    /// A connection check to acknowledge.
    ConnectionChecked { player: u128, reply: Vec<u8> },
}

/// What the decrypted packet `d` of player `pl` (known and let through)
/// comes to, and the players afterwards; replies are checked apart.
pub open spec fn packet_effect(
    players: Map<u128, PlayerState>,
    player: u128,
    d: Seq<u8>,
    src: PeerAddress,
    allow_pings: bool,
    r: UdpEvent,
) -> bool {
    let pl = players[player];
    let key = pl.secret.key();
    let body = d.skip(1);
    if d.len() == 0 {
        r is Ignored
    } else if d[0] == MIC_PACKET {
        match read_mic(body) {
            Some((data, seq, w)) => r matches UdpEvent::Mic { sender, packet } && sender == pl
                && packet.data@ == data && packet.sequence_number == seq && packet.whispering == w,
            None => r is Ignored,
        }
    } else if d[0] == AUTHENTICATE_PACKET {
        match read_authenticate(body) {
            Some((_, s)) => if s == pl.secret.uuid {
                r matches UdpEvent::Authenticated { player: p, reply } && p == player
                    && frames_sealed(key, VoicePacket::AuthenticateAck.spec_bytes(), reply@)
            } else {
                r is Ignored
            },
            None => r is Ignored,
        }
    } else if d[0] == PING_PACKET && allow_pings {
        match read_ping(body) {
            Some((id, t)) => r matches UdpEvent::Pong { player: p, reply } && p == player
                && frames_sealed(
                key,
                VoicePacket::Ping(PingPacket { id, timestamp: t }).spec_bytes(),
                reply@,
            ),
            None => r is Ignored,
        }
    } else if d[0] == CONNECTION_CHECK_PACKET {
        r matches UdpEvent::ConnectionChecked { player: p, reply } && p == player && frames_sealed(
            key,
            VoicePacket::ConnectionCheckAck.spec_bytes(),
            reply@,
        )
    } else {
        r is Ignored
    }
}

/// Whether the packet `d` authenticates player `player`: an authentication
/// packet carrying the player's secret.
pub open spec fn authenticates(players: Map<u128, PlayerState>, player: u128, d: Seq<u8>) -> bool {
    d.len() > 0 && d[0] == AUTHENTICATE_PACKET && match read_authenticate(d.skip(1)) {
        Some((_, s)) => s == players[player].secret.uuid,
        None => false,
    }
}

/// A datagram from a client at `src`. It is dropped unless it names a
/// known player; a known player's datagram counts against its rate limit
/// and is dropped when over it; then the payload is decrypted with the
/// player's secret, and the packet handled by its type.
pub fn handle_datagram(
    state: &mut StateManager,
    data: &[u8],
    src: PeerAddress,
    allow_pings: bool,
) -> (r: UdpEvent)
    requires
        old(state).wf(),
        datagram_player(data@) matches Some(p) && old(state).players().contains_key(p)
            ==> old(state).limiter().usable(),
    ensures
        final(state).wf(),
        final(state).groups() == old(state).groups(),
        final(state).categories() == old(state).categories(),
        final(state).limiter().max_packets_per_second() == old(state).limiter().max_packets_per_second(),
        final(state).limiter().threshold() == old(state).limiter().threshold(),
        final(state).limiter().window_ns() == old(state).limiter().window_ns(),
        match datagram_player(data@) {
            None => r is Ignored && final(state).players() == old(state).players()
                && final(state).limiter().buckets() == old(state).limiter().buckets(),
            Some(player) => if !old(state).players().contains_key(player) {
                r is Ignored && final(state).players() == old(state).players()
                    && final(state).limiter().buckets() == old(state).limiter().buckets()
            } else {
                exists|now: u64|
                    {
                        let (buckets, passed) = #[trigger] allow_outcome(
                            old(state).limiter().max_packets_per_second(),
                            old(state).limiter().threshold(),
                            old(state).limiter().window_ns(),
                            old(state).limiter().buckets(),
                            player,
                            now,
                        );
                        let pl = old(state).players()[player];
                        let payload = datagram_payload(data@);
                        &&& final(state).limiter().buckets() == buckets
                        &&& (!passed || payload_dropped(data@)) ==> r is Ignored
                            && final(state).players() == old(state).players()
                        &&& (passed && !payload_dropped(data@)) ==> match opened_under(
                            pl.secret.key(),
                            payload,
                        ) {
                            None => r == UdpEvent::Undecryptable {
                                player,
                                payload_len: payload.len() as usize,
                            } && final(state).players() == old(state).players(),
                            Some(d) => {
                                &&& packet_effect(
                                    old(state).players(),
                                    player,
                                    d,
                                    src,
                                    allow_pings,
                                    r,
                                )
                                &&& final(state).players() == if authenticates(
                                    old(state).players(),
                                    player,
                                    d,
                                ) {
                                    old(state).players().insert(
                                        player,
                                        PlayerState { socket_addr: Some(src), ..pl },
                                    )
                                } else {
                                    old(state).players()
                                }
                            },
                        }
                    }
            },
        },
{
    if data.len() < 17 || data[0] != MAGIC_BYTE {
        return UdpEvent::Ignored;
    }
    let player = get_be(data, 1, 16);
    let pl = match state.get_player_sync(&player) {
        Some(p) => p,
        None => {
            return UdpEvent::Ignored;
        },
    };
    let ghost before = *state;
    let passed = state.allow_packet(player);
    let ghost buckets_after = state.limiter().buckets();
    proof {
        let now = choose|t: u64|
            (buckets_after, passed) == #[trigger] allow_outcome(
                before.limiter().max_packets_per_second(),
                before.limiter().threshold(),
                before.limiter().window_ns(),
                before.limiter().buckets(),
                player,
                t,
            );
        assert((buckets_after, passed) == allow_outcome(
            before.limiter().max_packets_per_second(),
            before.limiter().threshold(),
            before.limiter().window_ns(),
            before.limiter().buckets(),
            player,
            now,
        ));
    }
    let payload = match get_byte_array(data, 17) {
        Some((b, _)) => b,
        None => Vec::new(),
    };
    proof {
        assert(rest(data@, 17) =~= data@.skip(17));
    }
    if !passed || (payload.len() == 0 && data.len() > 17) {
        return UdpEvent::Ignored;
    }
    let r = handle_payload(state, player, pl, payload.as_slice(), src, allow_pings);
    r
}

/// The encrypted payload of a known player's datagram that passed the rate
/// limit: decrypted with the player's secret, and handled by its type.
fn handle_payload(
    state: &mut StateManager,
    player: u128,
    pl: PlayerState,
    payload: &[u8],
    src: PeerAddress,
    allow_pings: bool,
) -> (r: UdpEvent)
    requires
        old(state).players().contains_key(player),
        old(state).players()[player] == pl,
    ensures
        final(state).groups() == old(state).groups(),
        final(state).categories() == old(state).categories(),
        final(state).limiter() == old(state).limiter(),
        match opened_under(pl.secret.key(), payload@) {
            None => r == UdpEvent::Undecryptable { player, payload_len: payload@.len() as usize }
                && final(state).players() == old(state).players(),
            Some(d) => {
                &&& packet_effect(old(state).players(), player, d, src, allow_pings, r)
                &&& final(state).players() == if authenticates(old(state).players(), player, d) {
                    old(state).players().insert(player, PlayerState { socket_addr: Some(src), ..pl })
                } else {
                    old(state).players()
                }
            },
        },
{
    let d = match pl.secret.decrypt(payload) {
        Ok(d) => d,
        Err(_) => {
            return UdpEvent::Undecryptable { player, payload_len: payload.len() };
        },
    };
    if d.len() == 0 {
        return UdpEvent::Ignored;
    }
    let kind = d[0];
    let body = vstd::slice::slice_subrange(d.as_slice(), 1, d.len());
    assert(body@ =~= d@.skip(1));
    if kind == MIC_PACKET {
        match MicPacket::parse(body) {
            Some(packet) => UdpEvent::Mic { sender: pl, packet },
            None => UdpEvent::Ignored,
        }
    } else if kind == AUTHENTICATE_PACKET {
        match AuthenticatePacket::parse(body) {
            Some(auth) => {
                if auth.secret.uuid == pl.secret.uuid {
                    state.update_player_addr_sync(&player, src);
                    match seal_datagram(&pl.secret, &VoicePacket::AuthenticateAck) {
                        Ok(reply) => UdpEvent::Authenticated { player, reply },
                        Err(_) => UdpEvent::Ignored,
                    }
                } else {
                    UdpEvent::Ignored
                }
            },
            None => UdpEvent::Ignored,
        }
    } else if kind == PING_PACKET && allow_pings {
        match PingPacket::parse(body) {
            Some(ping) => {
                proof {
                    crate::wire::lemma_be_bytes_len(ping.id as nat, 16);
                    crate::wire::lemma_be_bytes_len(crate::wire::u_of_i64(ping.timestamp), 8);
                }
                let echo = VoicePacket::Ping(ping);
                match seal_datagram(&pl.secret, &echo) {
                    Ok(reply) => UdpEvent::Pong { player, reply },
                    Err(_) => UdpEvent::Ignored,
                }
            },
            None => UdpEvent::Ignored,
        }
    } else if kind == CONNECTION_CHECK_PACKET {
        match seal_datagram(&pl.secret, &VoicePacket::ConnectionCheckAck) {
            Ok(reply) => UdpEvent::ConnectionChecked { player, reply },
            Err(_) => UdpEvent::Ignored,
        }
    } else {
        UdpEvent::Ignored
    }
}


// ---------------------------------------------------------------------------
// Routing audio, keeping connections alive
// ---------------------------------------------------------------------------

/// Whether a player's audio is forwarded at all: the player is online,
/// may speak, and is not a spectator unless spectators may talk.
pub fn sender_may_speak(online: bool, can_speak: bool, spectator: bool, spectator_interaction: bool) -> (r: bool)
    ensures
        r == (online && can_speak && !(spectator && !spectator_interaction)),
{
    online && can_speak && !(spectator && !spectator_interaction)
}

/// What the game server says of a would-be listener, relative to the
/// speaker.
#[derive(Debug, Clone, Copy, PartialEq, Eq, Structural)]
pub struct ListenerFacts {
    /// The player is on the server.
    pub online: bool,
    /// The player may listen.
    pub can_listen: bool,
    /// The player is in the speaker's world.
    pub same_world: bool,
    /// The player is within the speaker's broadcast range.
    pub in_range: bool,
}

/// Whether `p` hears the audio of `sender`: not the sender, its endpoint
/// known, online and allowed to listen; then, when the sender is in a
/// group, a member of that group, and otherwise in the same world and in
/// range.
pub open spec fn hears(sender: PlayerState, p: PlayerState, f: ListenerFacts) -> bool {
    &&& p.uuid != sender.uuid
    &&& p.socket_addr is Some
    &&& f.online
    &&& f.can_listen
    &&& match sender.group {
        Some(g) => p.group == Some(g),
        None => f.same_world && f.in_range,
    }
}

/// The listeners among `players` (with `facts` about each), in order.
pub open spec fn listeners(
    sender: PlayerState,
    players: Seq<PlayerState>,
    facts: Seq<ListenerFacts>,
) -> Seq<PlayerState>
    decreases players.len(),
{
    if players.len() == 0 || facts.len() != players.len() {
        Seq::empty()
    } else {
        let before = listeners(sender, players.drop_last(), facts.drop_last());
        if hears(sender, players.last(), facts.last()) {
            before.push(players.last())
        } else {
            before
        }
    }
}

/// The packet that carries `mic` from `sender`: to its group, or, outside
/// groups, as the sound of a nearby player that carries
/// `distance_bits` far.
pub open spec fn sound_packet_bytes(sender: PlayerState, mic: MicPacket, distance_bits: u32) -> Seq<u8> {
    match sender.group {
        Some(g) => VoicePacket::GroupSound(
            GroupSoundPacket {
                channel_id: g,
                sender: sender.uuid,
                data: mic.data,
                sequence_number: mic.sequence_number,
                category: None,
            },
        ).spec_bytes(),
        None => VoicePacket::PlayerSound(
            PlayerSoundPacket {
                channel_id: sender.uuid,
                sender: sender.uuid,
                data: mic.data,
                sequence_number: mic.sequence_number,
                distance_bits,
                whispering: mic.whispering,
                category: None,
            },
        ).spec_bytes(),
    }
}

/// A datagram to send.
#[derive(Debug)]
pub struct Delivery {
    pub addr: PeerAddress,
    pub datagram: Vec<u8>,
}

fn clone_bytes(v: &Vec<u8>) -> (r: Vec<u8>)
    ensures
        r@ == v@,
{
    vstd::slice::slice_to_vec(v.as_slice())
}

/// The datagrams that carry `mic` from `sender` to every listener, each
/// encrypted under the listener's secret; `facts[i]` is about `players[i]`.
pub fn route_mic(
    sender: &PlayerState,
    mic: &MicPacket,
    players: &[PlayerState],
    facts: &[ListenerFacts],
    distance_bits: u32,
) -> (r: Vec<Delivery>)
    requires
        players@.len() == facts@.len(),
    ensures
        ({
            let ls = listeners(*sender, players@, facts@);
            let plain = sound_packet_bytes(*sender, *mic, distance_bits);
            if plain.len() <= AES_GCM_MAX_PLAINTEXT {
                &&& r@.len() == ls.len()
                &&& forall|i: int|
                    0 <= i < ls.len() ==> (#[trigger] r@[i]).addr == ls[i].socket_addr.unwrap() && frames_sealed(
                        ls[i].secret.key(),
                        plain,
                        r@[i].datagram@,
                    )
            } else {
                r@.len() == 0
            }
        }),
{
    let mut out: Vec<Delivery> = Vec::new();
    let mut i: usize = 0;
    let ghost plain = sound_packet_bytes(*sender, *mic, distance_bits);
    assert(players@.take(0) =~= Seq::<PlayerState>::empty());
    while i < players.len()
        invariant
            i <= players@.len(),
            players@.len() == facts@.len(),
            plain == sound_packet_bytes(*sender, *mic, distance_bits),
            ({
                let ls = listeners(*sender, players@.take(i as int), facts@.take(i as int));
                if plain.len() <= AES_GCM_MAX_PLAINTEXT {
                    &&& out@.len() == ls.len()
                    &&& forall|j: int|
                        0 <= j < ls.len() ==> (#[trigger] out@[j]).addr == ls[j].socket_addr.unwrap()
                            && frames_sealed(ls[j].secret.key(), plain, out@[j].datagram@)
                } else {
                    out@.len() == 0
                }
            }),
        decreases players@.len() - i,
    {
        let p = &players[i];
        let f = facts[i];
        let in_group = match sender.group {
            Some(g) => p.group == Some(g),
            None => f.same_world && f.in_range,
        };
        proof {
            let tp = players@.take(i + 1);
            let tf = facts@.take(i + 1);
            assert(tp.drop_last() =~= players@.take(i as int));
            assert(tf.drop_last() =~= facts@.take(i as int));
            assert(tp.last() == players@[i as int]);
            assert(tf.last() == facts@[i as int]);
        }
        let ghost before = out@;
        if p.uuid != sender.uuid && p.socket_addr.is_some() && f.online && f.can_listen && in_group {
            let packet = match sender.group {
                Some(g) => VoicePacket::GroupSound(
                    GroupSoundPacket {
                        channel_id: g,
                        sender: sender.uuid,
                        data: clone_bytes(&mic.data),
                        sequence_number: mic.sequence_number,
                        category: None,
                    },
                ),
                None => VoicePacket::PlayerSound(
                    PlayerSoundPacket {
                        channel_id: sender.uuid,
                        sender: sender.uuid,
                        data: clone_bytes(&mic.data),
                        sequence_number: mic.sequence_number,
                        distance_bits,
                        whispering: mic.whispering,
                        category: None,
                    },
                ),
            };
            assert(packet.spec_bytes() == plain);
            match seal_datagram(&p.secret, &packet) {
                Ok(datagram) => {
                    let addr = match p.socket_addr {
                        Some(a) => a,
                        None => {
                            return out;
                        },
                    };
                    out.push(Delivery { addr, datagram });
                },
                Err(_) => {},
            }
        }
        proof {
            let ls0 = listeners(*sender, players@.take(i as int), facts@.take(i as int));
            let ls = listeners(*sender, players@.take(i + 1), facts@.take(i + 1));
            if hears(*sender, players@[i as int], facts@[i as int]) {
                assert(ls == ls0.push(players@[i as int]));
                if plain.len() <= AES_GCM_MAX_PLAINTEXT {
                    assert forall|j: int| 0 <= j < ls.len() implies (#[trigger] out@[j]).addr
                        == ls[j].socket_addr.unwrap() && frames_sealed(
                        ls[j].secret.key(),
                        plain,
                        out@[j].datagram@,
                    ) by {
                        if j < ls0.len() {
                            assert(out@[j] == before[j]);
                        }
                    }
                }
            } else {
                assert(ls == ls0);
            }
        }
        i = i + 1;
    }
    assert(players@.take(players@.len() as int) =~= players@);
    assert(facts@.take(facts@.len() as int) =~= facts@);
    out
}

/// The keep-alive datagrams: one to each player whose endpoint is known,
/// encrypted under its secret.
pub fn keep_alive_datagrams(state: &StateManager) -> (r: Vec<Delivery>)
    ensures
        exists|targets: Seq<(PeerAddress, crate::secret::Secret)>|
            {
                &&& #[trigger] lists_keep_alive_targets(targets, state.players())
                &&& r@.len() == targets.len()
                &&& forall|i: int|
                    0 <= i < targets.len() ==> (#[trigger] r@[i]).addr == targets[i].0 && frames_sealed(
                        targets[i].1.key(),
                        VoicePacket::KeepAlive.spec_bytes(),
                        r@[i].datagram@,
                    )
            },
{
    let targets = state.get_keep_alive_targets_sync();
    let mut out: Vec<Delivery> = Vec::new();
    let mut i: usize = 0;
    while i < targets.len()
        invariant
            i <= targets@.len(),
            out@.len() == i,
            forall|j: int|
                0 <= j < i ==> (#[trigger] out@[j]).addr == targets@[j].0 && frames_sealed(
                    targets@[j].1.key(),
                    VoicePacket::KeepAlive.spec_bytes(),
                    out@[j].datagram@,
                ),
        decreases targets@.len() - i,
    {
        let (addr, secret) = targets[i];
        let keep_alive = VoicePacket::KeepAlive;
        assert(keep_alive.spec_bytes().len() == 1);
        let ghost before = out@;
        match seal_datagram(&secret, &keep_alive) {
            Ok(datagram) => {
                out.push(Delivery { addr, datagram });
            },
            Err(_) => {
                return out;
            },
        }
        proof {
            assert forall|j: int| 0 <= j < i + 1 implies (#[trigger] out@[j]).addr == targets@[j].0
                && frames_sealed(
                targets@[j].1.key(),
                VoicePacket::KeepAlive.spec_bytes(),
                out@[j].datagram@,
            ) by {
                if j < i {
                    assert(out@[j] == before[j]);
                }
            }
        }
        i = i + 1;
    }
    assert(lists_keep_alive_targets(targets@, state.players()));
    out
}


/// A client datagram — the magic byte, the player's UUID, and a non-empty
/// payload as a byte array — names that player and carries that payload.
pub proof fn lemma_client_datagram(player: u128, payload: Seq<u8>)
    requires
        0 < payload.len() < 0x8000_0000,
    ensures
        ({
            let d = crate::wire::enc_u8(MAGIC_BYTE) + crate::wire::enc_uuid(player)
                + crate::wire::enc_byte_array(payload);
            &&& datagram_player(d) == Some(player)
            &&& datagram_payload(d) == payload
            &&& !payload_dropped(d)
        }),
{
    let h = crate::wire::enc_uuid(player);
    let b = crate::wire::enc_byte_array(payload);
    let d = crate::wire::enc_u8(MAGIC_BYTE) + h + b;
    crate::wire::lemma_be_bytes_len(player as nat, 16);
    crate::wire::lemma_pow256_values();
    crate::wire::lemma_be_roundtrip(player as nat, 16);
    assert(d.subrange(1, 17) =~= h);
    assert(d.skip(17) =~= b + Seq::<u8>::empty());
    crate::wire::lemma_byte_array_roundtrip(payload, Seq::<u8>::empty());
}

/// Audio never goes back to its speaker, only to players whose endpoint is
/// known and who are among those given, and a group member's audio only to
/// members of that group.
pub proof fn lemma_listeners_sound(
    sender: PlayerState,
    players: Seq<PlayerState>,
    facts: Seq<ListenerFacts>,
)
    ensures
        forall|i: int|
            0 <= i < listeners(sender, players, facts).len() ==> {
                let l = #[trigger] listeners(sender, players, facts)[i];
                &&& l.uuid != sender.uuid
                &&& l.socket_addr is Some
                &&& players.contains(l)
                &&& (sender.group matches Some(g) ==> l.group == Some(g))
            },
    decreases players.len(),
{
    if players.len() > 0 && facts.len() == players.len() {
        let pd = players.drop_last();
        lemma_listeners_sound(sender, pd, facts.drop_last());
        let before = listeners(sender, pd, facts.drop_last());
        assert forall|i: int| 0 <= i < before.len() implies players.contains(
            #[trigger] before[i],
        ) by {
            let j = choose|j: int| 0 <= j < pd.len() && pd[j] == before[i];
            assert(players[j] == before[i]);
        }
        assert(players[players.len() - 1] == players.last());
    }
}

/// Every player who should hear the sender is among the listeners: any
/// other player with a known endpoint, online and allowed to listen, who is
/// in the sender's group when the sender is in one (whatever world it is
/// in and however far), and otherwise in the sender's world and in range.
pub proof fn lemma_listeners_complete(
    sender: PlayerState,
    players: Seq<PlayerState>,
    facts: Seq<ListenerFacts>,
    i: int,
)
    requires
        players.len() == facts.len(),
        0 <= i < players.len(),
        players[i].uuid != sender.uuid,
        players[i].socket_addr is Some,
        facts[i].online,
        facts[i].can_listen,
        match sender.group {
            Some(g) => players[i].group == Some(g),
            None => facts[i].same_world && facts[i].in_range,
        },
    ensures
        listeners(sender, players, facts).contains(players[i]),
    decreases players.len(),
{
    let pd = players.drop_last();
    let fd = facts.drop_last();
    let before = listeners(sender, pd, fd);
    if i == players.len() - 1 {
        let l = before.push(players[i]);
        assert(l[l.len() - 1] == players[i]);
    } else {
        lemma_listeners_complete(sender, pd, fd, i);
        let m = choose|m: int| 0 <= m < before.len() && before[m] == pd[i];
        if hears(sender, players.last(), facts.last()) {
            assert(before.push(players.last())[m] == before[m]);
        }
    }
}

/// Every listener is one of the players, online and allowed to listen,
/// and, when the sender is in no group, in the sender's world and in range.
pub proof fn lemma_listeners_only_hearers(
    sender: PlayerState,
    players: Seq<PlayerState>,
    facts: Seq<ListenerFacts>,
)
    ensures
        forall|k: int|
            0 <= k < listeners(sender, players, facts).len() ==> exists|j: int|
                {
                    &&& 0 <= j < players.len()
                    &&& j < facts.len()
                    &&& players[j] == #[trigger] listeners(sender, players, facts)[k]
                    &&& facts[j].online
                    &&& facts[j].can_listen
                    &&& (sender.group is None ==> facts[j].same_world && facts[j].in_range)
                },
    decreases players.len(),
{
    if players.len() > 0 && facts.len() == players.len() {
        let pd = players.drop_last();
        let fd = facts.drop_last();
        lemma_listeners_only_hearers(sender, pd, fd);
        let before = listeners(sender, pd, fd);
        let all = listeners(sender, players, facts);
        assert forall|k: int| 0 <= k < all.len() implies exists|j: int|
            {
                &&& 0 <= j < players.len()
                &&& j < facts.len()
                &&& players[j] == #[trigger] all[k]
                &&& facts[j].online
                &&& facts[j].can_listen
                &&& (sender.group is None ==> facts[j].same_world && facts[j].in_range)
            } by {
            if k < before.len() {
                assert(all[k] == before[k]);
                let j = choose|j: int|
                    {
                        &&& 0 <= j < pd.len()
                        &&& j < fd.len()
                        &&& pd[j] == #[trigger] before[k]
                        &&& fd[j].online
                        &&& fd[j].can_listen
                        &&& (sender.group is None ==> fd[j].same_world && fd[j].in_range)
                    };
                assert(players[j] == pd[j] && facts[j] == fd[j]);
            } else {
                let j = players.len() - 1;
                assert(players[j] == all[k]);
            }
        }
    }
}

} // verus!
