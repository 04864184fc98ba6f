//! The packets of the voice connection over UDP. A datagram from a client
//! is a magic byte, the player's UUID and the encrypted packet as a byte
//! array; a datagram to a client is the magic byte and the encrypted packet
//! as a byte array. An encrypted packet is a type byte followed by the
//! packet's fields.
use vstd::prelude::*;

use crate::packets::opt_chars;
use crate::secret::{sealed_under, Secret, SecretError};
use crate::wire::{
    be_bytes, enc_byte_array, enc_i64, enc_u8, enc_uuid, get_bool, get_byte_array,
    get_i64, get_uuid, put_be, put_byte_array, put_i64, put_string, put_u8, put_uuid,
    read_bool, read_byte_array, read_i64, read_uuid, rest,
};

verus! {

/// The first byte of every voice datagram.
pub const MAGIC_BYTE: u8 = 0xFF;

pub const MIC_PACKET: u8 = 0x1;
pub const PLAYER_SOUND_PACKET: u8 = 0x2;
pub const GROUP_SOUND_PACKET: u8 = 0x3;
pub const AUTHENTICATE_PACKET: u8 = 0x5;
pub const AUTHENTICATE_ACK_PACKET: u8 = 0x6;
pub const PING_PACKET: u8 = 0x7;
pub const KEEP_ALIVE_PACKET: u8 = 0x8;
pub const CONNECTION_CHECK_PACKET: u8 = 0x9;
pub const CONNECTION_CHECK_ACK_PACKET: u8 = 0xA;

/// Audio from a client's microphone.
#[derive(Debug)]
pub struct MicPacket {
    pub data: Vec<u8>,
    pub sequence_number: i64,
    pub whispering: bool,
}

/// A client proving it holds its secret.
#[derive(Debug)]
pub struct AuthenticatePacket {
    pub player_uuid: u128,
    pub secret: Secret,
}

/// A ping, echoed back as it came.
#[derive(Debug, Clone, Copy, PartialEq, Eq, Structural)]
pub struct PingPacket {
    pub id: u128,
    pub timestamp: i64,
}

/// Audio of a nearby player.
#[derive(Debug)]
pub struct PlayerSoundPacket {
    pub channel_id: u128,
    pub sender: u128,
    pub data: Vec<u8>,
    pub sequence_number: i64,
    /// The distance the audio carries, as the bits of an IEEE 754 float.
    pub distance_bits: u32,
    pub whispering: bool,
    pub category: Option<String>,
}

/// Audio of a group member.
#[derive(Debug)]
pub struct GroupSoundPacket {
    pub channel_id: u128,
    pub sender: u128,
    pub data: Vec<u8>,
    pub sequence_number: i64,
    pub category: Option<String>,
}

/// A packet the server sends over UDP.
#[derive(Debug)]
pub enum VoicePacket {
    PlayerSound(PlayerSoundPacket),
    GroupSound(GroupSoundPacket),
    AuthenticateAck,
    Ping(PingPacket),
    KeepAlive,
    ConnectionCheckAck,
}

/// The flags byte of a sound packet: bit 0 whispering, bit 1 a category
/// follows.
pub open spec fn sound_flags(whispering: bool, has_category: bool) -> u8 {
    ((if whispering {
        1u8
    } else {
        0u8
    }) + (if has_category {
        2u8
    } else {
        0u8
    })) as u8
}

/// A category name after the flags byte, when there is one.
pub open spec fn enc_category(c: Option<Seq<char>>) -> Seq<u8> {
    match c {
        Some(t) => crate::wire::enc_string(t),
        None => Seq::empty(),
    }
}

impl VoicePacket {
    /// The type byte and fields of the packet.
    pub open spec fn spec_bytes(&self) -> Seq<u8> {
        match self {
            VoicePacket::PlayerSound(p) => enc_u8(PLAYER_SOUND_PACKET) + enc_uuid(p.channel_id)
                + enc_uuid(p.sender) + enc_byte_array(p.data@) + enc_i64(p.sequence_number)
                + be_bytes(p.distance_bits as nat, 4) + enc_u8(
                sound_flags(p.whispering, p.category is Some),
            ) + enc_category(opt_chars(p.category)),
            VoicePacket::GroupSound(p) => enc_u8(GROUP_SOUND_PACKET) + enc_uuid(p.channel_id)
                + enc_uuid(p.sender) + enc_byte_array(p.data@) + enc_i64(p.sequence_number)
                + enc_u8(sound_flags(false, p.category is Some)) + enc_category(
                opt_chars(p.category),
            ),
            VoicePacket::AuthenticateAck => enc_u8(AUTHENTICATE_ACK_PACKET),
            VoicePacket::Ping(p) => enc_u8(PING_PACKET) + enc_uuid(p.id) + enc_i64(p.timestamp),
            VoicePacket::KeepAlive => enc_u8(KEEP_ALIVE_PACKET),
            VoicePacket::ConnectionCheckAck => enc_u8(CONNECTION_CHECK_ACK_PACKET),
        }
    }

    pub fn to_bytes(&self) -> (r: Vec<u8>)
        ensures
            r@ == self.spec_bytes(),
    {
        let mut buf: Vec<u8> = Vec::new();
        match self {
            VoicePacket::PlayerSound(p) => {
                put_u8(&mut buf, PLAYER_SOUND_PACKET);
                put_uuid(&mut buf, p.channel_id);
                put_uuid(&mut buf, p.sender);
                put_byte_array(&mut buf, p.data.as_slice());
                put_i64(&mut buf, p.sequence_number);
                put_be(&mut buf, p.distance_bits as u128, 4);
                put_category(&mut buf, p.whispering, &p.category);
            },
            VoicePacket::GroupSound(p) => {
                put_u8(&mut buf, GROUP_SOUND_PACKET);
                put_uuid(&mut buf, p.channel_id);
                put_uuid(&mut buf, p.sender);
                put_byte_array(&mut buf, p.data.as_slice());
                put_i64(&mut buf, p.sequence_number);
                put_category(&mut buf, false, &p.category);
            },
            VoicePacket::AuthenticateAck => {
                put_u8(&mut buf, AUTHENTICATE_ACK_PACKET);
            },
            VoicePacket::Ping(p) => {
                put_u8(&mut buf, PING_PACKET);
                put_uuid(&mut buf, p.id);
                put_i64(&mut buf, p.timestamp);
            },
            VoicePacket::KeepAlive => {
                put_u8(&mut buf, KEEP_ALIVE_PACKET);
            },
            VoicePacket::ConnectionCheckAck => {
                put_u8(&mut buf, CONNECTION_CHECK_ACK_PACKET);
            },
        }
        assert(buf@ =~= self.spec_bytes());
        buf
    }
}

fn put_category(out: &mut Vec<u8>, whispering: bool, category: &Option<String>)
    ensures
        final(out)@ == old(out)@ + enc_u8(sound_flags(whispering, category is Some)) + enc_category(
            opt_chars(*category),
        ),
{
    let w: u8 = if whispering {
        1
    } else {
        0
    };
    let c: u8 = if category.is_some() {
        2
    } else {
        0
    };
    put_u8(out, w + c);
    match category {
        Some(name) => {
            put_string(out, name.as_str());
        },
        None => {
            assert(out@ + enc_category(None) =~= out@);
        },
    }
}

/// What a microphone packet's fields say; bytes after them are ignored.
pub open spec fn read_mic(body: Seq<u8>) -> Option<(Seq<u8>, i64, bool)> {
    match read_byte_array(body) {
        Some((data, n)) => match read_i64(body.skip(n as int)) {
            Some((seq, m)) => match read_bool(body.skip((n + m) as int)) {
                Some((w, _)) => Some((data, seq, w)),
                None => None,
            },
            None => None,
        },
        None => None,
    }
}

/// What an authentication packet's fields say: the player and the secret.
pub open spec fn read_authenticate(body: Seq<u8>) -> Option<(u128, u128)> {
    match read_uuid(body) {
        Some((p, n)) => match read_uuid(body.skip(n as int)) {
            Some((s, _)) => Some((p, s)),
            None => None,
        },
        None => None,
    }
}

/// What a ping packet's fields say: its id and timestamp.
pub open spec fn read_ping(body: Seq<u8>) -> Option<(u128, i64)> {
    match read_uuid(body) {
        Some((id, n)) => match read_i64(body.skip(n as int)) {
            Some((t, _)) => Some((id, t)),
            None => None,
        },
        None => None,
    }
}

impl MicPacket {
    pub fn parse(body: &[u8]) -> (r: Option<MicPacket>)
        ensures
            match read_mic(body@) {
                Some((data, seq, w)) => r is Some && r.unwrap().data@ == data
                    && r.unwrap().sequence_number == seq && r.unwrap().whispering == w,
                None => r is None,
            },
    {
        assert(rest(body@, 0) =~= body@);
        match get_byte_array(body, 0) {
            None => None,
            Some((data, p)) => {
                assert(body@.skip(p as int) =~= rest(body@, p as int));
                match get_i64(body, p) {
                    None => None,
                    Some((sequence_number, q)) => {
                        assert(body@.skip(q as int) =~= rest(body@, q as int));
                        match get_bool(body, q) {
                            None => None,
                            Some((whispering, _)) => Some(
                                MicPacket { data, sequence_number, whispering },
                            ),
                        }
                    },
                }
            },
        }
    }
}

impl AuthenticatePacket {
    pub fn parse(body: &[u8]) -> (r: Option<AuthenticatePacket>)
        ensures
            match read_authenticate(body@) {
                Some((p, s)) => r is Some && r.unwrap().player_uuid == p && r.unwrap().secret.uuid
                    == s,
                None => r is None,
            },
    {
        assert(rest(body@, 0) =~= body@);
        match get_uuid(body, 0) {
            None => None,
            Some((player_uuid, p)) => {
                assert(body@.skip(p as int) =~= rest(body@, p as int));
                match get_uuid(body, p) {
                    None => None,
                    Some((s, _)) => Some(AuthenticatePacket { player_uuid, secret: Secret { uuid: s } }),
                }
            },
        }
    }
}

impl PingPacket {
    pub fn parse(body: &[u8]) -> (r: Option<PingPacket>)
        ensures
            match read_ping(body@) {
                Some((id, t)) => r == Some(PingPacket { id, timestamp: t }),
                None => r is None,
            },
    {
        assert(rest(body@, 0) =~= body@);
        match get_uuid(body, 0) {
            None => None,
            Some((id, p)) => {
                assert(body@.skip(p as int) =~= rest(body@, p as int));
                match get_i64(body, p) {
                    None => None,
                    Some((timestamp, _)) => Some(PingPacket { id, timestamp }),
                }
            },
        }
    }
}

/// `dgram` is a datagram to a client carrying `plain` encrypted under `key`.
pub open spec fn frames_sealed(key: Seq<u8>, plain: Seq<u8>, dgram: Seq<u8>) -> bool {
    exists|payload: Seq<u8>|
        #[trigger] sealed_under(key, plain, payload) && dgram == enc_u8(MAGIC_BYTE) + enc_byte_array(
            payload,
        )
}

/// Encrypts a packet under a player's secret and frames it as a datagram to
/// the client.
pub fn seal_datagram(secret: &Secret, packet: &VoicePacket) -> (r: Result<Vec<u8>, SecretError>)
    ensures
        r is Ok <==> packet.spec_bytes().len() <= crate::secret::AES_GCM_MAX_PLAINTEXT,
        r matches Ok(d) ==> frames_sealed(secret.key(), packet.spec_bytes(), d@),
{
    let plain = packet.to_bytes();
    match secret.encrypt(plain.as_slice()) {
        Ok(payload) => {
            let mut out: Vec<u8> = Vec::new();
            put_u8(&mut out, MAGIC_BYTE);
            put_byte_array(&mut out, payload.as_slice());
            proof {
                assert(sealed_under(secret.key(), packet.spec_bytes(), payload@));
            }
            Ok(out)
        },
        Err(e) => Err(e),
    }
}


/// A datagram the server seals for a client opens, with the same secret,
/// to the packet it carries: after the magic byte comes a byte array whose
/// decryption is the packet.
pub proof fn lemma_client_opens_datagram(key: Seq<u8>, plain: Seq<u8>, dgram: Seq<u8>)
    requires
        frames_sealed(key, plain, dgram),
        plain.len() < 0x8000_0000 - 28,
    ensures
        dgram[0] == MAGIC_BYTE,
        exists|payload: Seq<u8>|
            #[trigger] crate::secret::opened_under(key, payload) == Some(plain) && read_byte_array(
                dgram.skip(1),
            ) == Some((payload, (dgram.len() - 1) as nat)),
{
    let payload = choose|payload: Seq<u8>|
        #[trigger] sealed_under(key, plain, payload) && dgram == enc_u8(MAGIC_BYTE) + enc_byte_array(
            payload,
        );
    crate::secret::lemma_decrypt_encrypt(key, plain, payload);
    assert(dgram.skip(1) =~= enc_byte_array(payload) + Seq::<u8>::empty());
    crate::wire::lemma_byte_array_roundtrip(payload, Seq::<u8>::empty());
}

} // verus!
