//! What the server does when a player joins, leaves, or sends a voice-chat
//! request over the game connection: the change of state and the plugin
//! messages to send, which the caller delivers.
use vstd::prelude::*;

use crate::config::str_eq;
use crate::packets::{
    enc_opt_uuid, enc_player_state, opt_chars, read_create_group, read_join_group,
    read_update_state, AddCategoryPacket, AddGroupPacket, CreateGroupPacket, JoinGroupPacket,
    JoinedGroupPacket, PlayerStatePacket, PlayerStatesPacket, RemoveGroupPacket, SecretPacket,
    VolumeCategory,
};
use crate::secret::{random_uuid, Secret};
use crate::state::{has_members, lists_values, Group, PlayerState, StateManager};
use crate::wire::{enc_bool, enc_uuid};

verus! {

/// The plugin-message channels the server writes to.
#[derive(Debug, Clone, Copy, PartialEq, Eq, Structural)]
pub enum PayloadChannel {
    Secret,
    State,
    States,
    JoinedGroup,
    AddGroup,
    RemoveGroup,
    AddCategory,
}

/// The name of a channel on the wire.
pub fn channel_name(c: PayloadChannel) -> (r: &'static str)
    ensures
        r@ == spec_channel_name(c),
{
    match c {
        PayloadChannel::Secret => "voicechat:secret",
        PayloadChannel::State => "voicechat:state",
        PayloadChannel::States => "voicechat:states",
        PayloadChannel::JoinedGroup => "voicechat:joined_group",
        PayloadChannel::AddGroup => "voicechat:add_group",
        PayloadChannel::RemoveGroup => "voicechat:remove_group",
        PayloadChannel::AddCategory => "voicechat:add_category",
    }
}

pub open spec fn spec_channel_name(c: PayloadChannel) -> Seq<char> {
    match c {
        PayloadChannel::Secret => "voicechat:secret"@,
        PayloadChannel::State => "voicechat:state"@,
        PayloadChannel::States => "voicechat:states"@,
        PayloadChannel::JoinedGroup => "voicechat:joined_group"@,
        PayloadChannel::AddGroup => "voicechat:add_group"@,
        PayloadChannel::RemoveGroup => "voicechat:remove_group"@,
        PayloadChannel::AddCategory => "voicechat:add_category"@,
    }
}

/// A player on the server, as the handlers see it: whether plugin
/// messages can be sent to it (a Java-edition client).
#[derive(Debug, Clone, Copy, PartialEq, Eq, Structural)]
pub struct OnlinePlayer {
    pub uuid: u128,
    pub java: bool,
}

/// A plugin message to send to one player.
#[derive(Debug)]
pub struct OutgoingPayload {
    pub target: u128,
    pub channel: PayloadChannel,
    pub data: Vec<u8>,
}

/// A message as the contracts speak of it: target, channel, bytes.
pub type Msg = (u128, PayloadChannel, Seq<u8>);

impl View for OutgoingPayload {
    type V = Msg;

    open spec fn view(&self) -> Msg {
        (self.target, self.channel, self.data@)
    }
}

/// The messages of a list, as the contracts speak of them.
pub open spec fn msgs(v: Seq<OutgoingPayload>) -> Seq<Msg> {
    v.map_values(|o: OutgoingPayload| o@)
}

/// One message to each player of `clients`, in their order, but `skip` and,
/// when `java_only`, players that cannot receive plugin messages.
pub open spec fn broadcast(
    clients: Seq<OnlinePlayer>,
    skip: Option<u128>,
    java_only: bool,
    ch: PayloadChannel,
    data: Seq<u8>,
) -> Seq<Msg>
    decreases clients.len(),
{
    if clients.len() == 0 {
        Seq::empty()
    } else {
        let before = broadcast(clients.drop_last(), skip, java_only, ch, data);
        let c = clients.last();
        if skip != Some(c.uuid) && (!java_only || c.java) {
            before.push((c.uuid, ch, data))
        } else {
            before
        }
    }
}

/// A message to the requesting player, when it can receive plugin messages.
pub open spec fn reply(player: u128, java: bool, ch: PayloadChannel, data: Seq<u8>) -> Seq<Msg> {
    if java {
        seq![(player, ch, data)]
    } else {
        Seq::empty()
    }
}

proof fn lemma_msgs_push(v: Seq<OutgoingPayload>, o: OutgoingPayload)
    ensures
        msgs(v.push(o)) == msgs(v).push(o@),
{
    assert(msgs(v.push(o)) =~= msgs(v).push(o@));
}

fn send(out: &mut Vec<OutgoingPayload>, target: u128, channel: PayloadChannel, data: Vec<u8>)
    ensures
        msgs(final(out)@) == msgs(old(out)@).push((target, channel, data@)),
{
    let o = OutgoingPayload { target, channel, data };
    proof {
        lemma_msgs_push(out@, o);
    }
    out.push(o);
}

fn send_reply(
    out: &mut Vec<OutgoingPayload>,
    player: u128,
    java: bool,
    channel: PayloadChannel,
    data: Vec<u8>,
)
    ensures
        msgs(final(out)@) == msgs(old(out)@) + reply(player, java, channel, data@),
{
    if java {
        send(out, player, channel, data);
        assert(msgs(old(out)@).push((player, channel, data@)) =~= msgs(old(out)@) + reply(
            player,
            java,
            channel,
            data@,
        ));
    } else {
        assert(msgs(old(out)@) + reply(player, java, channel, data@) =~= msgs(old(out)@));
    }
}

fn send_broadcast(
    out: &mut Vec<OutgoingPayload>,
    clients: &[OnlinePlayer],
    skip: Option<u128>,
    java_only: bool,
    channel: PayloadChannel,
    data: &Vec<u8>,
)
    ensures
        msgs(final(out)@) == msgs(old(out)@) + broadcast(clients@, skip, java_only, channel, data@),
{
    let mut i: usize = 0;
    assert(clients@.take(0) =~= Seq::<OnlinePlayer>::empty());
    assert(msgs(old(out)@) + broadcast(Seq::empty(), skip, java_only, channel, data@) =~= msgs(
        old(out)@,
    ));
    while i < clients.len()
        invariant
            i <= clients@.len(),
            msgs(out@) == msgs(old(out)@) + broadcast(
                clients@.take(i as int),
                skip,
                java_only,
                channel,
                data@,
            ),
        decreases clients@.len() - i,
    {
        let c = clients[i];
        let ghost prev = msgs(out@);
        if skip != Some(c.uuid) && (!java_only || c.java) {
            send(out, c.uuid, channel, data.clone());
        }
        proof {
            let t = clients@.take(i + 1);
            assert(t.drop_last() =~= clients@.take(i as int));
            assert(t.last() == c);
            if skip != Some(c.uuid) && (!java_only || c.java) {
                assert(msgs(out@) =~= msgs(old(out)@) + broadcast(
                    t,
                    skip,
                    java_only,
                    channel,
                    data@,
                ));
            }
        }
        i = i + 1;
    }
    assert(clients@.take(clients@.len() as int) =~= clients@);
}

/// The messages that tell the other (Java) players a player's state: none
/// when the player is unknown.
pub open spec fn state_broadcast(
    players: Map<u128, PlayerState>,
    player: u128,
    clients: Seq<OnlinePlayer>,
    java_only: bool,
) -> Seq<Msg> {
    if players.contains_key(player) {
        broadcast(
            clients,
            Some(player),
            java_only,
            PayloadChannel::State,
            enc_player_state(players[player]),
        )
    } else {
        Seq::empty()
    }
}

fn send_state_broadcast(
    out: &mut Vec<OutgoingPayload>,
    state: &StateManager,
    player: u128,
    clients: &[OnlinePlayer],
    java_only: bool,
)
    ensures
        msgs(final(out)@) == msgs(old(out)@) + state_broadcast(
            state.players(),
            player,
            clients@,
            java_only,
        ),
{
    match state.get_player_sync(&player) {
        Some(st) => {
            let packet = PlayerStatePacket { player_state: &st };
            let bytes = packet.to_bytes();
            send_broadcast(out, clients, Some(player), java_only, PayloadChannel::State, &bytes);
        },
        None => {
            assert(msgs(old(out)@) + state_broadcast(state.players(), player, clients@, java_only)
                =~= msgs(old(out)@));
        },
    }
}

/// The players with a player's group set to `group` (unknown players are
/// left alone).
pub open spec fn with_group(players: Map<u128, PlayerState>, player: u128, group: Option<u128>) -> Map<
    u128,
    PlayerState,
> {
    if players.contains_key(player) {
        players.insert(player, PlayerState { group, ..players[player] })
    } else {
        players
    }
}

/// The group a player is in, if the player is known and in one.
pub open spec fn group_of(players: Map<u128, PlayerState>, player: u128) -> Option<u128> {
    if players.contains_key(player) {
        players[player].group
    } else {
        None
    }
}

/// Whether a group would be removed as empty: it has no members, exists,
/// and is not persistent.
pub open spec fn removable(
    players: Map<u128, PlayerState>,
    groups: Map<u128, Group>,
    g: u128,
) -> bool {
    !has_members(players, g) && groups.contains_key(g) && !groups[g].persistent
}

/// After a player left `old_group`: the groups without it if it became
/// removable, and the messages that withdraw it from every Java player.
pub open spec fn cleanup(
    players: Map<u128, PlayerState>,
    groups: Map<u128, Group>,
    old_group: Option<u128>,
    clients: Seq<OnlinePlayer>,
) -> (Map<u128, Group>, Seq<Msg>) {
    match old_group {
        Some(o) => if removable(players, groups, o) {
            (groups.remove(o), broadcast(clients, None, true, PayloadChannel::RemoveGroup, enc_uuid(o)))
        } else {
            (groups, Seq::empty())
        },
        None => (groups, Seq::empty()),
    }
}

fn cleanup_old_group(
    out: &mut Vec<OutgoingPayload>,
    state: &mut StateManager,
    old_group: Option<u128>,
    clients: &[OnlinePlayer],
)
    ensures
        ({
            let (groups, sent) = cleanup(
                old(state).players(),
                old(state).groups(),
                old_group,
                clients@,
            );
            &&& final(state).groups() == groups
            &&& msgs(final(out)@) == msgs(old(out)@) + sent
        }),
        final(state).players() == old(state).players(),
        final(state).categories() == old(state).categories(),
        final(state).limiter() == old(state).limiter(),
{
    if let Some(old_id) = old_group {
        if state.remove_if_empty_sync(&old_id) {
            let packet = RemoveGroupPacket { group: old_id };
            let bytes = packet.to_bytes();
            send_broadcast(out, clients, None, true, PayloadChannel::RemoveGroup, &bytes);
            return ;
        }
    }
    assert(msgs(old(out)@) + Seq::<Msg>::empty() =~= msgs(old(out)@));
}


// ---------------------------------------------------------------------------
// Requests over plugin messages
// ---------------------------------------------------------------------------

/// The players after a state update: a known player is marked connected,
/// with voice chat disabled as requested.
pub open spec fn with_flags(
    players: Map<u128, PlayerState>,
    player: u128,
    disconnected: bool,
    disabled: bool,
) -> Map<u128, PlayerState> {
    if players.contains_key(player) {
        players.insert(player, PlayerState { disconnected, disabled, ..players[player] })
    } else {
        players
    }
}

/// The bytes that tell a player the group it joined, or that the password
/// was wrong.
pub open spec fn joined_bytes(group: Option<u128>, wrong_password: bool) -> Seq<u8> {
    enc_opt_uuid(group) + enc_bool(wrong_password)
}

/// What a join request does to the players and groups, and the messages it
/// sends. An unreadable request, or one for an unknown group, does nothing.
pub open spec fn set_group_effect(
    players: Map<u128, PlayerState>,
    groups: Map<u128, Group>,
    player: u128,
    java: bool,
    clients: Seq<OnlinePlayer>,
    data: Seq<u8>,
) -> (Map<u128, PlayerState>, Map<u128, Group>, Seq<Msg>) {
    match read_join_group(data) {
        None => (players, groups, Seq::empty()),
        Some((g, pw)) => join_group_effect(players, groups, player, java, clients, g, pw),
    }
}

/// What a request of `player` to join group `g` with password `pw` does to
/// the players and groups, and the messages it sends: nothing for an
/// unknown group; with the group's password, the player joins it and leaves
/// its old one; with another password, the player is told so.
pub open spec fn join_group_effect(
    players: Map<u128, PlayerState>,
    groups: Map<u128, Group>,
    player: u128,
    java: bool,
    clients: Seq<OnlinePlayer>,
    g: u128,
    pw: Option<Seq<char>>,
) -> (Map<u128, PlayerState>, Map<u128, Group>, Seq<Msg>) {
    if !groups.contains_key(g) {
        (players, groups, Seq::empty())
    } else if opt_chars(groups[g].password) == pw {
        let old_group = group_of(players, player);
        let id = groups[g].id;
        let p1 = with_group(players, player, Some(id));
        let joined = reply(player, java, PayloadChannel::JoinedGroup, joined_bytes(Some(id), false));
        let (g1, removed) = cleanup(p1, groups, old_group, clients);
        (p1, g1, joined + removed + state_broadcast(p1, player, clients, true))
    } else {
        (
            players,
            groups,
            reply(player, java, PayloadChannel::JoinedGroup, joined_bytes(None, true)),
        )
    }
}

/// What leaving a group does to the players and groups, and the messages
/// it sends.
pub open spec fn leave_group_effect(
    players: Map<u128, PlayerState>,
    groups: Map<u128, Group>,
    player: u128,
    java: bool,
    clients: Seq<OnlinePlayer>,
) -> (Map<u128, PlayerState>, Map<u128, Group>, Seq<Msg>) {
    let old_group = group_of(players, player);
    let p1 = with_group(players, player, None);
    let joined = reply(player, java, PayloadChannel::JoinedGroup, joined_bytes(None, false));
    let (g1, removed) = cleanup(p1, groups, old_group, clients);
    (p1, g1, joined + removed + state_broadcast(p1, player, clients, true))
}

/// The announcement of a newly created group to every Java player.
pub open spec fn add_group_bytes(
    id: u128,
    name: Seq<char>,
    has_password: bool,
    persistent: bool,
    group_type: i16,
) -> Seq<u8> {
    enc_uuid(id) + crate::wire::enc_string(name) + enc_bool(has_password) + enc_bool(persistent)
        + enc_bool(false) + crate::wire::enc_i16(group_type)
}

fn opt_string_eq(a: &Option<String>, b: &Option<String>) -> (r: bool)
    ensures
        r == (opt_chars(*a) == opt_chars(*b)),
{
    match (a, b) {
        (Some(x), Some(y)) => *x == *y,
        (None, None) => true,
        _ => false,
    }
}

/// A state update: the player is marked connected and voice chat disabled
/// or enabled as requested; the other Java players learn the new state.
pub fn handle_update_state(
    state: &mut StateManager,
    player: u128,
    data: &[u8],
    clients: &[OnlinePlayer],
) -> (r: Vec<OutgoingPayload>)
    ensures
        old(state).wf() ==> final(state).wf(),
        match read_update_state(data@) {
            Some(disabled) => {
                let p1 = with_flags(old(state).players(), player, false, disabled);
                &&& final(state).players() == p1
                &&& msgs(r@) == state_broadcast(p1, player, clients@, true)
            },
            None => final(state).players() == old(state).players() && r@.len() == 0,
        },
        final(state).groups() == old(state).groups(),
        final(state).categories() == old(state).categories(),
        final(state).limiter() == old(state).limiter(),
{
    let mut out: Vec<OutgoingPayload> = Vec::new();
    if let Some(disabled) = crate::packets::parse_update_state(data) {
        state.update_state_sync(&player, false, disabled);
        send_state_broadcast(&mut out, state, player, clients, true);
        assert(msgs(out@) =~= state_broadcast(state.players(), player, clients@, true));
    }
    out
}

/// A request of `player` to join group `group` with `password` (see
/// `join_group_effect`).
pub fn handle_join_group(
    state: &mut StateManager,
    player: u128,
    player_java: bool,
    group: u128,
    password: &Option<String>,
    clients: &[OnlinePlayer],
) -> (r: Vec<OutgoingPayload>)
    ensures
        old(state).wf() ==> final(state).wf(),
        (final(state).players(), final(state).groups(), msgs(r@)) == join_group_effect(
            old(state).players(),
            old(state).groups(),
            player,
            player_java,
            clients@,
            group,
            opt_chars(*password),
        ),
        final(state).categories() == old(state).categories(),
        final(state).limiter() == old(state).limiter(),
{
    let mut out: Vec<OutgoingPayload> = Vec::new();
    let ghost empty = msgs(out@);
    assert(empty =~= Seq::<Msg>::empty());
    let group = match state.get_group_sync(&group) {
        Some(g) => g,
        None => {
            return out;
        },
    };
    if opt_string_eq(&group.password, password) {
        let old_group = match state.get_player_sync(&player) {
            Some(p) => p.group,
            None => None,
        };
        state.set_player_group_sync(&player, Some(group.id));
        let joined = JoinedGroupPacket { group: Some(group.id), wrong_password: false };
        send_reply(&mut out, player, player_java, PayloadChannel::JoinedGroup, joined.to_bytes());
        cleanup_old_group(&mut out, state, old_group, clients);
        send_state_broadcast(&mut out, state, player, clients, true);
    } else {
        let joined = JoinedGroupPacket { group: None, wrong_password: true };
        send_reply(&mut out, player, player_java, PayloadChannel::JoinedGroup, joined.to_bytes());
    }
    out
}

/// The command of `player` to join the group named `name` with
/// `password`: `None`, changing nothing, when no group has that name;
/// otherwise a group of that name is joined as `handle_join_group` joins it.
pub fn handle_join_by_name(
    state: &mut StateManager,
    player: u128,
    player_java: bool,
    name: &str,
    password: &Option<String>,
    clients: &[OnlinePlayer],
) -> (r: Option<Vec<OutgoingPayload>>)
    ensures
        old(state).wf() ==> final(state).wf(),
        final(state).categories() == old(state).categories(),
        final(state).limiter() == old(state).limiter(),
        match r {
            None => {
                &&& forall|k: u128| #[trigger]
                    old(state).groups().contains_key(k) ==> old(state).groups()[k].name@ != name@
                &&& final(state).players() == old(state).players()
                &&& final(state).groups() == old(state).groups()
            },
            Some(out) => exists|k: u128|
                {
                    &&& #[trigger] old(state).groups().contains_key(k)
                    &&& old(state).groups()[k].name@ == name@
                    &&& (final(state).players(), final(state).groups(), msgs(out@))
                        == join_group_effect(
                        old(state).players(),
                        old(state).groups(),
                        player,
                        player_java,
                        clients@,
                        old(state).groups()[k].id,
                        opt_chars(*password),
                    )
                },
        },
{
    match state.get_group_by_name_sync(name) {
        None => None,
        Some(g) => Some(handle_join_group(state, player, player_java, g.id, password, clients)),
    }
}

/// A request to join a group: with the group's password the player moves
/// into it (its former group is removed if that left it empty), otherwise
/// it is told the password was wrong.
pub fn handle_set_group(
    state: &mut StateManager,
    player: u128,
    player_java: bool,
    data: &[u8],
    clients: &[OnlinePlayer],
) -> (r: Vec<OutgoingPayload>)
    ensures
        old(state).wf() ==> final(state).wf(),
        (final(state).players(), final(state).groups(), msgs(r@)) == set_group_effect(
            old(state).players(),
            old(state).groups(),
            player,
            player_java,
            clients@,
            data@,
        ),
        final(state).categories() == old(state).categories(),
        final(state).limiter() == old(state).limiter(),
{
    let request = match JoinGroupPacket::parse(data) {
        Some(p) => p,
        None => {
            let out: Vec<OutgoingPayload> = Vec::new();
            assert(msgs(out@) =~= Seq::<Msg>::empty());
            return out;
        },
    };
    handle_join_group(state, player, player_java, request.group, &request.password, clients)
}

/// A request to create a group, which gets the id `new_id`: the group is
/// added (neither persistent nor hidden) and announced to every Java
/// player, and the requesting player moves into it.
pub fn handle_create_group(
    state: &mut StateManager,
    player: u128,
    player_java: bool,
    data: &[u8],
    clients: &[OnlinePlayer],
    new_id: u128,
) -> (r: Vec<OutgoingPayload>)
    ensures
        old(state).wf() ==> final(state).wf(),
        match read_create_group(data@) {
            Some((name, pw, group_type)) => {
                let g = final(state).groups()[new_id];
                let p1 = with_group(old(state).players(), player, Some(new_id));
                &&& final(state).groups() == old(state).groups().insert(new_id, g)
                &&& g.id == new_id && g.name@ == name && opt_chars(g.password) == pw
                &&& !g.persistent && !g.hidden && g.group_type == group_type as i32
                &&& final(state).players() == p1
                &&& msgs(r@) == broadcast(
                    clients@,
                    None,
                    true,
                    PayloadChannel::AddGroup,
                    add_group_bytes(new_id, name, pw is Some, false, group_type),
                ) + reply(
                    player,
                    player_java,
                    PayloadChannel::JoinedGroup,
                    joined_bytes(Some(new_id), false),
                ) + state_broadcast(p1, player, clients@, true)
            },
            None => {
                &&& final(state).players() == old(state).players()
                &&& final(state).groups() == old(state).groups()
                &&& r@.len() == 0
            },
        },
        final(state).categories() == old(state).categories(),
        final(state).limiter() == old(state).limiter(),
{
    let mut out: Vec<OutgoingPayload> = Vec::new();
    assert(msgs(out@) =~= Seq::<Msg>::empty());
    let request = match CreateGroupPacket::parse(data) {
        Some(p) => p,
        None => {
            return out;
        },
    };
    let has_password = request.password.is_some();
    let group_type = request.group_type;
    let new_group = Group {
        id: new_id,
        name: request.name,
        password: request.password,
        persistent: false,
        hidden: false,
        group_type: group_type as i32,
    };
    let announce = AddGroupPacket {
        id: new_id,
        name: new_group.name.as_str(),
        password: has_password,
        persistent: false,
        hidden: false,
        group_type,
    };
    let announce_bytes = announce.to_bytes();
    state.add_group_sync(new_group);
    state.set_player_group_sync(&player, Some(new_id));
    send_broadcast(&mut out, clients, None, true, PayloadChannel::AddGroup, &announce_bytes);
    let joined = JoinedGroupPacket { group: Some(new_id), wrong_password: false };
    send_reply(&mut out, player, player_java, PayloadChannel::JoinedGroup, joined.to_bytes());
    send_state_broadcast(&mut out, state, player, clients, true);
    out
}

/// Leaving one's group: the player is in no group afterwards, and its
/// former group is removed if that left it empty.
pub fn handle_leave_group(
    state: &mut StateManager,
    player: u128,
    player_java: bool,
    clients: &[OnlinePlayer],
) -> (r: Vec<OutgoingPayload>)
    ensures
        old(state).wf() ==> final(state).wf(),
        (final(state).players(), final(state).groups(), msgs(r@)) == leave_group_effect(
            old(state).players(),
            old(state).groups(),
            player,
            player_java,
            clients@,
        ),
        final(state).categories() == old(state).categories(),
        final(state).limiter() == old(state).limiter(),
{
    let mut out: Vec<OutgoingPayload> = Vec::new();
    assert(msgs(out@) =~= Seq::<Msg>::empty());
    let old_group = match state.get_player_sync(&player) {
        Some(p) => p.group,
        None => None,
    };
    state.set_player_group_sync(&player, None);
    let joined = JoinedGroupPacket { group: None, wrong_password: false };
    send_reply(&mut out, player, player_java, PayloadChannel::JoinedGroup, joined.to_bytes());
    cleanup_old_group(&mut out, state, old_group, clients);
    send_state_broadcast(&mut out, state, player, clients, true);
    out
}


/// The plugin-message requests the server answers.
pub open spec fn is_request_channel(channel: Seq<char>) -> bool {
    channel == "voicechat:update_state"@ || channel == "voicechat:set_group"@ || channel
        == "voicechat:create_group"@ || channel == "voicechat:leave_group"@
}

/// A plugin message from `player` on `channel`: state updates, joining,
/// creating (only when groups are enabled) and leaving groups; messages on
/// other channels are ignored. A created group gets a fresh random id.
pub fn handle_custom_payload(
    state: &mut StateManager,
    player: u128,
    player_java: bool,
    channel: &str,
    data: &[u8],
    clients: &[OnlinePlayer],
    groups_enabled: bool,
) -> (r: Vec<OutgoingPayload>)
    ensures
        old(state).wf() ==> final(state).wf(),
        final(state).categories() == old(state).categories(),
        final(state).limiter() == old(state).limiter(),
        channel@ == "voicechat:update_state"@ ==> match read_update_state(data@) {
            Some(disabled) => {
                let p1 = with_flags(old(state).players(), player, false, disabled);
                &&& final(state).players() == p1
                &&& final(state).groups() == old(state).groups()
                &&& msgs(r@) == state_broadcast(p1, player, clients@, true)
            },
            None => final(state).players() == old(state).players() && final(state).groups()
                == old(state).groups() && r@.len() == 0,
        },
        channel@ == "voicechat:set_group"@ ==> (
        final(state).players(),
        final(state).groups(),
        msgs(r@),
        ) == set_group_effect(
            old(state).players(),
            old(state).groups(),
            player,
            player_java,
            clients@,
            data@,
        ),
        channel@ == "voicechat:create_group"@ && groups_enabled ==> match read_create_group(
            data@,
        ) {
            Some((name, pw, group_type)) => exists|new_id: u128|
                {
                    let g = #[trigger] final(state).groups()[new_id];
                    let p1 = with_group(old(state).players(), player, Some(new_id));
                    &&& final(state).groups() == old(state).groups().insert(new_id, g)
                    &&& g.id == new_id && g.name@ == name && opt_chars(g.password) == pw
                    &&& !g.persistent && !g.hidden && g.group_type == group_type as i32
                    &&& final(state).players() == p1
                    &&& msgs(r@) == broadcast(
                        clients@,
                        None,
                        true,
                        PayloadChannel::AddGroup,
                        add_group_bytes(new_id, name, pw is Some, false, group_type),
                    ) + reply(
                        player,
                        player_java,
                        PayloadChannel::JoinedGroup,
                        joined_bytes(Some(new_id), false),
                    ) + state_broadcast(p1, player, clients@, true)
                },
            None => final(state).players() == old(state).players() && final(state).groups()
                == old(state).groups() && r@.len() == 0,
        },
        channel@ == "voicechat:leave_group"@ ==> (
        final(state).players(),
        final(state).groups(),
        msgs(r@),
        ) == leave_group_effect(
            old(state).players(),
            old(state).groups(),
            player,
            player_java,
            clients@,
        ),
        (!is_request_channel(channel@) || (channel@ == "voicechat:create_group"@
            && !groups_enabled)) ==> {
            &&& final(state).players() == old(state).players()
            &&& final(state).groups() == old(state).groups()
            &&& r@.len() == 0
        },
{
    proof {
        reveal_strlit("voicechat:update_state");
        reveal_strlit("voicechat:set_group");
        reveal_strlit("voicechat:create_group");
        reveal_strlit("voicechat:leave_group");
        assert("voicechat:update_state"@[10] != "voicechat:set_group"@[10]);
        assert("voicechat:update_state"@[10] != "voicechat:create_group"@[10]);
        assert("voicechat:update_state"@[10] != "voicechat:leave_group"@[10]);
        assert("voicechat:set_group"@[10] != "voicechat:create_group"@[10]);
        assert("voicechat:set_group"@[10] != "voicechat:leave_group"@[10]);
        assert("voicechat:create_group"@[10] != "voicechat:leave_group"@[10]);
    }
    if str_eq(channel, "voicechat:update_state") {
        handle_update_state(state, player, data, clients)
    } else if str_eq(channel, "voicechat:set_group") {
        handle_set_group(state, player, player_java, data, clients)
    } else if str_eq(channel, "voicechat:create_group") {
        if !groups_enabled {
            return Vec::new();
        }
        let new_id = random_uuid();
        let r = handle_create_group(state, player, player_java, data, clients, new_id);
        proof {
            let _g = state.groups()[new_id];
        }
        r
    } else if str_eq(channel, "voicechat:leave_group") {
        handle_leave_group(state, player, player_java, clients)
    } else {
        Vec::new()
    }
}


// ---------------------------------------------------------------------------
// Joining and leaving the server
// ---------------------------------------------------------------------------

/// The settings a joining player is told.
#[derive(Debug)]
pub struct ServerSettings {
    /// The configured voice port; `-1` means the game server's TCP port.
    pub port: i32,
    /// The game server's TCP port.
    pub game_port: u16,
    pub codec: String,
    pub mtu_size: i32,
    /// The maximum voice distance, as the bits of an IEEE 754 double.
    pub distance_bits: u64,
    pub keep_alive: i32,
    pub enable_groups: bool,
    pub voice_host: String,
    pub allow_recording: bool,
}

/// The secret packet a joining player receives.
pub open spec fn secret_packet_for(secret: Secret, player: u128, settings: ServerSettings) -> SecretPacket {
    SecretPacket {
        secret,
        server_port: if settings.port == -1 {
            settings.game_port as i32
        } else {
            settings.port
        },
        player_uuid: player,
        codec: crate::config::spec_codec_id(settings.codec@),
        mtu_size: settings.mtu_size,
        distance_bits: settings.distance_bits,
        keep_alive: settings.keep_alive,
        groups_enabled: settings.enable_groups,
        voice_host: settings.voice_host,
        allow_recording: settings.allow_recording,
    }
}

/// Each group announced to `player`, in the order given; to a joining
/// player every group is announced as persistent, of type 0.
pub open spec fn group_announcements(player: u128, groups: Seq<Group>) -> Seq<Msg>
    decreases groups.len(),
{
    if groups.len() == 0 {
        Seq::empty()
    } else {
        let g = groups.last();
        group_announcements(player, groups.drop_last()).push(
            (
                player,
                PayloadChannel::AddGroup,
                add_group_bytes(g.id, g.name@, g.password is Some, true, 0),
            ),
        )
    }
}

/// Each category offered to `player`, in the order given.
pub open spec fn category_announcements(player: u128, cats: Seq<VolumeCategory>) -> Seq<Msg>
    decreases cats.len(),
{
    if cats.len() == 0 {
        Seq::empty()
    } else {
        category_announcements(player, cats.drop_last()).push(
            (
                player,
                PayloadChannel::AddCategory,
                AddCategoryPacket { category: &cats.last() }.spec_bytes(),
            ),
        )
    }
}

/// A joining player: it is registered under a fresh secret and receives,
/// in order, its secret and the settings, every group, every category and
/// every player's state; then every other player learns its state.
pub fn handle_join(
    state: &mut StateManager,
    player: u128,
    name: String,
    settings: &ServerSettings,
    clients: &[OnlinePlayer],
) -> (r: Vec<OutgoingPayload>)
    ensures
        old(state).wf() ==> final(state).wf(),
        final(state).groups() == old(state).groups(),
        final(state).categories() == old(state).categories(),
        final(state).limiter() == old(state).limiter(),
        exists|secret: Secret, groups: Seq<Group>, players: Seq<PlayerState>|
            #![trigger secret_packet_for(secret, player, *settings), group_announcements(player, groups), crate::packets::enc_player_states(players)]
            {
                let entry = PlayerState {
                    uuid: player,
                    name,
                    disconnected: false,
                    disabled: false,
                    group: None,
                    secret,
                    socket_addr: None,
                };
                let p1 = old(state).players().insert(player, entry);
                &&& final(state).players() == p1
                &&& lists_values(groups, old(state).groups())
                &&& lists_values(players, p1)
                &&& msgs(r@) == seq![
                    (
                        player,
                        PayloadChannel::Secret,
                        secret_packet_for(secret, player, *settings).spec_bytes(),
                    ),
                ] + group_announcements(player, groups) + category_announcements(
                    player,
                    old(state).categories(),
                ) + seq![
                    (
                        player,
                        PayloadChannel::States,
                        crate::packets::enc_count(players.len())
                            + crate::packets::enc_player_states(players),
                    ),
                ] + broadcast(
                    clients@,
                    Some(player),
                    false,
                    PayloadChannel::State,
                    enc_player_state(entry),
                )
            },
{
    let mut out: Vec<OutgoingPayload> = Vec::new();
    let ghost name_v = name;
    let secret = state.add_player_sync(player, name);
    let packet = SecretPacket {
        secret,
        server_port: crate::config::voice_port(settings.port, settings.game_port),
        player_uuid: player,
        codec: crate::config::codec_id(settings.codec.as_str()),
        mtu_size: settings.mtu_size,
        distance_bits: settings.distance_bits,
        keep_alive: settings.keep_alive,
        groups_enabled: settings.enable_groups,
        voice_host: settings.voice_host.clone(),
        allow_recording: settings.allow_recording,
    };
    send(&mut out, player, PayloadChannel::Secret, packet.to_bytes());
    let ghost head = msgs(out@);
    assert(head =~= seq![
        (player, PayloadChannel::Secret, secret_packet_for(secret, player, *settings).spec_bytes()),
    ]);
    let groups = state.get_all_groups_sync();
    let mut i: usize = 0;
    assert(groups@.take(0) =~= Seq::<Group>::empty());
    assert(head + group_announcements(player, Seq::empty()) =~= head);
    while i < groups.len()
        invariant
            i <= groups@.len(),
            msgs(out@) == head + group_announcements(player, groups@.take(i as int)),
        decreases groups@.len() - i,
    {
        let g = &groups[i];
        let announce = AddGroupPacket {
            id: g.id,
            name: g.name.as_str(),
            password: g.password.is_some(),
            persistent: true,
            hidden: false,
            group_type: 0,
        };
        send(&mut out, player, PayloadChannel::AddGroup, announce.to_bytes());
        proof {
            let t = groups@.take(i + 1);
            assert(t.drop_last() =~= groups@.take(i as int));
            assert(msgs(out@) =~= head + group_announcements(player, t));
        }
        i = i + 1;
    }
    assert(groups@.take(groups@.len() as int) =~= groups@);
    let ghost after_groups = msgs(out@);
    let cats = state.get_categories_sync();
    let mut j: usize = 0;
    assert(cats@.take(0) =~= Seq::<VolumeCategory>::empty());
    assert(after_groups + category_announcements(player, Seq::empty()) =~= after_groups);
    while j < cats.len()
        invariant
            j <= cats@.len(),
            msgs(out@) == after_groups + category_announcements(player, cats@.take(j as int)),
        decreases cats@.len() - j,
    {
        let offer = AddCategoryPacket { category: &cats[j] };
        send(&mut out, player, PayloadChannel::AddCategory, offer.to_bytes());
        proof {
            let t = cats@.take(j + 1);
            assert(t.drop_last() =~= cats@.take(j as int));
            assert(msgs(out@) =~= after_groups + category_announcements(player, t));
        }
        j = j + 1;
    }
    assert(cats@.take(cats@.len() as int) =~= cats@);
    let all = state.get_all_players_sync();
    let states_packet = PlayerStatesPacket { player_states: all.as_slice() };
    send(&mut out, player, PayloadChannel::States, states_packet.to_bytes());
    let ghost before_bc = msgs(out@);
    let entry = match state.get_player_sync(&player) {
        Some(e) => e,
        None => {
            return out;
        },
    };
    let bc = PlayerStatePacket { player_state: &entry };
    let bc_bytes = bc.to_bytes();
    send_broadcast(&mut out, clients, Some(player), false, PayloadChannel::State, &bc_bytes);
    proof {
        let e = PlayerState {
            uuid: player,
            name: name_v,
            disconnected: false,
            disabled: false,
            group: None,
            secret,
            socket_addr: None,
        };
        assert(entry == e);
        assert(msgs(out@) =~= seq![
            (
                player,
                PayloadChannel::Secret,
                secret_packet_for(secret, player, *settings).spec_bytes(),
            ),
        ] + group_announcements(player, groups@) + category_announcements(
            player,
            old(state).categories(),
        ) + seq![
            (
                player,
                PayloadChannel::States,
                crate::packets::enc_count(all@.len()) + crate::packets::enc_player_states(all@),
            ),
        ] + broadcast(clients@, Some(player), false, PayloadChannel::State, enc_player_state(e)));
    }
    out
}

/// Whether a player who must use voice chat gets kicked once the login
/// timeout passed: it is still known and has not connected over UDP.
pub fn must_kick(state: &StateManager, player: u128) -> (r: bool)
    ensures
        r == (state.players().contains_key(player) && state.players()[player].socket_addr is None),
{
    match state.get_player_sync(&player) {
        Some(p) => p.socket_addr.is_none(),
        None => false,
    }
}

/// What a player leaving does to the players and groups, and the messages
/// it sends: the other Java players learn it disconnected, it is forgotten,
/// and its group is removed if that left it empty.
pub open spec fn leave_effect(
    players: Map<u128, PlayerState>,
    groups: Map<u128, Group>,
    player: u128,
    clients: Seq<OnlinePlayer>,
) -> (Map<u128, PlayerState>, Map<u128, Group>, Seq<Msg>) {
    let old_group = group_of(players, player);
    let p1 = with_flags(players, player, true, false);
    let told = state_broadcast(p1, player, clients, true);
    let p2 = p1.remove(player);
    let (g1, removed) = cleanup(p2, groups, old_group, clients);
    (p2, g1, told + removed)
}

/// A player leaving the server; its rate-limit bucket is dropped too.
pub fn handle_leave(state: &mut StateManager, player: u128, clients: &[OnlinePlayer]) -> (r: Vec<
    OutgoingPayload,
>)
    requires
        old(state).wf(),
    ensures
        final(state).wf(),
        (final(state).players(), final(state).groups(), msgs(r@)) == leave_effect(
            old(state).players(),
            old(state).groups(),
            player,
            clients@,
        ),
        final(state).categories() == old(state).categories(),
        final(state).limiter().buckets() == old(state).limiter().buckets().remove(player),
{
    let mut out: Vec<OutgoingPayload> = Vec::new();
    assert(msgs(out@) =~= Seq::<Msg>::empty());
    state.on_player_logged_out(player);
    let old_group = match state.get_player_sync(&player) {
        Some(p) => p.group,
        None => None,
    };
    state.update_state_sync(&player, true, false);
    send_state_broadcast(&mut out, state, player, clients, true);
    state.remove_player_sync(&player);
    cleanup_old_group(&mut out, state, old_group, clients);
    out
}

/// What an invitation by a player comes to.
#[derive(Debug)]
pub enum InviteOutcome {
    /// Invite the targets to this group.
    Invite { group_name: String, group_id: u128, password: Option<String> },
    /// The player is in no group.
    NotInGroup,
    /// Nothing to do: the player is unknown, or its group no longer exists.
    Nothing,
}

/// The invitation a player who may use groups can send: to its group, if
/// it is in one that exists.
pub fn invite_outcome(state: &StateManager, source: u128) -> (r: InviteOutcome)
    ensures
        match group_of(state.players(), source) {
            Some(g) => if state.groups().contains_key(g) {
                r matches InviteOutcome::Invite { group_name, group_id, password } && group_name
                    == state.groups()[g].name && group_id == state.groups()[g].id && password
                    == state.groups()[g].password
            } else {
                r is Nothing
            },
            None => if state.players().contains_key(source) {
                r is NotInGroup
            } else {
                r is Nothing
            },
        },
{
    match state.get_player_sync(&source) {
        Some(p) => match p.group {
            Some(g) => match state.get_group_sync(&g) {
                Some(group) => InviteOutcome::Invite {
                    group_name: group.name,
                    group_id: group.id,
                    password: group.password,
                },
                None => InviteOutcome::Nothing,
            },
            None => InviteOutcome::NotInGroup,
        },
        None => InviteOutcome::Nothing,
    }
}


/// When the last member of a group that is not persistent leaves it, the
/// group is removed, and every Java player is told so.
pub proof fn lemma_last_member_leaving_removes_group(
    players: Map<u128, PlayerState>,
    groups: Map<u128, Group>,
    player: u128,
    java: bool,
    clients: Seq<OnlinePlayer>,
    g: u128,
)
    requires
        players.contains_key(player),
        players[player].group == Some(g),
        forall|k: u128| #[trigger] players.contains_key(k) && k != player ==> players[k].group != Some(g),
        groups.contains_key(g),
        !groups[g].persistent,
    ensures
        leave_group_effect(players, groups, player, java, clients).1 == groups.remove(g),
        leave_effect(players, groups, player, clients).1 == groups.remove(g),
{
    let p1 = with_group(players, player, None);
    assert(!has_members(p1, g));
    let p2 = with_flags(players, player, true, false).remove(player);
    assert(!has_members(p2, g));
}

/// A group that is persistent survives its members leaving.
pub proof fn lemma_persistent_group_survives(
    players: Map<u128, PlayerState>,
    groups: Map<u128, Group>,
    player: u128,
    java: bool,
    clients: Seq<OnlinePlayer>,
    g: u128,
)
    requires
        groups.contains_key(g),
        groups[g].persistent,
    ensures
        leave_group_effect(players, groups, player, java, clients).1.contains_key(g),
        leave_effect(players, groups, player, clients).1.contains_key(g),
{
}

/// A join request with the wrong password changes nothing; the player is
/// only told the password was wrong.
pub proof fn lemma_wrong_password_changes_nothing(
    players: Map<u128, PlayerState>,
    groups: Map<u128, Group>,
    player: u128,
    java: bool,
    clients: Seq<OnlinePlayer>,
    data: Seq<u8>,
)
    requires
        read_join_group(data) matches Some((g, pw)) && groups.contains_key(g) && opt_chars(
            groups[g].password,
        ) != pw,
    ensures
        set_group_effect(players, groups, player, java, clients, data) == (
            players,
            groups,
            reply(player, java, PayloadChannel::JoinedGroup, joined_bytes(None, true)),
        ),
{
}

/// A join request with the right password puts the player in the group.
pub proof fn lemma_right_password_joins(
    players: Map<u128, PlayerState>,
    groups: Map<u128, Group>,
    player: u128,
    java: bool,
    clients: Seq<OnlinePlayer>,
    data: Seq<u8>,
)
    requires
        players.contains_key(player),
        read_join_group(data) matches Some((g, pw)) && groups.contains_key(g) && opt_chars(
            groups[g].password,
        ) == pw && groups[g].id == g,
    ensures
        ({
            let (p1, _, _) = set_group_effect(players, groups, player, java, clients, data);
            let g = read_join_group(data).unwrap().0;
            p1.contains_key(player) && p1[player].group == Some(g)
        }),
{
}

/// Every message of a broadcast is on the broadcast's channel.
pub proof fn lemma_broadcast_channel(
    clients: Seq<OnlinePlayer>,
    skip: Option<u128>,
    java_only: bool,
    ch: PayloadChannel,
    data: Seq<u8>,
)
    ensures
        forall|i: int|
            0 <= i < broadcast(clients, skip, java_only, ch, data).len() ==> (#[trigger] broadcast(
                clients,
                skip,
                java_only,
                ch,
                data,
            )[i]).1 == ch && broadcast(clients, skip, java_only, ch, data)[i].2 == data,
    decreases clients.len(),
{
    if clients.len() > 0 {
        lemma_broadcast_channel(clients.drop_last(), skip, java_only, ch, data);
    }
}

/// A broadcast reaches every client it does not skip (and, when it goes to
/// Java players only, every Java client).
pub proof fn lemma_broadcast_reaches(
    clients: Seq<OnlinePlayer>,
    skip: Option<u128>,
    java_only: bool,
    ch: PayloadChannel,
    data: Seq<u8>,
    i: int,
)
    requires
        0 <= i < clients.len(),
        skip != Some(clients[i].uuid),
        !java_only || clients[i].java,
    ensures
        broadcast(clients, skip, java_only, ch, data).contains((clients[i].uuid, ch, data)),
    decreases clients.len(),
{
    let before = broadcast(clients.drop_last(), skip, java_only, ch, data);
    if i == clients.len() - 1 {
        let b = before.push((clients[i].uuid, ch, data));
        assert(b[b.len() - 1] == (clients[i].uuid, ch, data));
    } else {
        lemma_broadcast_reaches(clients.drop_last(), skip, java_only, ch, data, i);
        let m = choose|m: int| 0 <= m < before.len() && before[m] == (clients[i].uuid, ch, data);
        let c = clients.last();
        if skip != Some(c.uuid) && (!java_only || c.java) {
            assert(before.push((c.uuid, ch, data))[m] == before[m]);
        }
    }
}

/// No message of a player's state broadcast withdraws a group.
proof fn lemma_state_broadcast_channel(
    players: Map<u128, PlayerState>,
    player: u128,
    clients: Seq<OnlinePlayer>,
    java_only: bool,
)
    ensures
        forall|i: int|
            0 <= i < state_broadcast(players, player, clients, java_only).len() ==> (
            #[trigger] state_broadcast(players, player, clients, java_only)[i]).1
                == PayloadChannel::State,
{
    if players.contains_key(player) {
        lemma_broadcast_channel(
            clients,
            Some(player),
            java_only,
            PayloadChannel::State,
            enc_player_state(players[player]),
        );
    }
}

/// Moving with the right password out of a group that is not persistent and
/// of which the player was the only member removes that group, and every
/// Java client is told to withdraw it.
pub proof fn lemma_join_removes_abandoned_group(
    players: Map<u128, PlayerState>,
    groups: Map<u128, Group>,
    player: u128,
    java: bool,
    clients: Seq<OnlinePlayer>,
    g: u128,
    pw: Option<Seq<char>>,
    o: u128,
)
    requires
        players.contains_key(player),
        players[player].group == Some(o),
        forall|k: u128| #[trigger] players.contains_key(k) && k != player ==> players[k].group != Some(o),
        groups.contains_key(g),
        opt_chars(groups[g].password) == pw,
        groups[g].id != o,
        groups.contains_key(o),
        !groups[o].persistent,
    ensures
        ({
            let (p1, g1, m) = join_group_effect(players, groups, player, java, clients, g, pw);
            &&& p1[player].group == Some(groups[g].id)
            &&& !g1.contains_key(o)
            &&& g1 == groups.remove(o)
            &&& forall|i: int|
                0 <= i < clients.len() && clients[i].java ==> m.contains(
                    (clients[i].uuid, PayloadChannel::RemoveGroup, enc_uuid(o)),
                )
        }),
{
    let id = groups[g].id;
    let p1 = with_group(players, player, Some(id));
    assert(!has_members(p1, o));
    let (_, g1, m) = join_group_effect(players, groups, player, java, clients, g, pw);
    let joined = reply(player, java, PayloadChannel::JoinedGroup, joined_bytes(Some(id), false));
    let removed = broadcast(clients, None, true, PayloadChannel::RemoveGroup, enc_uuid(o));
    let told = state_broadcast(p1, player, clients, true);
    assert(m == joined + removed + told);
    assert forall|i: int| 0 <= i < clients.len() && clients[i].java implies m.contains(
        (clients[i].uuid, PayloadChannel::RemoveGroup, enc_uuid(o)),
    ) by {
        lemma_broadcast_reaches(clients, None, true, PayloadChannel::RemoveGroup, enc_uuid(o), i);
        let k = choose|k: int|
            0 <= k < removed.len() && removed[k] == (
                clients[i].uuid,
                PayloadChannel::RemoveGroup,
                enc_uuid(o),
            );
        assert(m[joined.len() + k] == removed[k]);
    }
}

/// A group that still has a member other than the player survives the
/// player leaving it, by leaving the server, leaving the group, or joining
/// another group; and no group is withdrawn from anyone.
pub proof fn lemma_occupied_group_survives(
    players: Map<u128, PlayerState>,
    groups: Map<u128, Group>,
    player: u128,
    java: bool,
    clients: Seq<OnlinePlayer>,
    o: u128,
    other: u128,
    g: u128,
    pw: Option<Seq<char>>,
)
    requires
        players.contains_key(player),
        players[player].group == Some(o),
        other != player,
        players.contains_key(other),
        players[other].group == Some(o),
        groups.contains_key(o),
    ensures
        ({
            let (_, g1, m) = leave_effect(players, groups, player, clients);
            &&& g1 == groups
            &&& forall|i: int| 0 <= i < m.len() ==> (#[trigger] m[i]).1 != PayloadChannel::RemoveGroup
        }),
        ({
            let (_, g1, m) = leave_group_effect(players, groups, player, java, clients);
            &&& g1 == groups
            &&& forall|i: int| 0 <= i < m.len() ==> (#[trigger] m[i]).1 != PayloadChannel::RemoveGroup
        }),
        ({
            let (_, g1, m) = join_group_effect(players, groups, player, java, clients, g, pw);
            &&& g1 == groups
            &&& forall|i: int| 0 <= i < m.len() ==> (#[trigger] m[i]).1 != PayloadChannel::RemoveGroup
        }),
{
    // Leaving the server.
    let p1 = with_flags(players, player, true, false);
    let p2 = p1.remove(player);
    assert(p2.contains_key(other) && p2[other].group == Some(o));
    assert(has_members(p2, o));
    lemma_state_broadcast_channel(p1, player, clients, true);
    let (_, _, m) = leave_effect(players, groups, player, clients);
    assert(m == state_broadcast(p1, player, clients, true) + Seq::<Msg>::empty());
    // Leaving the group.
    let q1 = with_group(players, player, None);
    assert(q1.contains_key(other) && q1[other].group == Some(o));
    assert(has_members(q1, o));
    lemma_state_broadcast_channel(q1, player, clients, true);
    let (_, _, m2) = leave_group_effect(players, groups, player, java, clients);
    let j2 = reply(player, java, PayloadChannel::JoinedGroup, joined_bytes(None, false));
    assert(m2 == j2 + Seq::<Msg>::empty() + state_broadcast(q1, player, clients, true));
    assert forall|i: int| 0 <= i < m2.len() implies (#[trigger] m2[i]).1 != PayloadChannel::RemoveGroup by {
        if i >= j2.len() {
            assert(m2[i] == state_broadcast(q1, player, clients, true)[i - j2.len()]);
        }
    }
    // Joining another group.
    if groups.contains_key(g) && opt_chars(groups[g].password) == pw {
        let id = groups[g].id;
        let r1 = with_group(players, player, Some(id));
        assert(r1.contains_key(other) && r1[other].group == Some(o));
        assert(has_members(r1, o));
        lemma_state_broadcast_channel(r1, player, clients, true);
        let (_, _, m3) = join_group_effect(players, groups, player, java, clients, g, pw);
        let j3 = reply(player, java, PayloadChannel::JoinedGroup, joined_bytes(Some(id), false));
        assert(m3 == j3 + Seq::<Msg>::empty() + state_broadcast(r1, player, clients, true));
        assert forall|i: int| 0 <= i < m3.len() implies (#[trigger] m3[i]).1
            != PayloadChannel::RemoveGroup by {
            if i >= j3.len() {
                assert(m3[i] == state_broadcast(r1, player, clients, true)[i - j3.len()]);
            }
        }
    }
}

/// The fields of a group announcement: id, name, whether it has a
/// password, whether it is persistent, whether it is hidden, and its type.
pub open spec fn read_add_group(d: Seq<u8>) -> Option<(u128, Seq<char>, bool, bool, bool, i16)> {
    match crate::wire::read_uuid(d) {
        Some((id, a)) => match crate::wire::read_string(d.skip(a as int)) {
            Some((name, b)) => match crate::wire::read_bool(d.skip((a + b) as int)) {
                Some((pw, c)) => match crate::wire::read_bool(d.skip((a + b + c) as int)) {
                    Some((persistent, e)) => match crate::wire::read_bool(
                        d.skip((a + b + c + e) as int),
                    ) {
                        Some((hidden, f)) => match crate::wire::read_i16(
                            d.skip((a + b + c + e + f) as int),
                        ) {
                            Some((t, _)) => Some((id, name, pw, persistent, hidden, t)),
                            None => None,
                        },
                        None => None,
                    },
                    None => None,
                },
                None => None,
            },
            None => None,
        },
        None => None,
    }
}

/// The announcement of a group created by a request reads back as that
/// group: its id, the name, password presence and type the request carried,
/// neither persistent nor hidden.
pub proof fn lemma_created_group_announced(id: u128, data: Seq<u8>)
    requires
        read_create_group(data) matches Some((name, _, _)) && crate::packets::fits_wire(name),
    ensures
        ({
            let (name, pw, t) = read_create_group(data).unwrap();
            read_add_group(add_group_bytes(id, name, pw is Some, false, t)) == Some(
                (id, name, pw is Some, false, false, t),
            )
        }),
{
    let (name, pw, t) = read_create_group(data).unwrap();
    let u = enc_uuid(id);
    let sn = crate::wire::enc_string(name);
    let b1 = enc_bool(pw is Some);
    let b2 = enc_bool(false);
    let b3 = enc_bool(false);
    let ti = crate::wire::enc_i16(t);
    let d = add_group_bytes(id, name, pw is Some, false, t);
    assert(d =~= u + (sn + b1 + b2 + b3 + ti));
    crate::wire::lemma_uuid_roundtrip(id, sn + b1 + b2 + b3 + ti);
    crate::wire::lemma_be_bytes_len(id as nat, 16);
    assert(d.skip(16) =~= sn + (b1 + b2 + b3 + ti));
    crate::wire::lemma_string_roundtrip(name, b1 + b2 + b3 + ti);
    let a: int = 16int + sn.len();
    assert(d.skip(a) =~= b1 + (b2 + b3 + ti));
    crate::wire::lemma_bool_roundtrip(pw is Some, b2 + b3 + ti);
    assert(d.skip(a + 1) =~= b2 + (b3 + ti));
    crate::wire::lemma_bool_roundtrip(false, b3 + ti);
    assert(d.skip(a + 2) =~= b3 + ti);
    crate::wire::lemma_bool_roundtrip(false, ti);
    assert(d.skip(a + 3) =~= ti + Seq::<u8>::empty());
    crate::wire::lemma_i16_roundtrip(t, Seq::<u8>::empty());
}

/// A player leaving the server is forgotten, and every other Java client
/// is told it disconnected (with its voice chat not disabled).
pub proof fn lemma_leave_announces_disconnect(
    players: Map<u128, PlayerState>,
    groups: Map<u128, Group>,
    player: u128,
    clients: Seq<OnlinePlayer>,
    i: int,
)
    requires
        players.contains_key(player),
        0 <= i < clients.len(),
        clients[i].java,
        clients[i].uuid != player,
    ensures
        ({
            let (p2, _, m) = leave_effect(players, groups, player, clients);
            &&& !p2.contains_key(player)
            &&& m.contains(
                (
                    clients[i].uuid,
                    PayloadChannel::State,
                    enc_player_state(
                        PlayerState { disconnected: true, disabled: false, ..players[player] },
                    ),
                ),
            )
        }),
{
    let p1 = with_flags(players, player, true, false);
    let st = PlayerState { disconnected: true, disabled: false, ..players[player] };
    assert(p1[player] == st);
    let told = state_broadcast(p1, player, clients, true);
    lemma_broadcast_reaches(
        clients,
        Some(player),
        true,
        PayloadChannel::State,
        enc_player_state(st),
        i,
    );
    let (_, _, m) = leave_effect(players, groups, player, clients);
    let removed = cleanup(p1.remove(player), groups, group_of(players, player), clients).1;
    assert(m == told + removed);
    let k = choose|k: int|
        0 <= k < told.len() && told[k] == (clients[i].uuid, PayloadChannel::State, enc_player_state(st));
    assert(m[k] == told[k]);
}

} // verus!
