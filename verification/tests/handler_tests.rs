use pumpkin_voice::handlers::{
    channel_name, handle_custom_payload, handle_join, handle_join_by_name, handle_join_group,
    handle_leave, handle_leave_group, invite_outcome, must_kick,
    InviteOutcome, OnlinePlayer, OutgoingPayload, PayloadChannel, ServerSettings,
};
use pumpkin_voice::config::CategoryConfig;
use pumpkin_voice::state::{Group, PeerAddress, StateManager};

const A: u128 = 0xa;
const B: u128 = 0xb;
const C: u128 = 0xc;

fn clients() -> Vec<OnlinePlayer> {
    vec![
        OnlinePlayer { uuid: A, java: true },
        OnlinePlayer { uuid: B, java: true },
        OnlinePlayer { uuid: C, java: false },
    ]
}

fn settings() -> ServerSettings {
    ServerSettings {
        port: -1,
        game_port: 25565,
        codec: "AUDIO".to_string(),
        mtu_size: 1024,
        distance_bits: 48.0f64.to_bits(),
        keep_alive: 1000,
        enable_groups: true,
        voice_host: String::new(),
        allow_recording: true,
    }
}

fn targets(out: &[OutgoingPayload], ch: PayloadChannel) -> Vec<u128> {
    out.iter().filter(|o| o.channel == ch).map(|o| o.target).collect()
}

fn uuid_bytes(u: u128) -> Vec<u8> {
    u.to_be_bytes().to_vec()
}

fn setup() -> StateManager {
    let mut sm = StateManager::new(&[], 0, 0);
    sm.add_player_sync(A, "a".to_string());
    sm.add_player_sync(B, "b".to_string());
    sm
}

#[test]
fn channel_names() {
    assert_eq!(channel_name(PayloadChannel::Secret), "voicechat:secret");
    assert_eq!(channel_name(PayloadChannel::State), "voicechat:state");
    assert_eq!(channel_name(PayloadChannel::States), "voicechat:states");
    assert_eq!(channel_name(PayloadChannel::JoinedGroup), "voicechat:joined_group");
    assert_eq!(channel_name(PayloadChannel::AddGroup), "voicechat:add_group");
    assert_eq!(channel_name(PayloadChannel::RemoveGroup), "voicechat:remove_group");
    assert_eq!(channel_name(PayloadChannel::AddCategory), "voicechat:add_category");
}

#[test]
fn update_state_broadcasts_to_other_java_players() {
    let mut sm = setup();
    let out = handle_custom_payload(&mut sm, A, true, "voicechat:update_state", &[1], &clients(), true);
    assert!(sm.get_player_sync(&A).unwrap().disabled);
    assert_eq!(targets(&out, PayloadChannel::State), vec![B]);
    assert_eq!(out.len(), 1);
    assert_eq!(out[0].data[0], 1);
}

#[test]
fn unknown_channel_or_unreadable_request_does_nothing() {
    let mut sm = setup();
    assert!(handle_custom_payload(&mut sm, A, true, "voicechat:other", &[1], &clients(), true).is_empty());
    assert!(handle_custom_payload(&mut sm, A, true, "voicechat:update_state", &[], &clients(), true).is_empty());
    assert!(!sm.get_player_sync(&A).unwrap().disabled);
}

#[test]
fn create_then_join_then_leave_group() {
    let mut sm = setup();
    // A creates "team" with password "pw", type 1.
    let create = vec![4, b't', b'e', b'a', b'm', 1, 2, b'p', b'w', 0, 1];
    let out = handle_custom_payload(&mut sm, A, true, "voicechat:create_group", &create, &clients(), true);
    let g = sm.get_group_by_name_sync("team").unwrap();
    assert_eq!(g.password, Some("pw".to_string()));
    assert_eq!(g.group_type, 1);
    assert!(!g.persistent && !g.hidden);
    assert_eq!(sm.get_player_sync(&A).unwrap().group, Some(g.id));
    assert_eq!(targets(&out, PayloadChannel::AddGroup), vec![A, B]);
    assert_eq!(targets(&out, PayloadChannel::JoinedGroup), vec![A]);
    assert_eq!(targets(&out, PayloadChannel::State), vec![B]);

    // B tries the wrong password.
    let mut wrong = uuid_bytes(g.id);
    wrong.extend([1, 1, b'x']);
    let out = handle_custom_payload(&mut sm, B, true, "voicechat:set_group", &wrong, &clients(), true);
    assert_eq!(out.len(), 1);
    assert_eq!(out[0].channel, PayloadChannel::JoinedGroup);
    assert_eq!(out[0].data, vec![0, 1]);
    assert_eq!(sm.get_player_sync(&B).unwrap().group, None);

    // B joins with the right one.
    let mut right = uuid_bytes(g.id);
    right.extend([1, 2, b'p', b'w']);
    let out = handle_custom_payload(&mut sm, B, true, "voicechat:set_group", &right, &clients(), true);
    assert_eq!(sm.get_player_sync(&B).unwrap().group, Some(g.id));
    let mut joined = vec![1];
    joined.extend(uuid_bytes(g.id));
    joined.push(0);
    assert_eq!(out[0].data, joined);
    assert_eq!(targets(&out, PayloadChannel::State), vec![A]);

    // A leaves: the group still has B.
    let out = handle_custom_payload(&mut sm, A, true, "voicechat:leave_group", &[], &clients(), true);
    assert_eq!(out[0].data, vec![0, 0]);
    assert!(targets(&out, PayloadChannel::RemoveGroup).is_empty());
    assert!(sm.get_group_sync(&g.id).is_some());

    // B leaves: the group is gone and every Java player is told.
    let out = handle_custom_payload(&mut sm, B, true, "voicechat:leave_group", &[], &clients(), true);
    assert!(sm.get_group_sync(&g.id).is_none());
    assert_eq!(targets(&out, PayloadChannel::RemoveGroup), vec![A, B]);
}

#[test]
fn create_group_needs_groups_enabled() {
    let mut sm = setup();
    let create = vec![1, b'g', 0, 0, 0];
    assert!(handle_custom_payload(&mut sm, A, true, "voicechat:create_group", &create, &clients(), false).is_empty());
    assert!(sm.get_all_groups_sync().is_empty());
}

#[test]
fn non_java_players_get_no_replies() {
    let mut sm = setup();
    let out = handle_custom_payload(&mut sm, A, false, "voicechat:leave_group", &[], &clients(), true);
    assert!(targets(&out, PayloadChannel::JoinedGroup).is_empty());
}

#[test]
fn join_sends_secret_groups_categories_states_and_broadcast() {
    let mut sm = StateManager::new(
        &[CategoryConfig { id: "radio".to_string(), name: "Radio".to_string(), description: None }],
        0,
        0,
    );
    sm.add_player_sync(A, "a".to_string());
    sm.add_group_sync(Group {
        id: 77,
        name: "g".to_string(),
        password: Some("p".to_string()),
        persistent: false,
        hidden: false,
        group_type: 3,
    });
    let out = handle_join(&mut sm, B, "bob".to_string(), &settings(), &clients());
    let chans: Vec<PayloadChannel> = out.iter().map(|o| o.channel).collect();
    assert_eq!(
        chans,
        vec![
            PayloadChannel::Secret,
            PayloadChannel::AddGroup,
            PayloadChannel::AddCategory,
            PayloadChannel::States,
            PayloadChannel::State,
            PayloadChannel::State,
        ]
    );
    let secret = sm.get_player_sync(&B).unwrap().secret;
    assert_eq!(&out[0].data[0..16], &secret.to_bytes());
    // Port -1 tells the client the game server's TCP port, 25565.
    assert_eq!(&out[0].data[16..20], &[0x00, 0x00, 0x63, 0xdd]);
    assert_eq!(out[0].data[36], 1);
    // The group is announced as persistent, of type 0.
    let mut add = uuid_bytes(77);
    add.extend([1, b'g', 1, 1, 0, 0, 0]);
    assert_eq!(out[1].data, add);
    assert_eq!(&out[3].data[0..4], &[0, 0, 0, 2]);
    assert_eq!(targets(&out, PayloadChannel::State), vec![A, C]);
    assert!(must_kick(&sm, B));
    sm.update_player_addr_sync(&B, PeerAddress::V4 { ip4: 1, port: 2 });
    assert!(!must_kick(&sm, B));
    assert!(!must_kick(&sm, 999));
}

#[test]
fn leaving_the_server_forgets_the_player_and_its_empty_group() {
    let mut sm = setup();
    let create = vec![1, b'g', 0, 0, 0];
    handle_custom_payload(&mut sm, A, true, "voicechat:create_group", &create, &clients(), true);
    let g = sm.get_group_by_name_sync("g").unwrap().id;
    let out = handle_leave(&mut sm, A, &clients());
    assert!(sm.get_player_sync(&A).is_none());
    assert!(sm.get_group_sync(&g).is_none());
    assert_eq!(targets(&out, PayloadChannel::State), vec![B]);
    // The broadcast state says disconnected.
    assert_eq!(out[0].data[0..2], [0, 1]);
    assert_eq!(targets(&out, PayloadChannel::RemoveGroup), vec![A, B]);
}

#[test]
fn invitations() {
    let mut sm = setup();
    assert!(matches!(invite_outcome(&sm, 999), InviteOutcome::Nothing));
    assert!(matches!(invite_outcome(&sm, A), InviteOutcome::NotInGroup));
    let create = vec![1, b'g', 1, 1, b'z', 0, 0];
    handle_custom_payload(&mut sm, A, true, "voicechat:create_group", &create, &clients(), true);
    match invite_outcome(&sm, A) {
        InviteOutcome::Invite { group_name, password, .. } => {
            assert_eq!(group_name, "g");
            assert_eq!(password, Some("z".to_string()));
        }
        _ => panic!("expected an invitation"),
    }
}

#[test]
fn leaving_works_whatever_the_rate_limit() {
    // More packets per second than nanoseconds in a second: the limiter
    // could not rate a datagram, but a leave never asks it.
    let mut sm = StateManager::new(&[], 2_000_000_000, 2_000_000_000);
    assert!(!sm.limits_usable());
    sm.add_player_sync(A, "a".to_string());
    let out = handle_leave(&mut sm, A, &clients());
    assert!(sm.get_player_sync(&A).is_none());
    assert_eq!(targets(&out, PayloadChannel::State), vec![B]);
}

#[test]
fn join_command_by_name_and_by_id() {
    let mut sm = setup();
    let create = vec![1, b'g', 1, 2, b'p', b'w', 0, 0];
    handle_custom_payload(&mut sm, A, true, "voicechat:create_group", &create, &clients(), true);
    let g = sm.get_group_by_name_sync("g").unwrap().id;
    // No group of that name: nothing happens.
    assert!(handle_join_by_name(&mut sm, B, true, "nope", &None, &clients()).is_none());
    assert_eq!(sm.get_player_sync(&B).unwrap().group, None);
    // The wrong password: B is told so and stays out.
    let out = handle_join_by_name(&mut sm, B, true, "g", &Some("x".to_string()), &clients()).unwrap();
    assert_eq!(targets(&out, PayloadChannel::JoinedGroup), vec![B]);
    assert_eq!(out[0].data, vec![0, 1]);
    assert_eq!(sm.get_player_sync(&B).unwrap().group, None);
    // The right password: B joins.
    let out = handle_join_by_name(&mut sm, B, true, "g", &Some("pw".to_string()), &clients()).unwrap();
    let mut joined = vec![1];
    joined.extend(uuid_bytes(g));
    joined.push(0);
    assert_eq!(out[0].data, joined);
    assert_eq!(sm.get_player_sync(&B).unwrap().group, Some(g));
    // Leaving, then joining again by id.
    handle_leave_group(&mut sm, B, true, &clients());
    assert_eq!(sm.get_player_sync(&B).unwrap().group, None);
    handle_join_group(&mut sm, B, true, g, &Some("pw".to_string()), &clients());
    assert_eq!(sm.get_player_sync(&B).unwrap().group, Some(g));
    // An unknown id does nothing.
    assert!(handle_join_group(&mut sm, B, true, 12345, &None, &clients()).is_empty());
    assert_eq!(sm.get_player_sync(&B).unwrap().group, Some(g));
}
