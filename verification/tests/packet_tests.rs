use pumpkin_voice::packets::{
    parse_update_state, AddCategoryPacket, AddGroupPacket, CreateGroupPacket, JoinGroupPacket,
    JoinedGroupPacket, PlayerStatePacket, PlayerStatesPacket, RemoveCategoryPacket,
    RemoveGroupPacket, SecretPacket, VolumeCategory,
};
use pumpkin_voice::secret::Secret;
use pumpkin_voice::state::PlayerState;

const PLAYER: u128 = 0x0011_2233_4455_6677_8899_aabb_ccdd_eeff;
const GROUP: u128 = 0xffee_ddcc_bbaa_9988_7766_5544_3322_1100;

fn uuid_bytes(u: u128) -> Vec<u8> {
    u.to_be_bytes().to_vec()
}

fn state(name: &str, group: Option<u128>, disabled: bool, disconnected: bool) -> PlayerState {
    PlayerState {
        uuid: PLAYER,
        name: name.to_string(),
        disconnected,
        disabled,
        group,
        secret: Secret { uuid: 7 },
        socket_addr: None,
    }
}

#[test]
fn joined_group_packet_bytes() {
    let joined = JoinedGroupPacket { group: Some(GROUP), wrong_password: false };
    let mut expected = vec![1];
    expected.extend(uuid_bytes(GROUP));
    expected.push(0);
    assert_eq!(joined.to_bytes(), expected);
    let wrong = JoinedGroupPacket { group: None, wrong_password: true };
    assert_eq!(wrong.to_bytes(), vec![0, 1]);
}

#[test]
fn remove_group_packet_bytes() {
    assert_eq!(RemoveGroupPacket { group: GROUP }.to_bytes(), uuid_bytes(GROUP));
}

#[test]
fn add_group_packet_bytes() {
    let p = AddGroupPacket {
        id: GROUP,
        name: "ab",
        password: true,
        persistent: false,
        hidden: false,
        group_type: 2,
    };
    let mut expected = uuid_bytes(GROUP);
    expected.extend([2, b'a', b'b', 1, 0, 0, 0, 2]);
    assert_eq!(p.to_bytes(), expected);
}

#[test]
fn player_state_packet_bytes() {
    let s = state("Bo", Some(GROUP), true, false);
    let mut expected = vec![1, 0];
    expected.extend(uuid_bytes(PLAYER));
    expected.extend([2, b'B', b'o', 1]);
    expected.extend(uuid_bytes(GROUP));
    assert_eq!(PlayerStatePacket { player_state: &s }.to_bytes(), expected);
}

#[test]
fn player_states_packet_bytes() {
    let a = state("A", None, false, false);
    let b = state("B", None, false, true);
    let list = vec![a, b];
    let mut expected = vec![0, 0, 0, 2];
    expected.extend([0, 0]);
    expected.extend(uuid_bytes(PLAYER));
    expected.extend([1, b'A', 0]);
    expected.extend([0, 1]);
    expected.extend(uuid_bytes(PLAYER));
    expected.extend([1, b'B', 0]);
    assert_eq!(PlayerStatesPacket { player_states: &list }.to_bytes(), expected);
    assert_eq!(PlayerStatesPacket { player_states: &[] }.to_bytes(), vec![0, 0, 0, 0]);
}

#[test]
fn category_packets_bytes() {
    let cat = VolumeCategory {
        id: "radio".to_string(),
        name: "Radio".to_string(),
        description: Some("x".to_string()),
    };
    let mut expected = vec![5];
    expected.extend(b"radio");
    expected.push(5);
    expected.extend(b"Radio");
    expected.extend([0, 1, 1, b'x', 0, 0]);
    assert_eq!(AddCategoryPacket { category: &cat }.to_bytes(), expected);
    let plain = VolumeCategory { id: "a".to_string(), name: "b".to_string(), description: None };
    assert_eq!(AddCategoryPacket { category: &plain }.to_bytes(), vec![1, b'a', 1, b'b', 0, 0, 0, 0]);
    assert_eq!(RemoveCategoryPacket { category_id: "radio" }.to_bytes(), {
        let mut v = vec![5];
        v.extend(b"radio");
        v
    });
}

#[test]
fn secret_packet_bytes() {
    let secret = Secret { uuid: 0x0102_0304_0506_0708_090a_0b0c_0d0e_0f10 };
    let p = SecretPacket {
        secret,
        server_port: 24454,
        player_uuid: PLAYER,
        codec: 0,
        mtu_size: 1024,
        distance_bits: 48.0f64.to_bits(),
        keep_alive: 1000,
        groups_enabled: true,
        voice_host: String::new(),
        allow_recording: true,
    };
    let mut expected: Vec<u8> = (1..=16).collect();
    expected.extend([0x00, 0x00, 0x5f, 0x86]);
    expected.extend(uuid_bytes(PLAYER));
    expected.push(0);
    expected.extend([0x00, 0x00, 0x04, 0x00]);
    expected.extend(48.0f64.to_be_bytes());
    expected.extend([0x00, 0x00, 0x03, 0xe8]);
    expected.push(1);
    expected.push(0);
    expected.push(1);
    assert_eq!(p.to_bytes(), expected);
}

#[test]
fn update_state_request() {
    assert_eq!(parse_update_state(&[1]), Some(true));
    assert_eq!(parse_update_state(&[0, 9]), Some(false));
    assert_eq!(parse_update_state(&[7]), Some(true));
    assert_eq!(parse_update_state(&[]), None);
}

#[test]
fn join_group_request() {
    let mut data = uuid_bytes(GROUP);
    data.extend([1, 3, b'p', b'w', b'd']);
    let p = JoinGroupPacket::parse(&data).unwrap();
    assert_eq!(p.group, GROUP);
    assert_eq!(p.password, Some("pwd".to_string()));
    let mut open = uuid_bytes(GROUP);
    open.push(0);
    let p = JoinGroupPacket::parse(&open).unwrap();
    assert_eq!(p.password, None);
    assert!(JoinGroupPacket::parse(&uuid_bytes(GROUP)).is_none());
    assert!(JoinGroupPacket::parse(&[1, 2, 3]).is_none());
}

#[test]
fn create_group_request() {
    let data = vec![3, b'f', b'o', b'o', 1, 2, b'p', b'w', 0x00, 0x01, 0xee];
    let p = CreateGroupPacket::parse(&data).unwrap();
    assert_eq!(p.name, "foo");
    assert_eq!(p.password, Some("pw".to_string()));
    assert_eq!(p.group_type, 1);
    let p = CreateGroupPacket::parse(&[1, b'g', 0, 0xff, 0xff]).unwrap();
    assert_eq!(p.name, "g");
    assert_eq!(p.password, None);
    assert_eq!(p.group_type, -1);
    assert!(CreateGroupPacket::parse(&[1, b'g', 0, 0xff]).is_none());
}
