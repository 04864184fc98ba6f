use pumpkin_voice::secret::Secret;
use pumpkin_voice::state::{PeerAddress, PlayerState, StateManager};
use pumpkin_voice::udp::{
    datagram_sender, handle_datagram, keep_alive_datagrams, route_mic, sender_may_speak,
    ListenerFacts, UdpEvent,
};
use pumpkin_voice::voice::{MicPacket, PingPacket, VoicePacket};
use pumpkin_voice::wire::{get_byte_array, put_byte_array};

const A: u128 = 0xaaaa;
const B: u128 = 0xbbbb;

fn client_datagram(player: u128, secret: &Secret, plain: &[u8]) -> Vec<u8> {
    let payload = secret.encrypt(plain).unwrap();
    let mut d = vec![0xff];
    d.extend(player.to_be_bytes());
    put_byte_array(&mut d, &payload);
    d
}

fn open_reply(secret: &Secret, d: &[u8]) -> Vec<u8> {
    assert_eq!(d[0], 0xff);
    let (payload, end) = get_byte_array(d, 1).unwrap();
    assert_eq!(end, d.len());
    secret.decrypt(&payload).unwrap()
}

fn addr() -> PeerAddress {
    PeerAddress::V4 { ip4: 0x0a00_0001, port: 40000 }
}

#[test]
fn authentication_records_the_endpoint() {
    let mut sm = StateManager::new(&[], 0, 0);
    let secret = sm.add_player_sync(A, "a".to_string());
    let mut auth = vec![0x5];
    auth.extend(A.to_be_bytes());
    auth.extend(secret.uuid.to_be_bytes());
    let ev = handle_datagram(&mut sm, &client_datagram(A, &secret, &auth), addr(), true);
    match ev {
        UdpEvent::Authenticated { player, reply } => {
            assert_eq!(player, A);
            assert_eq!(open_reply(&secret, &reply), vec![0x6]);
        }
        other => panic!("unexpected {:?}", other),
    }
    assert_eq!(sm.get_player_sync(&A).unwrap().socket_addr, Some(addr()));
}

#[test]
fn wrong_secret_does_not_authenticate() {
    let mut sm = StateManager::new(&[], 0, 0);
    let secret = sm.add_player_sync(A, "a".to_string());
    let mut auth = vec![0x5];
    auth.extend(A.to_be_bytes());
    auth.extend((secret.uuid ^ 1).to_be_bytes());
    let ev = handle_datagram(&mut sm, &client_datagram(A, &secret, &auth), addr(), true);
    assert!(matches!(ev, UdpEvent::Ignored));
    assert_eq!(sm.get_player_sync(&A).unwrap().socket_addr, None);
}

#[test]
fn pings_are_echoed_when_allowed() {
    let mut sm = StateManager::new(&[], 0, 0);
    let secret = sm.add_player_sync(A, "a".to_string());
    let mut ping = vec![0x7];
    ping.extend(5u128.to_be_bytes());
    ping.extend(99i64.to_be_bytes());
    let d = client_datagram(A, &secret, &ping);
    match handle_datagram(&mut sm, &d, addr(), true) {
        UdpEvent::Pong { reply, .. } => assert_eq!(open_reply(&secret, &reply), ping),
        other => panic!("unexpected {:?}", other),
    }
    assert!(matches!(handle_datagram(&mut sm, &d, addr(), false), UdpEvent::Ignored));
}

#[test]
fn connection_checks_are_acknowledged() {
    let mut sm = StateManager::new(&[], 0, 0);
    let secret = sm.add_player_sync(A, "a".to_string());
    match handle_datagram(&mut sm, &client_datagram(A, &secret, &[0x9]), addr(), true) {
        UdpEvent::ConnectionChecked { reply, .. } => assert_eq!(open_reply(&secret, &reply), vec![0xa]),
        other => panic!("unexpected {:?}", other),
    }
}

#[test]
fn malformed_or_unknown_datagrams_are_ignored() {
    let mut sm = StateManager::new(&[], 0, 0);
    let secret = sm.add_player_sync(A, "a".to_string());
    assert!(matches!(handle_datagram(&mut sm, &[0xff; 10], addr(), true), UdpEvent::Ignored));
    let mut bad_magic = client_datagram(A, &secret, &[0x9]);
    bad_magic[0] = 0xfe;
    assert!(matches!(handle_datagram(&mut sm, &bad_magic, addr(), true), UdpEvent::Ignored));
    assert!(matches!(handle_datagram(&mut sm, &client_datagram(B, &secret, &[0x9]), addr(), true), UdpEvent::Ignored));
    let mut unreadable = vec![0xff];
    unreadable.extend(A.to_be_bytes());
    unreadable.extend([5, 1]);
    assert!(matches!(handle_datagram(&mut sm, &unreadable, addr(), true), UdpEvent::Ignored));
    let foreign = Secret { uuid: 3 };
    match handle_datagram(&mut sm, &client_datagram(A, &foreign, &[0x9]), addr(), true) {
        UdpEvent::Undecryptable { player, payload_len } => {
            assert_eq!(player, A);
            assert_eq!(payload_len, 12 + 1 + 16);
        }
        other => panic!("unexpected {:?}", other),
    }
    assert!(matches!(handle_datagram(&mut sm, &client_datagram(A, &secret, &[0x42]), addr(), true), UdpEvent::Ignored));
}

#[test]
fn rate_limited_datagrams_are_dropped() {
    let mut sm = StateManager::new(&[], 1, 1);
    let secret = sm.add_player_sync(A, "a".to_string());
    let d = client_datagram(A, &secret, &[0x9]);
    assert!(matches!(handle_datagram(&mut sm, &d, addr(), true), UdpEvent::ConnectionChecked { .. }));
    assert!(matches!(handle_datagram(&mut sm, &d, addr(), true), UdpEvent::Ignored));
}

#[test]
fn mic_packets_are_parsed() {
    let mut sm = StateManager::new(&[], 0, 0);
    let secret = sm.add_player_sync(A, "a".to_string());
    let mut mic = vec![0x1, 3, 1, 2, 3];
    mic.extend(7i64.to_be_bytes());
    mic.push(1);
    match handle_datagram(&mut sm, &client_datagram(A, &secret, &mic), addr(), true) {
        UdpEvent::Mic { sender, packet } => {
            assert_eq!(sender.uuid, A);
            assert_eq!(packet.data, vec![1, 2, 3]);
            assert_eq!(packet.sequence_number, 7);
            assert!(packet.whispering);
        }
        other => panic!("unexpected {:?}", other),
    }
}

fn player(uuid: u128, group: Option<u128>, with_addr: bool) -> PlayerState {
    PlayerState {
        uuid,
        name: String::new(),
        disconnected: false,
        disabled: false,
        group,
        secret: Secret { uuid: uuid + 1 },
        socket_addr: if with_addr { Some(PeerAddress::V4 { ip4: uuid as u32, port: 1 }) } else { None },
    }
}

fn all_yes() -> ListenerFacts {
    ListenerFacts { online: true, can_listen: true, same_world: true, in_range: true }
}

#[test]
fn group_audio_reaches_only_group_members() {
    let sender = player(1, Some(50), true);
    let players = vec![sender.clone(), player(2, Some(50), true), player(3, Some(51), true), player(4, Some(50), false), player(5, Some(50), true)];
    let mut facts = vec![all_yes(); 5];
    facts[4].can_listen = false;
    let mic = MicPacket { data: vec![9, 9], sequence_number: 3, whispering: false };
    let out = route_mic(&sender, &mic, &players, &facts, 0);
    assert_eq!(out.len(), 1);
    assert_eq!(out[0].addr, PeerAddress::V4 { ip4: 2, port: 1 });
    let plain = open_reply(&players[1].secret, &out[0].datagram);
    assert_eq!(plain[0], 0x3);
    assert_eq!(&plain[1..17], &50u128.to_be_bytes());
    assert_eq!(&plain[17..33], &1u128.to_be_bytes());
}

#[test]
fn proximity_audio_reaches_nearby_listeners() {
    let sender = player(1, None, true);
    let players = vec![sender.clone(), player(2, Some(9), true), player(3, None, true), player(4, None, true)];
    let mut facts = vec![all_yes(); 4];
    facts[2].in_range = false;
    facts[3].same_world = false;
    let mic = MicPacket { data: vec![1], sequence_number: -1, whispering: true };
    let out = route_mic(&sender, &mic, &players, &facts, 24.0f32.to_bits());
    assert_eq!(out.len(), 1);
    let plain = open_reply(&players[1].secret, &out[0].datagram);
    let expected = VoicePacket::PlayerSound(pumpkin_voice::voice::PlayerSoundPacket {
        channel_id: 1,
        sender: 1,
        data: vec![1],
        sequence_number: -1,
        distance_bits: 24.0f32.to_bits(),
        whispering: true,
        category: None,
    });
    assert_eq!(plain, expected.to_bytes());
    assert_eq!(plain[plain.len() - 1], 1);
}

#[test]
fn speaking_rules() {
    assert!(sender_may_speak(true, true, false, false));
    assert!(!sender_may_speak(false, true, false, false));
    assert!(!sender_may_speak(true, false, false, false));
    assert!(!sender_may_speak(true, true, true, false));
    assert!(sender_may_speak(true, true, true, true));
}

#[test]
fn keep_alives_go_to_known_endpoints() {
    let mut sm = StateManager::new(&[], 0, 0);
    let secret = sm.add_player_sync(A, "a".to_string());
    sm.add_player_sync(B, "b".to_string());
    sm.update_player_addr_sync(&A, addr());
    let out = keep_alive_datagrams(&sm);
    assert_eq!(out.len(), 1);
    assert_eq!(out[0].addr, addr());
    assert_eq!(open_reply(&secret, &out[0].datagram), vec![0x8]);
}

#[test]
fn voice_packet_bytes() {
    let ping = VoicePacket::Ping(PingPacket { id: 1, timestamp: 2 });
    let mut expected = vec![0x7];
    expected.extend(1u128.to_be_bytes());
    expected.extend(2i64.to_be_bytes());
    assert_eq!(ping.to_bytes(), expected);
    assert_eq!(VoicePacket::KeepAlive.to_bytes(), vec![0x8]);
    assert_eq!(VoicePacket::AuthenticateAck.to_bytes(), vec![0x6]);
    assert_eq!(VoicePacket::ConnectionCheckAck.to_bytes(), vec![0xa]);
}

#[test]
fn unrateable_limits_still_serve_bad_headers_and_strangers() {
    let mut sm = StateManager::new(&[], 2_000_000_000, 2_000_000_000);
    assert!(!sm.limits_usable());
    // Too short, and no magic byte.
    assert!(matches!(handle_datagram(&mut sm, &[0xff; 5], addr(), true), UdpEvent::Ignored));
    let mut d = vec![0x00];
    d.extend(A.to_be_bytes());
    d.push(0);
    assert_eq!(datagram_sender(&d), None);
    assert!(matches!(handle_datagram(&mut sm, &d, addr(), true), UdpEvent::Ignored));
    // A well-formed datagram of a player the server does not know.
    let secret = Secret::generate();
    let d = client_datagram(A, &secret, &[0x7]);
    assert_eq!(datagram_sender(&d), Some(A));
    assert!(matches!(handle_datagram(&mut sm, &d, addr(), true), UdpEvent::Ignored));
    assert!(sm.get_player_sync(&A).is_none());
}
