use pumpkin_voice::config::CategoryConfig;
use pumpkin_voice::state::{Group, PeerAddress, StateManager};

fn cat(id: &str, name: &str) -> CategoryConfig {
    CategoryConfig { id: id.to_string(), name: name.to_string(), description: None }
}

fn group(id: u128, name: &str, persistent: bool) -> Group {
    Group {
        id,
        name: name.to_string(),
        password: None,
        persistent,
        hidden: false,
        group_type: 0,
    }
}

#[test]
fn categories_from_config_replace_by_id() {
    let sm = StateManager::new(&[cat("radio", "Radio"), cat("music", "Music"), cat("radio", "Team")], 0, 0);
    let cats = sm.get_categories_sync();
    assert_eq!(cats.len(), 2);
    assert_eq!(cats[0].id, "radio");
    assert_eq!(cats[0].name, "Team");
    assert_eq!(cats[1].id, "music");
}

#[test]
fn players_are_added_updated_and_removed() {
    let mut sm = StateManager::new(&[], 500, 500);
    let secret = sm.add_player_sync(1, "alice".to_string());
    let p = sm.get_player_sync(&1).unwrap();
    assert_eq!(p.uuid, 1);
    assert_eq!(p.name, "alice");
    assert_eq!(p.secret, secret);
    assert!(!p.disconnected && !p.disabled);
    assert_eq!(p.group, None);
    assert_eq!(p.socket_addr, None);
    sm.update_state_sync(&1, true, true);
    let p = sm.get_player_sync(&1).unwrap();
    assert!(p.disconnected && p.disabled);
    let addr = PeerAddress::V4 { ip4: 0x7f00_0001, port: 5000 };
    sm.update_player_addr_sync(&1, addr);
    assert_eq!(sm.get_player_sync(&1).unwrap().socket_addr, Some(addr));
    sm.update_state_sync(&2, true, true);
    assert!(sm.get_player_sync(&2).is_none());
    sm.remove_player_sync(&1);
    assert!(sm.get_player_sync(&1).is_none());
    assert!(sm.get_all_players_sync().is_empty());
}

#[test]
fn keep_alive_targets_are_players_with_endpoints() {
    let mut sm = StateManager::new(&[], 0, 0);
    let s1 = sm.add_player_sync(1, "a".to_string());
    sm.add_player_sync(2, "b".to_string());
    let addr = PeerAddress::V6 { ip6: 1, port: 24454, flowinfo: 0, scope_id: 0 };
    sm.update_player_addr_sync(&1, addr);
    assert_eq!(sm.get_keep_alive_targets_sync(), vec![(addr, s1)]);
    assert_eq!(sm.get_all_players_sync().len(), 2);
}

#[test]
fn groups_by_id_and_name() {
    let mut sm = StateManager::new(&[], 0, 0);
    sm.add_group_sync(group(10, "team", false));
    sm.add_group_sync(group(11, "other", true));
    assert_eq!(sm.get_group_sync(&10).unwrap().name, "team");
    assert_eq!(sm.get_group_by_name_sync("other").unwrap().id, 11);
    assert!(sm.get_group_by_name_sync("none").is_none());
    assert_eq!(sm.get_all_groups_sync().len(), 2);
    sm.remove_group_sync(&10);
    assert!(sm.get_group_sync(&10).is_none());
}

#[test]
fn only_empty_transient_groups_are_removed() {
    let mut sm = StateManager::new(&[], 0, 0);
    sm.add_group_sync(group(10, "team", false));
    sm.add_group_sync(group(11, "kept", true));
    sm.add_player_sync(1, "a".to_string());
    sm.set_player_group_sync(&1, Some(10));
    assert!(!sm.remove_if_empty_sync(&10));
    assert!(sm.get_group_sync(&10).is_some());
    sm.set_player_group_sync(&1, None);
    assert!(sm.remove_if_empty_sync(&10));
    assert!(sm.get_group_sync(&10).is_none());
    assert!(!sm.remove_if_empty_sync(&11));
    assert!(!sm.remove_if_empty_sync(&12));
}

#[test]
fn rate_limit_through_the_state() {
    let mut sm = StateManager::new(&[], 1, 1);
    assert!(sm.allow_packet(5));
    assert!(!sm.allow_packet(5));
    sm.on_player_logged_out(5);
    assert!(sm.allow_packet(5));
}
