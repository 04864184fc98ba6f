use pumpkin_voice::config::{
    bind_host, bind_port, codec_id, config_folder, keep_alive_ticks, login_timeout_ticks, str_eq, voice_port,
};
use pumpkin_voice::util::{uuid_to_wit_uuid, wit_uuid_to_uuid, WitUuid};

#[test]
fn codec_names() {
    assert_eq!(codec_id("VOIP"), 0);
    assert_eq!(codec_id("AUDIO"), 1);
    assert_eq!(codec_id("RESTRICTED_LOWDELAY"), 2);
    assert_eq!(codec_id("voip"), 0);
    assert_eq!(codec_id(""), 0);
}

#[test]
fn ports_and_hosts() {
    assert_eq!(voice_port(-1, 25565), 25565);
    assert_eq!(voice_port(1234, 25565), 1234);
    assert_eq!(voice_port(24454, 25565), 24454);
    assert_eq!(bind_port(-1, 25565), 25565);
    assert_eq!(bind_port(-1, 30000), 30000);
    assert_eq!(bind_port(70000, 25565), 4464);
    assert_eq!(bind_port(-2, 25565), 65534);
    assert_eq!(bind_host(""), "0.0.0.0");
    assert_eq!(bind_host("127.0.0.1"), "127.0.0.1");
}

#[test]
fn login_timeout_in_ticks() {
    assert_eq!(login_timeout_ticks(10000), 200);
    assert_eq!(login_timeout_ticks(49), 0);
    assert_eq!(login_timeout_ticks(-49), 0);
    assert_eq!(login_timeout_ticks(-100), (-2i64) as u64);
}

#[test]
fn string_equality() {
    assert!(str_eq("abc", "abc"));
    assert!(!str_eq("abc", "abd"));
    assert!(!str_eq("abc", "ab"));
}

#[test]
fn wit_ids_and_uuids() {
    let w = WitUuid { high: 0x0102_0304_0506_0708, low: 0x090a_0b0c_0d0e_0f10 };
    let u = wit_uuid_to_uuid(w);
    assert_eq!(u, 0x0102_0304_0506_0708_090a_0b0c_0d0e_0f10);
    assert_eq!(uuid_to_wit_uuid(u), w);
    assert_eq!(uuid_to_wit_uuid(u128::MAX), WitUuid { high: u64::MAX, low: u64::MAX });
}

#[test]
fn keep_alive_interval_in_ticks() {
    assert_eq!(keep_alive_ticks(1000), 20);
    assert_eq!(keep_alive_ticks(120), 2);
    assert_eq!(keep_alive_ticks(99), 1);
    assert_eq!(keep_alive_ticks(0), 1);
    assert_eq!(keep_alive_ticks(-5), 1);
}

#[test]
fn config_folder_paths() {
    assert_eq!(config_folder("plugins\\pumpkin_voice\\"), "plugins/pumpkin_voice");
    assert_eq!(config_folder("/plugins/voice/"), "plugins/voice");
    assert_eq!(config_folder("//\\"), "");
    assert_eq!(config_folder(""), "");
    assert_eq!(config_folder("a\\\\b"), "a//b");
    assert_eq!(config_folder("données/vox"), "données/vox");
}
