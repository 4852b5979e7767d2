use edge_physics::client::{LogReader, LogWriter, RapierPhysicsPlugin};
use edge_physics::input::{key_code_from_char, key_code_from_i32, ButtonState, InputState, KeyCode};
use edge_physics::settings::{run_label, PhysicsPlugin, Room};
use edge_physics::telemetry::{Log, NetworkLog, PluginLog, TimeLog};

#[test]
fn plugin_labels() {
    assert_eq!(PhysicsPlugin::Default.label(), "default");
    let none = PhysicsPlugin::Server { compress: None, address: "h:1".to_string() };
    assert_eq!(none.label(), "server_none");
    let three = PhysicsPlugin::Server { compress: Some(3), address: "h:1".to_string() };
    assert_eq!(three.label(), "server_3");
    let big = PhysicsPlugin::Server { compress: Some(1234567890), address: String::new() };
    assert_eq!(big.label(), "server_1234567890");
}

#[test]
fn plugin_compression_level() {
    assert_eq!(PhysicsPlugin::Default.compression(), None);
    assert_eq!(PhysicsPlugin::Server { compress: Some(1), address: String::new() }.compression(), Some(1));
    assert_eq!(PhysicsPlugin::Server { compress: None, address: String::new() }.compression(), None);
}

#[test]
fn run_labels() {
    let p = PhysicsPlugin::Server { compress: Some(1), address: "a".to_string() };
    assert_eq!(run_label(&p, 8000, "ball"), "server_1_8000_ball");
    assert_eq!(run_label(&PhysicsPlugin::Default, 0, "cuboid"), "default_0_cuboid");
    assert_ne!(Room::Open, Room::Closed);
}

#[test]
fn key_codes() {
    assert_eq!(key_code_from_i32(0), KeyCode::Up);
    assert_eq!(key_code_from_i32(1), KeyCode::Right);
    assert_eq!(key_code_from_i32(2), KeyCode::Down);
    assert_eq!(key_code_from_i32(3), KeyCode::Left);
    assert_eq!(key_code_from_char('w'), KeyCode::W);
    assert_eq!(key_code_from_char('a'), KeyCode::A);
    assert_eq!(key_code_from_char('s'), KeyCode::S);
    assert_eq!(key_code_from_char('d'), KeyCode::D);
}

#[test]
fn press_and_release_cancel_out() {
    let mut s = InputState::new();
    s.press(KeyCode::Up);
    s.release(KeyCode::Up);
    assert!(s.take_events().is_empty());
    s.release(KeyCode::Left);
    s.press(KeyCode::Left);
    assert!(s.take_events().is_empty());
}

#[test]
fn events_are_handed_out_once() {
    let mut s = InputState::new();
    s.press(KeyCode::W);
    s.press(KeyCode::W);
    s.release(KeyCode::D);
    let events = s.take_events();
    assert_eq!(events, vec![(KeyCode::W, ButtonState::Pressed), (KeyCode::D, ButtonState::Released)]);
    assert!(s.take_events().is_empty());
}

#[test]
fn plugin_log_from_round() {
    let log = Log { physics_time: 10, compress_time: 20, decompress_time: 30 };
    let up = NetworkLog { raw: 100, compressed: 40 };
    let down = NetworkLog { raw: 200, compressed: 90 };
    let client = TimeLog { compress: 1, decompress: 2 };
    let r = PluginLog::from_round(&log, 500, up, down, client);
    assert_eq!(r.physics_time, 10);
    assert_eq!(r.network_time, 500);
    assert_eq!(r.uplink, up);
    assert_eq!(r.downlink, down);
    assert_eq!(r.client, client);
    assert_eq!(r.server, TimeLog { compress: 20, decompress: 30 });
    assert_eq!(PluginLog::default().uplink, NetworkLog::default());
    assert_eq!(Log::default().physics_time, 0);
}

#[test]
fn byte_counters() {
    let mut r = LogReader::new(5u8);
    r.record(10);
    r.record(7);
    assert_eq!(r.read_bytes, 17);
    assert_eq!(r.reader, 5);
    r.record(usize::MAX);
    assert_eq!(r.read_bytes, usize::MAX);
    let mut w = LogWriter::new(());
    w.record(3);
    assert_eq!(w.written_bytes, 3);
}

#[test]
fn plugin_keeps_its_address() {
    assert_eq!(RapierPhysicsPlugin::new("10.0.0.1:4001").address, "10.0.0.1:4001");
}

use edge_physics::client::SyncedEntities;
use edge_physics::physics::{BodyHandle, ColliderHandle};

#[test]
fn only_unsynced_entities_are_sent() {
    let mut synced = SyncedEntities::new();
    let candidates = vec![3u64, 1, 2];
    assert_eq!(synced.bodies_to_send(&candidates), vec![3, 1, 2]);
    let b = BodyHandle { index: 0, generation: 0 };
    let c = ColliderHandle { index: 5, generation: 1 };
    synced.record(&vec![(1, b)], &vec![(2, c)]);
    assert_eq!(synced.bodies_to_send(&candidates), vec![3, 2]);
    assert_eq!(synced.colliders_to_send(&candidates), vec![3, 1]);
    assert_eq!(synced.body_of(1), Some(b));
    assert_eq!(synced.body_of(2), None);
    synced.record(&vec![(3, BodyHandle { index: 1, generation: 0 }), (2, BodyHandle { index: 2, generation: 0 })], &vec![]);
    assert!(synced.bodies_to_send(&candidates).is_empty());
}
