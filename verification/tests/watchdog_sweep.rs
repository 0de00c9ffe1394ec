use plc_gateway::conn::ConnectionState;
use plc_gateway::frame::{encode_frame, INT_COUNT, REAL_COUNT, WORD_COUNT};
use plc_gateway::registry::Registry;
use plc_gateway::watchdog::watchdog_tick;

fn ip(s: &str) -> String {
    s.to_string()
}

fn one_frame() -> Vec<u8> {
    encode_frame(
        &vec![0u16; WORD_COUNT],
        &vec![0i16; INT_COUNT],
        &vec![0u32; REAL_COUNT],
    )
}

#[test]
fn inactivity_reaping() {
    let mut reg = Registry::new();
    reg.mark_running();
    reg.accept_peer(&ip("10.0.0.8"), 0);
    let mut state = ConnectionState::new(1, ip("10.0.0.8"), 0);
    let frames = state.on_data(&mut reg, &one_frame(), 0, "t");
    assert_eq!(frames.len(), 1);
    // Just before the limit nothing happens.
    let report = watchdog_tick(&mut reg, 180, 1);
    assert!(report.dead.is_empty());
    assert_eq!(reg.active_connections, 1);
    // Past it the peer is reaped.
    let report = watchdog_tick(&mut reg, 181, 2);
    assert_eq!(report.dead, vec!["10.0.0.8".to_string()]);
    assert!(reg.get_connected_clients().is_empty());
    assert_eq!(reg.active_connections, 0);
    // The id and the cached packet survive the reaping.
    assert!(reg.get_plc_data(&ip("10.0.0.8")).is_some());
    assert_eq!(reg.get_all_known_plcs().len(), 1);
}

#[test]
fn slow_peers_warned_on_schedule() {
    let mut reg = Registry::new();
    reg.mark_running();
    reg.accept_peer(&ip("10.0.0.1"), 0);
    reg.accept_peer(&ip("10.0.0.2"), 0);
    reg.record_read(&ip("10.0.0.2"), 10, 100, 10);
    // At t=120: peer 1 silent for 120s (slow), peer 2 for 20s (fine).
    let report = watchdog_tick(&mut reg, 120, 15);
    assert_eq!(report.slow, vec!["10.0.0.1".to_string()]);
    assert_eq!(reg.active_connections, 2);
    // Off-schedule ticks warn nobody.
    let report = watchdog_tick(&mut reg, 121, 16);
    assert!(report.slow.is_empty());
}

#[test]
fn cache_trim_on_schedule() {
    let mut reg = Registry::new();
    reg.accept_peer(&ip("10.0.0.1"), 0);
    reg.accept_peer(&ip("10.0.0.2"), 0);
    let mut s1 = ConnectionState::new(1, ip("10.0.0.1"), 0);
    let mut s2 = ConnectionState::new(2, ip("10.0.0.2"), 0);
    s1.on_data(&mut reg, &one_frame(), 0, "t");
    s2.on_data(&mut reg, &one_frame(), 250, "t");
    // An off-schedule tick trims nothing.
    let report = watchdog_tick(&mut reg, 400, 149);
    assert!(!report.trimmed_cache);
    assert!(reg.get_plc_data(&ip("10.0.0.1")).is_some());
    // On schedule, only entries older than the TTL are dropped.
    let report = watchdog_tick(&mut reg, 400, 150);
    assert!(report.trimmed_cache);
    assert!(reg.get_plc_data(&ip("10.0.0.1")).is_none());
    assert!(reg.get_plc_data(&ip("10.0.0.2")).is_some());
}

#[test]
fn byte_counters_reset_daily() {
    let mut reg = Registry::new();
    reg.accept_peer(&ip("10.0.0.1"), 0);
    reg.record_read(&ip("10.0.0.1"), 500, 1, 500);
    let report = watchdog_tick(&mut reg, 10, 43199);
    assert!(!report.reset_bytes);
    assert_eq!(reg.get_bytes_received().len(), 1);
    let report = watchdog_tick(&mut reg, 10, 43200);
    assert!(report.reset_bytes);
    assert!(reg.get_bytes_received().is_empty());
}

#[test]
fn reaping_is_gated_once() {
    let mut reg = Registry::new();
    reg.accept_peer(&ip("10.0.0.1"), 0);
    let report = watchdog_tick(&mut reg, 200, 1);
    assert_eq!(report.dead.len(), 1);
    // A second sweep finds nothing left to reap.
    let report = watchdog_tick(&mut reg, 200, 2);
    assert!(report.dead.is_empty());
}
