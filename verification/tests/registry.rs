use plc_gateway::laws::{blacklist_refuses_accept, reconnect_preserves_id};
use plc_gateway::registry::{AcceptDecision, AdminError, Registry};

fn ip(s: &str) -> String {
    s.to_string()
}

#[test]
fn admission_registers_everywhere() {
    let mut reg = Registry::new();
    reg.mark_running();
    let d = reg.accept_peer(&ip("10.0.0.5"), 50);
    assert_eq!(
        d,
        AcceptDecision::Accepted {
            conn_id: 1,
            preempted: false
        }
    );
    assert_eq!(reg.get_connected_clients(), vec!["10.0.0.5".to_string()]);
    assert_eq!(reg.active_connections, 1);
    assert_eq!(reg.total_connection_count, 1);
    let health = reg.get_connection_health(60);
    assert_eq!(health.len(), 1);
    assert_eq!(health[0].ip, "10.0.0.5");
    assert_eq!(health[0].conn_id, 1);
    assert_eq!(health[0].connected_secs, 10);
    assert_eq!(health[0].seconds_since_last_data, 10);
    assert!(health[0].is_alive);
    let known = reg.get_all_known_plcs();
    assert_eq!(known, vec![("10.0.0.5".to_string(), "connected".to_string())]);
}

#[test]
fn ids_are_monotone_per_peer() {
    let mut reg = Registry::new();
    assert_eq!(
        reg.accept_peer(&ip("10.0.0.1"), 0),
        AcceptDecision::Accepted {
            conn_id: 1,
            preempted: false
        }
    );
    assert_eq!(
        reg.accept_peer(&ip("10.0.0.2"), 0),
        AcceptDecision::Accepted {
            conn_id: 2,
            preempted: false
        }
    );
    assert_eq!(
        reg.accept_peer(&ip("10.0.0.3"), 0),
        AcceptDecision::Accepted {
            conn_id: 3,
            preempted: false
        }
    );
}

#[test]
fn reconnect_keeps_the_id() {
    let mut reg = Registry::new();
    assert_eq!(
        reg.accept_peer(&ip("10.0.0.6"), 0),
        AcceptDecision::Accepted {
            conn_id: 1,
            preempted: false
        }
    );
    assert!(reg.finish_connection(&ip("10.0.0.6")));
    assert_eq!(reg.active_connections, 0);
    assert_eq!(
        reg.accept_peer(&ip("10.0.0.6"), 9),
        AcceptDecision::Accepted {
            conn_id: 1,
            preempted: false
        }
    );
    let health = reg.get_connection_health(9);
    assert_eq!(health.len(), 1);
    assert_eq!(health[0].conn_id, 1);
    assert_eq!(health[0].connected_secs, 0);
}

#[test]
fn duplicate_admission_preempts() {
    let mut reg = Registry::new();
    reg.accept_peer(&ip("10.0.0.7"), 0);
    let d = reg.accept_peer(&ip("10.0.0.7"), 5);
    assert_eq!(
        d,
        AcceptDecision::Accepted {
            conn_id: 1,
            preempted: true
        }
    );
    let clients = reg.get_connected_clients();
    assert_eq!(clients, vec!["10.0.0.7".to_string()]);
    assert_eq!(reg.active_connections, 1);
}

#[test]
fn removal_clears_live_tables_only() {
    let mut reg = Registry::new();
    reg.accept_peer(&ip("10.0.0.8"), 0);
    assert!(reg.finish_connection(&ip("10.0.0.8")));
    assert!(reg.get_connected_clients().is_empty());
    assert!(reg.get_connection_health(1).is_empty());
    assert_eq!(reg.active_connections, 0);
    // The address stays known with a disconnected status.
    assert_eq!(
        reg.get_all_known_plcs(),
        vec![("10.0.0.8".to_string(), "disconnected".to_string())]
    );
    // A second removal attempt loses the race.
    assert!(!reg.finish_connection(&ip("10.0.0.8")));
}

#[test]
fn disconnect_blacklists_and_removes() {
    let mut reg = Registry::new();
    reg.mark_running();
    reg.accept_peer(&ip("10.0.0.9"), 0);
    assert_eq!(reg.disconnect_client(&ip("10.0.0.9")), Ok(()));
    assert!(reg.get_connected_clients().is_empty());
    assert_eq!(
        reg.get_all_known_plcs(),
        vec![("10.0.0.9".to_string(), "blocked".to_string())]
    );
    // A renewed accept is refused and mutates nothing.
    assert_eq!(reg.accept_peer(&ip("10.0.0.9"), 1), AcceptDecision::Refused);
    assert!(reg.get_connected_clients().is_empty());
    assert!(reg.get_connection_health(1).is_empty());
    assert_eq!(reg.active_connections, 0);
}

#[test]
fn disconnect_unknown_peer_still_blacklists() {
    let mut reg = Registry::new();
    assert_eq!(
        reg.disconnect_client(&ip("10.0.0.10")),
        Err(AdminError::NotConnected)
    );
    assert_eq!(reg.accept_peer(&ip("10.0.0.10"), 0), AcceptDecision::Refused);
}

#[test]
fn allow_reconnect_clears_the_blacklist() {
    let mut reg = Registry::new();
    reg.accept_peer(&ip("10.0.0.9"), 0);
    reg.disconnect_client(&ip("10.0.0.9")).unwrap();
    assert_eq!(reg.allow_reconnect(&ip("10.0.0.9")), Ok(()));
    assert_eq!(
        reg.allow_reconnect(&ip("10.0.0.9")),
        Err(AdminError::NotBlacklisted)
    );
    assert!(matches!(
        reg.accept_peer(&ip("10.0.0.9"), 2),
        AcceptDecision::Accepted { .. }
    ));
}

#[test]
fn law_reconnect_preserves_id() {
    let mut reg = Registry::new();
    reg.accept_peer(&ip("10.0.0.6"), 0);
    reg.accept_peer(&ip("10.0.0.77"), 0);
    let d = reconnect_preserves_id(&mut reg, &ip("10.0.0.77"), 30);
    assert_eq!(
        d,
        AcceptDecision::Accepted {
            conn_id: 2,
            preempted: false
        }
    );
}

#[test]
fn law_blacklist_refuses() {
    let mut reg = Registry::new();
    reg.accept_peer(&ip("10.0.0.9"), 0);
    let d = blacklist_refuses_accept(&mut reg, &ip("10.0.0.9"), 10);
    assert_eq!(d, AcceptDecision::Refused);
}

#[test]
fn stop_requires_running_and_clears_live_state() {
    let mut reg = Registry::new();
    assert_eq!(reg.stop(), Err(AdminError::NotRunning));
    reg.mark_running();
    reg.accept_peer(&ip("10.0.0.1"), 0);
    reg.accept_peer(&ip("10.0.0.2"), 0);
    assert_eq!(reg.stop(), Ok(()));
    assert!(!reg.is_running);
    assert!(reg.get_connected_clients().is_empty());
    assert_eq!(reg.active_connections, 0);
    // Ids and the set of known peers persist.
    assert_eq!(reg.get_all_known_plcs().len(), 2);
}

#[test]
fn connection_stats_report_status_words() {
    let mut reg = Registry::new();
    let s = reg.get_connection_stats();
    assert_eq!(s.active_connections, 0);
    assert_eq!(s.total_connections, 0);
    assert_eq!(s.server_status, "Parado");
    assert_eq!(s.plc_status, "Desconectado");
    reg.mark_running();
    reg.accept_peer(&ip("10.0.0.1"), 0);
    let s = reg.get_connection_stats();
    assert_eq!(s.active_connections, 1);
    assert_eq!(s.total_connections, 1);
    assert_eq!(s.server_status, "Rodando");
    assert_eq!(s.plc_status, "Conectado");
}

#[test]
fn byte_counters_accumulate_per_peer() {
    let mut reg = Registry::new();
    reg.accept_peer(&ip("10.0.0.1"), 0);
    reg.record_read(&ip("10.0.0.1"), 100, 1, 100);
    reg.record_read(&ip("10.0.0.1"), 50, 2, 150);
    let bytes = reg.get_bytes_received();
    assert_eq!(bytes, vec![("10.0.0.1".to_string(), 150u64)]);
    let stats = reg.get_connection_stats();
    assert_eq!(stats.last_data_time, 2);
}
