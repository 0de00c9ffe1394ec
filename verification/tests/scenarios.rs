use plc_gateway::conn::{ConnectionResult, ConnectionState, ReadEvent, StepOutcome};
use plc_gateway::frame::{encode_frame, INT_COUNT, REAL_COUNT, WORD_COUNT};
use plc_gateway::registry::{AcceptDecision, Registry};

fn ip(s: &str) -> String {
    s.to_string()
}

fn one_frame() -> Vec<u8> {
    let mut words = vec![0u16; WORD_COUNT];
    words[0] = 7;
    let mut ints = vec![0i16; INT_COUNT];
    ints[64] = -3;
    let mut reals = vec![0u32; REAL_COUNT];
    reals[256] = 2.5f32.to_bits();
    encode_frame(&words, &ints, &reals)
}

#[test]
fn happy_path_five_frames_then_close() {
    let mut reg = Registry::new();
    reg.mark_running();
    let peer = ip("10.0.0.5");
    let conn_id = match reg.accept_peer(&peer, 1000) {
        AcceptDecision::Accepted { conn_id, .. } => conn_id,
        AcceptDecision::Refused => panic!("unexpected refusal"),
    };
    let mut state = ConnectionState::new(conn_id, peer.clone(), 1000);
    let mut published = 0usize;
    for i in 0..5u64 {
        // Two frames per second: the wall clock advances every other read.
        let now = 1000 + i / 2;
        match state.step(&mut reg, now, "2024-05-01T00:00:00+00:00", ReadEvent::Data(one_frame()))
        {
            StepOutcome::Continue(frames) => published += frames.len(),
            _ => panic!("expected a continue"),
        }
    }
    assert_eq!(published, 5);
    let packet = reg.get_plc_data(&peer).unwrap();
    assert_eq!(packet.size, 1288);
    assert_eq!(packet.ip, "10.0.0.5");
    let names: Vec<&str> = packet.variables.iter().map(|v| v.name.as_str()).collect();
    assert!(names.contains(&"Word[0]"));
    assert!(names.contains(&"Int[64]"));
    assert!(names.contains(&"Real[256]"));
    match state.step(&mut reg, 1003, "t", ReadEvent::Closed) {
        StepOutcome::Exit(ConnectionResult::Normal(total)) => assert_eq!(total, 6440),
        _ => panic!("expected a normal exit"),
    }
    assert!(reg.finish_connection(&peer));
    assert!(reg.get_connected_clients().is_empty());
    let health = reg.get_connection_health(1003);
    assert!(health.is_empty());
}

#[test]
fn health_mirrors_the_handler() {
    let mut reg = Registry::new();
    reg.mark_running();
    let peer = ip("10.0.0.5");
    reg.accept_peer(&peer, 1000);
    let mut state = ConnectionState::new(1, peer.clone(), 1000);
    state.on_data(&mut reg, &one_frame(), 1001, "t");
    state.on_data(&mut reg, &one_frame(), 1002, "t");
    let infos = reg.get_connection_health(1002);
    assert_eq!(infos.len(), 1);
    assert_eq!(infos[0].total_bytes, 2576);
    assert_eq!(infos[0].packet_count, 2);
    assert_eq!(infos[0].seconds_since_last_data, 0);
    assert_eq!(infos[0].connected_secs, 2);
}

#[test]
fn retry_backoff_doubles_to_the_cap() {
    let mut retry = plc_gateway::client::RetryState::new();
    let mut delays = Vec::new();
    let mut logs = 0;
    let mut beats = 0;
    for _ in 0..10 {
        let a = retry.on_failure();
        if a.log_error {
            logs += 1;
        }
        if a.heartbeat {
            beats += 1;
        }
        delays.push(retry.next_delay());
    }
    assert_eq!(delays, vec![2, 4, 8, 16, 30, 30, 30, 30, 30, 30]);
    assert_eq!(logs, 2);
    assert_eq!(beats, 1);
    retry.on_connected();
    assert_eq!(retry.retry_count, 0);
    assert_eq!(retry.next_delay(), 2);
}
