use plc_gateway::conn::{
    ConnectionResult, ConnectionState, ReadEvent, StepOutcome, TimeoutKind, MAX_ACCUMULATOR_SIZE,
};
use plc_gateway::frame::{encode_frame, EXPECTED_PACKET_SIZE, INT_COUNT, REAL_COUNT, WORD_COUNT};
use plc_gateway::registry::{AcceptDecision, Registry};

fn admitted(ip: &str, now: u64) -> (Registry, ConnectionState) {
    let mut reg = Registry::new();
    reg.mark_running();
    let ip = ip.to_string();
    let conn_id = match reg.accept_peer(&ip, now) {
        AcceptDecision::Accepted { conn_id, .. } => conn_id,
        AcceptDecision::Refused => panic!("unexpected refusal"),
    };
    let state = ConnectionState::new(conn_id, ip, now);
    (reg, state)
}

fn one_frame() -> Vec<u8> {
    let mut words = vec![0u16; WORD_COUNT];
    words[0] = 42;
    encode_frame(&words, &vec![0i16; INT_COUNT], &vec![0u32; REAL_COUNT])
}

#[test]
fn exact_frame_empties_accumulator() {
    let (mut reg, mut state) = admitted("10.0.0.1", 100);
    let data = one_frame();
    assert_eq!(data.len(), 1288);
    let frames = state.on_data(&mut reg, &data, 100, "t");
    assert_eq!(frames.len(), 1);
    assert_eq!(frames[0].words[0], 42);
    assert!(state.accumulator.is_empty());
    assert_eq!(state.packet_count, 1);
}

#[test]
fn split_frame_emits_after_second_read() {
    let (mut reg, mut state) = admitted("10.0.0.1", 100);
    let data = one_frame();
    let first: Vec<u8> = data[..644].to_vec();
    let second: Vec<u8> = data[644..].to_vec();
    let frames = state.on_data(&mut reg, &first, 100, "t");
    assert_eq!(frames.len(), 0);
    assert_eq!(state.accumulator.len(), 644);
    let frames = state.on_data(&mut reg, &second, 101, "t");
    assert_eq!(frames.len(), 1);
    assert!(state.accumulator.is_empty());
}

#[test]
fn double_frame_emits_two_in_order() {
    let (mut reg, mut state) = admitted("10.0.0.1", 100);
    let mut words = vec![0u16; WORD_COUNT];
    words[0] = 1;
    let f1 = encode_frame(&words, &vec![0i16; INT_COUNT], &vec![0u32; REAL_COUNT]);
    words[0] = 2;
    let f2 = encode_frame(&words, &vec![0i16; INT_COUNT], &vec![0u32; REAL_COUNT]);
    let mut data = f1;
    data.extend_from_slice(&f2);
    assert_eq!(data.len(), 2576);
    let frames = state.on_data(&mut reg, &data, 100, "t");
    assert_eq!(frames.len(), 2);
    assert_eq!(frames[0].words[0], 1);
    assert_eq!(frames[1].words[0], 2);
    assert!(state.accumulator.is_empty());
    assert_eq!(state.packet_count, 2);
}

#[test]
fn trailing_byte_stays_buffered() {
    let (mut reg, mut state) = admitted("10.0.0.1", 100);
    let mut data = one_frame();
    data.push(0x55);
    assert_eq!(data.len(), 1289);
    let frames = state.on_data(&mut reg, &data, 100, "t");
    assert_eq!(frames.len(), 1);
    assert_eq!(state.accumulator.len(), 1);
    assert_eq!(state.accumulator[0], 0x55);
}

#[test]
fn accumulator_overflow_clears_everything() {
    let (mut reg, mut state) = admitted("10.0.0.1", 100);
    let partial = vec![0u8; 1000];
    let frames = state.on_data(&mut reg, &partial, 100, "t");
    assert!(frames.is_empty());
    assert_eq!(state.accumulator.len(), 1000);
    let burst = vec![0u8; MAX_ACCUMULATOR_SIZE - 1000 + 1];
    let frames = state.on_data(&mut reg, &burst, 100, "t");
    assert!(frames.is_empty());
    assert!(state.accumulator.is_empty());
    assert_eq!(state.packet_count, 0);
}

#[test]
fn desync_recovers_after_clear() {
    let (mut reg, mut state) = admitted("10.0.0.1", 100);
    // A stream offset by one byte: the first decode misaligns, and the
    // accumulator eventually overflows and is cleared.
    let mut garbled = vec![0xEEu8];
    garbled.extend_from_slice(&one_frame());
    let frames = state.on_data(&mut reg, &garbled, 100, "t");
    assert_eq!(frames.len(), 1);
    assert_eq!(state.accumulator.len(), 1);
    let filler = vec![0xEEu8; MAX_ACCUMULATOR_SIZE];
    let frames = state.on_data(&mut reg, &filler, 101, "t");
    assert!(frames.is_empty());
    assert!(state.accumulator.is_empty());
    // Aligned frames parse correctly afterwards.
    let frames = state.on_data(&mut reg, &one_frame(), 102, "t");
    assert_eq!(frames.len(), 1);
    assert_eq!(frames[0].words[0], 42);
    assert!(state.accumulator.is_empty());
}

#[test]
fn server_stop_ends_the_step() {
    let (mut reg, mut state) = admitted("10.0.0.1", 100);
    reg.stop().unwrap();
    let out = state.step(&mut reg, 101, "t", ReadEvent::Closed);
    assert!(matches!(
        out,
        StepOutcome::Exit(ConnectionResult::ServerStopped)
    ));
}

#[test]
fn close_reports_total_bytes() {
    let (mut reg, mut state) = admitted("10.0.0.1", 100);
    let out = state.step(&mut reg, 100, "t", ReadEvent::Data(one_frame()));
    match out {
        StepOutcome::Continue(frames) => assert_eq!(frames.len(), 1),
        _ => panic!("expected a continue"),
    }
    let out = state.step(&mut reg, 101, "t", ReadEvent::Closed);
    match out {
        StepOutcome::Exit(ConnectionResult::Normal(total)) => assert_eq!(total, 1288),
        _ => panic!("expected a normal exit"),
    }
}

#[test]
fn io_error_marks_health_and_exits() {
    let (mut reg, mut state) = admitted("10.0.0.1", 100);
    let out = state.step(
        &mut reg,
        101,
        "t",
        ReadEvent::Failed("connection reset".to_string()),
    );
    match out {
        StepOutcome::Exit(ConnectionResult::Error(msg)) => {
            assert_eq!(msg, "connection reset");
        }
        _ => panic!("expected an error exit"),
    }
    let infos = reg.get_connection_health(101);
    assert_eq!(infos.len(), 1);
    assert!(!infos[0].is_alive);
    assert_eq!(infos[0].last_error.as_deref(), Some("connection reset"));
}

#[test]
fn third_consecutive_timeout_exits() {
    let (mut reg, mut state) = admitted("10.0.0.1", 100);
    for _ in 0..2 {
        let out = state.step(&mut reg, 101, "t", ReadEvent::TimedOut);
        match out {
            StepOutcome::Continue(frames) => assert!(frames.is_empty()),
            _ => panic!("expected a continue"),
        }
    }
    let out = state.step(&mut reg, 101, "t", ReadEvent::TimedOut);
    match out {
        StepOutcome::Exit(ConnectionResult::Timeout(
            TimeoutKind::ConsecutiveReadTimeouts { count },
        )) => assert_eq!(count, 3),
        _ => panic!("expected a timeout exit"),
    }
}

#[test]
fn data_resets_the_timeout_counter() {
    let (mut reg, mut state) = admitted("10.0.0.1", 100);
    state.step(&mut reg, 101, "t", ReadEvent::TimedOut);
    state.step(&mut reg, 102, "t", ReadEvent::TimedOut);
    state.step(&mut reg, 103, "t", ReadEvent::Data(vec![1, 2, 3]));
    assert_eq!(state.consecutive_timeouts, 0);
    state.step(&mut reg, 104, "t", ReadEvent::TimedOut);
    state.step(&mut reg, 105, "t", ReadEvent::TimedOut);
    let out = state.step(&mut reg, 106, "t", ReadEvent::TimedOut);
    assert!(matches!(
        out,
        StepOutcome::Exit(ConnectionResult::Timeout(_))
    ));
}

#[test]
fn inactivity_exit_carries_the_silence() {
    let (mut reg, mut state) = admitted("10.0.0.1", 100);
    let out = state.step(&mut reg, 281, "t", ReadEvent::TimedOut);
    match out {
        StepOutcome::Exit(ConnectionResult::Timeout(TimeoutKind::Inactivity {
            seconds_without_data,
        })) => assert_eq!(seconds_without_data, 181),
        _ => panic!("expected an inactivity exit"),
    }
}

#[test]
fn stale_fragments_are_cleared() {
    let (mut reg, mut state) = admitted("10.0.0.1", 100);
    state.step(&mut reg, 100, "t", ReadEvent::Data(vec![9u8; 100]));
    assert_eq!(state.accumulator.len(), 100);
    // Within the clear window the fragment stays.
    state.step(&mut reg, 100 + 90, "t", ReadEvent::TimedOut);
    assert_eq!(state.accumulator.len(), 100);
    // Past it, the fragment is dropped.
    state.step(&mut reg, 100 + 91, "t", ReadEvent::TimedOut);
    assert_eq!(state.accumulator.len(), 0);
}
