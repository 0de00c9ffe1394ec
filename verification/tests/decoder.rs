use plc_gateway::frame::{
    encode_frame, parse_plc_packet, parse_plc_packet_now, DecodeError, EXPECTED_PACKET_SIZE,
    INT_COUNT, REAL_COUNT, WORD_COUNT,
};
use plc_gateway::realfmt::format_real;
use plc_gateway::decimal::u64_to_decimal;

fn sample_values() -> (Vec<u16>, Vec<i16>, Vec<u32>) {
    let mut words = Vec::new();
    for i in 0..WORD_COUNT {
        words.push((i * 7 % 65536) as u16);
    }
    let mut ints = Vec::new();
    for i in 0..INT_COUNT {
        ints.push((i as i32 * 91 - 2900) as i16);
    }
    let mut reals = Vec::new();
    for i in 0..REAL_COUNT {
        reals.push((i as f32 * 1.5 - 20.25).to_bits());
    }
    (words, ints, reals)
}

#[test]
fn round_trip_exact_values() {
    let (words, ints, reals) = sample_values();
    let buf = encode_frame(&words, &ints, &reals);
    assert_eq!(buf.len(), EXPECTED_PACKET_SIZE);
    let (frame, vars) = parse_plc_packet(&buf, "t".to_string()).unwrap();
    assert_eq!(frame.words, words);
    assert_eq!(frame.ints, ints);
    assert_eq!(frame.real_bits, reals);
    assert_eq!(frame.timestamp, "t");
    assert_eq!(frame.total_bytes, EXPECTED_PACKET_SIZE);
    assert_eq!(vars.len(), WORD_COUNT + INT_COUNT + REAL_COUNT);
}

#[test]
fn round_trip_boundary_values() {
    let mut words = vec![0u16; WORD_COUNT];
    words[0] = u16::MAX;
    words[64] = 1;
    let mut ints = vec![0i16; INT_COUNT];
    ints[0] = i16::MIN;
    ints[1] = i16::MAX;
    ints[64] = -1;
    let mut reals = vec![0u32; REAL_COUNT];
    reals[0] = f32::MAX.to_bits();
    reals[1] = f32::MIN_POSITIVE.to_bits();
    reals[256] = (-0.0f32).to_bits();
    let buf = encode_frame(&words, &ints, &reals);
    let (frame, _) = parse_plc_packet(&buf, "t".to_string()).unwrap();
    assert_eq!(frame.words, words);
    assert_eq!(frame.ints, ints);
    assert_eq!(frame.real_bits, reals);
}

#[test]
fn short_frame_is_rejected() {
    let buf = vec![0u8; EXPECTED_PACKET_SIZE - 1];
    assert_eq!(
        parse_plc_packet(&buf, "t".to_string()).unwrap_err(),
        DecodeError::ShortFrame
    );
    let empty: Vec<u8> = Vec::new();
    assert_eq!(
        parse_plc_packet(&empty, "t".to_string()).unwrap_err(),
        DecodeError::ShortFrame
    );
}

#[test]
fn extra_bytes_are_ignored() {
    let (words, ints, reals) = sample_values();
    let mut buf = encode_frame(&words, &ints, &reals);
    buf.push(0xAA);
    buf.push(0xBB);
    let (frame, _) = parse_plc_packet(&buf, "t".to_string()).unwrap();
    assert_eq!(frame.words, words);
    assert_eq!(frame.total_bytes, EXPECTED_PACKET_SIZE + 2);
}

#[test]
fn variable_names_types_and_values() {
    let mut words = vec![0u16; WORD_COUNT];
    words[0] = 513;
    let mut ints = vec![0i16; INT_COUNT];
    ints[64] = -513;
    let mut reals = vec![0u32; REAL_COUNT];
    reals[256] = 1.5f32.to_bits();
    let buf = encode_frame(&words, &ints, &reals);
    let (_, vars) = parse_plc_packet(&buf, "t".to_string()).unwrap();
    assert_eq!(vars[0].name, "Word[0]");
    assert_eq!(vars[0].value, "513");
    assert_eq!(vars[0].data_type, "Word");
    assert_eq!(vars[0].unit, None);
    assert_eq!(vars[WORD_COUNT + 64].name, "Int[64]");
    assert_eq!(vars[WORD_COUNT + 64].value, "-513");
    assert_eq!(vars[WORD_COUNT + 64].data_type, "Int");
    assert_eq!(vars[WORD_COUNT + INT_COUNT + 256].name, "Real[256]");
    assert_eq!(vars[WORD_COUNT + INT_COUNT + 256].value, "1.5000");
    assert_eq!(vars[WORD_COUNT + INT_COUNT + 256].data_type, "Real");
}

#[test]
fn nonfinite_reals_become_zero_text() {
    let mut reals = vec![0u32; REAL_COUNT];
    reals[0] = f32::NAN.to_bits();
    reals[1] = f32::INFINITY.to_bits();
    reals[2] = f32::NEG_INFINITY.to_bits();
    let buf = encode_frame(&vec![0u16; WORD_COUNT], &vec![0i16; INT_COUNT], &reals);
    let (_, vars) = parse_plc_packet(&buf, "t".to_string()).unwrap();
    assert_eq!(vars[WORD_COUNT + INT_COUNT].value, "0.0");
    assert_eq!(vars[WORD_COUNT + INT_COUNT + 1].value, "0.0");
    assert_eq!(vars[WORD_COUNT + INT_COUNT + 2].value, "0.0");
    assert_eq!(vars[WORD_COUNT + INT_COUNT + 3].value, "0.0000");
}

#[test]
fn real_text_matches_std_formatting() {
    let cases: Vec<f32> = vec![
        0.0,
        -0.0,
        1.0,
        -1.0,
        1.5,
        0.1,
        -0.1,
        3.14159265,
        1234.56789,
        -9876.54321,
        0.00004,
        0.00005,
        0.000049999,
        1.0e-10,
        -1.0e-10,
        1.0e10,
        -1.0e10,
        3.4028235e38,
        -3.4028235e38,
        1.1754944e-38,
        1.0e-45,
        262144.03125,
        -262144.03125,
        65504.0,
        123456792.0,
    ];
    for v in cases {
        let bits = v.to_bits();
        assert_eq!(
            format_real(bits),
            format!("{:.4}", v),
            "bit pattern {:#010x} ({})",
            bits,
            v
        );
    }
    let mut bits: u32 = 0x0134_9876;
    for _ in 0..4000 {
        bits = bits.wrapping_mul(1664525).wrapping_add(1013904223);
        let v = f32::from_bits(bits);
        if v.is_finite() {
            assert_eq!(format_real(bits), format!("{:.4}", v), "bits {:#010x}", bits);
        }
    }
}

#[test]
fn decimal_rendering() {
    assert_eq!(u64_to_decimal(0), "0");
    assert_eq!(u64_to_decimal(7), "7");
    assert_eq!(u64_to_decimal(10), "10");
    assert_eq!(u64_to_decimal(65535), "65535");
    assert_eq!(u64_to_decimal(u64::MAX), "18446744073709551615");
}

#[test]
fn wall_clock_decode_stamps_a_timestamp() {
    let (words, ints, reals) = sample_values();
    let buf = encode_frame(&words, &ints, &reals);
    let (frame, _) = parse_plc_packet_now(&buf).unwrap();
    assert!(!frame.timestamp.is_empty());
    assert!(frame.timestamp.contains('T'));
}
