use ferricula::clock::{
    epoch_to_iso8601, hex_decode, parse_entropy_hex, parse_epoch, radio_endpoint, ClockConfig, ClockState,
    EntropyReservoir,
};

#[test]
fn hex_decode_valid() {
    assert_eq!(hex_decode("deadbeef"), vec![0xde, 0xad, 0xbe, 0xef]);
    assert_eq!(hex_decode("00ff"), vec![0x00, 0xff]);
    let empty: Vec<u8> = vec![];
    assert_eq!(hex_decode(""), empty);
}

#[test]
fn hex_decode_invalid() {
    let empty: Vec<u8> = vec![];
    assert_eq!(hex_decode("0"), empty); // odd length
    assert_eq!(hex_decode("zz"), empty); // invalid chars
}

#[test]
fn reservoir_caps_at_limit() {
    let mut r = EntropyReservoir::new(4);
    r.deposit(&[1, 2, 3, 4, 5, 6, 7, 8]);
    assert_eq!(r.len(), 4);
    // Keeps the tail (most recent)
    assert_eq!(r.consume(4), vec![5, 6, 7, 8]);
}

#[test]
fn config_defaults() {
    // Don't set env vars — should use defaults
    let config = ClockConfig {
        radio_host: "localhost".into(),
        radio_port: 9080,
        tick_secs: 60,
        dream_threshold_bytes: 16,
    };
    assert_eq!(config.radio_port, 9080);
    assert_eq!(config.tick_secs, 60);
}

#[test]
fn reservoir_deposit_and_consume_in_order() {
    let mut r = EntropyReservoir::new(8);
    assert_eq!(r.len(), 0);
    r.deposit(&[1, 2, 3, 4]);
    assert_eq!(r.len(), 4);
    let drained = r.consume(2);
    assert_eq!(drained, vec![1, 2]);
    assert_eq!(r.len(), 2);
    assert_eq!(r.consume(10), vec![3, 4]);
    assert_eq!(r.len(), 0);
}

#[test]
fn hex_decode_mixed_case() {
    assert_eq!(hex_decode("DeAdBeEf"), vec![0xde, 0xad, 0xbe, 0xef]);
}

#[test]
fn iso8601_known_instants() {
    assert_eq!(epoch_to_iso8601(0), "1970-01-01T00:00:00Z");
    assert_eq!(epoch_to_iso8601(1740700800), "2025-02-28T00:00:00Z");
    assert_eq!(epoch_to_iso8601(1772150400 + 3723), "2026-02-27T01:02:03Z");
}

#[test]
fn radio_endpoint_parses_host_and_port() {
    let (host, port) = radio_endpoint("http://radio.local:9080");
    assert_eq!(host, "radio.local");
    assert_eq!(port, 9080);
}

#[test]
fn clock_state_starts_unavailable() {
    let s = ClockState::new();
    assert!(!s.was_available);
    assert_eq!(s.reservoir.len(), 0);
}

#[test]
fn clock_settings_defaults_and_overrides() {
    let d = ferricula::clock::ClockConfig::from_settings(None, None, None);
    assert_eq!(d.radio_host, "localhost");
    assert_eq!(d.radio_port, 9080);
    assert_eq!(d.tick_secs, 60);
    assert_eq!(d.dream_threshold_bytes, 16);
    let c = ferricula::clock::ClockConfig::from_settings(Some("http://radio.local:7000/"), Some("5"), Some("x"));
    assert_eq!(c.radio_host, "radio.local");
    assert_eq!(c.radio_port, 7000);
    assert_eq!(c.tick_secs, 5);
    assert_eq!(c.dream_threshold_bytes, 16);
}

/// The fraction of a request the reservoir can satisfy, from its length.
fn intensity(r: &EntropyReservoir, request_size: usize) -> f32 {
    if request_size == 0 {
        return 1.0;
    }
    (r.len() as f32 / request_size as f32).min(1.0)
}

#[test]
fn reservoir_basics() {
    let mut r = EntropyReservoir::new(8);
    assert_eq!(r.len(), 0);
    assert_eq!(intensity(&r, 64), 0.0);

    r.deposit(&[1, 2, 3, 4]);
    assert_eq!(r.len(), 4);

    let drained = r.consume(2);
    assert_eq!(drained, vec![1, 2]);
    assert_eq!(r.len(), 2);
}

#[test]
fn hex_round_trip_with_whitespace_and_case() {
    let bytes = vec![0x00u8, 0x7f, 0xab, 0xff, 0x10];
    let lower: String = bytes.iter().map(|b| format!("{:02x}", b)).collect();
    let upper: String = bytes.iter().map(|b| format!("{:02X}", b)).collect();
    assert_eq!(hex_decode(&format!(" \t{}\n", lower)), bytes);
    assert_eq!(hex_decode(&format!("\u{3000}{}\u{a0}", upper)), bytes);
    let empty: Vec<u8> = vec![];
    assert_eq!(hex_decode("abc"), empty);
    assert_eq!(hex_decode("ab g0"), empty);
}

#[test]
fn clock_run_over_several_ticks() {
    let mut state = ClockState::new();
    let a = state.tick(None, &[1u8; 10], true, 5, 16);
    assert_eq!(a.status_change, Some(true));
    assert_eq!(a.tick_epoch, 5);
    assert_eq!(a.tick_entropy_bytes, 10);
    assert!(a.dream.is_none());
    let b = state.tick(Some(99), &[2u8; 10], true, 6, 16);
    assert_eq!(b.status_change, None);
    assert_eq!(b.tick_epoch, 99);
    assert_eq!(b.tick_entropy_bytes, 20);
    let d = b.dream.unwrap();
    assert_eq!(d.available_bytes, 20);
    assert_eq!(d.seed, [vec![1u8; 10], vec![2u8; 10]].concat());
    assert_eq!(b.reservoir_len, 0);
    let c = state.tick(None, &[], false, 7, 16);
    assert_eq!(c.status_change, Some(false));
    assert_eq!(c.tick_entropy_bytes, 0);
    assert!(c.dream.is_none());
}

#[test]
fn radio_replies_are_read() {
    assert_eq!(parse_epoch(" {\"epoch\": 1700000000, \"bpm\": 12}\n"), Some(1700000000));
    assert_eq!(parse_epoch("{\"epoch\": -3}"), None);
    assert_eq!(parse_epoch("{\"epoch\": \"7\"}"), None);
    assert_eq!(parse_epoch("{\"time\": 7}"), None);
    assert_eq!(parse_epoch("not json"), None);
    assert_eq!(parse_entropy_hex("{\"entropy_hex\": \"deadbeef\", \"bytes\": 4}"), vec![0xde, 0xad, 0xbe, 0xef]);
    let empty: Vec<u8> = vec![];
    assert_eq!(parse_entropy_hex("{\"entropy_hex\": \"xyz\"}"), empty);
    assert_eq!(parse_entropy_hex("{\"entropy_hex\": 12}"), empty);
    assert_eq!(parse_entropy_hex("{}"), empty);
    assert_eq!(parse_entropy_hex(""), empty);
}
