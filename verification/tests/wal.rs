use ferricula::wal::{decode_frames, encode_frame, TruncatedEntry};

#[test]
fn frame_is_length_then_payload() {
    assert_eq!(encode_frame(&[9, 8, 7]), vec![3, 0, 0, 0, 9, 8, 7]);
    assert_eq!(encode_frame(&[]), vec![0, 0, 0, 0]);
    let big = vec![1u8; 300];
    let f = encode_frame(&big);
    assert_eq!(&f[..4], &[44, 1, 0, 0]);
    assert_eq!(f.len(), 304);
}

#[test]
fn frames_read_back_in_order() {
    let mut log = Vec::new();
    log.extend(encode_frame(b"first"));
    log.extend(encode_frame(b""));
    log.extend(encode_frame(b"third entry"));
    let entries = decode_frames(&log).unwrap();
    assert_eq!(entries, vec![b"first".to_vec(), Vec::new(), b"third entry".to_vec()]);
}

#[test]
fn partial_length_at_end_is_ignored() {
    let mut log = encode_frame(b"ok");
    log.extend([5, 0]);
    assert_eq!(decode_frames(&log).unwrap(), vec![b"ok".to_vec()]);
    assert!(decode_frames(&[]).unwrap().is_empty());
}

#[test]
fn cut_entry_is_an_error() {
    let mut log = encode_frame(b"ok");
    log.extend([10, 0, 0, 0, 1, 2]);
    assert_eq!(
        decode_frames(&log),
        Err(TruncatedEntry::At { offset: 6, needed: 10, available: 2 })
    );
}
