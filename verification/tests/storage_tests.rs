use raftkv::storage::{
    decode_current_term, decode_voted_for, encode_hard_state, log_key, u64_from_be, StorageError,
};

#[test]
fn log_keys_are_big_endian() {
    assert_eq!(log_key(1), [0, 0, 0, 0, 0, 0, 0, 1]);
    assert_eq!(log_key(0x0102_0304_0506_0708), [1, 2, 3, 4, 5, 6, 7, 8]);
    assert_eq!(log_key(256), 256u64.to_be_bytes());
    assert!(log_key(255) < log_key(256));
}

#[test]
fn term_round_trips() {
    for t in [0u64, 1, 42, u64::MAX] {
        let (term_bytes, _) = encode_hard_state(t, None);
        assert_eq!(decode_current_term(Some(&term_bytes[..])), t);
        assert_eq!(u64_from_be(&term_bytes), t);
    }
    assert_eq!(decode_current_term(None), 0);
}

#[test]
fn vote_round_trips() {
    let (_, vote) = encode_hard_state(3, Some("node2"));
    assert_eq!(vote, b"node2".to_vec());
    assert_eq!(decode_voted_for(Some(vote)), Ok(Some("node2".to_string())));
    let (_, none) = encode_hard_state(3, None);
    assert!(none.is_empty());
    assert_eq!(decode_voted_for(Some(none)), Ok(None));
    assert_eq!(decode_voted_for(None), Ok(None));
    // The empty ID reads back as no vote.
    let (_, empty) = encode_hard_state(3, Some(""));
    assert_eq!(decode_voted_for(Some(empty)), Ok(None));
}

#[test]
fn invalid_vote_bytes_are_an_error() {
    assert_eq!(decode_voted_for(Some(vec![0xff, 0xfe])), Err(StorageError::InvalidUtf8));
}

#[test]
fn log_keys_sort_like_indices() {
    let samples = [0u64, 1, 255, 256, 65535, 65536, 1 << 40, u64::MAX - 1, u64::MAX];
    for &a in &samples {
        for &b in &samples {
            assert_eq!(log_key(a) < log_key(b), a < b);
        }
    }
}
