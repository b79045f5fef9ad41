use interaction_store::error::{FormatError, StreamError};
use interaction_store::recv_stream::RecvStream;
use interaction_store::send_stream::SendStream;

fn sample_send() -> SendStream {
    let mut s = SendStream::new([7; 16]);
    s.add_recipient([1; 32], b"alice".to_vec());
    s.add_recipient([2; 32], Vec::new());
    s.add_recipient([3; 32], vec![0xff, 0x00, 0x80]);
    s
}

#[test]
fn keys_and_usernames_stay_correlated() {
    let mut s = SendStream::new([0; 16]);
    assert_eq!(s.send_keys().len(), s.usernames().len());
    for i in 0..5u8 {
        s.add_recipient([i; 32], vec![i; i as usize]);
        assert_eq!(s.send_keys().len(), s.usernames().len());
        assert_eq!(s.len(), i as usize + 1);
    }
    assert_eq!(s.send_keys()[3], [3; 32]);
    assert_eq!(s.usernames()[3], vec![3, 3, 3]);
}

#[test]
fn send_stream_layout() {
    let mut s = SendStream::new([7; 16]);
    s.add_recipient([1; 32], b"ab".to_vec());
    let bytes = s.put();
    let mut expected = vec![7u8; 16];
    expected.extend_from_slice(&[1, 1]);
    expected.extend_from_slice(&[1; 32]);
    expected.extend_from_slice(&[1, 2, b'a', b'b']);
    assert_eq!(bytes, expected);
}

#[test]
fn send_stream_round_trip() {
    let s = sample_send();
    let back = SendStream::decode(&s.put()).unwrap();
    assert_eq!(back.id(), [7; 16]);
    assert_eq!(back.send_keys(), s.send_keys());
    assert_eq!(back.usernames(), s.usernames());
}

#[test]
fn missing_usernames_fail_with_correlation_mismatch() {
    let s = sample_send();
    let bytes = s.put();
    // 16 id bytes, 2 count bytes, 3 keys of 32 bytes: the usernames start at 114.
    for cut in 114..bytes.len() {
        assert_eq!(SendStream::decode(&bytes[..cut]).unwrap_err(), FormatError::CorrelationMismatch);
    }
}

#[test]
fn truncated_keys_fail_with_truncated() {
    let s = sample_send();
    let bytes = s.put();
    for cut in 0..114 {
        assert_eq!(SendStream::decode(&bytes[..cut]).unwrap_err(), FormatError::Truncated);
    }
}

#[test]
fn send_stream_trailing_bytes() {
    let mut bytes = sample_send().put();
    bytes.push(0);
    assert_eq!(SendStream::decode(&bytes).unwrap_err(), FormatError::TrailingBytes);
}

#[test]
fn advance_non_decreasing_succeeds() {
    let mut r = RecvStream::new([4; 16], 0);
    for p in [0u64, 0, 3, 3, 10, 1000, u64::MAX] {
        assert_eq!(r.advance(p), Ok(()));
        assert_eq!(r.position(), p);
    }
}

#[test]
fn advance_backwards_fails() {
    let mut r = RecvStream::new([4; 16], 10);
    assert_eq!(r.advance(9), Err(StreamError::PositionRegression));
    assert_eq!(r.position(), 10);
    assert_eq!(r.advance(10), Ok(()));
    assert_eq!(r.advance(0), Err(StreamError::PositionRegression));
    assert_eq!(r.position(), 10);
}

#[test]
fn recv_stream_layout_and_round_trip() {
    let r = RecvStream::new([9; 16], 5);
    let bytes = r.sync();
    let mut expected = vec![9u8; 16];
    expected.extend_from_slice(&[1, 5]);
    assert_eq!(bytes, expected);
    assert_eq!(RecvStream::decode(&bytes), Ok(r));
    assert_eq!(RecvStream::decode(&bytes[..17]), Err(FormatError::Truncated));
    assert_eq!(RecvStream::decode(&bytes[..10]), Err(FormatError::Truncated));
    let mut longer = bytes.clone();
    longer.push(1);
    assert_eq!(RecvStream::decode(&longer), Err(FormatError::TrailingBytes));
}

#[test]
fn advance_through_non_decreasing_then_sync() {
    let mut r = RecvStream::new([4; 16], 2);
    assert_eq!(r.advance_through(&[2, 3, 3, 50, 51]), Ok(()));
    assert_eq!(r.position(), 51);
    assert_eq!(RecvStream::decode(&r.sync()).unwrap().position(), 51);
    assert_eq!(r.advance_through(&[]), Ok(()));
    assert_eq!(r.position(), 51);
}

#[test]
fn advance_through_stops_at_regression() {
    let mut r = RecvStream::new([4; 16], 0);
    assert_eq!(r.advance_through(&[5, 9, 7, 20]), Err(StreamError::PositionRegression));
    assert_eq!(r.position(), 9);
    assert_eq!(r.advance_through(&[3]), Err(StreamError::PositionRegression));
    assert_eq!(r.position(), 9);
}
