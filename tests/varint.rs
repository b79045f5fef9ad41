use interaction_store::error::FormatError;
use interaction_store::varint::{decode_varint, encode_varint, read_varint, write_varint};

#[test]
fn encode_zero_has_no_value_bytes() {
    let (tag, bytes) = encode_varint(0);
    assert_eq!(tag, 0);
    assert!(bytes.is_empty());
}

#[test]
fn encode_picks_narrowest_class() {
    assert_eq!(encode_varint(1), (1, vec![1]));
    assert_eq!(encode_varint(255), (1, vec![255]));
    assert_eq!(encode_varint(256), (2, vec![0, 1, 0, 0]));
    assert_eq!(encode_varint(0xdead_beef), (2, vec![0xef, 0xbe, 0xad, 0xde]));
    assert_eq!(encode_varint(0x1_0000_0000), (3, vec![0, 0, 0, 0, 1, 0, 0, 0]));
    assert_eq!(encode_varint(u64::MAX), (3, vec![255; 8]));
}

#[test]
fn decode_reads_little_endian() {
    assert_eq!(decode_varint(0, &[]), Ok(0));
    assert_eq!(decode_varint(1, &[7]), Ok(7));
    assert_eq!(decode_varint(2, &[1, 2, 3, 4]), Ok(0x0403_0201));
    assert_eq!(decode_varint(3, &[255; 8]), Ok(u64::MAX));
}

#[test]
fn decode_rejects_width_mismatch() {
    assert_eq!(decode_varint(0, &[0]), Err(FormatError::WidthMismatch));
    assert_eq!(decode_varint(1, &[]), Err(FormatError::WidthMismatch));
    assert_eq!(decode_varint(2, &[1, 2, 3]), Err(FormatError::WidthMismatch));
    assert_eq!(decode_varint(3, &[0; 9]), Err(FormatError::WidthMismatch));
}

#[test]
fn decode_rejects_unknown_tag() {
    assert_eq!(decode_varint(4, &[]), Err(FormatError::InvalidTag));
    assert_eq!(decode_varint(255, &[0; 8]), Err(FormatError::InvalidTag));
}

#[test]
fn varint_round_trip() {
    let values = [0u64, 1, 2, 127, 255, 256, 65_535, 65_536, 0xffff_ffff, 0x1_0000_0000, u64::MAX - 1, u64::MAX];
    for v in values {
        let (tag, bytes) = encode_varint(v);
        assert_eq!(decode_varint(tag, &bytes), Ok(v));
    }
}

#[test]
fn buffer_read_write() {
    let mut out = vec![9u8];
    write_varint(&mut out, 300);
    write_varint(&mut out, 0);
    assert_eq!(out, vec![9, 2, 44, 1, 0, 0, 0]);
    assert_eq!(read_varint(&out, 1), Ok((300, 6)));
    assert_eq!(read_varint(&out, 6), Ok((0, 7)));
    assert_eq!(read_varint(&out, 7), Err(FormatError::Truncated));
    assert_eq!(read_varint(&[2, 1, 2], 0), Err(FormatError::Truncated));
    assert_eq!(read_varint(&[4], 0), Err(FormatError::InvalidTag));
}
