use crabkv::codec::{decode_record_at, encode_entry, WalEntry, WalError, WalOp, HEADER_SIZE};

fn put(key: &str, value: &str, expires_at: Option<u64>) -> WalEntry {
    WalEntry::Put { key: key.into(), value: value.into(), expires_at }
}

fn round_trip(entry: WalEntry, compression: bool) {
    let bytes = encode_entry(&entry, compression).unwrap();
    let rec = decode_record_at(&bytes, 0, compression).unwrap();
    assert_eq!(rec.entry, entry);
    assert_eq!(rec.offset, 0);
    assert_eq!(rec.record_len as usize, bytes.len());
}

#[test]
fn decode_inverts_encode_for_put_and_delete() {
    round_trip(put("alpha", "1", None), false);
    round_trip(put("session", "value", Some(1_700_000_100)), false);
    round_trip(put("empty", "", None), false);
    round_trip(put("", "anonymous", None), false);
    round_trip(WalEntry::Delete { key: "alpha".into() }, false);
    round_trip(put("k\u{00e9}y", "v\u{00e4}l\u{1F980}", Some(u64::MAX)), false);
}

#[test]
fn decode_inverts_encode_with_compression() {
    round_trip(put("k", &"abc".repeat(500), None), true);
    round_trip(put("k", "short", Some(42)), true);
    round_trip(WalEntry::Delete { key: "gone".into() }, true);
    // An empty value is stored uncompressed on both sides.
    round_trip(put("k", "", None), true);
}

#[test]
fn compression_changes_the_payload() {
    let entry = put("k", &"abc".repeat(500), None);
    let plain = encode_entry(&entry, false).unwrap();
    let packed = encode_entry(&entry, true).unwrap();
    assert!(packed.len() < plain.len());
}

#[test]
fn record_layout_is_fixed() {
    // op 0x01, key_len, value_len (little-endian u32), ttl flag, ttl seconds
    // (little-endian u64), key bytes, value bytes.
    let bytes = encode_entry(&put("ab", "xyz", Some(7)), false).unwrap();
    assert_eq!(bytes.len(), HEADER_SIZE + 2 + 3);
    assert_eq!(bytes[0], 1);
    assert_eq!(&bytes[1..5], &[2, 0, 0, 0]);
    assert_eq!(&bytes[5..9], &[3, 0, 0, 0]);
    assert_eq!(bytes[9], 1);
    assert_eq!(&bytes[10..18], &[7, 0, 0, 0, 0, 0, 0, 0]);
    assert_eq!(&bytes[18..20], b"ab");
    assert_eq!(&bytes[20..23], b"xyz");

    let tombstone = encode_entry(&WalEntry::Delete { key: "ab".into() }, false).unwrap();
    assert_eq!(tombstone.len(), HEADER_SIZE + 2);
    assert_eq!(tombstone[0], 2);
    assert_eq!(tombstone[9], 0);
}

#[test]
fn opcode_parse() {
    assert_eq!(WalOp::from_byte(1), Ok(WalOp::Put));
    assert_eq!(WalOp::from_byte(2), Ok(WalOp::Delete));
    assert_eq!(WalOp::from_byte(0), Err(WalError::UnknownOpcode));
    assert_eq!(WalOp::from_byte(3), Err(WalError::UnknownOpcode));
}

fn header(op: u8, key_len: u32, value_len: u32, flag: u8, ttl: u64) -> Vec<u8> {
    let mut b = vec![op];
    b.extend_from_slice(&key_len.to_le_bytes());
    b.extend_from_slice(&value_len.to_le_bytes());
    b.push(flag);
    b.extend_from_slice(&ttl.to_le_bytes());
    b
}

#[test]
fn decode_rejects_unknown_opcode() {
    let bytes = vec![9u8];
    assert_eq!(decode_record_at(&bytes, 0, false), Err(WalError::UnknownOpcode));
}

#[test]
fn decode_rejects_truncated_header() {
    let bytes = vec![1u8, 0, 0];
    assert_eq!(decode_record_at(&bytes, 0, false), Err(WalError::UnexpectedEof));
}

#[test]
fn decode_rejects_truncated_body() {
    let bytes = header(1, 4, 0, 0, 0);
    assert_eq!(decode_record_at(&bytes, 0, false), Err(WalError::UnexpectedEof));
}

#[test]
fn decode_rejects_invalid_utf8_key() {
    let mut bytes = header(1, 1, 0, 0, 0);
    bytes.push(0xFF);
    assert_eq!(decode_record_at(&bytes, 0, false), Err(WalError::InvalidUtf8Key));
}

#[test]
fn decode_rejects_invalid_utf8_value() {
    let mut bytes = header(1, 1, 1, 0, 0);
    bytes.push(b'k');
    bytes.push(0xFF);
    assert_eq!(decode_record_at(&bytes, 0, false), Err(WalError::InvalidUtf8Value));
}

#[test]
fn decode_rejects_delete_with_payload() {
    let mut bytes = header(2, 1, 1, 0, 0);
    bytes.push(b'k');
    bytes.push(b'v');
    assert_eq!(decode_record_at(&bytes, 0, false), Err(WalError::DeletePayload));
}

#[test]
fn decode_rejects_oversized_record() {
    let bytes = header(1, u32::MAX, u32::MAX, 0, 0);
    assert_eq!(decode_record_at(&bytes, 0, false), Err(WalError::RecordTooLarge));
}

#[test]
fn decode_rejects_corrupt_compressed_payload() {
    let mut bytes = header(1, 1, 4, 0, 0);
    bytes.push(b'k');
    bytes.extend_from_slice(&[0xFF, 0xFF, 0xFF, 0xFF]);
    assert_eq!(decode_record_at(&bytes, 0, true), Err(WalError::CorruptPayload));
}

#[test]
fn error_messages_name_the_fault() {
    assert_eq!(WalError::UnknownOpcode.message(), "unknown WAL opcode");
    assert_eq!(WalError::UnexpectedEof.message(), "unexpected end of log");
}
