//! Tests for the pattern wire codec.

use patmatch::codec::{decode_patterns, encode_patterns, DecodeError};

fn record(pat: &[u8]) -> Vec<u8> {
    let mut out = (pat.len() as u32).to_le_bytes().to_vec();
    out.extend_from_slice(pat);
    out
}

#[test]
fn decode_empty_buffer_is_empty_set() {
    let pats = decode_patterns(&[]).unwrap();
    assert_eq!(pats.len(), 0);
}

#[test]
fn decode_single_record() {
    let buf = record(b"abc");
    let pats = decode_patterns(&buf).unwrap();
    assert_eq!(pats, vec![b"abc".to_vec()]);
}

#[test]
fn decode_preserves_order_and_duplicates() {
    let mut buf = record(b"zz");
    buf.extend_from_slice(&record(b"a"));
    buf.extend_from_slice(&record(b"zz"));
    buf.extend_from_slice(&record(b""));
    let pats = decode_patterns(&buf).unwrap();
    assert_eq!(pats, vec![b"zz".to_vec(), b"a".to_vec(), b"zz".to_vec(), b"".to_vec()]);
}

#[test]
fn decode_truncated_length_prefix() {
    assert_eq!(decode_patterns(&[3, 0, 0]), Err(DecodeError::TruncatedLength));
}

#[test]
fn decode_trailing_bytes_rejected() {
    let mut buf = record(b"ab");
    buf.push(7);
    assert_eq!(decode_patterns(&buf), Err(DecodeError::TruncatedLength));
}

#[test]
fn decode_truncated_payload() {
    // Declares five payload bytes but provides two.
    let buf = vec![5, 0, 0, 0, b'h', b'i'];
    assert_eq!(decode_patterns(&buf), Err(DecodeError::TruncatedPayload));
}

#[test]
fn decode_length_prefix_is_little_endian() {
    // 0x00000102 = 258 declared bytes; only one supplied.
    let buf = vec![2, 1, 0, 0, b'x'];
    assert_eq!(decode_patterns(&buf), Err(DecodeError::TruncatedPayload));
}

#[test]
fn encode_then_decode_round_trip() {
    let pats = vec![b"abc".to_vec(), b"".to_vec(), b"hello world".to_vec()];
    let buf = encode_patterns(&pats).unwrap();
    assert_eq!(decode_patterns(&buf).unwrap(), pats);
}

#[test]
fn decode_then_encode_reproduces_buffer() {
    let mut buf = record(b"one");
    buf.extend_from_slice(&record(b"two"));
    buf.extend_from_slice(&record(b""));
    let pats = decode_patterns(&buf).unwrap();
    assert_eq!(encode_patterns(&pats).unwrap(), buf);
}

#[test]
fn encode_exact_bytes() {
    let pats = vec![b"ab".to_vec()];
    assert_eq!(encode_patterns(&pats).unwrap(), vec![2, 0, 0, 0, b'a', b'b']);
}
