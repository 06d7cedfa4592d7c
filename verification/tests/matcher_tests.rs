//! Tests for building matchers and enumerating bounded matches.

use patmatch::codec::DecodeError;
use patmatch::matcher::{new_matcher, BuildFailure, Matcher};

fn encoded(pats: &[&[u8]]) -> Vec<u8> {
    let mut buf = Vec::new();
    for p in pats {
        buf.extend_from_slice(&(p.len() as u32).to_le_bytes());
        buf.extend_from_slice(p);
    }
    buf
}

fn matcher(pats: &[&[u8]]) -> Matcher {
    new_matcher(&encoded(pats)).unwrap()
}

#[test]
fn ascii_case_insensitive_match() {
    let m = matcher(&[b"abc"]);
    let spans = m.matches(b"ABC xyz", 10);
    assert_eq!(spans, vec![(0, 3)]);
}

#[test]
fn case_insensitivity_is_ascii_only() {
    let m = matcher(&[b"k"]);
    // U+212A (Kelvin sign) is not folded; plain ASCII 'K' is.
    let spans = m.matches("\u{212A}K".as_bytes(), 10);
    assert_eq!(spans, vec![(3, 4)]);
}

#[test]
fn leftmost_longest_tie_break() {
    let m = matcher(&[b"a", b"ab"]);
    let spans = m.matches(b"ab", 10);
    assert_eq!(spans, vec![(0, 2)]);
}

#[test]
fn truncation_to_capacity() {
    let m = matcher(&[b"a"]);
    let spans = m.matches(b"aaaa", 2);
    assert_eq!(spans, vec![(0, 1), (1, 2)]);
}

#[test]
fn zero_capacity_yields_no_spans() {
    let m = matcher(&[b"a"]);
    assert_eq!(m.matches(b"aaaa", 0), Vec::new());
}

#[test]
fn full_enumeration_when_capacity_suffices() {
    let m = matcher(&[b"a"]);
    let spans = m.matches(b"aaaa", 10);
    assert_eq!(spans, vec![(0, 1), (1, 2), (2, 3), (3, 4)]);
}

#[test]
fn no_match_yields_count_zero() {
    let m = matcher(&[b"zzz"]);
    assert_eq!(m.matches(b"hello", 10), Vec::new());
}

#[test]
fn matches_at_different_starts_all_reported() {
    let m = matcher(&[b"ab", b"ba"]);
    let spans = m.matches(b"abab", 10);
    // Every matching start is reported, including starts inside earlier spans.
    assert_eq!(spans, vec![(0, 2), (1, 3), (2, 4)]);
}

#[test]
fn start_inside_earlier_span_is_reported() {
    let m = matcher(&[b"ab", b"ba"]);
    let spans = m.matches(b"aba", 10);
    assert_eq!(spans, vec![(0, 2), (1, 3)]);
}

#[test]
fn empty_pattern_matches_at_every_start_without_a_longer_match() {
    let m = matcher(&[b"", b"ab"]);
    let spans = m.matches(b"ab", 10);
    assert_eq!(spans, vec![(0, 2), (1, 1), (2, 2)]);
}

#[test]
fn matcher_is_reusable_across_searches() {
    let m = matcher(&[b"ab"]);
    assert_eq!(m.matches(b"ab", 10), vec![(0, 2)]);
    assert_eq!(m.matches(b"xxabxx", 10), vec![(2, 4)]);
}

#[test]
fn malformed_buffer_fails_cleanly() {
    let mut buf = encoded(&[b"abc"]);
    buf.push(0);
    match new_matcher(&buf) {
        Err(BuildFailure::MalformedPatterns(DecodeError::TruncatedLength)) => {}
        other => panic!("expected a malformed-pattern failure, got {:?}", other.is_ok()),
    }
}

#[test]
fn truncated_payload_fails_cleanly() {
    let buf = vec![9, 0, 0, 0, b'a'];
    match new_matcher(&buf) {
        Err(BuildFailure::MalformedPatterns(DecodeError::TruncatedPayload)) => {}
        other => panic!("expected a malformed-pattern failure, got {:?}", other.is_ok()),
    }
}

#[test]
fn empty_pattern_set_matches_nothing() {
    let m = matcher(&[]);
    assert_eq!(m.matches(b"anything", 10), Vec::new());
}
