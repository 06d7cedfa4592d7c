//! Match spans and ASCII-case-insensitive occurrence, as specification
//! vocabulary shared by the matcher and its engine boundary.
//!
//! The matching strategy is per-start-position disambiguation only: among all
//! matches starting at one position the longest wins, and every position where
//! any match starts is reported, including positions inside an earlier span.

use vstd::prelude::*;

verus! {

/// ASCII case folding: upper-case letters map to lower case, every other byte
/// is left alone.
pub open spec fn ascii_lower(b: u8) -> u8 {
    if 65 <= b <= 90 {
        (b + 32) as u8
    } else {
        b
    }
}

/// The pattern occurs in the text at the half-open byte range `[s, e)`,
/// comparing bytes without regard to ASCII case.
pub open spec fn occurs_at(text: Seq<u8>, pat: Seq<u8>, s: int, e: int) -> bool {
    &&& 0 <= s <= e <= text.len()
    &&& e - s == pat.len()
    &&& forall|j: int|
        0 <= j < pat.len() ==> ascii_lower(text[s + j]) == ascii_lower(#[trigger] pat[j])
}

/// Some pattern of the set occurs at exactly the span `[s, e)`.
pub open spec fn match_at(pats: Seq<Seq<u8>>, text: Seq<u8>, s: int, e: int) -> bool {
    exists|i: int| 0 <= i < pats.len() && occurs_at(text, #[trigger] pats[i], s, e)
}

/// `[s, e)` is the winning match at start `s`: some pattern occurs there and
/// no pattern occurs at `s` with a longer span.
pub open spec fn is_longest_at(pats: Seq<Seq<u8>>, text: Seq<u8>, s: int, e: int) -> bool {
    &&& match_at(pats, text, s, e)
    &&& forall|e2: int| e2 > e ==> !(#[trigger] match_at(pats, text, s, e2))
}

/// The reported match sequence from start position `s` on: one span per
/// position where any match starts, in increasing start order, the longest
/// match winning at each start.
pub open spec fn all_matches_from(pats: Seq<Seq<u8>>, text: Seq<u8>, s: int) -> Seq<(usize, usize)>
    decreases text.len() - s + 1,
{
    if s < 0 || s > text.len() {
        Seq::empty()
    } else {
        let rest = all_matches_from(pats, text, s + 1);
        if exists|e: int| is_longest_at(pats, text, s, e) {
            seq![(s as usize, (choose|e: int| is_longest_at(pats, text, s, e)) as usize)] + rest
        } else {
            rest
        }
    }
}

/// The full reported match sequence of a pattern set over a text.
pub open spec fn all_matches(pats: Seq<Seq<u8>>, text: Seq<u8>) -> Seq<(usize, usize)> {
    all_matches_from(pats, text, 0)
}

/// Any match lies within the text: its span is a well-formed half-open range.
pub proof fn lemma_match_at_bounds(pats: Seq<Seq<u8>>, text: Seq<u8>, s: int, e: int)
    requires
        match_at(pats, text, s, e),
    ensures
        0 <= s <= e <= text.len(),
{
    let i = choose|i: int| 0 <= i < pats.len() && occurs_at(text, #[trigger] pats[i], s, e);
    assert(occurs_at(text, pats[i], s, e));
}

} // verus!
