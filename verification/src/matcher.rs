//! The matcher: an automaton handle built from an encoded pattern buffer, and
//! bounded enumeration of its matches over a subject text.

use crate::codec::{decode_patterns, decode_spec, DecodeError};
use crate::engine::{automaton_patterns, build_automaton, engine_rejects, find_overlapping};
use crate::spans::{all_matches, all_matches_from, is_longest_at, match_at};
use vstd::prelude::*;

verus! {

/// Why no matcher was produced.
#[derive(Clone, Copy, Debug, PartialEq, Eq)]
pub enum BuildFailure {
    /// The pattern buffer is malformed; nothing was built from it.
    MalformedPatterns(DecodeError),
    /// The decoded pattern set is well formed but the matching engine rejected
    /// it against its internal limits.
    EngineRejected,
}

/// A reusable automaton handle with fixed matching semantics: matching is
/// ASCII-case-insensitive, and at each start position the longest match wins
/// while matches starting at different positions are all reported. Immutable
/// once built; safe to search repeatedly.
pub struct Matcher {
    engine: aho_corasick::AhoCorasick,
}

impl Matcher {
    /// The ordered pattern list this matcher was built from.
    pub closed spec fn patterns(self) -> Seq<Seq<u8>> {
        automaton_patterns(self.engine)
    }

    /// Scans the text and returns the match spans in increasing order of start
    /// position — the longest match at each start where any pattern matches —
    /// stopping after `capacity` spans. A caller that gets exactly `capacity`
    /// spans back must treat the list as possibly truncated and may retry with
    /// a larger capacity.
    #[verifier::loop_isolation(false)]
    pub fn matches(&self, text: &[u8], capacity: usize) -> (r: Vec<(usize, usize)>)
        ensures
            ({
                let full = all_matches(self.patterns(), text@);
                r@ == if capacity <= full.len() {
                    full.take(capacity as int)
                } else {
                    full
                }
            }),
            r@.len() <= capacity,
            forall|k: int|
                0 <= k < r@.len() ==> is_longest_at(
                    self.patterns(),
                    text@,
                    (#[trigger] r@[k]).0 as int,
                    r@[k].1 as int,
                ),
            forall|k: int, j: int|
                0 <= k < j < r@.len() ==> (#[trigger] r@[k]).0 < (#[trigger] r@[j]).0,
            r@.len() < capacity ==> forall|s2: int, e2: int|
                #[trigger] match_at(self.patterns(), text@, s2, e2) ==> exists|k: int|
                    0 <= k < r@.len() && (#[trigger] r@[k]).0 == s2,
    {
        let ghost pats = self.patterns();
        let found = find_overlapping(&self.engine, text);
        let text_len = text.len();
        let mut out: Vec<(usize, usize)> = Vec::new();
        let mut s: usize = 0;
        proof {
            assert(out@ + all_matches_from(pats, text@, 0) =~= all_matches_from(pats, text@, 0));
        }
        while s <= text_len && out.len() < capacity
            invariant
                s <= text_len || s == text_len,
                all_matches(pats, text@) == out@ + all_matches_from(pats, text@, s as int),
                out@.len() <= capacity,
                forall|k: int|
                    0 <= k < out@.len() ==> is_longest_at(
                        pats,
                        text@,
                        (#[trigger] out@[k]).0 as int,
                        out@[k].1 as int,
                    ),
                forall|k: int| 0 <= k < out@.len() ==> (#[trigger] out@[k]).0 < s,
                forall|k: int, j: int|
                    0 <= k < j < out@.len() ==> (#[trigger] out@[k]).0 < (#[trigger] out@[j]).0,
                forall|s2: int, e2: int|
                    s2 < s as int && #[trigger] match_at(pats, text@, s2, e2) ==> exists|k: int|
                        0 <= k < out@.len() && (#[trigger] out@[k]).0 == s2,
            decreases text_len - s,
        {
            let mut has = false;
            let mut best_e: usize = 0;
            let n = found.len();
            let mut k: usize = 0;
            while k < n
                invariant
                    k <= n,
                    has ==> found@.contains((s, best_e)),
                    forall|kk: int|
                        0 <= kk < k ==> ((#[trigger] found@[kk]).0 == s ==> has && found@[kk].1
                            <= best_e),
                decreases n - k,
            {
                let (fs, fe) = found[k];
                let improves = if has {
                    fe > best_e
                } else {
                    true
                };
                if fs == s && improves {
                    has = true;
                    best_e = fe;
                }
                k = k + 1;
            }
            proof {
                if has {
                    assert(match_at(pats, text@, s as int, best_e as int)) by {
                        let kk = choose|kk: int|
                            0 <= kk < found@.len() && found@[kk] == (s, best_e);
                        assert(found@[kk] == (s, best_e));
                    }
                    assert forall|e2: int| e2 > best_e as int implies !match_at(
                        pats,
                        text@,
                        s as int,
                        e2,
                    ) by {
                        if match_at(pats, text@, s as int, e2) {
                            assert(0 <= e2 <= text@.len());
                            assert(found@.contains((s, e2 as usize)));
                            let kk = choose|kk: int|
                                0 <= kk < found@.len() && found@[kk] == (s, e2 as usize);
                            assert(found@[kk].0 == s && found@[kk].1 <= best_e);
                        }
                    }
                    assert(is_longest_at(pats, text@, s as int, best_e as int));
                    let ce = choose|e: int| is_longest_at(pats, text@, s as int, e);
                    assert(is_longest_at(pats, text@, s as int, ce));
                    assert(ce == best_e as int) by {
                        if ce > best_e as int {
                            assert(!match_at(pats, text@, s as int, ce));
                        }
                        if ce < best_e as int {
                            assert(!match_at(pats, text@, s as int, best_e as int));
                        }
                    }
                    assert(all_matches_from(pats, text@, s as int) == seq![(s, best_e)]
                        + all_matches_from(pats, text@, s as int + 1));
                } else {
                    assert forall|e2: int| !is_longest_at(pats, text@, s as int, e2) by {
                        if match_at(pats, text@, s as int, e2) {
                            assert(found@.contains((s, e2 as usize)));
                            let kk = choose|kk: int|
                                0 <= kk < found@.len() && found@[kk] == (s, e2 as usize);
                            assert(found@[kk].0 == s);
                        }
                    }
                    assert(all_matches_from(pats, text@, s as int) == all_matches_from(
                        pats,
                        text@,
                        s as int + 1,
                    ));
                }
            }
            let ghost prev = out@;
            if has {
                out.push((s, best_e));
                proof {
                    assert(prev + (seq![(s, best_e)] + all_matches_from(
                        pats,
                        text@,
                        s as int + 1,
                    )) =~= out@ + all_matches_from(pats, text@, s as int + 1));
                }
            }
            proof {
                assert forall|s2: int, e2: int|
                    s2 < s as int + 1 && #[trigger] match_at(pats, text@, s2, e2) implies exists|
                    k: int,
                |
                    0 <= k < out@.len() && (#[trigger] out@[k]).0 == s2 by {
                    if s2 < s as int {
                        let k0 = choose|k: int|
                            0 <= k < prev.len() && (#[trigger] prev[k]).0 == s2;
                        assert(0 <= k0 < out@.len() && out@[k0].0 == s2);
                    } else {
                        crate::spans::lemma_match_at_bounds(pats, text@, s2, e2);
                        assert(found@.contains((s, e2 as usize)));
                        let kk = choose|kk: int|
                            0 <= kk < found@.len() && found@[kk] == (s, e2 as usize);
                        assert(found@[kk].0 == s);
                        assert(out@[prev.len() as int].0 == s);
                    }
                }
            }
            if s == text_len {
                proof {
                    assert(all_matches_from(pats, text@, s as int + 1) == Seq::<(
                        usize,
                        usize,
                    )>::empty());
                    assert(out@ + Seq::<(usize, usize)>::empty() =~= out@);
                    let full = all_matches(pats, text@);
                    assert(out@ == full);
                    if capacity <= full.len() {
                        assert(full.take(capacity as int) =~= out@);
                    }
                    assert forall|s2: int, e2: int|
                        #[trigger] match_at(pats, text@, s2, e2) implies exists|k: int|
                        0 <= k < out@.len() && (#[trigger] out@[k]).0 == s2 by {
                        crate::spans::lemma_match_at_bounds(pats, text@, s2, e2);
                        assert(s2 < s as int + 1);
                    }
                }
                return out;
            }
            s = s + 1;
        }
        proof {
            let full = all_matches(pats, text@);
            if s > text_len {
                assert(all_matches_from(pats, text@, s as int) == Seq::<(usize, usize)>::empty());
                assert(out@ + Seq::<(usize, usize)>::empty() =~= out@);
                if capacity <= full.len() {
                    assert(full.take(capacity as int) =~= out@);
                }
                assert forall|s2: int, e2: int|
                    #[trigger] match_at(pats, text@, s2, e2) implies exists|k: int|
                    0 <= k < out@.len() && (#[trigger] out@[k]).0 == s2 by {
                    crate::spans::lemma_match_at_bounds(pats, text@, s2, e2);
                    assert(s2 < s as int);
                }
            } else {
                assert(out@.len() == capacity);
                assert(full.take(capacity as int) =~= out@);
            }
        }
        out
    }
}

/// Builds a matcher from an encoded pattern buffer.
///
/// A malformed buffer fails cleanly: no matcher is produced and the
/// malformation is reported. A matcher is owed exactly when the buffer decodes
/// and the engine does not reject the decoded pattern set. On success the
/// matcher holds its own copy of the decoded patterns; the buffer may be
/// reused or released immediately.
pub fn new_matcher(buf: &[u8]) -> (r: Result<Matcher, BuildFailure>)
    ensures
        r is Ok <==> (decode_spec(buf@) matches Ok(pats) && !engine_rejects(pats)),
        r matches Ok(m) ==> decode_spec(buf@) matches Ok(pats) && m.patterns() == pats,
        decode_spec(buf@) matches Err(e) ==> r == Err::<Matcher, BuildFailure>(
            BuildFailure::MalformedPatterns(e),
        ),
        r matches Err(BuildFailure::MalformedPatterns(e)) ==> decode_spec(buf@) == Err::<
            Seq<Seq<u8>>,
            DecodeError,
        >(e),
        r matches Err(BuildFailure::EngineRejected) ==> (decode_spec(buf@) matches Ok(pats)
            && engine_rejects(pats)),
{
    match decode_patterns(buf) {
        Err(e) => Err(BuildFailure::MalformedPatterns(e)),
        Ok(pats) => match build_automaton(&pats) {
            Ok(engine) => Ok(Matcher { engine }),
            Err(_) => Err(BuildFailure::EngineRejected),
        },
    }
}

} // verus!
