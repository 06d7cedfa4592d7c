//! Trusted boundary to the `aho_corasick` matching engine.
//!
//! Building and searching the automaton are external capabilities: this module
//! declares the engine's types and wraps the two calls the matcher makes, with
//! contracts taken from the engine's documentation. Everything else about the
//! automaton is left opaque.

use crate::spans::match_at;
use vstd::prelude::*;

verus! {

#[verifier::external_type_specification]
#[verifier::external_body]
pub struct ExAhoCorasick(aho_corasick::AhoCorasick);

#[verifier::external_type_specification]
#[verifier::external_body]
pub struct ExAcBuildError(aho_corasick::BuildError);

/// The ordered pattern list a successfully built automaton holds: its internal
/// copy of the patterns it was built from.
pub uninterp spec fn automaton_patterns(ac: aho_corasick::AhoCorasick) -> Seq<Seq<u8>>;

/// Whether the engine rejects a pattern list against its internal limits. The
/// build configuration is fixed, so rejection is a function of the pattern
/// list alone.
pub uninterp spec fn engine_rejects(pats: Seq<Seq<u8>>) -> bool;

/// Relies on `aho_corasick::AhoCorasickBuilder::build` under the module's
/// fixed configuration (ASCII-case-insensitive, deterministic-automaton
/// construction, standard match semantics — the one kind that supports the
/// overlapping search below): on success the automaton holds its own copy of
/// exactly the given patterns, in order. Failure is the engine rejecting a
/// degenerate pattern set against its internal limits, decided by the pattern
/// list alone under this fixed configuration; the error is returned, never a
/// panic.
#[verifier::external_body]
pub(crate) fn build_automaton(pats: &Vec<Vec<u8>>) -> (r: Result<
    aho_corasick::AhoCorasick,
    aho_corasick::BuildError,
>)
    ensures
        r is Ok <==> !engine_rejects(pats.deep_view()),
        r matches Ok(ac) ==> automaton_patterns(ac) == pats.deep_view(),
{
    aho_corasick::AhoCorasickBuilder::new()
        .ascii_case_insensitive(true)
        .kind(Some(aho_corasick::AhoCorasickKind::DFA))
        .match_kind(aho_corasick::MatchKind::Standard)
        .build(pats)
}

/// Relies on `aho_corasick::AhoCorasick::find_overlapping_iter`: it reports
/// all possible matches at every position. So every reported span is an
/// ASCII-case-insensitive occurrence of some pattern (the automaton is built
/// with `ascii_case_insensitive`), and every such occurrence of any pattern
/// is among the reported spans. The call cannot fail or panic here:
/// overlapping search is supported exactly under standard match semantics,
/// the only kind this module builds, and a plain byte-slice input is an
/// unanchored search, which the default start configuration supports.
#[verifier::external_body]
pub(crate) fn find_overlapping(ac: &aho_corasick::AhoCorasick, text: &[u8]) -> (r: Vec<
    (usize, usize),
>)
    ensures
        forall|k: int|
            0 <= k < r@.len() ==> match_at(
                automaton_patterns(*ac),
                text@,
                (#[trigger] r@[k]).0 as int,
                r@[k].1 as int,
            ),
        forall|s: int, e: int|
            #[trigger] match_at(automaton_patterns(*ac), text@, s, e) ==> r@.contains(
                (s as usize, e as usize),
            ),
{
    ac.find_overlapping_iter(text).map(|m| (m.start(), m.end())).collect()
}

} // verus!
