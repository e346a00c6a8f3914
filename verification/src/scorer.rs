//! The pluggable fuzzy scorer, consumed as a black box.
//!
//! Scoring a candidate against a filter term is delegated to the `skim`
//! algorithm of the `fuzzy_matcher` crate. Its result is given a name,
//! `skim_match_of`, and everything the engine proves is stated over that name.

use vstd::prelude::*;
use crate::highlight::valid_match_indices;

verus! {

/// What the skim fuzzy matcher (default configuration) returns for a candidate
/// and a pattern: nothing when the pattern is not a fuzzy subsequence of the
/// candidate, otherwise the score and the matched character positions. The
/// result depends on the two character sequences alone.
pub uninterp spec fn skim_match_of(choice: Seq<char>, pattern: Seq<char>) -> Option<(i64, Seq<usize>)>;

/// Scores one candidate against a filter term.
///
/// Relies on `fuzzy_matcher::skim::SkimMatcherV2::fuzzy_indices` with the
/// default configuration: the result is a pure function of the two strings
/// (a deterministic dynamic-programming alignment; the thread-local caches
/// only recycle buffers); an empty pattern trivially matches with score 0 and
/// no indices; on a match the returned indices are strictly ascending
/// character positions within the candidate, collected from the traceback in
/// descending position order and then reversed.
#[verifier::external_body]
pub(crate) fn skim_match(choice: &str, pattern: &str) -> (r: Option<(i64, Vec<usize>)>)
    ensures
        (match r {
            Option::None => skim_match_of(choice@, pattern@) is None,
            Option::Some(p) => skim_match_of(choice@, pattern@) == Some((p.0, p.1@)),
        }),
        pattern@.len() == 0 ==> (match r {
            Option::None => false,
            Option::Some(p) => p.0 == 0 && p.1@.len() == 0,
        }),
        (match r {
            Option::None => true,
            Option::Some(p) => valid_match_indices(choice@, p.1@),
        }),
{
    fuzzy_matcher::FuzzyMatcher::fuzzy_indices(
        &fuzzy_matcher::skim::SkimMatcherV2::default(),
        choice,
        pattern,
    )
}

} // verus!
