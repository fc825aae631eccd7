//! Scores from the skim V2 fuzzy matcher of `fuzzy_matcher`.
use crate::scorer::is_subsequence;
use fuzzy_matcher::skim::SkimMatcherV2;
use fuzzy_matcher::FuzzyMatcher;
use vstd::prelude::*;

verus! {

/// The score that the default skim V2 matcher gives `choice` against a
/// `pattern` that it matches.
pub uninterp spec fn skim_v2_score(choice: Seq<char>, pattern: Seq<char>) -> i64;

/// The pattern holds an ASCII upper-case letter; the default skim V2 matcher
/// then compares characters exactly, otherwise up to ASCII case.
pub open spec fn has_ascii_upper(pattern: Seq<char>) -> bool {
    exists|k: int| 0 <= k < pattern.len() && 'A' <= #[trigger] pattern[k] && pattern[k] <= 'Z'
}

/// What the default skim V2 matcher gives `c` against `q`.
pub open spec fn skim_v2_result(c: Seq<char>, q: Seq<char>) -> Option<i64> {
    if is_subsequence(c, q, has_ascii_upper(q)) {
        Some(skim_v2_score(c, q))
    } else {
        None
    }
}

/// Relies on `fuzzy_matcher::skim::SkimMatcherV2::fuzzy_match` with the
/// default matcher (smart case, no element limit): `Some(0)` for the empty
/// pattern; otherwise `None` exactly when the pattern does not occur in order
/// in the choice, and its score when it does.
#[verifier::external_body]
pub(crate) fn skim_v2_fuzzy_match(choice: &str, pattern: &str) -> (r: Option<i64>)
    ensures
        r is Some <==> is_subsequence(choice@, pattern@, has_ascii_upper(pattern@)),
        r matches Some(v) ==> v == skim_v2_score(choice@, pattern@),
        pattern@.len() == 0 ==> r == Some(0i64),
{
    SkimMatcherV2::default().fuzzy_match(choice, pattern)
}

} // verus!
