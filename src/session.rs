//! What to do with the matches found for one hunk.
use crate::scoring::{HunkMatch, SCORE_SCALE};
use vstd::prelude::*;

verus! {

/// Matches scoring below this (0.9) are applied with a warning.
pub const REVIEW_SCORE: u128 = 900_000;

/// The next step for a hunk, given its matches and the mode.
#[derive(Debug, Clone, Copy, PartialEq, Eq)]
pub enum Resolution {
    /// Apply the only match without asking.
    Apply,
    /// Show the only match and ask to apply, skip or abort.
    Confirm,
    /// Show the matches and ask for one of them, or to skip or abort.
    Choose,
    /// Ask whether to skip the hunk or abort.
    SkipOrAbort,
    /// Fail: no match, and nobody to ask.
    FailNoMatch,
    /// Fail: several matches, and nobody to ask.
    FailAmbiguous,
}

/// The step that `resolve_matches` takes for `n` matches whose first scores
/// `best`.
pub open spec fn resolution(n: nat, best: u128, ci: bool, silent: bool, confirm: bool) -> Resolution {
    let unattended = ci || silent;
    if n == 0 {
        if unattended {
            Resolution::FailNoMatch
        } else {
            Resolution::SkipOrAbort
        }
    } else if n > 1 {
        if unattended {
            Resolution::FailAmbiguous
        } else {
            Resolution::Choose
        }
    } else if !unattended && (confirm || best < SCORE_SCALE) {
        Resolution::Confirm
    } else {
        Resolution::Apply
    }
}

/// Decides what to do with the matches of a hunk: a unique exact match is
/// applied, anything else is asked about, or fails when nobody can be asked
/// (`ci` or `silent`).
pub fn resolve_matches(matches: &Vec<HunkMatch>, ci: bool, silent: bool, confirm: bool) -> (r: Resolution)
    ensures
        r == resolution(
            matches@.len(),
            if matches@.len() > 0 {
                matches@[0].score
            } else {
                0
            },
            ci,
            silent,
            confirm,
        ),
{
    let unattended = ci || silent;
    if matches.len() == 0 {
        if unattended {
            Resolution::FailNoMatch
        } else {
            Resolution::SkipOrAbort
        }
    } else if matches.len() > 1 {
        if unattended {
            Resolution::FailAmbiguous
        } else {
            Resolution::Choose
        }
    } else if !unattended && (confirm || matches[0].score < SCORE_SCALE) {
        Resolution::Confirm
    } else {
        Resolution::Apply
    }
}

/// Whether applying `m` deserves a warning to review the result.
pub fn needs_review(m: &HunkMatch) -> (r: bool)
    ensures
        r == (m.score < REVIEW_SCORE),
{
    m.score < REVIEW_SCORE
}

} // verus!
