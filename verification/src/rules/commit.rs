//! Commit rules decide whether to auto-commit a candidate.

use vstd::prelude::*;

verus! {

/// An auto-commit decision: the word and a static reason.
#[derive(Clone, Debug)]
pub struct CommitDecision {
    pub word: String,
    pub reason: &'static str,
}

} // verus!
