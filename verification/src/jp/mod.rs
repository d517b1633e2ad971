//! Japanese input: the single-kanji and compound tables read by on-yomi
//! romaji, and the candidate shape the engine hands out.

use vstd::prelude::*;

pub mod jukugo;
pub mod kanji;
pub mod lookup;
pub mod merge;

verus! {

/// Which script a Japanese candidate is in.
#[derive(Copy, Clone, Debug, PartialEq, Eq, Structural)]
pub enum KanaKind {
    Hiragana,
    Katakana,
    Kanji,
}

/// One Japanese candidate with its script.
#[derive(Clone, Debug, PartialEq, Eq)]
pub struct Candidate {
    pub word: String,
    pub kind: KanaKind,
}

} // verus!
