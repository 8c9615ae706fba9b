//! Per-round feedback: one classification for each letter of a guess.

use vstd::prelude::*;
use crate::config::WORD_LENGTH;

verus! {

/// One letter's classification from a round of feedback.
#[derive(Debug, Clone, Copy)]
pub enum CharFeedback {
    /// The letter occurs nowhere in the solution.
    NoMatch(char),
    /// The letter occurs in the solution, but not at this position.
    WrongPosition(char, usize),
    /// The letter occurs in the solution at exactly this position.
    ExactMatch(char, usize),
}

/// One round's result: one classification per letter position of the guessed
/// word, or — when `not_valid_word` is set — the signal that the guess was
/// rejected as not a recognized word, in which case no classification applies.
pub struct Feedback {
    pub chars_feedback: Vec<CharFeedback>,
    pub not_valid_word: bool,
}

impl Feedback {
    /// An empty feedback: no classifications yet, guess not rejected.
    pub fn new() -> (r: Self)
        ensures
            r.chars_feedback@ == Seq::<CharFeedback>::empty(),
            !r.not_valid_word,
    {
        Self { chars_feedback: Vec::new(), not_valid_word: false }
    }
}

/// Every positioned classification points inside the configured word length.
pub open spec fn entries_in_range(s: Seq<CharFeedback>) -> bool {
    forall|k: int|
        0 <= k < s.len() ==> match #[trigger] s[k] {
            CharFeedback::NoMatch(_) => true,
            CharFeedback::WrongPosition(_, pos) => pos < WORD_LENGTH,
            CharFeedback::ExactMatch(_, pos) => pos < WORD_LENGTH,
        }
}

/// The entry classifies `ch` as an exact match (at some position).
pub open spec fn is_exact_of(e: CharFeedback, ch: char) -> bool {
    match e {
        CharFeedback::ExactMatch(c, _) => c == ch,
        _ => false,
    }
}

/// The entry classifies `ch` as present but misplaced (at some position).
pub open spec fn is_wrong_of(e: CharFeedback, ch: char) -> bool {
    match e {
        CharFeedback::WrongPosition(c, _) => c == ch,
        _ => false,
    }
}

/// The entry classifies `ch` as absent.
pub open spec fn is_no_match_of(e: CharFeedback, ch: char) -> bool {
    match e {
        CharFeedback::NoMatch(c) => c == ch,
        _ => false,
    }
}

/// The entry is an exact match claimed for position `pos`.
pub open spec fn is_exact_at(e: CharFeedback, pos: usize) -> bool {
    match e {
        CharFeedback::ExactMatch(_, p) => p == pos,
        _ => false,
    }
}

/// Some entry claims `ch` as an exact match.
pub open spec fn has_exact_letter(s: Seq<CharFeedback>, ch: char) -> bool {
    exists|k: int| 0 <= k < s.len() && is_exact_of(#[trigger] s[k], ch)
}

/// Some entry claims `ch` as misplaced.
pub open spec fn has_wrong_letter(s: Seq<CharFeedback>, ch: char) -> bool {
    exists|k: int| 0 <= k < s.len() && is_wrong_of(#[trigger] s[k], ch)
}

/// Some entry claims `ch` as absent.
pub open spec fn has_no_match_letter(s: Seq<CharFeedback>, ch: char) -> bool {
    exists|k: int| 0 <= k < s.len() && is_no_match_of(#[trigger] s[k], ch)
}

/// Some entry claims an exact match for position `pos`.
pub open spec fn has_exact_at(s: Seq<CharFeedback>, pos: usize) -> bool {
    exists|k: int| 0 <= k < s.len() && is_exact_at(#[trigger] s[k], pos)
}

/// No exact-match entry contradicts a letter already confirmed at its
/// position: claiming a different letter at an already-set slot is a
/// contradiction the store must not silently accept.
pub open spec fn exacts_agree_with_known(known: Seq<Option<char>>, s: Seq<CharFeedback>) -> bool {
    forall|k: int|
        0 <= k < s.len() ==> match #[trigger] s[k] {
            CharFeedback::ExactMatch(c, pos) => known[pos as int] is None || known[pos as int]
                == Some(c),
            _ => true,
        }
}

/// No two exact-match entries claim different letters for the same position.
pub open spec fn exacts_mutually_agree(s: Seq<CharFeedback>) -> bool {
    forall|k1: int, k2: int|
        0 <= k1 < s.len() && 0 <= k2 < s.len() ==> match (#[trigger] s[k1], #[trigger] s[k2]) {
            (CharFeedback::ExactMatch(c1, p1), CharFeedback::ExactMatch(c2, p2)) => p1 == p2
                ==> c1 == c2,
            _ => true,
        }
}

} // verus!
