//! The mathematical model of the accumulated knowledge, and the
//! specification-level transition that one round of feedback performs on it.

use vstd::prelude::*;
use crate::config::WORD_LENGTH;
use crate::feedback::CharFeedback;

verus! {

/// The abstract state of the knowledge store: what the constraint set means,
/// independently of how it is represented in memory.
#[verifier::ext_equal]
pub struct KnowledgeView {
    /// For each position, the letter confirmed there, if any.
    pub known: Seq<Option<char>>,
    /// Letters confirmed absent from the solution everywhere.
    pub excluded: Set<char>,
    /// For each letter known present somewhere, the positions already shown
    /// wrong for it.
    pub misplaced: Map<char, Set<usize>>,
    /// The working candidate list.
    pub words: Seq<String>,
}

/// Some slot of `known` holds `ch`.
pub open spec fn known_contains(known: Seq<Option<char>>, ch: char) -> bool {
    exists|i: int| 0 <= i < known.len() && known[i] == Some(ch)
}

/// Record an exact match: confirm `ch` at position `pos`.
pub open spec fn step_exact(m: KnowledgeView, ch: char, pos: usize) -> KnowledgeView {
    KnowledgeView { known: m.known.update(pos as int, Some(ch)), ..m }
}

/// Record a misplacement: `ch` is present somewhere, but not at `pos`.
pub open spec fn step_wrong(m: KnowledgeView, ch: char, pos: usize) -> KnowledgeView {
    let ps = if m.misplaced.dom().contains(ch) {
        m.misplaced[ch]
    } else {
        Set::<usize>::empty()
    };
    KnowledgeView { misplaced: m.misplaced.insert(ch, ps.insert(pos)), ..m }
}

/// Record an absence: exclude `ch`, unless it is already confirmed present
/// through an exact match or a misplacement.
pub open spec fn step_no_match(m: KnowledgeView, ch: char) -> KnowledgeView {
    if known_contains(m.known, ch) || m.misplaced.dom().contains(ch) {
        m
    } else {
        KnowledgeView { excluded: m.excluded.insert(ch), ..m }
    }
}

/// Apply, in order, every exact-match entry of the feedback.
pub open spec fn apply_exacts(m: KnowledgeView, s: Seq<CharFeedback>) -> KnowledgeView
    decreases s.len(),
{
    if s.len() == 0 {
        m
    } else {
        let prev = apply_exacts(m, s.drop_last());
        match s.last() {
            CharFeedback::ExactMatch(ch, pos) => step_exact(prev, ch, pos),
            _ => prev,
        }
    }
}

/// Apply, in order, every wrong-position entry of the feedback.
pub open spec fn apply_wrongs(m: KnowledgeView, s: Seq<CharFeedback>) -> KnowledgeView
    decreases s.len(),
{
    if s.len() == 0 {
        m
    } else {
        let prev = apply_wrongs(m, s.drop_last());
        match s.last() {
            CharFeedback::WrongPosition(ch, pos) => step_wrong(prev, ch, pos),
            _ => prev,
        }
    }
}

/// Apply, in order, every no-match entry of the feedback.
pub open spec fn apply_no_matches(m: KnowledgeView, s: Seq<CharFeedback>) -> KnowledgeView
    decreases s.len(),
{
    if s.len() == 0 {
        m
    } else {
        let prev = apply_no_matches(m, s.drop_last());
        match s.last() {
            CharFeedback::NoMatch(ch) => step_no_match(prev, ch),
            _ => prev,
        }
    }
}

/// One round of classifications, in the mandatory priority order:
/// all exact matches first, then all misplacements, then all absences.
/// The order preserves the exclusion/presence invariant: a duplicate letter
/// that is an exact match at one position and a no-match at another must not
/// end up excluded.
pub open spec fn apply_classifications(m: KnowledgeView, s: Seq<CharFeedback>) -> KnowledgeView {
    apply_no_matches(apply_wrongs(apply_exacts(m, s), s), s)
}

/// The candidates kept by an invalid-word removal: those spelled otherwise
/// than the removed word.
pub open spec fn differs_from(w: Seq<char>) -> spec_fn(String) -> bool {
    |x: String| x@ != w
}

/// Drop every candidate equal to `w` from the working list; constraints are
/// untouched.
pub open spec fn remove_word(m: KnowledgeView, w: Seq<char>) -> KnowledgeView {
    KnowledgeView { words: m.words.filter(differs_from(w)), ..m }
}

/// The full effect of one feedback on the knowledge: either the invalid-word
/// removal, or the three classification passes.
pub open spec fn apply_feedback_model(
    m: KnowledgeView,
    entries: Seq<CharFeedback>,
    not_valid_word: bool,
    w: Seq<char>,
) -> KnowledgeView {
    if not_valid_word {
        remove_word(m, w)
    } else {
        apply_classifications(m, entries)
    }
}

/// The word contains no excluded letter.
pub open spec fn no_excluded_letter(m: KnowledgeView, w: Seq<char>) -> bool {
    forall|i: int| 0 <= i < w.len() ==> !m.excluded.contains(#[trigger] w[i])
}

/// At every position with a confirmed letter, the word carries that letter.
pub open spec fn agrees_with_known(m: KnowledgeView, w: Seq<char>) -> bool {
    forall|i: int|
        0 <= i < m.known.len() ==> ((#[trigger] m.known[i]) is None || m.known[i] == Some(w[i]))
}

/// Every misplaced letter occurs somewhere in the word, and never at a
/// position already shown wrong for it.
pub open spec fn satisfies_misplaced(m: KnowledgeView, w: Seq<char>) -> bool {
    &&& forall|ch: char| #[trigger] m.misplaced.dom().contains(ch) ==> w.contains(ch)
    &&& forall|i: int|
        0 <= i < w.len() ==> !(m.misplaced.dom().contains(#[trigger] w[i])
            && m.misplaced[w[i]].contains(i as usize))
}

/// A word is admissible iff it survives all three constraint kinds.
pub open spec fn word_admissible(m: KnowledgeView, w: Seq<char>) -> bool {
    &&& no_excluded_letter(m, w)
    &&& agrees_with_known(m, w)
    &&& satisfies_misplaced(m, w)
}

/// The exclusion/presence invariant: no letter is at once excluded and
/// confirmed present (through `known` or through a misplacement).
pub open spec fn constraints_disjoint(m: KnowledgeView) -> bool {
    forall|ch: char|
        #[trigger] m.excluded.contains(ch) ==> !known_contains(m.known, ch)
            && !m.misplaced.dom().contains(ch)
}

} // verus!
