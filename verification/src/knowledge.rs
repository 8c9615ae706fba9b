//! The knowledge store: the concrete constraint-tracking state, the
//! single-word admissibility check, and candidate selection.

use vstd::prelude::*;
use vstd::string::StrSliceExecFns;
use crate::config::WORD_LENGTH;
use crate::feedback::{
    CharFeedback, Feedback, entries_in_range, exacts_agree_with_known, exacts_mutually_agree,
};
use crate::model::{
    KnowledgeView, apply_exacts, apply_feedback_model, apply_no_matches, apply_wrongs,
    agrees_with_known, constraints_disjoint, differs_from, known_contains, no_excluded_letter,
    remove_word, satisfies_misplaced, step_exact, step_no_match, step_wrong, word_admissible,
};

verus! {

/// A candidate word: a fixed-length sequence of letters.
pub type Word = String;

/// The accumulated constraint set of a session.
///
/// `known_letters` always holds exactly `WORD_LENGTH` slots;
/// `excluded_letters` is a duplicate-free list read as a set of letters;
/// `misplaced_letters` is a list of `(letter, positions)` pairs with unique
/// letters and duplicate-free position lists, read as a map from letter to a
/// set of positions; `available_words` is the working candidate list.
#[derive(Debug)]
pub struct Knowledge {
    pub known_letters: Vec<Option<char>>,
    pub excluded_letters: Vec<char>,
    pub misplaced_letters: Vec<(char, Vec<usize>)>,
    pub available_words: Vec<Word>,
}

/// The letters of the pairs are pairwise distinct.
pub open spec fn unique_keys(pairs: Seq<(char, Vec<usize>)>) -> bool {
    forall|i: int, j: int|
        0 <= i < j < pairs.len() ==> (#[trigger] pairs[i]).0 != (#[trigger] pairs[j]).0
}

/// The map that a list of `(letter, positions)` pairs stands for.
pub open spec fn pairs_map(pairs: Seq<(char, Vec<usize>)>) -> Map<char, Set<usize>>
    decreases pairs.len(),
{
    if pairs.len() == 0 {
        Map::<char, Set<usize>>::empty()
    } else {
        pairs_map(pairs.drop_last()).insert(pairs.last().0, pairs.last().1@.to_set())
    }
}

/// A letter is in the map's domain exactly when some pair carries it.
pub proof fn lemma_pairs_map_dom_char(pairs: Seq<(char, Vec<usize>)>, ch: char)
    ensures
        pairs_map(pairs).dom().contains(ch) <==> exists|j: int|
            0 <= j < pairs.len() && (#[trigger] pairs[j]).0 == ch,
    decreases pairs.len(),
{
    if pairs.len() == 0 {
    } else {
        lemma_pairs_map_dom_char(pairs.drop_last(), ch);
        if pairs.last().0 == ch {
            assert((pairs[pairs.len() - 1]).0 == ch);
        } else {
            if pairs_map(pairs).dom().contains(ch) {
                assert(pairs_map(pairs.drop_last()).dom().contains(ch));
                let j = choose|j: int|
                    0 <= j < pairs.drop_last().len() && (#[trigger] pairs.drop_last()[j]).0 == ch;
                assert((pairs[j]).0 == ch);
            }
            if exists|j: int| 0 <= j < pairs.len() && (#[trigger] pairs[j]).0 == ch {
                let j = choose|j: int| 0 <= j < pairs.len() && (#[trigger] pairs[j]).0 == ch;
                assert(j < pairs.len() - 1);
                assert((pairs.drop_last()[j]).0 == ch);
            }
        }
    }
}

/// With unique letters, the pair at index `j` gives the map's value for its
/// letter.
pub proof fn lemma_pairs_map_index(pairs: Seq<(char, Vec<usize>)>, j: int)
    requires
        unique_keys(pairs),
        0 <= j < pairs.len(),
    ensures
        pairs_map(pairs).dom().contains(pairs[j].0),
        pairs_map(pairs)[pairs[j].0] == pairs[j].1@.to_set(),
    decreases pairs.len(),
{
    if j == pairs.len() - 1 {
    } else {
        lemma_pairs_map_index(pairs.drop_last(), j);
        assert(pairs.drop_last()[j] == pairs[j]);
        assert(pairs[j].0 != pairs.last().0);
    }
}

/// Appending a pair with a fresh letter inserts it into the map.
pub proof fn lemma_pairs_map_push(pairs: Seq<(char, Vec<usize>)>, ch: char, ps: Vec<usize>)
    ensures
        pairs_map(pairs.push((ch, ps))) == pairs_map(pairs).insert(ch, ps@.to_set()),
{
    assert(pairs.push((ch, ps)).drop_last() =~= pairs);
}

/// Replacing the position list of the pair at index `j` updates the map at
/// that pair's letter and nothing else.
pub proof fn lemma_pairs_map_update(pairs: Seq<(char, Vec<usize>)>, j: int, ps: Vec<usize>)
    requires
        unique_keys(pairs),
        0 <= j < pairs.len(),
    ensures
        pairs_map(pairs.update(j, (pairs[j].0, ps))) == pairs_map(pairs).insert(
            pairs[j].0,
            ps@.to_set(),
        ),
    decreases pairs.len(),
{
    let updated = pairs.update(j, (pairs[j].0, ps));
    if j == pairs.len() - 1 {
        assert(updated.drop_last() =~= pairs.drop_last());
        assert(pairs_map(updated) =~= pairs_map(pairs).insert(pairs[j].0, ps@.to_set()));
    } else {
        lemma_pairs_map_update(pairs.drop_last(), j, ps);
        assert(pairs.drop_last()[j] == pairs[j]);
        assert(updated.drop_last() =~= pairs.drop_last().update(j, (pairs[j].0, ps)));
        assert(updated.last() == pairs.last());
        assert(pairs[j].0 != pairs.last().0);
        assert(pairs_map(updated) =~= pairs_map(pairs).insert(pairs[j].0, ps@.to_set()));
    }
}

/// Appending an element to a sequence inserts it into the sequence's set.
pub proof fn lemma_to_set_push<A>(s: Seq<A>, x: A)
    ensures
        s.push(x).to_set() == s.to_set().insert(x),
{
    assert forall|a: A| s.push(x).to_set().contains(a) implies s.to_set().insert(x).contains(
        a,
    ) by {
        let i = choose|i: int| 0 <= i < s.push(x).len() && s.push(x)[i] == a;
        if i < s.len() {
            assert(s[i] == a);
        }
    }
    assert forall|a: A| s.to_set().insert(x).contains(a) implies s.push(x).to_set().contains(
        a,
    ) by {
        if s.to_set().contains(a) {
            let i = choose|i: int| 0 <= i < s.len() && s[i] == a;
            assert(s.push(x)[i] == a);
        } else {
            assert(s.push(x)[s.len() as int] == x);
        }
    }
    assert(s.push(x).to_set() =~= s.to_set().insert(x));
}

impl View for Knowledge {
    type V = KnowledgeView;

    open spec fn view(&self) -> KnowledgeView {
        KnowledgeView {
            known: self.known_letters@,
            excluded: self.excluded_letters@.to_set(),
            misplaced: pairs_map(self.misplaced_letters@),
            words: self.available_words@,
        }
    }
}

impl Knowledge {
    /// The representation invariant: the slot array has the configured
    /// length, the excluded list and every position list are duplicate-free,
    /// the misplaced letters are unique, and every candidate has the
    /// configured length.
    pub open spec fn wf(self) -> bool {
        &&& self.known_letters@.len() == WORD_LENGTH
        &&& forall|i: int, j: int|
            0 <= i < j < self.excluded_letters@.len() ==> self.excluded_letters@[i]
                != self.excluded_letters@[j]
        &&& unique_keys(self.misplaced_letters@)
        &&& forall|k: int|
            0 <= k < self.misplaced_letters@.len() ==> no_dup_positions(
                (#[trigger] self.misplaced_letters@[k]).1@,
            )
        &&& forall|k: int|
            0 <= k < self.available_words@.len() ==> (#[trigger] self.available_words@[k])@.len()
                == WORD_LENGTH
    }

    /// Start a session: no constraints yet, the given candidate list.
    pub fn new(available_words: Vec<Word>) -> (r: Self)
        requires
            forall|k: int|
                0 <= k < available_words@.len() ==> (#[trigger] available_words@[k])@.len()
                    == WORD_LENGTH,
        ensures
            r.wf(),
            r@.known.len() == WORD_LENGTH,
            forall|i: int| 0 <= i < WORD_LENGTH ==> r@.known[i] is None,
            r@.excluded == Set::<char>::empty(),
            r@.misplaced == Map::<char, Set<usize>>::empty(),
            r@.words == available_words@,
            constraints_disjoint(r@),
    {
        let mut known_letters: Vec<Option<char>> = Vec::new();
        let mut i: usize = 0;
        while i < WORD_LENGTH
            invariant
                i <= WORD_LENGTH,
                known_letters@.len() == i,
                forall|t: int| 0 <= t < i ==> known_letters@[t] is None,
            decreases WORD_LENGTH - i,
        {
            known_letters.push(None);
            i += 1;
        }
        let r = Self {
            known_letters,
            excluded_letters: Vec::new(),
            misplaced_letters: Vec::new(),
            available_words,
        };
        proof {
            assert(r@.excluded =~= Set::<char>::empty());
        }
        r
    }
}

/// The positions of the list are pairwise distinct.
pub open spec fn no_dup_positions(ps: Seq<usize>) -> bool {
    forall|i: int, j: int| 0 <= i < j < ps.len() ==> ps[i] != ps[j]
}

fn vec_contains_char(v: &Vec<char>, ch: char) -> (r: bool)
    ensures
        r == v@.contains(ch),
{
    let n = v.len();
    let mut i: usize = 0;
    while i < n
        invariant
            i <= n,
            n == v@.len(),
            forall|t: int| 0 <= t < i ==> v@[t] != ch,
        decreases n - i,
    {
        if v[i] == ch {
            return true;
        }
        i += 1;
    }
    false
}

fn vec_contains_usize(v: &Vec<usize>, x: usize) -> (r: bool)
    ensures
        r == v@.contains(x),
{
    let n = v.len();
    let mut i: usize = 0;
    while i < n
        invariant
            i <= n,
            n == v@.len(),
            forall|t: int| 0 <= t < i ==> v@[t] != x,
        decreases n - i,
    {
        if v[i] == x {
            return true;
        }
        i += 1;
    }
    false
}

/// Whether the word carries the letter anywhere.
pub fn word_contains_char(word: &Word, ch: char) -> (r: bool)
    ensures
        r == word@.contains(ch),
{
    let n = word.as_str().unicode_len();
    let mut i: usize = 0;
    while i < n
        invariant
            i <= n,
            n == word@.len(),
            forall|t: int| 0 <= t < i ==> word@[t] != ch,
        decreases n - i,
    {
        if word.as_str().get_char(i) == ch {
            return true;
        }
        i += 1;
    }
    false
}

impl Knowledge {
    fn known_contains_letter(&self, ch: char) -> (r: bool)
        ensures
            r == known_contains(self@.known, ch),
    {
        let n = self.known_letters.len();
        let mut i: usize = 0;
        while i < n
            invariant
                i <= n,
                n == self@.known.len(),
                forall|t: int| 0 <= t < i ==> self@.known[t] != Some(ch),
            decreases n - i,
        {
            match self.known_letters[i] {
                Some(k) => {
                    if k == ch {
                        return true;
                    }
                },
                None => {},
            }
            i += 1;
        }
        false
    }

    fn misplaced_find(&self, ch: char) -> (r: Option<usize>)
        ensures
            match r {
                Some(j) => j < self.misplaced_letters@.len() && self.misplaced_letters@[j as int].0
                    == ch,
                None => forall|t: int|
                    0 <= t < self.misplaced_letters@.len() ==> (
                    #[trigger] self.misplaced_letters@[t]).0 != ch,
            },
    {
        let n = self.misplaced_letters.len();
        let mut j: usize = 0;
        while j < n
            invariant
                j <= n,
                n == self.misplaced_letters@.len(),
                forall|t: int| 0 <= t < j ==> (#[trigger] self.misplaced_letters@[t]).0 != ch,
            decreases n - j,
        {
            if self.misplaced_letters[j].0 == ch {
                return Some(j);
            }
            j += 1;
        }
        None
    }

    /// Record an absence, unless the letter is already confirmed present.
    fn process_no_match(&mut self, ch: char)
        requires
            old(self).wf(),
        ensures
            final (self).wf(),
            final (self)@ == step_no_match(old(self)@, ch),
    {
        if self.known_contains_letter(ch) {
            return ;
        }
        let found = self.misplaced_find(ch);
        proof {
            lemma_pairs_map_dom_char(self.misplaced_letters@, ch);
        }
        if found.is_some() {
            return ;
        }
        if !vec_contains_char(&self.excluded_letters, ch) {
            let ghost before = self.excluded_letters@;
            self.excluded_letters.push(ch);
            proof {
                lemma_to_set_push(before, ch);
                assert(self@ =~= step_no_match(old(self)@, ch));
            }
        } else {
            proof {
                assert(self@.excluded.insert(ch) =~= self@.excluded);
                assert(self@ =~= step_no_match(old(self)@, ch));
            }
        }
    }

    /// Record a misplacement: add `pos` to the letter's position set.
    fn process_wrong_position(&mut self, ch: char, pos: usize)
        requires
            old(self).wf(),
        ensures
            final (self).wf(),
            final (self)@ == step_wrong(old(self)@, ch, pos),
    {
        let found = self.misplaced_find(ch);
        proof {
            lemma_pairs_map_dom_char(self.misplaced_letters@, ch);
        }
        match found {
            Some(j) => {
                proof {
                    lemma_pairs_map_index(self.misplaced_letters@, j as int);
                }
                if !vec_contains_usize(&self.misplaced_letters[j].1, pos) {
                    let ghost before = self.misplaced_letters@;
                    let ghost old_ps = self.misplaced_letters@[j as int].1;
                    self.misplaced_letters[j].1.push(pos);
                    proof {
                        assert(self.misplaced_letters@ =~= before.update(
                            j as int,
                            (ch, self.misplaced_letters@[j as int].1),
                        ));
                        lemma_pairs_map_update(
                            before,
                            j as int,
                            self.misplaced_letters@[j as int].1,
                        );
                        lemma_to_set_push(old_ps@, pos);
                        assert(self@ =~= step_wrong(old(self)@, ch, pos));
                    }
                } else {
                    proof {
                        assert(self@.misplaced[ch].insert(pos) =~= self@.misplaced[ch]);
                        assert(self@.misplaced.insert(ch, self@.misplaced[ch]) =~= self@.misplaced);
                        assert(self@ =~= step_wrong(old(self)@, ch, pos));
                    }
                }
            },
            None => {
                let mut ps: Vec<usize> = Vec::new();
                ps.push(pos);
                let ghost before = self.misplaced_letters@;
                self.misplaced_letters.push((ch, ps));
                proof {
                    lemma_pairs_map_push(before, ch, ps);
                    lemma_to_set_push(Seq::<usize>::empty(), pos);
                    assert(Seq::<usize>::empty().to_set() =~= Set::<usize>::empty());
                    assert(ps@ =~= Seq::<usize>::empty().push(pos));
                    assert(self@ =~= step_wrong(old(self)@, ch, pos));
                }
            },
        }
    }

    /// Drop every candidate equal to `word` from the working list (a no-op
    /// when the word is absent); constraints are untouched.
    pub fn remove_available_word(&mut self, word: &Word)
        requires
            old(self).wf(),
        ensures
            final (self).wf(),
            final (self)@ == remove_word(old(self)@, word@),
    {
        let mut kept: Vec<Word> = Vec::new();
        let n = self.available_words.len();
        let mut i: usize = 0;
        proof {
            reveal(Seq::filter);
            assert(self.available_words@.take(0) =~= Seq::<Word>::empty());
        }
        while i < n
            invariant
                i <= n,
                n == self.available_words@.len(),
                *self == *old(self),
                old(self).wf(),
                kept@ == self.available_words@.take(i as int).filter(differs_from(word@)),
                forall|t: int| 0 <= t < kept@.len() ==> (#[trigger] kept@[t])@.len() == WORD_LENGTH,
            decreases n - i,
        {
            let ghost prefix = self.available_words@.take(i as int);
            proof {
                reveal(Seq::filter);
                assert(self.available_words@.take(i + 1).drop_last() =~= prefix);
                assert(self.available_words@.take(i + 1).last() == self.available_words@[i as int]);
            }
            if !self.available_words[i].eq(word) {
                let w = self.available_words[i].clone();
                kept.push(w);
            }
            i += 1;
        }
        proof {
            assert(self.available_words@.take(n as int) =~= self.available_words@);
        }
        self.available_words = kept;
        proof {
            assert(self@ =~= remove_word(old(self)@, word@));
        }
    }

    /// Apply one round's feedback.
    ///
    /// When the guess was rejected as not a word, only the candidate list
    /// changes: the guess is removed from it, and the caller is expected to
    /// persist the shrunk list.  Otherwise the classifications are processed
    /// in the mandatory priority order — every exact match, then every
    /// misplacement, then every absence — so that a duplicate letter that is
    /// exact at one position and absent at another never ends up excluded.
    ///
    /// A feedback of the wrong length, a position outside the word, or an
    /// exact match contradicting an already-confirmed letter is a caller
    /// contract violation and is ruled out by the precondition.
    pub fn process_feedback(&mut self, feedback: Feedback, word: &Word)
        requires
            old(self).wf(),
            !feedback.not_valid_word ==> feedback.chars_feedback@.len() == WORD_LENGTH
                && entries_in_range(feedback.chars_feedback@) && exacts_agree_with_known(
                old(self)@.known,
                feedback.chars_feedback@,
            ) && exacts_mutually_agree(feedback.chars_feedback@),
        ensures
            final (self).wf(),
            final (self)@ == apply_feedback_model(
                old(self)@,
                feedback.chars_feedback@,
                feedback.not_valid_word,
                word@,
            ),
    {
        if feedback.not_valid_word {
            self.remove_available_word(word);
            return ;
        }
        let ghost entries = feedback.chars_feedback@;
        let ghost m0 = self@;
        let n = feedback.chars_feedback.len();

        let mut k: usize = 0;
        proof {
            assert(entries.take(0) =~= Seq::<CharFeedback>::empty());
        }
        while k < n
            invariant
                k <= n,
                n == entries.len(),
                feedback.chars_feedback@ == entries,
                entries_in_range(entries),
                self.wf(),
                self@ == apply_exacts(m0, entries.take(k as int)),
            decreases n - k,
        {
            proof {
                assert(entries.take(k + 1).drop_last() =~= entries.take(k as int));
                assert(entries.take(k + 1).last() == entries[k as int]);
            }
            match feedback.chars_feedback[k] {
                CharFeedback::ExactMatch(ch, pos) => {
                    self.process_exact_match(ch, pos);
                },
                _ => {},
            }
            k += 1;
        }
        proof {
            assert(entries.take(n as int) =~= entries);
        }
        let ghost m1 = apply_exacts(m0, entries);

        let mut k: usize = 0;
        proof {
            assert(entries.take(0) =~= Seq::<CharFeedback>::empty());
        }
        while k < n
            invariant
                k <= n,
                n == entries.len(),
                feedback.chars_feedback@ == entries,
                self.wf(),
                self@ == apply_wrongs(m1, entries.take(k as int)),
            decreases n - k,
        {
            proof {
                assert(entries.take(k + 1).drop_last() =~= entries.take(k as int));
                assert(entries.take(k + 1).last() == entries[k as int]);
            }
            match feedback.chars_feedback[k] {
                CharFeedback::WrongPosition(ch, pos) => {
                    self.process_wrong_position(ch, pos);
                },
                _ => {},
            }
            k += 1;
        }
        proof {
            assert(entries.take(n as int) =~= entries);
        }
        let ghost m2 = apply_wrongs(m1, entries);

        let mut k: usize = 0;
        proof {
            assert(entries.take(0) =~= Seq::<CharFeedback>::empty());
        }
        while k < n
            invariant
                k <= n,
                n == entries.len(),
                feedback.chars_feedback@ == entries,
                self.wf(),
                self@ == apply_no_matches(m2, entries.take(k as int)),
            decreases n - k,
        {
            proof {
                assert(entries.take(k + 1).drop_last() =~= entries.take(k as int));
                assert(entries.take(k + 1).last() == entries[k as int]);
            }
            match feedback.chars_feedback[k] {
                CharFeedback::NoMatch(ch) => {
                    self.process_no_match(ch);
                },
                _ => {},
            }
            k += 1;
        }
        proof {
            assert(entries.take(n as int) =~= entries);
        }
    }

    /// Record an exact match: confirm `ch` at `pos`.
    fn process_exact_match(&mut self, ch: char, pos: usize)
        requires
            old(self).wf(),
            pos < WORD_LENGTH,
        ensures
            final (self).wf(),
            final (self)@ == step_exact(old(self)@, ch, pos),
    {
        self.known_letters[pos] = Some(ch);
        proof {
            assert(self@ =~= step_exact(old(self)@, ch, pos));
        }
    }

    /// Whether the word carries some letter confirmed absent.
    pub fn word_has_excluded_letters(&self, word: &Word) -> (r: bool)
        ensures
            r == !no_excluded_letter(self@, word@),
    {
        let n = word.as_str().unicode_len();
        let mut i: usize = 0;
        while i < n
            invariant
                i <= n,
                n == word@.len(),
                forall|t: int| 0 <= t < i ==> !self@.excluded.contains(#[trigger] word@[t]),
            decreases n - i,
        {
            let ch = word.as_str().get_char(i);
            if vec_contains_char(&self.excluded_letters, ch) {
                assert(self@.excluded.contains(word@[i as int]));
                return true;
            }
            i += 1;
        }
        false
    }

    /// Whether the word breaks a misplacement constraint: it either carries a
    /// misplaced letter at a position already shown wrong for it, or it lacks
    /// a misplaced letter altogether (a letter known present must occur
    /// somewhere).
    pub fn word_has_misplaced_letters(&self, word: &Word) -> (r: bool)
        requires
            self.wf(),
            word@.len() == WORD_LENGTH,
        ensures
            r == !satisfies_misplaced(self@, word@),
    {
        let mut i: usize = 0;
        while i < WORD_LENGTH
            invariant
                i <= WORD_LENGTH,
                self.wf(),
                word@.len() == WORD_LENGTH,
                forall|t: int|
                    0 <= t < i ==> !(self@.misplaced.dom().contains(#[trigger] word@[t])
                        && self@.misplaced[word@[t]].contains(t as usize)),
            decreases WORD_LENGTH - i,
        {
            let ch = word.as_str().get_char(i);
            match self.misplaced_find(ch) {
                Some(j) => {
                    proof {
                        lemma_pairs_map_index(self.misplaced_letters@, j as int);
                    }
                    if vec_contains_usize(&self.misplaced_letters[j].1, i) {
                        assert(self@.misplaced.dom().contains(word@[i as int])
                            && self@.misplaced[word@[i as int]].contains(i));
                        return true;
                    }
                },
                None => {
                    proof {
                        lemma_pairs_map_dom_char(self.misplaced_letters@, ch);
                    }
                },
            }
            i += 1;
        }
        let n = self.misplaced_letters.len();
        let mut j: usize = 0;
        while j < n
            invariant
                j <= n,
                n == self.misplaced_letters@.len(),
                self.wf(),
                word@.len() == WORD_LENGTH,
                forall|t: int|
                    0 <= t < WORD_LENGTH ==> !(self@.misplaced.dom().contains(#[trigger] word@[t])
                        && self@.misplaced[word@[t]].contains(t as usize)),
                forall|t: int|
                    0 <= t < j ==> word@.contains((#[trigger] self.misplaced_letters@[t]).0),
            decreases n - j,
        {
            if !word_contains_char(word, self.misplaced_letters[j].0) {
                proof {
                    lemma_pairs_map_index(self.misplaced_letters@, j as int);
                    let ch = self.misplaced_letters@[j as int].0;
                    assert(self@.misplaced.dom().contains(ch) && !word@.contains(ch));
                    assert(!satisfies_misplaced(self@, word@));
                }
                return true;
            }
            j += 1;
        }
        proof {
            assert forall|ch: char| #[trigger] self@.misplaced.dom().contains(ch) implies word@
                .contains(ch) by {
                lemma_pairs_map_dom_char(self.misplaced_letters@, ch);
                let t = choose|t: int|
                    0 <= t < self.misplaced_letters@.len() && (
                    #[trigger] self.misplaced_letters@[t]).0 == ch;
                assert(word@.contains(self.misplaced_letters@[t].0));
            }
        }
        false
    }

    /// Whether the word contradicts a letter confirmed at an exact position.
    pub fn word_has_wrong_known_letters(&self, word: &Word) -> (r: bool)
        requires
            self.wf(),
            word@.len() == WORD_LENGTH,
        ensures
            r == !agrees_with_known(self@, word@),
    {
        let mut i: usize = 0;
        while i < WORD_LENGTH
            invariant
                i <= WORD_LENGTH,
                self.wf(),
                word@.len() == WORD_LENGTH,
                forall|t: int|
                    0 <= t < i ==> ((#[trigger] self@.known[t]) is None || self@.known[t] == Some(
                        word@[t],
                    )),
            decreases WORD_LENGTH - i,
        {
            let wch = word.as_str().get_char(i);
            match self.known_letters[i] {
                Some(k) => {
                    if wch != k {
                        return true;
                    }
                },
                None => {},
            }
            i += 1;
        }
        false
    }

    /// Whether the word is still consistent with everything learned so far:
    /// it carries no excluded letter, matches every confirmed position, and
    /// satisfies every misplacement constraint.
    pub fn is_word_allowed(&self, word: &Word) -> (r: bool)
        requires
            self.wf(),
            word@.len() == WORD_LENGTH,
        ensures
            r == word_admissible(self@, word@),
    {
        !self.word_has_excluded_letters(word) && !self.word_has_misplaced_letters(word)
            && !self.word_has_wrong_known_letters(word)
    }

    /// Choose the next guess uniformly at random among the candidates that
    /// are still admissible, or report that none is left.  The randomness
    /// comes from the process's thread-local generator; every possible
    /// outcome is an admissible member of the candidate list.
    pub fn pick_word(&self) -> (r: Option<Word>)
        requires
            self.wf(),
        ensures
            match r {
                Some(w) => self@.words.contains(w) && word_admissible(self@, w@),
                None => forall|t: int|
                    0 <= t < self@.words.len() ==> !word_admissible(
                        self@,
                        (#[trigger] self@.words[t])@,
                    ),
            },
    {
        let mut admissible: Vec<Word> = Vec::new();
        let n = self.available_words.len();
        let mut i: usize = 0;
        while i < n
            invariant
                i <= n,
                n == self@.words.len(),
                self.wf(),
                forall|t: int|
                    0 <= t < admissible@.len() ==> self@.words.contains(#[trigger] admissible@[t])
                        && word_admissible(self@, admissible@[t]@),
                forall|t: int|
                    0 <= t < i ==> word_admissible(self@, (#[trigger] self@.words[t])@)
                        ==> admissible@.len() > 0,
            decreases n - i,
        {
            if self.is_word_allowed(&self.available_words[i]) {
                let w = self.available_words[i].clone();
                assert(self@.words.contains(self@.words[i as int]));
                admissible.push(w);
            }
            i += 1;
        }
        if admissible.len() == 0 {
            None
        } else {
            let idx = random_index(admissible.len());
            let w = admissible[idx].clone();
            Some(w)
        }
    }
}

/// Relies on `rand::random_range` over the half-open range `0..bound`: the
/// result is drawn from that range, so it is below `bound`.  The call panics
/// only on an empty range, which the precondition rules out.  Nothing more
/// can be promised of a random value.
#[verifier::external_body]
fn random_index(bound: usize) -> (r: usize)
    requires
        bound > 0,
    ensures
        r < bound,
{
    rand::random_range(0..bound)
}

/// Choose the next guess deterministically: the first candidate in list
/// order that is still admissible, or report that none is left.
pub fn pick_word(knowledge: &Knowledge) -> (r: Option<Word>)
    requires
        knowledge.wf(),
    ensures
        match r {
            Some(w) => exists|i: int|
                0 <= i < knowledge@.words.len() && knowledge@.words[i] == w && word_admissible(
                    knowledge@,
                    w@,
                ) && forall|j: int|
                    0 <= j < i ==> !word_admissible(knowledge@, (#[trigger] knowledge@.words[j])@),
            None => forall|t: int|
                0 <= t < knowledge@.words.len() ==> !word_admissible(
                    knowledge@,
                    (#[trigger] knowledge@.words[t])@,
                ),
        },
{
    let n = knowledge.available_words.len();
    let mut i: usize = 0;
    while i < n
        invariant
            i <= n,
            n == knowledge@.words.len(),
            knowledge.wf(),
            forall|j: int|
                0 <= j < i ==> !word_admissible(knowledge@, (#[trigger] knowledge@.words[j])@),
        decreases n - i,
    {
        if knowledge.is_word_allowed(&knowledge.available_words[i]) {
            let w = knowledge.available_words[i].clone();
            return Some(w);
        }
        i += 1;
    }
    None
}

} // verus!
