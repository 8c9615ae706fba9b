//! Proved laws of the knowledge model: what each classification pass leaves
//! untouched and what it establishes, that one feedback applied twice equals
//! it applied once, that admissibility survives a re-application, that the
//! exclusion/presence invariant is preserved, and that a confirmed letter is
//! never unset or changed.

use vstd::prelude::*;
use crate::config::WORD_LENGTH;
use crate::feedback::{
    CharFeedback, entries_in_range, exacts_agree_with_known, exacts_mutually_agree,
    has_exact_at, has_exact_letter, has_no_match_letter, has_wrong_letter, is_exact_at,
    is_exact_of, is_no_match_of, is_wrong_of,
};
use crate::model::{
    KnowledgeView, apply_classifications, apply_exacts, apply_feedback_model, apply_no_matches,
    apply_wrongs, constraints_disjoint, differs_from, known_contains, remove_word,
    word_admissible,
};

verus! {

/// A prefix of the feedback also keeps its positions in range.
proof fn lemma_entries_in_range_prefix(s: Seq<CharFeedback>)
    requires
        entries_in_range(s),
        s.len() > 0,
    ensures
        entries_in_range(s.drop_last()),
{
    assert forall|k: int|
        0 <= k < s.drop_last().len() implies match #[trigger] s.drop_last()[k] {
        CharFeedback::NoMatch(_) => true,
        CharFeedback::WrongPosition(_, pos) => pos < WORD_LENGTH,
        CharFeedback::ExactMatch(_, pos) => pos < WORD_LENGTH,
    } by {
        assert(s.drop_last()[k] == s[k]);
    }
}

/// The exact-match pass touches only `known`, and keeps its length.
proof fn lemma_apply_exacts_frame(m: KnowledgeView, s: Seq<CharFeedback>)
    requires
        entries_in_range(s),
        m.known.len() == WORD_LENGTH,
    ensures
        apply_exacts(m, s).excluded == m.excluded,
        apply_exacts(m, s).misplaced == m.misplaced,
        apply_exacts(m, s).words == m.words,
        apply_exacts(m, s).known.len() == m.known.len(),
    decreases s.len(),
{
    if s.len() > 0 {
        lemma_entries_in_range_prefix(s);
        lemma_apply_exacts_frame(m, s.drop_last());
        match s.last() {
            CharFeedback::ExactMatch(ch, pos) => {
                assert(s[s.len() - 1] == s.last());
                assert(apply_exacts(m, s).known == apply_exacts(m, s.drop_last()).known.update(
                    pos as int,
                    Some(ch),
                ));
            },
            _ => {},
        }
    }
}

/// The wrong-position pass touches only `misplaced`.
proof fn lemma_apply_wrongs_frame(m: KnowledgeView, s: Seq<CharFeedback>)
    ensures
        apply_wrongs(m, s).known == m.known,
        apply_wrongs(m, s).excluded == m.excluded,
        apply_wrongs(m, s).words == m.words,
    decreases s.len(),
{
    if s.len() > 0 {
        lemma_apply_wrongs_frame(m, s.drop_last());
    }
}

/// The no-match pass touches only `excluded`.
proof fn lemma_apply_no_matches_frame(m: KnowledgeView, s: Seq<CharFeedback>)
    ensures
        apply_no_matches(m, s).known == m.known,
        apply_no_matches(m, s).misplaced == m.misplaced,
        apply_no_matches(m, s).words == m.words,
    decreases s.len(),
{
    if s.len() > 0 {
        lemma_apply_no_matches_frame(m, s.drop_last());
    }
}

/// After the exact-match pass: every claimed slot holds its claimed letter,
/// and unclaimed slots are unchanged.
proof fn lemma_apply_exacts_effect(m: KnowledgeView, s: Seq<CharFeedback>)
    requires
        exacts_mutually_agree(s),
        entries_in_range(s),
        m.known.len() == WORD_LENGTH,
    ensures
        forall|k: int|
            0 <= k < s.len() ==> match #[trigger] s[k] {
                CharFeedback::ExactMatch(c, p) => p < m.known.len() ==> apply_exacts(
                    m,
                    s,
                ).known[p as int] == Some(c),
                _ => true,
            },
        forall|i: int|
            0 <= i < m.known.len() && !has_exact_at(s, i as usize) ==> apply_exacts(
                m,
                s,
            ).known[i] == m.known[i],
    decreases s.len(),
{
    if s.len() == 0 {
    } else {
        let s0 = s.drop_last();
        let prev = apply_exacts(m, s0);
        assert forall|k1: int, k2: int|
            0 <= k1 < s0.len() && 0 <= k2 < s0.len() implies match (
            #[trigger] s0[k1],
            #[trigger] s0[k2],
        ) {
            (CharFeedback::ExactMatch(c1, p1), CharFeedback::ExactMatch(c2, p2)) => p1 == p2
                ==> c1 == c2,
            _ => true,
        } by {
            assert(s0[k1] == s[k1]);
            assert(s0[k2] == s[k2]);
        }
        lemma_entries_in_range_prefix(s);
        lemma_apply_exacts_effect(m, s0);
        lemma_apply_exacts_frame(m, s0);
        assert(s[s.len() - 1] == s.last());

        // An entry of the shorter prefix is an entry of the whole feedback.
        assert forall|i: int|
            0 <= i < m.known.len() && !(#[trigger] has_exact_at(s, i as usize)) implies
        !has_exact_at(s0, i as usize) by {
            if has_exact_at(s0, i as usize) {
                let k = choose|k: int| 0 <= k < s0.len() && is_exact_at(#[trigger] s0[k], i as usize);
                assert(is_exact_at(s[k], i as usize));
            }
        }

        match s.last() {
            CharFeedback::ExactMatch(cl, pl) => {
                assert(is_exact_at(s[s.len() - 1], pl));
                let cur = apply_exacts(m, s);
                assert(cur.known == prev.known.update(pl as int, Some(cl)));
                assert forall|k: int|
                    0 <= k < s.len() implies match #[trigger] s[k] {
                    CharFeedback::ExactMatch(c, p) => p < m.known.len() ==> cur.known[p as int]
                        == Some(c),
                    _ => true,
                } by {
                    match s[k] {
                        CharFeedback::ExactMatch(c, p) => {
                            if p < m.known.len() {
                                if p == pl {
                                    assert(c == cl);
                                } else if k < s.len() - 1 {
                                    assert(s0[k] == s[k]);
                                    assert(prev.known[p as int] == Some(c));
                                }
                            }
                        },
                        _ => {},
                    }
                }
            },
            _ => {
                assert forall|k: int|
                    0 <= k < s.len() implies match #[trigger] s[k] {
                    CharFeedback::ExactMatch(c, p) => p < m.known.len() ==> apply_exacts(
                        m,
                        s,
                    ).known[p as int] == Some(c),
                    _ => true,
                } by {
                    if k < s.len() - 1 {
                        assert(s0[k] == s[k]);
                    }
                }
            },
        }
    }
}

/// After the wrong-position pass: the map's domain is the old domain plus the
/// claimed letters, and every claimed `(letter, position)` is recorded.
proof fn lemma_apply_wrongs_effect(m: KnowledgeView, s: Seq<CharFeedback>)
    ensures
        forall|ch: char|
            #[trigger] apply_wrongs(m, s).misplaced.dom().contains(ch) <==> m.misplaced.dom()
                .contains(ch) || has_wrong_letter(s, ch),
        forall|k: int|
            0 <= k < s.len() ==> match #[trigger] s[k] {
                CharFeedback::WrongPosition(c, p) => apply_wrongs(m, s).misplaced.dom().contains(c)
                    && apply_wrongs(m, s).misplaced[c].contains(p),
                _ => true,
            },
    decreases s.len(),
{
    if s.len() == 0 {
        assert forall|ch: char| !has_wrong_letter(s, ch) by {}
    } else {
        let s0 = s.drop_last();
        let prev = apply_wrongs(m, s0);
        lemma_apply_wrongs_effect(m, s0);
        assert forall|ch: char| has_wrong_letter(s0, ch) implies has_wrong_letter(s, ch) by {
            let k = choose|k: int| 0 <= k < s0.len() && is_wrong_of(#[trigger] s0[k], ch);
            assert(is_wrong_of(s[k], ch));
        }
        let cur = apply_wrongs(m, s);
        match s.last() {
            CharFeedback::WrongPosition(cl, pl) => {
                assert(is_wrong_of(s[s.len() - 1], cl));
                assert forall|ch: char| #[trigger] cur.misplaced.dom().contains(ch) implies m
                    .misplaced.dom().contains(ch) || has_wrong_letter(s, ch) by {
                    if ch != cl {
                        assert(prev.misplaced.dom().contains(ch));
                    }
                }
                assert forall|ch: char|
                    m.misplaced.dom().contains(ch) || has_wrong_letter(s, ch) implies
                #[trigger] cur.misplaced.dom().contains(ch) by {
                    if ch != cl {
                        if has_wrong_letter(s, ch) {
                            let k = choose|k: int| 0 <= k < s.len() && is_wrong_of(#[trigger] s[k], ch);
                            assert(k < s.len() - 1);
                            assert(is_wrong_of(s0[k], ch));
                            assert(has_wrong_letter(s0, ch));
                        }
                        assert(prev.misplaced.dom().contains(ch));
                    }
                }
                assert forall|k: int|
                    0 <= k < s.len() implies match #[trigger] s[k] {
                    CharFeedback::WrongPosition(c, p) => cur.misplaced.dom().contains(c)
                        && cur.misplaced[c].contains(p),
                    _ => true,
                } by {
                    match s[k] {
                        CharFeedback::WrongPosition(c, p) => {
                            if k < s.len() - 1 {
                                assert(s0[k] == s[k]);
                                assert(prev.misplaced.dom().contains(c));
                                assert(prev.misplaced[c].contains(p));
                                if c == cl {
                                    assert(cur.misplaced[c] == prev.misplaced[cl].insert(pl));
                                }
                            } else {
                                assert(cur.misplaced[cl].contains(pl));
                            }
                        },
                        _ => {},
                    }
                }
            },
            _ => {
                assert forall|ch: char| has_wrong_letter(s, ch) implies has_wrong_letter(
                    s0,
                    ch,
                ) by {
                    let k = choose|k: int| 0 <= k < s.len() && is_wrong_of(#[trigger] s[k], ch);
                    assert(k < s.len() - 1);
                    assert(is_wrong_of(s0[k], ch));
                }
                assert forall|k: int|
                    0 <= k < s.len() implies match #[trigger] s[k] {
                    CharFeedback::WrongPosition(c, p) => cur.misplaced.dom().contains(c)
                        && cur.misplaced[c].contains(p),
                    _ => true,
                } by {
                    if k < s.len() - 1 {
                        assert(s0[k] == s[k]);
                    }
                }
            },
        }
    }
}

/// After the no-match pass: a letter is excluded exactly when it already was,
/// or the feedback claimed it absent and it was not confirmed present.
proof fn lemma_apply_no_matches_effect(m: KnowledgeView, s: Seq<CharFeedback>)
    ensures
        forall|ch: char|
            #[trigger] apply_no_matches(m, s).excluded.contains(ch) <==> m.excluded.contains(ch)
                || (has_no_match_letter(s, ch) && !known_contains(m.known, ch)
                && !m.misplaced.dom().contains(ch)),
    decreases s.len(),
{
    if s.len() == 0 {
    } else {
        let s0 = s.drop_last();
        let prev = apply_no_matches(m, s0);
        lemma_apply_no_matches_effect(m, s0);
        lemma_apply_no_matches_frame(m, s0);
        assert forall|ch: char| has_no_match_letter(s0, ch) implies has_no_match_letter(
            s,
            ch,
        ) by {
            let k = choose|k: int| 0 <= k < s0.len() && is_no_match_of(#[trigger] s0[k], ch);
            assert(is_no_match_of(s[k], ch));
        }
        let cur = apply_no_matches(m, s);
        match s.last() {
            CharFeedback::NoMatch(cl) => {
                assert(is_no_match_of(s[s.len() - 1], cl));
                assert forall|ch: char| #[trigger] cur.excluded.contains(ch) implies m.excluded
                    .contains(ch) || (has_no_match_letter(s, ch) && !known_contains(m.known, ch)
                    && !m.misplaced.dom().contains(ch)) by {
                    if !prev.excluded.contains(ch) {
                        assert(ch == cl);
                    }
                }
                assert forall|ch: char|
                    m.excluded.contains(ch) || (has_no_match_letter(s, ch) && !known_contains(
                        m.known,
                        ch,
                    ) && !m.misplaced.dom().contains(ch)) implies #[trigger] cur.excluded.contains(
                    ch,
                ) by {
                    if !m.excluded.contains(ch) && ch != cl {
                        let k = choose|k: int|
                            0 <= k < s.len() && is_no_match_of(#[trigger] s[k], ch);
                        assert(k < s.len() - 1);
                        assert(is_no_match_of(s0[k], ch));
                        assert(has_no_match_letter(s0, ch));
                    }
                }
            },
            _ => {
                assert forall|ch: char| has_no_match_letter(s, ch) implies has_no_match_letter(
                    s0,
                    ch,
                ) by {
                    let k = choose|k: int| 0 <= k < s.len() && is_no_match_of(#[trigger] s[k], ch);
                    assert(k < s.len() - 1);
                    assert(is_no_match_of(s0[k], ch));
                }
            },
        }
    }
}

/// An exact-match pass whose every claim already stands in `known` changes
/// nothing.
proof fn lemma_apply_exacts_noop(m: KnowledgeView, s: Seq<CharFeedback>)
    requires
        forall|k: int|
            0 <= k < s.len() ==> match #[trigger] s[k] {
                CharFeedback::ExactMatch(c, p) => p < m.known.len() && m.known[p as int] == Some(
                    c,
                ),
                _ => true,
            },
    ensures
        apply_exacts(m, s) == m,
    decreases s.len(),
{
    if s.len() > 0 {
        let s0 = s.drop_last();
        assert forall|k: int|
            0 <= k < s0.len() implies match #[trigger] s0[k] {
            CharFeedback::ExactMatch(c, p) => p < m.known.len() && m.known[p as int] == Some(c),
            _ => true,
        } by {
            assert(s0[k] == s[k]);
        }
        lemma_apply_exacts_noop(m, s0);
        assert(s[s.len() - 1] == s.last());
        match s.last() {
            CharFeedback::ExactMatch(cl, pl) => {
                assert(m.known.update(pl as int, Some(cl)) =~= m.known);
                assert(apply_exacts(m, s) =~~= m);
            },
            _ => {},
        }
    }
}

/// A wrong-position pass whose every claim is already recorded changes
/// nothing.
proof fn lemma_apply_wrongs_noop(m: KnowledgeView, s: Seq<CharFeedback>)
    requires
        forall|k: int|
            0 <= k < s.len() ==> match #[trigger] s[k] {
                CharFeedback::WrongPosition(c, p) => m.misplaced.dom().contains(c)
                    && m.misplaced[c].contains(p),
                _ => true,
            },
    ensures
        apply_wrongs(m, s) == m,
    decreases s.len(),
{
    if s.len() > 0 {
        let s0 = s.drop_last();
        assert forall|k: int|
            0 <= k < s0.len() implies match #[trigger] s0[k] {
            CharFeedback::WrongPosition(c, p) => m.misplaced.dom().contains(c)
                && m.misplaced[c].contains(p),
            _ => true,
        } by {
            assert(s0[k] == s[k]);
        }
        lemma_apply_wrongs_noop(m, s0);
        assert(s[s.len() - 1] == s.last());
        match s.last() {
            CharFeedback::WrongPosition(cl, pl) => {
                assert(m.misplaced[cl].insert(pl) =~= m.misplaced[cl]);
                assert(m.misplaced.insert(cl, m.misplaced[cl]) =~= m.misplaced);
                assert(apply_wrongs(m, s) =~~= m);
            },
            _ => {},
        }
    }
}

/// A no-match pass whose every letter is already excluded or already
/// confirmed present changes nothing.
proof fn lemma_apply_no_matches_noop(m: KnowledgeView, s: Seq<CharFeedback>)
    requires
        forall|k: int|
            0 <= k < s.len() ==> match #[trigger] s[k] {
                CharFeedback::NoMatch(c) => known_contains(m.known, c) || m.misplaced.dom()
                    .contains(c) || m.excluded.contains(c),
                _ => true,
            },
    ensures
        apply_no_matches(m, s) == m,
    decreases s.len(),
{
    if s.len() > 0 {
        let s0 = s.drop_last();
        assert forall|k: int|
            0 <= k < s0.len() implies match #[trigger] s0[k] {
            CharFeedback::NoMatch(c) => known_contains(m.known, c) || m.misplaced.dom().contains(c)
                || m.excluded.contains(c),
            _ => true,
        } by {
            assert(s0[k] == s[k]);
        }
        lemma_apply_no_matches_noop(m, s0);
        assert(s[s.len() - 1] == s.last());
        match s.last() {
            CharFeedback::NoMatch(cl) => {
                if !known_contains(m.known, cl) && !m.misplaced.dom().contains(cl) {
                    assert(m.excluded.insert(cl) =~= m.excluded);
                    assert(apply_no_matches(m, s) =~~= m);
                }
            },
            _ => {},
        }
    }
}

/// A sequence all of whose elements pass the predicate filters to itself.
proof fn lemma_filter_all_pass<A>(s: Seq<A>, pred: spec_fn(A) -> bool)
    requires
        forall|i: int| 0 <= i < s.len() ==> pred(#[trigger] s[i]),
    ensures
        s.filter(pred) == s,
    decreases s.len(),
{
    reveal(Seq::filter);
    if s.len() == 0 {
        assert(s.filter(pred) =~= s);
    } else {
        assert forall|i: int| 0 <= i < s.drop_last().len() implies pred(
            #[trigger] s.drop_last()[i],
        ) by {
            assert(s.drop_last()[i] == s[i]);
        }
        lemma_filter_all_pass(s.drop_last(), pred);
        assert(pred(s[s.len() - 1]));
        assert(s.filter(pred) =~= s);
    }
}

/// Filtering is idempotent.
proof fn lemma_filter_idempotent<A>(s: Seq<A>, pred: spec_fn(A) -> bool)
    ensures
        s.filter(pred).filter(pred) == s.filter(pred),
{
    assert forall|i: int| 0 <= i < s.filter(pred).len() implies pred(
        #[trigger] s.filter(pred)[i],
    ) by {
        s.lemma_filter_pred(pred, i);
    }
    lemma_filter_all_pass(s.filter(pred), pred);
}

/// Applying one feedback twice in a row yields exactly the state that
/// applying it once yields: the confirmed, misplaced and excluded sets are
/// unchanged by the repetition, and the invalid-word removal is naturally
/// idempotent, since removing an absent word is a no-op.
pub proof fn lemma_feedback_idempotent(
    m: KnowledgeView,
    entries: Seq<CharFeedback>,
    not_valid_word: bool,
    w: Seq<char>,
)
    requires
        !not_valid_word ==> m.known.len() == WORD_LENGTH && entries_in_range(entries)
            && exacts_mutually_agree(entries),
    ensures
        apply_feedback_model(
            apply_feedback_model(m, entries, not_valid_word, w),
            entries,
            not_valid_word,
            w,
        ) == apply_feedback_model(m, entries, not_valid_word, w),
{
    if not_valid_word {
        lemma_filter_idempotent(m.words, differs_from(w));
        assert(remove_word(remove_word(m, w), w) =~~= remove_word(m, w));
    } else {
        let me = apply_exacts(m, entries);
        let mw = apply_wrongs(me, entries);
        let m1 = apply_no_matches(mw, entries);
        lemma_apply_exacts_frame(m, entries);
        lemma_apply_exacts_effect(m, entries);
        lemma_apply_wrongs_frame(me, entries);
        lemma_apply_wrongs_effect(me, entries);
        lemma_apply_no_matches_frame(mw, entries);
        lemma_apply_no_matches_effect(mw, entries);
        assert(m1.known == me.known);
        assert(m1.misplaced == mw.misplaced);

        assert forall|k: int|
            0 <= k < entries.len() implies match #[trigger] entries[k] {
            CharFeedback::ExactMatch(c, p) => p < m1.known.len() && m1.known[p as int] == Some(c),
            _ => true,
        } by {}
        lemma_apply_exacts_noop(m1, entries);

        assert forall|k: int|
            0 <= k < entries.len() implies match #[trigger] entries[k] {
            CharFeedback::WrongPosition(c, p) => m1.misplaced.dom().contains(c)
                && m1.misplaced[c].contains(p),
            _ => true,
        } by {}
        lemma_apply_wrongs_noop(m1, entries);

        assert forall|k: int|
            0 <= k < entries.len() implies match #[trigger] entries[k] {
            CharFeedback::NoMatch(c) => known_contains(m1.known, c) || m1.misplaced.dom().contains(
                c,
            ) || m1.excluded.contains(c),
            _ => true,
        } by {
            match entries[k] {
                CharFeedback::NoMatch(c) => {
                    assert(is_no_match_of(entries[k], c));
                    assert(has_no_match_letter(entries, c));
                    if !known_contains(mw.known, c) && !mw.misplaced.dom().contains(c) {
                        assert(m1.excluded.contains(c));
                    }
                },
                _ => {},
            }
        }
        lemma_apply_no_matches_noop(m1, entries);
        assert(apply_classifications(m1, entries) == m1);
    }
}

/// Re-applying constraints that the knowledge already reflects never removes
/// a word's admissibility: for a fixed state, the filter is stable.
pub proof fn lemma_admissibility_stable(
    m: KnowledgeView,
    entries: Seq<CharFeedback>,
    not_valid_word: bool,
    w: Seq<char>,
    cand: Seq<char>,
)
    requires
        !not_valid_word ==> m.known.len() == WORD_LENGTH && entries_in_range(entries)
            && exacts_mutually_agree(entries),
        word_admissible(apply_feedback_model(m, entries, not_valid_word, w), cand),
    ensures
        word_admissible(
            apply_feedback_model(
                apply_feedback_model(m, entries, not_valid_word, w),
                entries,
                not_valid_word,
                w,
            ),
            cand,
        ),
{
    lemma_feedback_idempotent(m, entries, not_valid_word, w);
}

/// The exclusion/presence invariant is preserved by every feedback whose
/// claims of presence do not contradict an earlier exclusion: starting from a
/// disjoint state — as a fresh session is — every such round leaves
/// `excluded` disjoint from the letters of `known` and the misplaced keys.
pub proof fn lemma_disjoint_preserved(
    m: KnowledgeView,
    entries: Seq<CharFeedback>,
    not_valid_word: bool,
    w: Seq<char>,
)
    requires
        constraints_disjoint(m),
        !not_valid_word ==> m.known.len() == WORD_LENGTH && entries_in_range(entries) && forall|
            ch: char,
        |
            (has_exact_letter(entries, ch) || has_wrong_letter(entries, ch)) ==> !m.excluded
                .contains(ch),
    ensures
        constraints_disjoint(apply_feedback_model(m, entries, not_valid_word, w)),
{
    if not_valid_word {
    } else {
        let me = apply_exacts(m, entries);
        let mw = apply_wrongs(me, entries);
        let m1 = apply_no_matches(mw, entries);
        lemma_apply_exacts_frame(m, entries);
        lemma_apply_wrongs_frame(me, entries);
        lemma_apply_no_matches_frame(mw, entries);
        lemma_apply_wrongs_effect(me, entries);
        lemma_apply_no_matches_effect(mw, entries);
        assert forall|ch: char| #[trigger] m1.excluded.contains(ch) implies !known_contains(
            m1.known,
            ch,
        ) && !m1.misplaced.dom().contains(ch) by {
            if mw.excluded.contains(ch) {
                // The letter was already excluded before this round.
                assert(m.excluded.contains(ch));
                assert(!has_exact_letter(entries, ch));
                assert(!has_wrong_letter(entries, ch));
                if known_contains(m1.known, ch) {
                    lemma_apply_exacts_effect_contains(m, entries, ch);
                }
                assert(!mw.misplaced.dom().contains(ch));
            } else {
                // The letter was excluded by this round's no-match pass,
                // which only fires when it is not confirmed present.
                assert(!known_contains(mw.known, ch));
                assert(!mw.misplaced.dom().contains(ch));
            }
        }
    }
}

/// The exact-match pass introduces no letter into `known` that was neither
/// there before nor claimed by some exact-match entry.
proof fn lemma_apply_exacts_effect_contains(m: KnowledgeView, s: Seq<CharFeedback>, ch: char)
    requires
        entries_in_range(s),
        m.known.len() == WORD_LENGTH,
        known_contains(apply_exacts(m, s).known, ch),
    ensures
        known_contains(m.known, ch) || has_exact_letter(s, ch),
    decreases s.len(),
{
    if s.len() == 0 {
    } else {
        let s0 = s.drop_last();
        let prev = apply_exacts(m, s0);
        lemma_entries_in_range_prefix(s);
        lemma_apply_exacts_frame(m, s0);
        assert(s[s.len() - 1] == s.last());
        match s.last() {
            CharFeedback::ExactMatch(cl, pl) => {
                let cur = apply_exacts(m, s);
                assert(cur.known == prev.known.update(pl as int, Some(cl)));
                let i = choose|i: int| 0 <= i < cur.known.len() && cur.known[i] == Some(ch);
                if i == pl as int {
                    assert(ch == cl);
                    assert(is_exact_of(s[s.len() - 1], ch));
                } else {
                    assert(prev.known[i] == Some(ch));
                    assert(known_contains(prev.known, ch));
                    lemma_apply_exacts_effect_contains(m, s0, ch);
                    if has_exact_letter(s0, ch) {
                        let k = choose|k: int| 0 <= k < s0.len() && is_exact_of(#[trigger] s0[k], ch);
                        assert(is_exact_of(s[k], ch));
                    }
                }
            },
            _ => {
                lemma_apply_exacts_effect_contains(m, s0, ch);
                if has_exact_letter(s0, ch) {
                    let k = choose|k: int| 0 <= k < s0.len() && is_exact_of(#[trigger] s0[k], ch);
                    assert(is_exact_of(s[k], ch));
                }
            },
        }
    }
}

/// Once a position's letter is confirmed, no later feedback unsets it or
/// changes it: an exact match contradicting a set slot is ruled out, and
/// every other classification leaves `known` alone.
pub proof fn lemma_known_slots_preserved(
    m: KnowledgeView,
    entries: Seq<CharFeedback>,
    not_valid_word: bool,
    w: Seq<char>,
)
    requires
        !not_valid_word ==> m.known.len() == WORD_LENGTH && entries_in_range(entries)
            && exacts_mutually_agree(entries) && exacts_agree_with_known(m.known, entries),
    ensures
        forall|i: int|
            0 <= i < m.known.len() && (#[trigger] m.known[i]) is Some ==> apply_feedback_model(
                m,
                entries,
                not_valid_word,
                w,
            ).known[i] == m.known[i],
{
    if not_valid_word {
    } else {
        let me = apply_exacts(m, entries);
        lemma_apply_exacts_frame(m, entries);
        lemma_apply_exacts_effect(m, entries);
        lemma_apply_wrongs_frame(me, entries);
        lemma_apply_no_matches_frame(apply_wrongs(me, entries), entries);
        assert forall|i: int|
            0 <= i < m.known.len() && (#[trigger] m.known[i]) is Some implies me.known[i]
                == m.known[i] by {
            if has_exact_at(entries, i as usize) {
                let k = choose|k: int|
                    0 <= k < entries.len() && is_exact_at(#[trigger] entries[k], i as usize);
                match entries[k] {
                    CharFeedback::ExactMatch(c, p) => {
                        assert(m.known[i] == Some(c));
                        assert(me.known[p as int] == Some(c));
                    },
                    _ => {},
                }
            }
        }
    }
}

} // verus!
