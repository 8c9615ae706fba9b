//! Free helpers on candidate words: letter counts, repeated letters, and
//! length filtering of a raw word list.

use vstd::prelude::*;
use vstd::string::StrSliceExecFns;
use crate::knowledge::Word;

verus! {

/// How many positions of `w` hold the letter `ch`.
pub open spec fn count_char(w: Seq<char>, ch: char) -> nat
    decreases w.len(),
{
    if w.len() == 0 {
        0
    } else {
        count_char(w.drop_last(), ch) + if w.last() == ch {
            1nat
        } else {
            0nat
        }
    }
}

proof fn lemma_count_char_bound(w: Seq<char>, ch: char)
    ensures
        count_char(w, ch) <= w.len(),
    decreases w.len(),
{
    if w.len() > 0 {
        lemma_count_char_bound(w.drop_last(), ch);
    }
}

proof fn lemma_count_char_contains(w: Seq<char>, ch: char)
    ensures
        count_char(w, ch) >= 1 <==> w.contains(ch),
    decreases w.len(),
{
    if w.len() == 0 {
    } else {
        lemma_count_char_contains(w.drop_last(), ch);
        if w.last() == ch {
            assert(w[w.len() - 1] == ch);
        } else {
            if w.contains(ch) {
                let i = choose|i: int| 0 <= i < w.len() && w[i] == ch;
                assert(w.drop_last()[i] == ch);
            }
            if w.drop_last().contains(ch) {
                let i = choose|i: int| 0 <= i < w.drop_last().len() && w.drop_last()[i] == ch;
                assert(w[i] == ch);
            }
        }
    }
}

fn find_count_index(counts: &Vec<(char, u8)>, ch: char) -> (r: Option<usize>)
    ensures
        match r {
            Some(j) => j < counts@.len() && counts@[j as int].0 == ch,
            None => forall|t: int| 0 <= t < counts@.len() ==> (#[trigger] counts@[t]).0 != ch,
        },
{
    let n = counts.len();
    let mut j: usize = 0;
    while j < n
        invariant
            j <= n,
            n == counts@.len(),
            forall|t: int| 0 <= t < j ==> (#[trigger] counts@[t]).0 != ch,
        decreases n - j,
    {
        if counts[j].0 == ch {
            return Some(j);
        }
        j += 1;
    }
    None
}

/// How often each letter occurs in the word: one entry per distinct letter,
/// carrying its occurrence count.
pub fn get_char_counts(word: &Word) -> (r: Vec<(char, u8)>)
    requires
        word@.len() <= 255,
    ensures
        forall|t: int| 0 <= t < r@.len() ==> (#[trigger] r@[t]).1 == count_char(word@, r@[t].0),
        forall|t1: int, t2: int| 0 <= t1 < t2 < r@.len() ==> (#[trigger] r@[t1]).0 != (
        #[trigger] r@[t2]).0,
        forall|ch: char| word@.contains(ch) <==> exists|t: int|
            0 <= t < r@.len() && (#[trigger] r@[t]).0 == ch,
{
    let mut counts: Vec<(char, u8)> = Vec::new();
    let n = word.as_str().unicode_len();
    let mut i: usize = 0;
    proof {
        assert(word@.take(0) =~= Seq::<char>::empty());
    }
    while i < n
        invariant
            i <= n,
            n == word@.len(),
            n <= 255,
            forall|t: int|
                0 <= t < counts@.len() ==> (#[trigger] counts@[t]).1 == count_char(
                    word@.take(i as int),
                    counts@[t].0,
                ),
            forall|t1: int, t2: int|
                0 <= t1 < t2 < counts@.len() ==> (#[trigger] counts@[t1]).0 != (
                #[trigger] counts@[t2]).0,
            forall|ch: char|
                word@.take(i as int).contains(ch) <==> exists|t: int|
                    0 <= t < counts@.len() && (#[trigger] counts@[t]).0 == ch,
        decreases n - i,
    {
        let ch = word.as_str().get_char(i);
        let ghost prefix = word@.take(i as int);
        let ghost extended = word@.take(i + 1);
        let ghost before = counts@;
        proof {
            assert(extended.drop_last() =~= prefix);
            assert(extended.last() == word@[i as int]);
            lemma_count_char_bound(prefix, ch);
        }
        match find_count_index(&counts, ch) {
            Some(j) => {
                let c = counts[j].1;
                counts[j].1 = c + 1;
                proof {
                    assert(counts@ =~= before.update(j as int, (ch, (c + 1) as u8)));
                }
            },
            None => {
                proof {
                    lemma_count_char_contains(prefix, ch);
                }
                counts.push((ch, 1));
            },
        }
        proof {
            // Each tracked letter's count grows by one exactly for `ch`.
            assert forall|t: int| 0 <= t < counts@.len() implies (#[trigger] counts@[t]).1
                == count_char(extended, counts@[t].0) by {
                if counts@[t].0 == ch {
                    assert(count_char(extended, ch) == count_char(prefix, ch) + 1);
                } else {
                    assert(t < before.len());
                    assert(counts@[t] == before[t]);
                    assert(count_char(extended, counts@[t].0) == count_char(
                        prefix,
                        counts@[t].0,
                    ));
                }
            }
            // The tracked letters are exactly those of the longer prefix.
            assert forall|ch2: char| #[trigger] extended.contains(ch2) implies exists|t: int|
                0 <= t < counts@.len() && (#[trigger] counts@[t]).0 == ch2 by {
                let t = choose|t: int| 0 <= t < extended.len() && #[trigger] extended[t] == ch2;
                if t < i {
                    assert(prefix[t] == ch2);
                    assert(prefix.contains(ch2));
                    let u = choose|u: int| 0 <= u < before.len() && (#[trigger] before[u]).0 == ch2;
                    assert(counts@[u].0 == ch2);
                } else {
                    assert(ch2 == ch);
                    if prefix.contains(ch) {
                        let u = choose|u: int|
                            0 <= u < before.len() && (#[trigger] before[u]).0 == ch;
                        assert(counts@[u].0 == ch);
                    } else {
                        assert(counts@[counts@.len() - 1].0 == ch);
                    }
                }
            }
            assert forall|t: int| 0 <= t < counts@.len() implies extended.contains(
                (#[trigger] counts@[t]).0,
            ) by {
                if counts@[t].0 == ch {
                    assert(extended[i as int] == ch);
                } else {
                    assert(counts@[t] == before[t]);
                    assert(prefix.contains(counts@[t].0));
                    let u = choose|u: int| 0 <= u < prefix.len() && #[trigger] prefix[u] == counts@[t].0;
                    assert(extended[u] == counts@[t].0);
                }
            }
        }
        i += 1;
    }
    proof {
        assert(word@.take(n as int) =~= word@);
    }
    counts
}

/// Whether some letter occurs at least twice in the word.
pub fn has_repeating_letters(word: &Word) -> (r: bool)
    requires
        word@.len() <= 255,
    ensures
        r == exists|ch: char| count_char(word@, ch) >= 2,
{
    let counts = get_char_counts(word);
    let n = counts.len();
    let mut j: usize = 0;
    while j < n
        invariant
            j <= n,
            n == counts@.len(),
            forall|t: int| 0 <= t < counts@.len() ==> (#[trigger] counts@[t]).1 == count_char(
                word@,
                counts@[t].0,
            ),
            forall|ch: char| word@.contains(ch) <==> exists|t: int|
                0 <= t < counts@.len() && (#[trigger] counts@[t]).0 == ch,
            forall|t: int| 0 <= t < j ==> (#[trigger] counts@[t]).1 < 2,
        decreases n - j,
    {
        if counts[j].1 >= 2 {
            assert(count_char(word@, counts@[j as int].0) >= 2);
            return true;
        }
        j += 1;
    }
    proof {
        assert forall|ch: char| !(count_char(word@, ch) >= 2) by {
            lemma_count_char_contains(word@, ch);
            if word@.contains(ch) {
                let t = choose|t: int| 0 <= t < counts@.len() && (#[trigger] counts@[t]).0 == ch;
                assert(counts@[t].1 < 2);
            }
        }
    }
    false
}

/// Keep exactly the words of the given letter count, in order.
pub fn words_of_length(words: Vec<Word>, len: usize) -> (r: Vec<Word>)
    ensures
        r@ == words@.filter(|w: Word| w@.len() == len),
{
    let mut kept: Vec<Word> = Vec::new();
    let n = words.len();
    let mut i: usize = 0;
    proof {
        reveal(Seq::filter);
        assert(words@.take(0) =~= Seq::<Word>::empty());
    }
    while i < n
        invariant
            i <= n,
            n == words@.len(),
            kept@ == words@.take(i as int).filter(|w: Word| w@.len() == len),
        decreases n - i,
    {
        proof {
            reveal(Seq::filter);
            assert(words@.take(i + 1).drop_last() =~= words@.take(i as int));
            assert(words@.take(i + 1).last() == words@[i as int]);
        }
        if words[i].as_str().unicode_len() == len {
            let w = words[i].clone();
            kept.push(w);
        }
        i += 1;
    }
    proof {
        assert(words@.take(n as int) =~= words@);
    }
    kept
}

} // verus!
