use word_solver::feedback::{CharFeedback, Feedback};
use word_solver::knowledge::{pick_word, Knowledge};

fn words(list: &[&str]) -> Vec<String> {
    list.iter().map(|w| w.to_string()).collect()
}

fn apple_feedback() -> Feedback {
    Feedback {
        chars_feedback: vec![
            CharFeedback::ExactMatch('a', 0),
            CharFeedback::NoMatch('p'),
            CharFeedback::NoMatch('p'),
            CharFeedback::NoMatch('l'),
            CharFeedback::NoMatch('e'),
        ],
        not_valid_word: false,
    }
}

#[test]
fn scenario_apple_feedback() {
    let mut k = Knowledge::new(words(&["apple", "amigo"]));
    k.process_feedback(apple_feedback(), &"apple".to_string());

    assert_eq!(k.known_letters[0], Some('a'));
    assert!(k.excluded_letters.contains(&'p'));
    assert!(k.excluded_letters.contains(&'l'));
    assert!(k.excluded_letters.contains(&'e'));
    assert!(!k.excluded_letters.contains(&'a'));

    // "apple" now carries excluded letters, though 'a' stays confirmed.
    assert!(!k.is_word_allowed(&"apple".to_string()));
    // "amigo" starts with 'a' and carries no excluded letter.
    assert!(k.is_word_allowed(&"amigo".to_string()));
    // A word with an excluded letter anywhere is inadmissible.
    assert!(!k.is_word_allowed(&"adieu".to_string()));
}

#[test]
fn scenario_wrong_position() {
    let mut k = Knowledge::new(words(&["zebra", "bravo", "zones"]));
    let fb = Feedback {
        chars_feedback: vec![
            CharFeedback::NoMatch('c'),
            CharFeedback::WrongPosition('r', 2),
            CharFeedback::WrongPosition('a', 1),
            CharFeedback::NoMatch('t'),
            CharFeedback::WrongPosition('e', 0),
        ],
        not_valid_word: false,
    };
    k.process_feedback(fb, &"crate".to_string());

    // "zebra" has 'r' somewhere other than position 2: admissible.
    assert!(k.is_word_allowed(&"zebra".to_string()));
    // "bravo" carries 'r' exactly at position 2: inadmissible.
    assert!(!k.is_word_allowed(&"bravo".to_string()));
    // "zones" has no 'r' at all: the must-contain rule rejects it.
    assert!(!k.is_word_allowed(&"zones".to_string()));
}

#[test]
fn scenario_invalid_word_removed_once() {
    let mut k = Knowledge::new(words(&["mount", "sorry", "pride"]));
    let sorry = "sorry".to_string();

    let fb1 = Feedback { chars_feedback: vec![], not_valid_word: true };
    k.process_feedback(fb1, &sorry);
    assert_eq!(k.available_words, words(&["mount", "pride"]));

    // Requesting the removal again is a no-op.
    let fb2 = Feedback { chars_feedback: vec![], not_valid_word: true };
    k.process_feedback(fb2, &sorry);
    assert_eq!(k.available_words, words(&["mount", "pride"]));

    // No other state was touched.
    assert!(k.excluded_letters.is_empty());
    assert!(k.misplaced_letters.is_empty());
    assert!(k.known_letters.iter().all(|s| s.is_none()));
}

#[test]
fn scenario_exhaustion() {
    let mut k = Knowledge::new(words(&["bcdef", "ghijk"]));
    let fb = Feedback {
        chars_feedback: vec![
            CharFeedback::ExactMatch('a', 0),
            CharFeedback::NoMatch('b'),
            CharFeedback::NoMatch('c'),
            CharFeedback::NoMatch('g'),
            CharFeedback::NoMatch('h'),
        ],
        not_valid_word: false,
    };
    k.process_feedback(fb, &"about".to_string());

    // Every remaining candidate clashes with the constraints: no pick.
    assert_eq!(pick_word(&k), None);
    assert_eq!(k.pick_word(), None);
}

#[test]
fn applying_feedback_twice_changes_nothing_more() {
    let mut once = Knowledge::new(words(&["apple", "amigo"]));
    once.process_feedback(apple_feedback(), &"apple".to_string());

    let mut twice = Knowledge::new(words(&["apple", "amigo"]));
    twice.process_feedback(apple_feedback(), &"apple".to_string());
    twice.process_feedback(apple_feedback(), &"apple".to_string());

    assert_eq!(once.known_letters, twice.known_letters);
    assert_eq!(once.excluded_letters, twice.excluded_letters);
    assert_eq!(once.misplaced_letters, twice.misplaced_letters);
    assert_eq!(once.available_words, twice.available_words);
}

#[test]
fn excluded_stays_disjoint_from_present_letters() {
    let mut k = Knowledge::new(words(&["puppy"]));
    // 'p' is exact at position 0 and absent at position 2: it must not end
    // up excluded, whatever the order of the entries in the list.
    let fb = Feedback {
        chars_feedback: vec![
            CharFeedback::NoMatch('p'),
            CharFeedback::ExactMatch('p', 0),
            CharFeedback::WrongPosition('u', 3),
            CharFeedback::NoMatch('u'),
            CharFeedback::NoMatch('y'),
        ],
        not_valid_word: false,
    };
    k.process_feedback(fb, &"puppy".to_string());

    assert!(!k.excluded_letters.contains(&'p'));
    assert!(!k.excluded_letters.contains(&'u'));
    assert!(k.excluded_letters.contains(&'y'));

    // The invariant holds for the whole state: nothing excluded is known or
    // misplaced.
    for ch in &k.excluded_letters {
        assert!(!k.known_letters.contains(&Some(*ch)));
        assert!(!k.misplaced_letters.iter().any(|(c, _)| c == ch));
    }
}

#[test]
fn wrong_position_recorded_as_position_set() {
    let mut k = Knowledge::new(words(&["crate"]));
    let fb = Feedback {
        chars_feedback: vec![
            CharFeedback::WrongPosition('r', 2),
            CharFeedback::WrongPosition('r', 2),
            CharFeedback::WrongPosition('r', 4),
            CharFeedback::NoMatch('q'),
            CharFeedback::NoMatch('v'),
        ],
        not_valid_word: false,
    };
    k.process_feedback(fb, &"crate".to_string());

    // One entry for 'r', with each position recorded once.
    assert_eq!(k.misplaced_letters.len(), 1);
    assert_eq!(k.misplaced_letters[0].0, 'r');
    assert_eq!(k.misplaced_letters[0].1, vec![2, 4]);
}

#[test]
fn remove_available_word_drops_every_copy() {
    let mut k = Knowledge::new(words(&["sorry", "mount", "sorry"]));
    k.remove_available_word(&"sorry".to_string());
    assert_eq!(k.available_words, words(&["mount"]));

    // Removing an absent word is a no-op.
    k.remove_available_word(&"pride".to_string());
    assert_eq!(k.available_words, words(&["mount"]));
}

#[test]
fn pick_word_takes_first_admissible() {
    let mut k = Knowledge::new(words(&["apple", "amigo", "aroma"]));
    k.process_feedback(apple_feedback(), &"apple".to_string());
    // "apple" is inadmissible, "amigo" is the first admissible candidate.
    assert_eq!(pick_word(&k), Some("amigo".to_string()));
}

#[test]
fn pick_word_none_on_empty_list() {
    let k = Knowledge::new(words(&[]));
    assert_eq!(pick_word(&k), None);
    assert_eq!(k.pick_word(), None);
}

#[test]
fn random_pick_returns_the_single_admissible_candidate() {
    let mut k = Knowledge::new(words(&["apple", "amigo"]));
    k.process_feedback(apple_feedback(), &"apple".to_string());
    assert_eq!(k.pick_word(), Some("amigo".to_string()));
}

#[test]
fn random_pick_returns_an_admissible_member() {
    let k = Knowledge::new(words(&["mount", "pride", "zebra"]));
    for _ in 0..20 {
        let w = k.pick_word().expect("candidates remain");
        assert!(k.available_words.contains(&w));
        assert!(k.is_word_allowed(&w));
    }
}
