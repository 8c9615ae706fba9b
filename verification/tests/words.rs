use word_solver::feedback::Feedback;
use word_solver::knowledge::{word_contains_char, Knowledge};
use word_solver::words::{get_char_counts, has_repeating_letters, words_of_length};
use word_solver::WORD_LENGTH;

#[test]
fn configured_word_length() {
    assert_eq!(WORD_LENGTH, 5);
}

#[test]
fn empty_feedback() {
    let fb = Feedback::new();
    assert!(fb.chars_feedback.is_empty());
    assert!(!fb.not_valid_word);
}

#[test]
fn fresh_knowledge_has_no_constraints() {
    let k = Knowledge::new(vec!["slate".to_string()]);
    assert_eq!(k.known_letters, vec![None; 5]);
    assert!(k.excluded_letters.is_empty());
    assert!(k.misplaced_letters.is_empty());
    assert_eq!(k.available_words, vec!["slate".to_string()]);
}

#[test]
fn char_counts_of_apple() {
    let counts = get_char_counts(&"apple".to_string());
    assert_eq!(counts, vec![('a', 1), ('p', 2), ('l', 1), ('e', 1)]);
}

#[test]
fn char_counts_of_empty_word() {
    let counts = get_char_counts(&"".to_string());
    assert!(counts.is_empty());
}

#[test]
fn repeating_letters() {
    assert!(has_repeating_letters(&"apple".to_string()));
    assert!(!has_repeating_letters(&"adieu".to_string()));
    assert!(!has_repeating_letters(&"".to_string()));
}

#[test]
fn word_contains_char_scans_whole_word() {
    let zebra = "zebra".to_string();
    assert!(word_contains_char(&zebra, 'z'));
    assert!(word_contains_char(&zebra, 'a'));
    assert!(!word_contains_char(&zebra, 'q'));
}

#[test]
fn words_of_length_keeps_order() {
    let list = vec![
        "apple".to_string(),
        "at".to_string(),
        "zebra".to_string(),
        "".to_string(),
        "mounts".to_string(),
    ];
    assert_eq!(
        words_of_length(list, 5),
        vec!["apple".to_string(), "zebra".to_string()]
    );
}
