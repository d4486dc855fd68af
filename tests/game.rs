use wordlehelper::determine_board_results;
use wordlehelper::words::{ABSENT, CORRECT, PRESENT};

fn s(w: &str) -> String {
    w.to_string()
}

#[test]
fn trace_against_crane() {
    // 't' is not in "crane"; "r", "a" and "e" stand right; "c" stands elsewhere.
    let r = determine_board_results(&s("crane"), &s("trace"));
    assert_eq!(r, vec![ABSENT, CORRECT, CORRECT, PRESENT, CORRECT]);
}

#[test]
fn exact_guess_is_all_correct() {
    let r = determine_board_results(&s("slate"), &s("slate"));
    assert_eq!(r, vec![CORRECT; 5]);
}

#[test]
fn disjoint_guess_is_all_absent() {
    let r = determine_board_results(&s("crane"), &s("dumpy"));
    assert_eq!(r, vec![ABSENT; 5]);
}

#[test]
fn repeated_guess_letter_marked_present_twice() {
    // The answer holds one 'e'; both misplaced 'e's of the guess are marked.
    let r = determine_board_results(&s("crane"), &s("geese"));
    assert_eq!(r, vec![ABSENT, PRESENT, PRESENT, ABSENT, CORRECT]);
}

#[test]
fn feedback_codes_are_zero_one_two() {
    assert_eq!((ABSENT, PRESENT, CORRECT), (0, 1, 2));
}
