use wordlehelper::constraints::EVERYWHERE;
use wordlehelper::{build_include_list, build_omit_list, build_required_list, Entry};

fn entry(w: &str, codes: [u8; 5]) -> Entry {
    (w.to_string(), codes.to_vec())
}

#[test]
fn omit_list_marks_absent_everywhere_and_present_in_place() {
    let board = vec![entry("trace", [0, 2, 2, 1, 2])];
    assert_eq!(build_omit_list(&board), vec![('t', EVERYWHERE), ('c', 3)]);
}

#[test]
fn include_list_pins_correct_letters() {
    let board = vec![entry("trace", [0, 2, 2, 1, 2])];
    assert_eq!(build_include_list(&board), vec![('r', 1), ('a', 2), ('e', 4)]);
}

#[test]
fn required_list_holds_present_letters() {
    let board = vec![entry("trace", [0, 2, 2, 1, 2]), entry("slate", [1, 0, 2, 0, 2])];
    assert_eq!(build_required_list(&board), vec!['c', 's']);
}

#[test]
fn constraints_follow_history_order() {
    let board = vec![entry("slate", [1, 0, 2, 0, 2]), entry("trace", [0, 2, 2, 1, 2])];
    assert_eq!(
        build_omit_list(&board),
        vec![('s', 0), ('l', EVERYWHERE), ('t', EVERYWHERE), ('t', EVERYWHERE), ('c', 3)]
    );
    assert_eq!(build_include_list(&board), vec![('a', 2), ('e', 4), ('r', 1), ('a', 2), ('e', 4)]);
}

#[test]
fn empty_history_has_no_constraints() {
    let board: Vec<Entry> = Vec::new();
    assert!(build_omit_list(&board).is_empty());
    assert!(build_include_list(&board).is_empty());
    assert!(build_required_list(&board).is_empty());
}

#[test]
fn absent_letter_never_included() {
    let board = vec![entry("dumpy", [0, 0, 0, 0, 0]), entry("crane", [2, 2, 0, 0, 1])];
    let placed = build_include_list(&board);
    for c in "dumpy".chars() {
        assert!(placed.iter().all(|p| p.0 != c));
    }
    assert_eq!(placed, vec![('c', 0), ('r', 1)]);
}

#[test]
fn extraction_is_repeatable() {
    let board = vec![entry("trace", [0, 2, 2, 1, 2])];
    assert_eq!(build_omit_list(&board), build_omit_list(&board));
    assert_eq!(build_include_list(&board), build_include_list(&board));
    assert_eq!(build_required_list(&board), build_required_list(&board));
}

#[test]
fn reordered_history_gives_same_constraint_sets() {
    let a = vec![entry("slate", [1, 0, 2, 0, 2]), entry("trace", [0, 2, 2, 1, 2])];
    let b = vec![entry("trace", [0, 2, 2, 1, 2]), entry("slate", [1, 0, 2, 0, 2])];
    let sorted = |mut v: Vec<(char, usize)>| {
        v.sort();
        v.dedup();
        v
    };
    assert_eq!(sorted(build_omit_list(&a)), sorted(build_omit_list(&b)));
    assert_eq!(sorted(build_include_list(&a)), sorted(build_include_list(&b)));
    let mut ra = build_required_list(&a);
    let mut rb = build_required_list(&b);
    ra.sort();
    rb.sort();
    assert_eq!(ra, rb);
}
