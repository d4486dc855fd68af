use wordlehelper::{get_distance_list, get_letter_frequencies, suggest_word, Entry};

fn dict(ws: &[&str]) -> Vec<String> {
    ws.iter().map(|w| w.to_string()).collect()
}

fn score_pick(words: &[&str], board: &Vec<Entry>, letters: Vec<char>) -> String {
    let words = dict(words);
    let lists = get_distance_list(&get_letter_frequencies(&words, board));
    suggest_word(&words, &lists, board, &Vec::new(), letters)
}

#[test]
fn lowest_score_wins() {
    // Scores: crane 7, slate 9, trace 8.
    assert_eq!(score_pick(&["crane", "slate", "trace"], &Vec::new(), Vec::new()), "crane");
}

#[test]
fn supplied_letters_are_required() {
    assert_eq!(score_pick(&["crane", "slate", "trace"], &Vec::new(), vec!['s']), "slate");
    assert_eq!(score_pick(&["crane", "slate", "trace"], &Vec::new(), vec!['t']), "trace");
}

#[test]
fn opening_guess_repeats_no_letter() {
    // "geese" and "eerie" score 6, below "crane" at 7, but repeat letters.
    let words = ["geese", "crane", "eerie", "trace"];
    assert_eq!(score_pick(&words, &Vec::new(), Vec::new()), "crane");
}

#[test]
fn later_guess_may_repeat_letters() {
    let words = ["geese", "crane", "eerie", "trace"];
    let board = vec![("dumpy".to_string(), vec![0, 0, 0, 0, 0])];
    // "geese" and "eerie" tie at 6; "eerie" comes first in dictionary order.
    assert_eq!(score_pick(&words, &board, Vec::new()), "eerie");
}

#[test]
fn history_required_letters_apply() {
    let board = vec![("zebra".to_string(), vec![1, 0, 0, 0, 0])];
    assert_eq!(score_pick(&["crane", "slate", "trace"], &board, Vec::new()), "");
}

#[test]
fn empty_word_is_never_picked() {
    assert_eq!(score_pick(&["", "crane"], &Vec::new(), Vec::new()), "crane");
    assert_eq!(score_pick(&[""], &Vec::new(), Vec::new()), "");
}

#[test]
fn unknown_letter_costs_nothing() {
    let words = dict(&["crane", "slate"]);
    let lists: Vec<Vec<(char, usize)>> = vec![vec![('c', 5), ('s', 1)], vec![], vec![], vec![], vec![]];
    // 'c' costs 5 and 's' costs 1; every other letter is unlisted and free.
    assert_eq!(suggest_word(&words, &lists, &Vec::new(), &Vec::new(), Vec::new()), "slate");
}

#[test]
fn equal_scores_pick_first_in_dictionary_order() {
    let lists: Vec<Vec<(char, usize)>> = vec![Vec::new(); 5];
    let a = dict(&["crane", "slate"]);
    let b = dict(&["slate", "crane"]);
    assert_eq!(suggest_word(&a, &lists, &Vec::new(), &Vec::new(), Vec::new()), "crane");
    assert_eq!(suggest_word(&b, &lists, &Vec::new(), &Vec::new(), Vec::new()), "crane");
}

#[test]
fn reordered_dictionary_gives_same_pick() {
    let board = vec![("dumpy".to_string(), vec![0, 0, 0, 0, 0])];
    let orders = [
        ["geese", "crane", "eerie", "trace"],
        ["trace", "eerie", "crane", "geese"],
        ["crane", "geese", "trace", "eerie"],
    ];
    for words in orders.iter() {
        assert_eq!(score_pick(words, &board, Vec::new()), "eerie");
    }
    let fresh = [["crane", "slate", "trace"], ["trace", "slate", "crane"]];
    for words in fresh.iter() {
        assert_eq!(score_pick(words, &Vec::new(), Vec::new()), "crane");
    }
}
