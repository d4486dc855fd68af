use wordlehelper::{get_distance_list, get_letter_frequencies, next_guess, search_word, Entry};

fn dict(ws: &[&str]) -> Vec<String> {
    ws.iter().map(|w| w.to_string()).collect()
}

fn search(words: &[&str], board: &Vec<Entry>, answers: &[&str]) -> String {
    let words = dict(words);
    let lists = get_distance_list(&get_letter_frequencies(&words, board));
    search_word(&words, &lists, board, &dict(answers))
}

#[test]
fn first_guess_of_three_words() {
    assert_eq!(search(&["crane", "slate", "trace"], &Vec::new(), &[]), "trace");
}

#[test]
fn first_guess_ignores_dictionary_order() {
    assert_eq!(search(&["trace", "crane", "slate"], &Vec::new(), &[]), "trace");
}

#[test]
fn excluded_answer_is_skipped() {
    assert_eq!(search(&["crane", "slate", "trace"], &Vec::new(), &["trace"]), "crane");
}

#[test]
fn all_absent_letters_are_avoided() {
    let words = ["crane", "slate", "trace", "dough", "month", "brick"];
    let board = vec![("slate".to_string(), vec![0, 0, 0, 0, 0])];
    let r = search(&words, &board, &[]);
    assert_eq!(r, "dough");
    assert!(r.chars().all(|c| !"slate".contains(c)));
}

#[test]
fn confirmed_letter_is_kept() {
    let words = ["crane", "slate", "trace", "cloud"];
    let board = vec![("crane".to_string(), vec![2, 0, 0, 0, 0])];
    assert_eq!(search(&words, &board, &[]), "cloud");
}

#[test]
fn impossible_required_letter_gives_empty() {
    let board = vec![("zebra".to_string(), vec![1, 0, 0, 0, 0])];
    assert_eq!(search(&["crane", "slate", "trace"], &board, &[]), "");
}

#[test]
fn empty_dictionary_gives_empty() {
    assert_eq!(search(&[], &Vec::new(), &[]), "");
}

#[test]
fn empty_lists_give_empty() {
    let lists: Vec<Vec<(char, usize)>> = vec![Vec::new(); 5];
    assert_eq!(search_word(&dict(&["crane"]), &lists, &Vec::new(), &Vec::new()), "");
}

#[test]
fn search_can_miss_a_word_that_passes() {
    // "bcabb" and "cdgfb" pass every check, yet the rotation runs a cursor
    // past its list before reaching either: the search is greedy.
    let words = ["aedeb", "bcabb", "cdgfb", "degbb", "afdhg", "acbcg", "dchgc"];
    let answers = ["aedeb", "degbb", "afdhg", "acbcg", "dchgc"];
    assert_eq!(search(&words, &Vec::new(), &answers), "");
}

#[test]
fn search_may_rotate_more_than_list_lengths() {
    // Eighteen entries per list, ninety in all; "brick" turns up on the
    // ninety-third rotation.
    let words = ["crane", "slate", "trace", "dough", "month", "brick"];
    let board = vec![("stare".to_string(), vec![0, 0, 0, 1, 0])];
    assert_eq!(search(&words, &board, &[]), "brick");
}

#[test]
fn search_stops_on_small_dictionaries() {
    let alphabet = ['a', 'b', 'c', 'd'];
    let mut seed: u64 = 7;
    for _ in 0..40 {
        let mut words: Vec<String> = Vec::new();
        for _ in 0..4 {
            let mut w = String::new();
            for _ in 0..5 {
                seed = seed.wrapping_mul(6364136223846793005).wrapping_add(1442695040888963407);
                w.push(alphabet[(seed >> 33) as usize % 4]);
            }
            if !words.contains(&w) {
                words.push(w);
            }
        }
        let board: Vec<Entry> = Vec::new();
        let lists = get_distance_list(&get_letter_frequencies(&words, &board));
        let r = search_word(&words, &lists, &board, &Vec::new());
        assert!(r.is_empty() || words.contains(&r));
    }
}

#[test]
fn found_word_holds_required_letters() {
    let words = ["crane", "slate", "trace", "dough", "month", "brick"];
    let board = vec![("cloth".to_string(), vec![1, 0, 0, 1, 0])];
    let r = search(&words, &board, &[]);
    assert_eq!(r, "trace");
    assert!(r.contains('c') && r.contains('t'));
}

#[test]
fn next_guess_runs_the_whole_round() {
    let words = dict(&["crane", "slate", "trace", "dough", "month", "brick"]);
    let board = vec![("slate".to_string(), vec![0, 0, 0, 0, 0])];
    assert_eq!(next_guess(&words, &board, &Vec::new()), "dough");
    assert_eq!(next_guess(&dict(&["crane", "slate", "trace"]), &Vec::new(), &dict(&["trace"])), "crane");
}
