use wordlehelper::suggest_letters;

fn dict(ws: &[&str]) -> Vec<String> {
    ws.iter().map(|w| w.to_string()).collect()
}

#[test]
fn first_round_takes_five_most_frequent() {
    // a, e: 3 each; c, r, t: 2 each; l, n, s: 1 each.
    let words = dict(&["crane", "slate", "trace"]);
    assert_eq!(suggest_letters(&words, &0), vec!['a', 'e', 'c', 'r', 't']);
}

#[test]
fn second_round_takes_what_is_left() {
    let words = dict(&["crane", "slate", "trace"]);
    assert_eq!(suggest_letters(&words, &1), vec!['l', 'n', 's']);
}

#[test]
fn round_past_the_ranking_is_empty() {
    let words = dict(&["crane", "slate", "trace"]);
    assert!(suggest_letters(&words, &2).is_empty());
    assert!(suggest_letters(&words, &usize::MAX).is_empty());
}

#[test]
fn repeated_letters_count_each_time() {
    let words = dict(&["geese", "abcdf"]);
    assert_eq!(suggest_letters(&words, &0), vec!['e', 'a', 'b', 'c', 'd']);
    assert_eq!(suggest_letters(&words, &1), vec!['f', 'g', 's']);
}
