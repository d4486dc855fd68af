use wordlehelper::frequency::FORCED_COUNT;
use wordlehelper::{get_letter_frequencies, Entry};

fn dict(ws: &[&str]) -> Vec<String> {
    ws.iter().map(|w| w.to_string()).collect()
}

fn count(t: &wordlehelper::FrequencyTable, c: char, i: usize) -> usize {
    let k = t.letters.iter().position(|x| *x == c).unwrap();
    t.counts[i][k]
}

#[test]
fn frequencies_of_three_words() {
    let t = get_letter_frequencies(&dict(&["crane", "slate", "trace"]), &Vec::new());
    assert_eq!(t.letters, vec!['a', 'c', 'e', 'l', 'n', 'r', 's', 't']);
    assert_eq!(
        t.counts,
        vec![
            vec![0, 1, 0, 0, 0, 0, 1, 1],
            vec![0, 0, 0, 1, 0, 2, 0, 0],
            vec![3, 0, 0, 0, 0, 0, 0, 0],
            vec![0, 1, 0, 0, 1, 0, 0, 1],
            vec![0, 0, 3, 0, 0, 0, 0, 0],
        ]
    );
}

#[test]
fn confirmed_letter_gets_forced_count() {
    let board: Vec<Entry> = vec![("crane".to_string(), vec![2, 0, 0, 0, 0])];
    let t = get_letter_frequencies(&dict(&["crane", "slate", "trace", "cloud"]), &board);
    assert_eq!(count(&t, 'c', 0), FORCED_COUNT);
    assert_eq!(count(&t, 'r', 1), 0);
    assert_eq!(count(&t, 'l', 1), 2);
    assert_eq!(count(&t, 'c', 3), 1);
}

#[test]
fn all_absent_guess_zeroes_its_letters() {
    let board: Vec<Entry> = vec![("slate".to_string(), vec![0, 0, 0, 0, 0])];
    let t = get_letter_frequencies(
        &dict(&["crane", "slate", "trace", "dough", "month", "brick"]),
        &board,
    );
    for c in "slate".chars() {
        for i in 0..5 {
            assert_eq!(count(&t, c, i), 0);
        }
    }
    assert_eq!(count(&t, 'r', 1), 3);
    assert_eq!(count(&t, 'h', 4), 2);
}

#[test]
fn empty_dictionary_has_no_letters() {
    let t = get_letter_frequencies(&Vec::new(), &Vec::new());
    assert!(t.letters.is_empty());
    assert_eq!(t.counts.len(), 5);
    assert!(t.counts.iter().all(|c| c.is_empty()));
}

#[test]
fn empty_line_in_dictionary_counts_nothing() {
    let a = get_letter_frequencies(&dict(&["crane", ""]), &Vec::new());
    let b = get_letter_frequencies(&dict(&["crane"]), &Vec::new());
    assert_eq!(a.letters, b.letters);
    assert_eq!(a.counts, b.counts);
}
