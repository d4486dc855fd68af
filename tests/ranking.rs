use wordlehelper::ranking::{END_LETTER, UNREACHABLE};
use wordlehelper::{get_distance_list, get_letter_frequencies, FrequencyTable};

const U: usize = UNREACHABLE;

fn dict(ws: &[&str]) -> Vec<String> {
    ws.iter().map(|w| w.to_string()).collect()
}

#[test]
fn distance_lists_of_three_words() {
    let t = get_letter_frequencies(&dict(&["crane", "slate", "trace"]), &Vec::new());
    let d = get_distance_list(&t);
    assert_eq!(d.len(), 5);
    assert_eq!(
        d[0],
        vec![('c', 0), ('s', 0), ('t', 1), ('a', U), ('e', U), ('l', U), ('n', U), ('r', U), ('.', U)]
    );
    assert_eq!(
        d[1],
        vec![('r', 1), ('l', 2), ('a', U), ('c', U), ('e', U), ('n', U), ('s', U), ('t', U), ('.', U)]
    );
    assert_eq!(d[2][0], ('a', 3));
    assert_eq!(d[4][0], ('e', 3));
}

#[test]
fn forced_letter_ranks_first() {
    let board = vec![("crane".to_string(), vec![2, 0, 0, 0, 0])];
    let t = get_letter_frequencies(&dict(&["crane", "slate", "trace", "cloud"]), &board);
    let d = get_distance_list(&t);
    assert_eq!(d[0][0], ('c', 199999));
    assert_eq!(d[0][1], ('s', 199999));
    assert_eq!(d[0][2], ('t', 200000));
}

#[test]
fn list_shape_holds() {
    let words = dict(&["crane", "slate", "trace", "dough", "month", "brick"]);
    let t = get_letter_frequencies(&words, &Vec::new());
    let d = get_distance_list(&t);
    for i in 0..5 {
        let list = &d[i];
        assert_eq!(list.len(), t.letters.len() + 1);
        assert_eq!(*list.last().unwrap(), (END_LETTER, U));
        let freq = |c: char| {
            let k = t.letters.iter().position(|x| *x == c).unwrap();
            t.counts[i][k]
        };
        for k in 0..list.len() - 1 {
            if k + 1 < list.len() - 1 {
                assert!(freq(list[k].0) >= freq(list[k + 1].0));
            }
            if freq(list[k].0) == 0 {
                assert_eq!(list[k].1, U);
            }
        }
        for w in &words {
            let c = w.chars().nth(i).unwrap();
            assert!(list.iter().any(|p| p.0 == c));
        }
    }
}

#[test]
fn ties_rank_by_letter() {
    let t = FrequencyTable {
        letters: vec!['a', 'b', 'c'],
        counts: vec![vec![2, 5, 2], vec![0, 0, 0], vec![1, 1, 1], vec![3, 2, 1], vec![0, 4, 4]],
    };
    let d = get_distance_list(&t);
    assert_eq!(d[0], vec![('b', 3), ('a', 3), ('c', 5), ('.', U)]);
    assert_eq!(d[1], vec![('a', U), ('b', U), ('c', U), ('.', U)]);
    assert_eq!(d[2], vec![('a', 0), ('b', 0), ('c', 1), ('.', U)]);
    assert_eq!(d[3], vec![('a', 1), ('b', 2), ('c', 3), ('.', U)]);
    assert_eq!(d[4], vec![('b', 0), ('c', 4), ('a', U), ('.', U)]);
}
