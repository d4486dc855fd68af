//! Whole-word scoring: every dictionary word is scored by the distances of
//! its letters, and the lowest-scoring word that passes the checks wins.
use vstd::prelude::*;
use crate::words::{
    history_view, history_wf, holds_all, rows_view, word_chars, words_fit, words_view, Entry,
    WORD_LEN,
};
use crate::constraints::{build_required_list, required_list_of};
use crate::search::lists_view;

verus! {

/// The distance `list` records for letter `c` (its last entry for `c`), or
/// 0 where `c` is not listed: an unknown letter costs nothing.
pub open spec fn letter_distance(list: Seq<(char, usize)>, c: char) -> int
    decreases list.len(),
{
    if list.len() == 0 {
        0
    } else if list.last().0 == c {
        list.last().1 as int
    } else {
        letter_distance(list.drop_last(), c)
    }
}

/// Sum of the distances of the first `n` letters of `w`, each in the list of
/// its position.
pub open spec fn partial_score(lists: Seq<Seq<(char, usize)>>, w: Seq<char>, n: int) -> int
    decreases n,
{
    if n <= 0 {
        0
    } else {
        partial_score(lists, w, n - 1) + letter_distance(lists[n - 1], w[n - 1])
    }
}

/// Score of a word: the sum of the distances of its letters.
pub open spec fn word_score(lists: Seq<Seq<(char, usize)>>, w: Seq<char>) -> int {
    partial_score(lists, w, w.len() as int)
}

/// Whether the scorer may pick `w`: a non-empty word that holds every
/// required letter and, for the opening guess, repeats no letter.
pub open spec fn eligible(w: Seq<char>, required: Seq<char>, opening: bool) -> bool {
    &&& w.len() > 0
    &&& forall|k: int| 0 <= k < required.len() ==> w.contains(#[trigger] required[k])
    &&& opening ==> w.no_duplicates()
}

/// Dictionary order on words: `a` comes before `b`.
pub open spec fn lex_lt(a: Seq<char>, b: Seq<char>) -> bool
    decreases a.len(),
{
    if b.len() == 0 {
        false
    } else if a.len() == 0 {
        true
    } else if a[0] != b[0] {
        a[0] < b[0]
    } else {
        lex_lt(a.drop_first(), b.drop_first())
    }
}

/// Word `a` with score `sa` is picked over word `b` with score `sb`: the
/// lower score wins, and on equal scores the word that comes first in
/// dictionary order.
pub open spec fn picked_over(sa: int, a: Seq<char>, sb: int, b: Seq<char>) -> bool {
    sa < sb || (sa == sb && lex_lt(a, b))
}

/// `dict[k]` is the pick: eligible, and picked over every other eligible word.
pub open spec fn is_best(
    lists: Seq<Seq<(char, usize)>>,
    dict: Seq<Seq<char>>,
    required: Seq<char>,
    opening: bool,
    k: int,
) -> bool {
    &&& 0 <= k < dict.len()
    &&& eligible(dict[k], required, opening)
    &&& forall|j: int|
        0 <= j < dict.len() && eligible(#[trigger] dict[j], required, opening) ==> dict[j]
            == dict[k] || picked_over(
            word_score(lists, dict[k]),
            dict[k],
            word_score(lists, dict[j]),
            dict[j],
        )
}

/// Dictionary order is asymmetric, hence irreflexive.
pub proof fn lemma_lex_asymmetric(a: Seq<char>, b: Seq<char>)
    ensures
        lex_lt(a, b) ==> !lex_lt(b, a),
    decreases a.len(),
{
    if a.len() > 0 && b.len() > 0 && a[0] == b[0] {
        lemma_lex_asymmetric(a.drop_first(), b.drop_first());
    }
}

/// Of two different words one comes first.
pub proof fn lemma_lex_total(a: Seq<char>, b: Seq<char>)
    ensures
        a != b ==> lex_lt(a, b) || lex_lt(b, a),
    decreases a.len(),
{
    if a.len() > 0 && b.len() > 0 && a[0] == b[0] {
        lemma_lex_total(a.drop_first(), b.drop_first());
        if a.drop_first() == b.drop_first() {
            assert(a =~= seq![a[0]] + a.drop_first());
            assert(b =~= seq![b[0]] + b.drop_first());
        }
    } else if a.len() == 0 && b.len() == 0 {
        assert(a =~= b);
    }
}

/// Dictionary order is transitive.
pub proof fn lemma_lex_transitive(a: Seq<char>, b: Seq<char>, c: Seq<char>)
    requires
        lex_lt(a, b),
        lex_lt(b, c),
    ensures
        lex_lt(a, c),
    decreases a.len(),
{
    if a.len() > 0 && a[0] == b[0] && b[0] == c[0] {
        lemma_lex_transitive(a.drop_first(), b.drop_first(), c.drop_first());
    }
}

/// Whether `a` comes before `b` in dictionary order.
fn lex_less(a: &Vec<char>, b: &Vec<char>) -> (r: bool)
    ensures
        r == lex_lt(a@, b@),
{
    let mut i: usize = 0;
    assert(a@.subrange(0, a@.len() as int) =~= a@);
    assert(b@.subrange(0, b@.len() as int) =~= b@);
    while i < a.len() && i < b.len() && a[i] == b[i]
        invariant
            i <= a.len(),
            i <= b.len(),
            lex_lt(a@, b@) == lex_lt(a@.subrange(i as int, a@.len() as int), b@.subrange(i as int, b@.len() as int)),
        decreases a.len() - i,
    {
        let ghost ta = a@.subrange(i as int, a@.len() as int);
        let ghost tb = b@.subrange(i as int, b@.len() as int);
        assert(ta.drop_first() =~= a@.subrange(i + 1, a@.len() as int));
        assert(tb.drop_first() =~= b@.subrange(i + 1, b@.len() as int));
        i = i + 1;
    }
    let ghost ta = a@.subrange(i as int, a@.len() as int);
    let ghost tb = b@.subrange(i as int, b@.len() as int);
    if i == b.len() {
        false
    } else if i == a.len() {
        true
    } else {
        assert(ta[0] == a@[i as int] && tb[0] == b@[i as int]);
        a[i] < b[i]
    }
}

/// The letters the scorer requires: the supplied ones, or else the
/// history's required letters.
pub open spec fn scorer_required(letters: Seq<char>, h: Seq<(Seq<char>, Seq<u8>)>) -> Seq<char> {
    if letters.len() > 0 {
        letters
    } else {
        required_list_of(h)
    }
}

/// The distance `list` records for `c`, or 0.
fn distance_of(list: &Vec<(char, usize)>, c: char) -> (r: usize)
    ensures
        r as int == letter_distance(list@, c),
{
    let mut r: usize = 0;
    let mut i: usize = 0;
    while i < list.len()
        invariant
            i <= list.len(),
            r as int == letter_distance(list@.take(i as int), c),
        decreases list.len() - i,
    {
        assert(list@.take(i + 1).drop_last() =~= list@.take(i as int));
        if list[i].0 == c {
            r = list[i].1;
        }
        i = i + 1;
    }
    assert(list@.take(i as int) =~= list@);
    r
}

/// Score of `w` under the distance lists.
fn score_of(w: &Vec<char>, distance_lists: &Vec<Vec<(char, usize)>>) -> (r: u128)
    requires
        w.len() <= distance_lists.len(),
        w.len() <= WORD_LEN,
    ensures
        r as int == word_score(lists_view(distance_lists@), w@),
{
    let ghost lv = lists_view(distance_lists@);
    let mut r: u128 = 0;
    let mut i: usize = 0;
    while i < w.len()
        invariant
            lv == lists_view(distance_lists@),
            w.len() <= distance_lists.len(),
            w.len() <= WORD_LEN,
            i <= w.len(),
            r as int == partial_score(lv, w@, i as int),
            r <= i * (usize::MAX as int),
        decreases w.len() - i,
    {
        let d = distance_of(&distance_lists[i], w[i]);
        assert(lv[i as int] == distance_lists@[i as int]@);
        assert(r + d <= (i + 1) * (usize::MAX as int)) by (nonlinear_arith)
            requires
                r <= i * (usize::MAX as int),
                d <= usize::MAX,
        ;
        assert((i + 1) * (usize::MAX as int) <= 5 * (usize::MAX as int)) by (nonlinear_arith)
            requires
                i + 1 <= 5,
        ;
        assert(usize::MAX <= u64::MAX);
        r = r + d as u128;
        i = i + 1;
    }
    r
}

/// Whether some letter of `w` stands in it twice.
fn repeats_letter(w: &Vec<char>) -> (r: bool)
    ensures
        r == !w@.no_duplicates(),
{
    let mut a: usize = 0;
    while a < w.len()
        invariant
            a <= w.len(),
            forall|x: int, y: int| 0 <= x < a && x < y < w.len() ==> w@[x] != w@[y],
        decreases w.len() - a,
    {
        let mut b: usize = a + 1;
        while b < w.len()
            invariant
                a < w.len(),
                a + 1 <= b <= w.len(),
                forall|x: int, y: int| 0 <= x < a && x < y < w.len() ==> w@[x] != w@[y],
                forall|y: int| a < y < b ==> w@[a as int] != w@[y],
            decreases w.len() - b,
        {
            if w[a] == w[b] {
                assert(w@[a as int] == w@[b as int]);
                return true;
            }
            b = b + 1;
        }
        a = a + 1;
    }
    assert forall|x: int, y: int| 0 <= x < w.len() && 0 <= y < w.len() && x != y implies w@[x] != w@[y] by {
        if y < x {
            assert(w@[y] != w@[x]);
        }
    }
    false
}

/// Whether the scorer may pick `w`.
fn is_eligible(w: &Vec<char>, required: &Vec<char>, opening: bool) -> (r: bool)
    ensures
        r == eligible(w@, required@, opening),
{
    w.len() > 0 && holds_all(w, required) && (!opening || !repeats_letter(w))
}

/// Suggests the lowest-scoring word of the dictionary that is non-empty,
/// holds every required letter and, for the opening guess (an empty
/// history), repeats no letter; on equal scores the word that comes first
/// in dictionary order, so the pick does not depend on the order of `words`. The
/// required letters are `letters` where it is not empty, else those of the
/// history. The empty word comes back when no word qualifies. Excluded
/// answers play no part on this path.
pub fn suggest_word(
    words: &Vec<String>,
    distance_lists: &Vec<Vec<(char, usize)>>,
    board_state: &Vec<Entry>,
    _answers: &Vec<String>,
    letters: Vec<char>,
) -> (r: String)
    requires
        distance_lists.len() == WORD_LEN,
        words_fit(words_view(words@)),
        history_wf(history_view(board_state@)),
    ensures
        ({
            let lv = lists_view(distance_lists@);
            let dict = words_view(words@);
            let req = scorer_required(letters@, history_view(board_state@));
            let opening = board_state.len() == 0;
            if exists|j: int| 0 <= j < dict.len() && eligible(#[trigger] dict[j], req, opening) {
                exists|k: int| is_best(lv, dict, req, opening, k) && r@ == dict[k]
            } else {
                r@.len() == 0
            }
        }),
{
    let ghost lv = lists_view(distance_lists@);
    let ghost dict = words_view(words@);
    let ghost req = scorer_required(letters@, history_view(board_state@));
    let opening = board_state.len() == 0;
    let rows = word_chars(words);
    assert(rows_view(rows@) =~= dict);
    let required = if letters.len() > 0 {
        letters
    } else {
        build_required_list(board_state)
    };
    let mut best: Option<(usize, u128)> = None;
    let mut k: usize = 0;
    while k < rows.len()
        invariant
            lv == lists_view(distance_lists@),
            dict == words_view(words@),
            rows_view(rows@) == dict,
            rows.len() == words.len(),
            distance_lists.len() == WORD_LEN,
            words_fit(dict),
            required@ == req,
            k <= rows.len(),
            match best {
                None => forall|j: int| 0 <= j < k ==> !eligible(#[trigger] dict[j], req, opening),
                Some((b, score)) => {
                    &&& b < k
                    &&& eligible(dict[b as int], req, opening)
                    &&& score as int == word_score(lv, dict[b as int])
                    &&& forall|j: int|
                        0 <= j < k && eligible(#[trigger] dict[j], req, opening) ==> dict[j]
                            == dict[b as int] || picked_over(
                            score as int,
                            dict[b as int],
                            word_score(lv, dict[j]),
                            dict[j],
                        )
                },
            },
        decreases rows.len() - k,
    {
        let row = &rows[k];
        assert(dict[k as int] == row@);
        if is_eligible(row, &required, opening) {
            assert(row@.len() <= WORD_LEN);
            let score = score_of(row, distance_lists);
            match best {
                None => {
                    best = Some((k, score));
                },
                Some((b, top)) => {
                    let ghost w = row@;
                    let ghost v = dict[b as int];
                    proof {
                        lemma_lex_total(w, v);
                        lemma_lex_asymmetric(w, v);
                    }
                    if score < top || (score == top && lex_less(row, &rows[b])) {
                        assert forall|j: int|
                            0 <= j < k + 1 && eligible(#[trigger] dict[j], req, opening) implies dict[j]
                            == w || picked_over(score as int, w, word_score(lv, dict[j]), dict[j]) by {
                            if j < k && dict[j] != v {
                                if score == top && word_score(lv, dict[j]) == top {
                                    lemma_lex_transitive(w, v, dict[j]);
                                }
                            }
                        }
                        best = Some((k, score));
                    }
                },
            }
        }
        k = k + 1;
    }
    match best {
        Some((b, _)) => {
            assert(is_best(lv, dict, req, opening, b as int));
            words[b].clone()
        },
        None => String::new(),
    }
}

/// The pick depends on the dictionary as a set of words: two word lists
/// holding the same words, in any order and with any repeats, have the
/// same pick.
pub proof fn lemma_pick_order_free(
    lists: Seq<Seq<(char, usize)>>,
    d1: Seq<Seq<char>>,
    d2: Seq<Seq<char>>,
    required: Seq<char>,
    opening: bool,
    k1: int,
    k2: int,
)
    requires
        forall|w: Seq<char>| d1.contains(w) <==> d2.contains(w),
        is_best(lists, d1, required, opening, k1),
        is_best(lists, d2, required, opening, k2),
    ensures
        d1[k1] == d2[k2],
{
    let a = d1[k1];
    let b = d2[k2];
    assert(d1.contains(a));
    let j2 = choose|j: int| 0 <= j < d2.len() && d2[j] == a;
    assert(d2.contains(b));
    let j1 = choose|j: int| 0 <= j < d1.len() && d1[j] == b;
    assert(eligible(d2[j2], required, opening));
    assert(eligible(d1[j1], required, opening));
    if a != b {
        assert(picked_over(word_score(lists, b), b, word_score(lists, a), a));
        assert(picked_over(word_score(lists, a), a, word_score(lists, b), b));
        lemma_lex_asymmetric(a, b);
    }
}

} // verus!
