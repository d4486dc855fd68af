//! Candidate search: assemble a word from the cursors into the distance
//! lists, and while it does not pass, rotate the one position whose next
//! letter costs least. The movement counters send every position that has
//! moved at least as often back to its best letter, which stops two
//! positions from simply undoing each other. Distance lists made by hand can
//! still send the rotation round in a cycle, so the walk is also bounded by a
//! rotation budget: the number of distinct cursor settings.
use vstd::prelude::*;
use crate::words::{
    history_view, history_wf, holds_all, rows_view, same_letters, word_chars, words_view, Entry,
    WORD_LEN,
};
use crate::constraints::{build_required_list, required_list_of};
use crate::frequency::{get_letter_frequencies, FrequencyTable};
use crate::ranking::{get_distance_list, is_distance_list};

verus! {

/// The lists' values.
pub open spec fn lists_view(lists: Seq<Vec<(char, usize)>>) -> Seq<Seq<(char, usize)>> {
    lists.map_values(|l: Vec<(char, usize)>| l@)
}

/// Cursor values as integers.
pub open spec fn ints(s: Seq<usize>) -> Seq<int> {
    s.map_values(|x: usize| x as int)
}

/// Cursors all on the best letter, or counters all at zero.
pub open spec fn zeros() -> Seq<int> {
    Seq::new(WORD_LEN as nat, |i: int| 0)
}

/// Some position's cursor has run past the end of its list.
pub open spec fn exhausted(lists: Seq<Seq<(char, usize)>>, grab: Seq<int>) -> bool {
    exists|i: int| 0 <= i < WORD_LEN && #[trigger] grab[i] >= lists[i].len()
}

/// The word under the cursors.
pub open spec fn candidate(lists: Seq<Seq<(char, usize)>>, grab: Seq<int>) -> Seq<char> {
    Seq::new(WORD_LEN as nat, |i: int| lists[i][grab[i]].0)
}

/// The distance under each cursor.
pub open spec fn cursor_distances(lists: Seq<Seq<(char, usize)>>, grab: Seq<int>) -> Seq<int> {
    Seq::new(WORD_LEN as nat, |i: int| lists[i][grab[i]].1 as int)
}

/// `m` holds the least distance, and is the lowest such position.
pub open spec fn is_rotation_choice(ds: Seq<int>, m: int) -> bool {
    &&& 0 <= m < ds.len()
    &&& forall|j: int| 0 <= j < ds.len() ==> ds[m] <= #[trigger] ds[j]
    &&& forall|j: int| 0 <= j < m ==> ds[m] < #[trigger] ds[j]
}

/// The position to rotate.
pub open spec fn rotation_choice(ds: Seq<int>) -> int {
    choose|m: int| is_rotation_choice(ds, m)
}

/// One rotation at `m`: it advances and counts a move, and every other
/// position that has now moved at least as often returns to its best letter.
pub open spec fn rotate(grab: Seq<int>, movement: Seq<int>, m: int) -> (Seq<int>, Seq<int>) {
    let moved = movement.update(m, movement[m] + 1);
    let next = Seq::new(
        grab.len(),
        |j: int|
            if j == m {
                grab[m] + 1
            } else if moved[j] >= moved[m] {
                0
            } else {
                grab[j]
            },
    );
    (next, moved)
}

/// Whether `w` may be suggested: a word of the dictionary that holds every
/// required letter and is not among the excluded answers.
pub open spec fn acceptable(
    w: Seq<char>,
    dict: Seq<Seq<char>>,
    required: Seq<char>,
    excluded: Seq<Seq<char>>,
) -> bool {
    &&& dict.contains(w)
    &&& forall|k: int| 0 <= k < required.len() ==> w.contains(#[trigger] required[k])
    &&& !excluded.contains(w)
}

/// What the search finds from the given cursors and counters with `fuel`
/// rotations left.
pub open spec fn search_from(
    lists: Seq<Seq<(char, usize)>>,
    dict: Seq<Seq<char>>,
    required: Seq<char>,
    excluded: Seq<Seq<char>>,
    grab: Seq<int>,
    movement: Seq<int>,
    fuel: nat,
) -> Option<Seq<char>>
    decreases fuel,
{
    if exhausted(lists, grab) {
        None
    } else if acceptable(candidate(lists, grab), dict, required, excluded) {
        Some(candidate(lists, grab))
    } else if fuel == 0 {
        None
    } else {
        let next = rotate(grab, movement, rotation_choice(cursor_distances(lists, grab)));
        search_from(lists, dict, required, excluded, next.0, next.1, (fuel - 1) as nat)
    }
}

/// Product of the lengths of the first `n` lists.
pub open spec fn cursor_positions(lists: Seq<Seq<(char, usize)>>, n: int) -> int
    decreases n,
{
    if n <= 0 {
        1
    } else {
        cursor_positions(lists, n - 1) * lists[n - 1].len()
    }
}

/// The number of distinct cursor settings, capped at `usize::MAX`: the
/// search gives up after this many rotations.
pub open spec fn rotation_budget(lists: Seq<Seq<(char, usize)>>) -> nat {
    let p = cursor_positions(lists, WORD_LEN as int);
    if p > usize::MAX {
        usize::MAX as nat
    } else {
        p as nat
    }
}

/// The word the search suggests, or the empty word when it finds none.
pub open spec fn search_result(
    lists: Seq<Seq<(char, usize)>>,
    dict: Seq<Seq<char>>,
    required: Seq<char>,
    excluded: Seq<Seq<char>>,
) -> Seq<char> {
    match search_from(lists, dict, required, excluded, zeros(), zeros(), rotation_budget(lists)) {
        Some(w) => w,
        None => Seq::empty(),
    }
}

/// A product of lengths is never negative.
proof fn lemma_positions_nonneg(lists: Seq<Seq<(char, usize)>>, n: int)
    ensures
        cursor_positions(lists, n) >= 0,
    decreases n,
{
    if n > 0 {
        lemma_positions_nonneg(lists, n - 1);
        let p = cursor_positions(lists, n - 1);
        let l = lists[n - 1].len() as int;
        assert(p * l >= 0) by (nonlinear_arith)
            requires
                p >= 0,
                l >= 0,
        ;
    }
}

/// The rotation budget of the lists.
fn budget_of(lists: &Vec<Vec<(char, usize)>>) -> (r: usize)
    requires
        lists.len() == WORD_LEN,
    ensures
        r == rotation_budget(lists_view(lists@)),
{
    let ghost lv = lists_view(lists@);
    let mut r: usize = 1;
    let mut i: usize = 0;
    while i < WORD_LEN
        invariant
            lv == lists_view(lists@),
            lists.len() == WORD_LEN,
            i <= WORD_LEN,
            r == if cursor_positions(lv, i as int) > usize::MAX {
                usize::MAX as int
            } else {
                cursor_positions(lv, i as int)
            },
        decreases WORD_LEN - i,
    {
        let len = lists[i].len();
        let ghost p = cursor_positions(lv, i as int);
        assert(lv[i as int].len() == len);
        proof {
            lemma_positions_nonneg(lv, i as int);
            assert(cursor_positions(lv, i + 1) == p * len);
            if p > usize::MAX && len >= 1 {
                assert(p * len >= p) by (nonlinear_arith)
                    requires
                        p > usize::MAX,
                        len >= 1,
                ;
            }
            if p > usize::MAX && len == 0 {
                assert(p * len == 0) by (nonlinear_arith)
                    requires
                        len == 0,
                ;
            }
            if p > usize::MAX && len == 1 {
                assert(p * len == p) by (nonlinear_arith)
                    requires
                        len == 1,
                ;
            }
            if p > usize::MAX && len > 1 {
                assert(usize::MAX * len > usize::MAX) by (nonlinear_arith)
                    requires
                        len > 1,
                ;
            }
        }
        r = match r.checked_mul(len) {
            Some(v) => v,
            None => usize::MAX,
        };
        i = i + 1;
    }
    r
}

/// Only one position can be the rotation choice.
proof fn lemma_rotation_choice_unique(ds: Seq<int>, m: int)
    requires
        is_rotation_choice(ds, m),
    ensures
        rotation_choice(ds) == m,
{
    let c = rotation_choice(ds);
    assert(is_rotation_choice(ds, c));
    if c < m {
        assert(ds[m] < ds[c]);
        assert(ds[c] <= ds[m]);
    } else if m < c {
        assert(ds[c] < ds[m]);
        assert(ds[m] <= ds[c]);
    }
}

/// The position to rotate under the current cursors.
fn choose_rotation(lists: &Vec<Vec<(char, usize)>>, grab: &Vec<usize>) -> (m: usize)
    requires
        lists.len() == WORD_LEN,
        grab.len() == WORD_LEN,
        forall|i: int| 0 <= i < WORD_LEN ==> #[trigger] grab@[i] < lists@[i].len(),
    ensures
        m < WORD_LEN,
        is_rotation_choice(cursor_distances(lists_view(lists@), ints(grab@)), m as int),
{
    let ghost ds = cursor_distances(lists_view(lists@), ints(grab@));
    let mut m: usize = 0;
    let mut i: usize = 1;
    while i < WORD_LEN
        invariant
            ds == cursor_distances(lists_view(lists@), ints(grab@)),
            lists.len() == WORD_LEN,
            grab.len() == WORD_LEN,
            forall|j: int| 0 <= j < WORD_LEN ==> #[trigger] grab@[j] < lists@[j].len(),
            1 <= i <= WORD_LEN,
            m < i,
            forall|j: int| 0 <= j < i ==> ds[m as int] <= #[trigger] ds[j],
            forall|j: int| 0 <= j < m ==> ds[m as int] < #[trigger] ds[j],
        decreases WORD_LEN - i,
    {
        assert(ds[i as int] == lists@[i as int]@[grab@[i as int] as int].1 as int);
        assert(ds[m as int] == lists@[m as int]@[grab@[m as int] as int].1 as int);
        if lists[i][grab[i]].1 < lists[m][grab[m]].1 {
            m = i;
        }
        i = i + 1;
    }
    m
}

/// The index of a row equal to `w`, if there is one.
fn find_row(rows: &Vec<Vec<char>>, w: &Vec<char>) -> (r: Option<usize>)
    ensures
        match r {
            Some(k) => k < rows.len() && rows@[k as int]@ == w@,
            None => !rows_view(rows@).contains(w@),
        },
{
    let mut k: usize = 0;
    while k < rows.len()
        invariant
            k <= rows.len(),
            forall|j: int| 0 <= j < k ==> rows@[j]@ != w@,
        decreases rows.len() - k,
    {
        if same_letters(&rows[k], w) {
            return Some(k);
        }
        k = k + 1;
    }
    assert forall|j: int| 0 <= j < rows.len() implies rows_view(rows@)[j] != w@ by {
        assert(rows_view(rows@)[j] == rows@[j]@);
    }
    None
}

/// Cursors or counters all at zero.
fn zero_cursors() -> (r: Vec<usize>)
    ensures
        r.len() == WORD_LEN,
        ints(r@) == zeros(),
        forall|i: int| 0 <= i < WORD_LEN ==> #[trigger] r@[i] == 0,
{
    let mut r: Vec<usize> = Vec::new();
    let mut i: usize = 0;
    while i < WORD_LEN
        invariant
            i <= WORD_LEN,
            r.len() == i,
            forall|j: int| 0 <= j < i ==> r@[j] == 0,
        decreases WORD_LEN - i,
    {
        r.push(0);
        i = i + 1;
    }
    assert(ints(r@) =~= zeros());
    r
}

/// No cursor is past its position's move count, and no count past `bound`.
pub open spec fn cursors_bounded(grab: Seq<usize>, movement: Seq<usize>, bound: int) -> bool {
    forall|i: int| 0 <= i < WORD_LEN ==> #[trigger] grab[i] <= movement[i] && movement[i] <= bound
}

/// Whether every cursor stands on an entry of its list.
fn cursors_in_range(lists: &Vec<Vec<(char, usize)>>, grab: &Vec<usize>) -> (r: bool)
    requires
        lists.len() == WORD_LEN,
        grab.len() == WORD_LEN,
    ensures
        r == !exhausted(lists_view(lists@), ints(grab@)),
        r ==> forall|i: int| 0 <= i < WORD_LEN ==> #[trigger] grab@[i] < lists@[i].len(),
{
    let mut i: usize = 0;
    while i < WORD_LEN
        invariant
            lists.len() == WORD_LEN,
            grab.len() == WORD_LEN,
            i <= WORD_LEN,
            forall|j: int| 0 <= j < i ==> #[trigger] grab@[j] < lists@[j].len(),
        decreases WORD_LEN - i,
    {
        if grab[i] >= lists[i].len() {
            assert(ints(grab@)[i as int] >= lists_view(lists@)[i as int].len());
            return false;
        }
        i = i + 1;
    }
    assert forall|j: int| 0 <= j < WORD_LEN implies !(#[trigger] ints(grab@)[j] >= lists_view(
        lists@,
    )[j].len()) by {
        assert(grab@[j] < lists@[j].len());
    }
    true
}

/// The word under the cursors.
fn word_under(lists: &Vec<Vec<(char, usize)>>, grab: &Vec<usize>) -> (r: Vec<char>)
    requires
        lists.len() == WORD_LEN,
        grab.len() == WORD_LEN,
        forall|i: int| 0 <= i < WORD_LEN ==> #[trigger] grab@[i] < lists@[i].len(),
    ensures
        r@ == candidate(lists_view(lists@), ints(grab@)),
{
    let ghost target = candidate(lists_view(lists@), ints(grab@));
    let mut r: Vec<char> = Vec::new();
    let mut i: usize = 0;
    while i < WORD_LEN
        invariant
            target == candidate(lists_view(lists@), ints(grab@)),
            lists.len() == WORD_LEN,
            grab.len() == WORD_LEN,
            forall|j: int| 0 <= j < WORD_LEN ==> #[trigger] grab@[j] < lists@[j].len(),
            i <= WORD_LEN,
            r@ == target.take(i as int),
        decreases WORD_LEN - i,
    {
        r.push(lists[i][grab[i]].0);
        i = i + 1;
        assert(r@ =~= target.take(i as int));
    }
    assert(r@ =~= target);
    r
}

/// Rotates position `m`: see `rotate`.
fn rotate_at(grab: &mut Vec<usize>, movement: &mut Vec<usize>, m: usize, bound: usize)
    requires
        old(grab).len() == WORD_LEN,
        old(movement).len() == WORD_LEN,
        m < WORD_LEN,
        bound < usize::MAX,
        cursors_bounded(old(grab)@, old(movement)@, bound as int),
    ensures
        final(grab).len() == WORD_LEN,
        final(movement).len() == WORD_LEN,
        (ints(final(grab)@), ints(final(movement)@)) == rotate(
            ints(old(grab)@),
            ints(old(movement)@),
            m as int,
        ),
        cursors_bounded(final(grab)@, final(movement)@, bound + 1),
{
    let ghost g = ints(grab@);
    let ghost mv = ints(movement@);
    let ghost target = rotate(g, mv, m as int);
    let ghost g0 = grab@;
    let ghost mv0 = movement@;
    let step = grab[m] + 1;
    grab.set(m, step);
    let moved = movement[m] + 1;
    movement.set(m, moved);
    assert(ints(movement@) =~= target.1);
    let mut j: usize = 0;
    while j < WORD_LEN
        invariant
            grab.len() == WORD_LEN,
            movement.len() == WORD_LEN,
            m < WORD_LEN,
            bound < usize::MAX,
            g == ints(g0),
            mv == ints(mv0),
            g0.len() == WORD_LEN,
            mv0.len() == WORD_LEN,
            target == rotate(g, mv, m as int),
            cursors_bounded(g0, mv0, bound as int),
            movement@ == mv0.update(m as int, moved),
            moved == mv0[m as int] + 1,
            ints(movement@) == target.1,
            j <= WORD_LEN,
            grab@[m as int] == g0[m as int] + 1,
            forall|x: int| 0 <= x < j ==> #[trigger] grab@[x] as int == target.0[x],
            forall|x: int| j <= x < WORD_LEN && x != m ==> #[trigger] grab@[x] == g0[x],
        decreases WORD_LEN - j,
    {
        if j != m && movement[j] >= movement[m] {
            grab.set(j, 0);
        }
        j = j + 1;
    }
    assert(ints(grab@) =~= target.0);
    assert forall|x: int| 0 <= x < WORD_LEN implies #[trigger] grab@[x] <= movement@[x] && movement@[x] <= bound + 1 by {
        assert(grab@[x] as int == target.0[x]);
        assert(g[x] == g0[x] as int);
        assert(g0[x] <= mv0[x] && mv0[x] <= bound);
        if x == m {
            assert(target.0[x] == g[x] + 1);
            assert(movement@[x] == moved);
        } else {
            assert(movement@[x] == mv0[x]);
            assert(target.0[x] == 0 || target.0[x] == g[x]);
        }
    }
    assert(cursors_bounded(grab@, movement@, bound + 1));
}

/// Suggests a word by rotation over the distance lists: the word under the
/// cursors is returned once it is in the dictionary, holds every letter the
/// history requires and is not an excluded answer; else one position is
/// rotated (see `rotate`). The empty word comes back when a cursor runs past
/// its list or the rotation budget is spent.
pub fn search_word(
    words: &Vec<String>,
    distance_lists: &Vec<Vec<(char, usize)>>,
    board_state: &Vec<Entry>,
    answers: &Vec<String>,
) -> (r: String)
    requires
        distance_lists.len() == WORD_LEN,
        history_wf(history_view(board_state@)),
    ensures
        r@ == search_result(
            lists_view(distance_lists@),
            words_view(words@),
            required_list_of(history_view(board_state@)),
            words_view(answers@),
        ),
{
    let ghost lv = lists_view(distance_lists@);
    let ghost dict = words_view(words@);
    let ghost req = required_list_of(history_view(board_state@));
    let ghost excl = words_view(answers@);
    let rows = word_chars(words);
    assert(rows_view(rows@) =~= dict);
    let excluded = word_chars(answers);
    assert(rows_view(excluded@) =~= excl);
    let required = build_required_list(board_state);
    let budget = budget_of(distance_lists);
    let mut grab = zero_cursors();
    let mut movement = zero_cursors();
    let mut rotations: usize = 0;
    loop
        invariant
            lv == lists_view(distance_lists@),
            distance_lists.len() == WORD_LEN,
            rows_view(rows@) == dict,
            dict == words_view(words@),
            rows.len() == words.len(),
            forall|k: int| 0 <= k < words.len() ==> #[trigger] rows@[k]@ == words@[k]@,
            rows_view(excluded@) == excl,
            excl == words_view(answers@),
            required@ == req,
            req == required_list_of(history_view(board_state@)),
            budget == rotation_budget(lv),
            grab.len() == WORD_LEN,
            movement.len() == WORD_LEN,
            rotations <= budget,
            cursors_bounded(grab@, movement@, rotations as int),
            search_from(lv, dict, req, excl, ints(grab@), ints(movement@), (budget - rotations) as nat)
                == search_from(lv, dict, req, excl, zeros(), zeros(), budget as nat),
        decreases budget - rotations,
    {
        let ghost g = ints(grab@);
        let ghost mv = ints(movement@);
        let ghost fuel = (budget - rotations) as nat;
        if !cursors_in_range(distance_lists, &grab) {
            assert(search_from(lv, dict, req, excl, g, mv, fuel) is None);
            return String::new();
        }
        let cand = word_under(distance_lists, &grab);
        let ghost c = cand@;
        if holds_all(&cand, &required) {
            match find_row(&excluded, &cand) {
                Some(x) => {
                    assert(rows_view(excluded@)[x as int] == c);
                    assert(excl.contains(c));
                },
                None => {
                    match find_row(&rows, &cand) {
                        Some(k) => {
                            assert(dict[k as int] == c);
                            assert(acceptable(c, dict, req, excl));
                            assert(search_from(lv, dict, req, excl, g, mv, fuel) == Some(c));
                            return words[k].clone();
                        },
                        None => {},
                    }
                },
            }
        }
        assert(!acceptable(c, dict, req, excl));
        if rotations == budget {
            assert(search_from(lv, dict, req, excl, g, mv, fuel) is None);
            return String::new();
        }
        let m = choose_rotation(distance_lists, &grab);
        proof {
            lemma_rotation_choice_unique(cursor_distances(lv, g), m as int);
        }
        rotate_at(&mut grab, &mut movement, m, rotations);
        rotations = rotations + 1;
    }
}

/// Whatever the search finds from any cursors may be suggested, and has one
/// letter per position.
proof fn lemma_search_from_acceptable(
    lists: Seq<Seq<(char, usize)>>,
    dict: Seq<Seq<char>>,
    required: Seq<char>,
    excluded: Seq<Seq<char>>,
    grab: Seq<int>,
    movement: Seq<int>,
    fuel: nat,
)
    ensures
        search_from(lists, dict, required, excluded, grab, movement, fuel) matches Some(w) ==> (
        acceptable(w, dict, required, excluded) && w.len() == WORD_LEN),
    decreases fuel,
{
    if !exhausted(lists, grab) && !acceptable(candidate(lists, grab), dict, required, excluded)
        && fuel > 0 {
        let next = rotate(grab, movement, rotation_choice(cursor_distances(lists, grab)));
        lemma_search_from_acceptable(
            lists,
            dict,
            required,
            excluded,
            next.0,
            next.1,
            (fuel - 1) as nat,
        );
    }
}

/// The search suggests only words that may be suggested: a non-empty result
/// is a word of the dictionary that holds every required letter and is not
/// an excluded answer. Hence where the dictionary holds no such word, the
/// result is empty.
pub proof fn lemma_search_sound(
    lists: Seq<Seq<(char, usize)>>,
    dict: Seq<Seq<char>>,
    required: Seq<char>,
    excluded: Seq<Seq<char>>,
)
    ensures
        search_result(lists, dict, required, excluded).len() > 0 ==> acceptable(
            search_result(lists, dict, required, excluded),
            dict,
            required,
            excluded,
        ),
        (forall|k: int| 0 <= k < dict.len() ==> !acceptable(#[trigger] dict[k], dict, required, excluded))
            ==> search_result(lists, dict, required, excluded).len() == 0,
{
    let r = search_result(lists, dict, required, excluded);
    lemma_search_from_acceptable(
        lists,
        dict,
        required,
        excluded,
        zeros(),
        zeros(),
        rotation_budget(lists),
    );
    if r.len() > 0 {
        assert(dict.contains(r));
        let k = choose|k: int| 0 <= k < dict.len() && dict[k] == r;
        assert(acceptable(dict[k], dict, required, excluded));
    }
}

/// One round of guessing: the frequency table of the dictionary under the
/// history, its distance lists, and the rotation search over them with the
/// excluded answers.
pub fn next_guess(words: &Vec<String>, board_state: &Vec<Entry>, answers: &Vec<String>) -> (r: String)
    requires
        words_view(words@).no_duplicates(),
        history_wf(history_view(board_state@)),
    ensures
        exists|t: FrequencyTable, lists: Seq<Seq<(char, usize)>>|
            {
                &&& t.models(words_view(words@), history_view(board_state@))
                &&& lists.len() == WORD_LEN
                &&& forall|i: int|
                    0 <= i < WORD_LEN ==> is_distance_list(
                        #[trigger] lists[i],
                        t.letters@,
                        t.counts[i]@,
                    )
                &&& r@ == search_result(
                    lists,
                    words_view(words@),
                    required_list_of(history_view(board_state@)),
                    words_view(answers@),
                )
            },
{
    let table = get_letter_frequencies(words, board_state);
    let lists = get_distance_list(&table);
    let r = search_word(words, &lists, board_state, answers);
    let ghost lv = lists_view(lists@);
    assert forall|i: int| 0 <= i < WORD_LEN implies is_distance_list(
        #[trigger] lv[i],
        table.letters@,
        table.counts[i]@,
    ) by {
        assert(lv[i] == lists[i]@);
    }
    assert(table.models(words_view(words@), history_view(board_state@)));
    assert(lv.len() == WORD_LEN);
    assert(r@ == search_result(
        lv,
        words_view(words@),
        required_list_of(history_view(board_state@)),
        words_view(answers@),
    ));
    r
}

} // verus!
