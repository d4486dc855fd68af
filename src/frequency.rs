//! The positional frequency model: how often each letter stands at each
//! position across the dictionary, with the history's constraints applied.
use vstd::prelude::*;
use crate::words::{
    history_view, history_wf, rows_view, word_chars, words_view, Entry, ABSENT, WORD_LEN,
};
use crate::constraints::{
    build_include_list, build_omit_list, cells_of, excluded_at, forced_at, include_list_of,
    lemma_absent_letter_never_forced, lemma_cell_of_history, lemma_filter_map_keeps, omit_list_of,
    omit_rule, EVERYWHERE,
};

verus! {

/// Count given to a letter confirmed at a position, so that it ranks first there.
pub const FORCED_COUNT: usize = 200000;

/// Whether letter `c` stands anywhere in any of the words.
pub open spec fn occurs(ws: Seq<Seq<char>>, c: char) -> bool {
    exists|k: int, i: int| 0 <= k < ws.len() && 0 <= i < ws[k].len() && #[trigger] ws[k][i] == c
}

/// Letters in strictly ascending order of their code points.
pub open spec fn strictly_ascending(s: Seq<char>) -> bool {
    forall|a: int, b: int| 0 <= a < b < s.len() ==> s[a] < s[b]
}

/// `letters` lists each letter that occurs in `ws` once, in ascending order.
pub open spec fn is_letter_set(letters: Seq<char>, ws: Seq<Seq<char>>) -> bool {
    &&& strictly_ascending(letters)
    &&& forall|c: char| letters.contains(c) <==> occurs(ws, c)
}

/// Number of words with letter `c` at position `i`.
pub open spec fn occurrences(ws: Seq<Seq<char>>, c: char, i: int) -> nat
    decreases ws.len(),
{
    if ws.len() == 0 {
        0
    } else {
        occurrences(ws.drop_last(), c, i) + if 0 <= i < ws.last().len() && ws.last()[i] == c {
            1nat
        } else {
            0nat
        }
    }
}

/// The frequency of letter `c` at position `i`: its occurrences there, but
/// `FORCED_COUNT` where the history confirms it there and 0 where the
/// history excludes it there.
pub open spec fn letter_count(
    ws: Seq<Seq<char>>,
    omits: Seq<(char, usize)>,
    includes: Seq<(char, usize)>,
    c: char,
    i: int,
) -> nat {
    if occurrences(ws, c, i) == 0 {
        0
    } else if forced_at(includes, c, i as usize) {
        FORCED_COUNT as nat
    } else if excluded_at(omits, c, i as usize) {
        0
    } else {
        occurrences(ws, c, i)
    }
}

/// Per position, the frequency of every letter of the dictionary.
/// `counts[i][k]` is the frequency of `letters[k]` at position `i`.
pub struct FrequencyTable {
    pub letters: Vec<char>,
    pub counts: Vec<Vec<usize>>,
}

impl FrequencyTable {
    /// One row of counts per position, one count per letter, letters ascending.
    pub open spec fn wf(&self) -> bool {
        &&& strictly_ascending(self.letters@)
        &&& self.counts.len() == WORD_LEN
        &&& forall|i: int| 0 <= i < WORD_LEN ==> #[trigger] self.counts[i].len() == self.letters.len()
    }

    /// The table computed from a dictionary and a history.
    pub open spec fn models(
        &self,
        ws: Seq<Seq<char>>,
        h: Seq<(Seq<char>, Seq<u8>)>,
    ) -> bool {
        &&& self.wf()
        &&& is_letter_set(self.letters@, ws)
        &&& forall|i: int, k: int|
            0 <= i < WORD_LEN && 0 <= k < self.letters.len() ==> #[trigger] self.counts[i][k]
                == letter_count(ws, omit_list_of(h), include_list_of(h), self.letters[k], i)
    }
}

/// Adds `c` to an ascending list of distinct letters, unless it is there.
fn insert_letter(letters: &mut Vec<char>, c: char)
    requires
        strictly_ascending(old(letters)@),
    ensures
        strictly_ascending(final(letters)@),
        forall|d: char| final(letters)@.contains(d) <==> (old(letters)@.contains(d) || d == c),
{
    let ghost before = letters@;
    let mut p: usize = 0;
    while p < letters.len() && letters[p] < c
        invariant
            letters@ == before,
            p <= letters.len(),
            forall|j: int| 0 <= j < p ==> letters@[j] < c,
        decreases letters.len() - p,
    {
        p = p + 1;
    }
    if p < letters.len() && letters[p] == c {
        assert(letters@[p as int] == c);
        assert forall|d: char| #[trigger] letters@.contains(d) <==> (before.contains(d) || d == c) by {
            if d == c {
                assert(letters@[p as int] == d);
            }
        }
    } else {
        letters.insert(p, c);
        assert forall|a: int, b: int| 0 <= a < b < letters@.len() implies letters@[a] < letters@[b] by {
            if b == p {
            } else if a == p {
                assert(before[p as int] >= c);
                assert(before[p as int] != c);
            } else if b > p && a < p {
                assert(before[p as int] >= c);
            }
        }
        assert forall|d: char| #[trigger] letters@.contains(d) <==> (before.contains(d) || d == c) by {
            if letters@.contains(d) {
                let j = choose|j: int| 0 <= j < letters@.len() && letters@[j] == d;
                if j < p {
                    assert(before[j] == d);
                } else if j > p {
                    assert(before[j - 1] == d);
                }
            }
            if before.contains(d) {
                let j = choose|j: int| 0 <= j < before.len() && before[j] == d;
                if j < p {
                    assert(letters@[j] == d);
                } else {
                    assert(letters@[j + 1] == d);
                }
            }
            if d == c {
                assert(letters@[p as int] == c);
            }
        }
    }
    assert(before == old(letters)@);
}

/// Every letter that stands in some row, once each, in ascending order.
pub fn collect_letters(rows: &Vec<Vec<char>>) -> (r: Vec<char>)
    ensures
        is_letter_set(r@, rows_view(rows@)),
{
    let ghost ws = rows_view(rows@);
    let mut letters: Vec<char> = Vec::new();
    let mut k: usize = 0;
    while k < rows.len()
        invariant
            ws == rows_view(rows@),
            k <= rows.len(),
            strictly_ascending(letters@),
            forall|d: char| letters@.contains(d) <==> occurs(ws.take(k as int), d),
        decreases rows.len() - k,
    {
        let row = &rows[k];
        assert(ws[k as int] == row@);
        let mut i: usize = 0;
        while i < row.len()
            invariant
                ws == rows_view(rows@),
                k < rows.len(),
                ws[k as int] == row@,
                i <= row.len(),
                strictly_ascending(letters@),
                forall|d: char|
                    letters@.contains(d) <==> (occurs(ws.take(k as int), d) || exists|j: int|
                        0 <= j < i && #[trigger] row@[j] == d),
            decreases row.len() - i,
        {
            let ghost prev = letters@;
            insert_letter(&mut letters, row[i]);
            assert forall|d: char|
                letters@.contains(d) <==> (occurs(ws.take(k as int), d) || exists|j: int|
                    0 <= j < i + 1 && #[trigger] row@[j] == d) by {
                if d == row@[i as int] {
                    assert(row@[i as int] == d);
                }
                if exists|j: int| 0 <= j < i + 1 && #[trigger] row@[j] == d {
                    let j = choose|j: int| 0 <= j < i + 1 && #[trigger] row@[j] == d;
                    if j < i {
                        assert(prev.contains(d));
                    }
                }
            }
            i = i + 1;
        }
        let ghost next = ws.take(k + 1);
        assert forall|d: char| letters@.contains(d) <==> occurs(next, d) by {
            if occurs(next, d) {
                let (a, j) = choose|a: int, j: int|
                    0 <= a < next.len() && 0 <= j < next[a].len() && #[trigger] next[a][j] == d;
                if a < k {
                    assert(ws.take(k as int)[a][j] == d);
                } else {
                    assert(row@[j] == d);
                }
            }
            if occurs(ws.take(k as int), d) {
                let (a, j) = choose|a: int, j: int|
                    0 <= a < k && 0 <= j < ws.take(k as int)[a].len() && #[trigger] ws.take(
                        k as int,
                    )[a][j] == d;
                assert(next[a][j] == d);
            }
            if exists|j: int| 0 <= j < i && #[trigger] row@[j] == d {
                let j = choose|j: int| 0 <= j < i && #[trigger] row@[j] == d;
                assert(next[k as int][j] == d);
            }
        }
        k = k + 1;
    }
    assert(ws.take(k as int) =~= ws);
    letters
}

/// Number of rows with letter `c` at position `i`.
fn count_at(rows: &Vec<Vec<char>>, c: char, i: usize) -> (r: usize)
    ensures
        r == occurrences(rows_view(rows@), c, i as int),
{
    let ghost ws = rows_view(rows@);
    let mut n: usize = 0;
    let mut r: usize = 0;
    while n < rows.len()
        invariant
            ws == rows_view(rows@),
            n <= rows.len(),
            r <= n,
            r == occurrences(ws.take(n as int), c, i as int),
        decreases rows.len() - n,
    {
        assert(ws.take(n + 1).drop_last() =~= ws.take(n as int));
        assert(ws.take(n + 1).last() == rows@[n as int]@);
        if i < rows[n].len() && rows[n][i] == c {
            r = r + 1;
        }
        n = n + 1;
    }
    assert(ws.take(n as int) =~= ws);
    r
}

/// Whether the exclusions keep `c` out of position `i`.
fn is_excluded(omits: &Vec<(char, usize)>, c: char, i: usize) -> (r: bool)
    ensures
        r == excluded_at(omits@, c, i),
{
    let mut k: usize = 0;
    while k < omits.len()
        invariant
            k <= omits.len(),
            forall|j: int| 0 <= j < k ==> omits@[j] != (c, EVERYWHERE) && omits@[j] != (c, i),
        decreases omits.len() - k,
    {
        let (d, p) = omits[k];
        if d == c && (p == EVERYWHERE || p == i) {
            assert(omits@[k as int] == (c, p));
            return true;
        }
        k = k + 1;
    }
    false
}

/// Whether the placements pin `c` to position `i`.
fn is_forced(includes: &Vec<(char, usize)>, c: char, i: usize) -> (r: bool)
    ensures
        r == forced_at(includes@, c, i),
{
    let mut k: usize = 0;
    while k < includes.len()
        invariant
            k <= includes.len(),
            forall|j: int| 0 <= j < k ==> includes@[j] != (c, i),
        decreases includes.len() - k,
    {
        let (d, p) = includes[k];
        if d == c && p == i {
            assert(includes@[k as int] == (c, i));
            return true;
        }
        k = k + 1;
    }
    false
}

/// The frequency table of the dictionary (its words each listed once)
/// under the history's constraints:
/// each letter of the dictionary with, per position, its number of
/// occurrences there, `FORCED_COUNT` where the history confirms it there,
/// and 0 where the history excludes it there.
pub fn get_letter_frequencies(words: &Vec<String>, board_state: &Vec<Entry>) -> (r: FrequencyTable)
    requires
        words_view(words@).no_duplicates(),
        history_wf(history_view(board_state@)),
    ensures
        r.models(words_view(words@), history_view(board_state@)),
{
    let ghost ws = words_view(words@);
    let ghost h = history_view(board_state@);
    let rows = word_chars(words);
    assert(rows_view(rows@) =~= ws);
    let letters = collect_letters(&rows);
    let omits = build_omit_list(board_state);
    let includes = build_include_list(board_state);
    let mut counts: Vec<Vec<usize>> = Vec::new();
    let mut i: usize = 0;
    while i < WORD_LEN
        invariant
            rows_view(rows@) == ws,
            is_letter_set(letters@, ws),
            omits@ == omit_list_of(h),
            includes@ == include_list_of(h),
            i <= WORD_LEN,
            counts.len() == i,
            forall|p: int| 0 <= p < i ==> #[trigger] counts[p].len() == letters.len(),
            forall|p: int, k: int|
                0 <= p < i && 0 <= k < letters.len() ==> #[trigger] counts[p][k] == letter_count(
                    ws,
                    omits@,
                    includes@,
                    letters[k],
                    p,
                ),
        decreases WORD_LEN - i,
    {
        let mut column: Vec<usize> = Vec::new();
        let mut k: usize = 0;
        while k < letters.len()
            invariant
                rows_view(rows@) == ws,
                omits@ == omit_list_of(h),
                includes@ == include_list_of(h),
                i < WORD_LEN,
                k <= letters.len(),
                column.len() == k,
                forall|j: int|
                    0 <= j < k ==> #[trigger] column[j] == letter_count(
                        ws,
                        omits@,
                        includes@,
                        letters[j],
                        i as int,
                    ),
            decreases letters.len() - k,
        {
            let c = letters[k];
            let n = count_at(&rows, c, i);
            let v = if n == 0 {
                0
            } else if is_forced(&includes, c, i) {
                FORCED_COUNT
            } else if is_excluded(&omits, c, i) {
                0
            } else {
                n
            };
            column.push(v);
            k = k + 1;
        }
        counts.push(column);
        i = i + 1;
    }
    FrequencyTable { letters, counts }
}

/// A letter that drew the absent code wherever it was guessed has frequency
/// 0 at every position, whatever the dictionary.
pub proof fn lemma_absent_letter_counts_zero(
    ws: Seq<Seq<char>>,
    h: Seq<(Seq<char>, Seq<u8>)>,
    c: char,
    i: int,
)
    requires
        history_wf(h),
        exists|e: int, p: int| 0 <= e < h.len() && 0 <= p < h[e].0.len() && #[trigger] h[e].0[p] == c,
        forall|e: int, p: int|
            0 <= e < h.len() && 0 <= p < h[e].0.len() && #[trigger] h[e].0[p] == c ==> h[e].1[p]
                == ABSENT,
        0 <= i < WORD_LEN,
    ensures
        letter_count(ws, omit_list_of(h), include_list_of(h), c, i) == 0,
{
    lemma_absent_letter_never_forced(h, c, i as usize);
    let (e, p) = choose|e: int, p: int| 0 <= e < h.len() && 0 <= p < h[e].0.len() && #[trigger] h[e].0[p] == c;
    lemma_cell_of_history(h, e, p);
    let cells = cells_of(h);
    let k = choose|k: int| 0 <= k < cells.len() && cells[k] == (h[e].0[p], p as usize, h[e].1[p]);
    lemma_filter_map_keeps(cells, |cell: (char, usize, u8)| omit_rule(cell), k);
    assert(excluded_at(omit_list_of(h), c, i as usize));
}

} // verus!
