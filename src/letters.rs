//! Letter suggestions from overall letter frequencies, ignoring positions.
use vstd::prelude::*;
use crate::words::{rows_view, word_chars, words_fit, words_view, WORD_LEN};
use crate::frequency::{collect_letters, is_letter_set};
use crate::ranking::{is_ranking, lemma_ascending_distinct, rank_letters};

verus! {

/// How often `c` stands in `w`.
pub open spec fn tally(w: Seq<char>, c: char) -> nat
    decreases w.len(),
{
    if w.len() == 0 {
        0
    } else {
        tally(w.drop_last(), c) + if w.last() == c {
            1nat
        } else {
            0nat
        }
    }
}

/// How often `c` stands in all the words together.
pub open spec fn total_tally(ws: Seq<Seq<char>>, c: char) -> nat
    decreases ws.len(),
{
    if ws.len() == 0 {
        0
    } else {
        total_tally(ws.drop_last(), c) + tally(ws.last(), c)
    }
}

/// The letters of ranks `5 * round` up to `5 * round + 4` of a ranking,
/// as far as the ranking reaches.
pub open spec fn round_window(ranked: Seq<(char, usize)>, round: int) -> Seq<char> {
    let start = round * WORD_LEN;
    if start >= ranked.len() {
        Seq::empty()
    } else {
        let end = if start + WORD_LEN <= ranked.len() {
            start + WORD_LEN
        } else {
            ranked.len() as int
        };
        ranked.subrange(start, end).map_values(|p: (char, usize)| p.0)
    }
}

/// A word never holds a letter more often than it is long.
proof fn lemma_tally_bound(w: Seq<char>, c: char)
    ensures
        tally(w, c) <= w.len(),
    decreases w.len(),
{
    if w.len() > 0 {
        lemma_tally_bound(w.drop_last(), c);
    }
}

/// How often `c` stands in the rows.
fn count_letter(rows: &Vec<Vec<char>>, c: char) -> (r: usize)
    requires
        words_fit(rows_view(rows@)),
        rows.len() * WORD_LEN <= usize::MAX,
    ensures
        r == total_tally(rows_view(rows@), c),
{
    let ghost ws = rows_view(rows@);
    let mut r: usize = 0;
    let mut k: usize = 0;
    while k < rows.len()
        invariant
            ws == rows_view(rows@),
            words_fit(ws),
            rows.len() * WORD_LEN <= usize::MAX,
            k <= rows.len(),
            r == total_tally(ws.take(k as int), c),
            r <= k * WORD_LEN,
        decreases rows.len() - k,
    {
        let row = &rows[k];
        assert(ws[k as int] == row@);
        let ghost base = r;
        let mut i: usize = 0;
        while i < row.len()
            invariant
                ws == rows_view(rows@),
                words_fit(ws),
                rows.len() * WORD_LEN <= usize::MAX,
                k < rows.len(),
                ws[k as int] == row@,
                base <= k * WORD_LEN,
                i <= row.len(),
                r == base + tally(row@.take(i as int), c),
            decreases row.len() - i,
        {
            assert(row@.take(i + 1).drop_last() =~= row@.take(i as int));
            proof {
                lemma_tally_bound(row@.take(i as int), c);
                assert(row@.len() <= WORD_LEN);
                assert((k + 1) * WORD_LEN <= rows.len() * WORD_LEN) by (nonlinear_arith)
                    requires
                        k + 1 <= rows.len(),
                ;
            }
            if row[i] == c {
                r = r + 1;
            }
            i = i + 1;
        }
        proof {
            assert(row@.take(i as int) =~= row@);
            assert(ws.take(k + 1).drop_last() =~= ws.take(k as int));
            lemma_tally_bound(row@, c);
        }
        k = k + 1;
    }
    assert(ws.take(k as int) =~= ws);
    r
}

/// Letters to build a guess from, by overall frequency: the dictionary's
/// letters ranked by how often they stand in it (the more frequent first,
/// equal counts by ascending letter), and of that ranking the five of
/// round `loop_counter`, ranks `5 * loop_counter` onwards. The words are
/// each listed once. A round that reaches past the end of the ranking is
/// not an error: it gets the letters that are left, fewer than five or
/// none, so that a caller can tell the ranking is used up.
pub fn suggest_letters(words: &Vec<String>, loop_counter: &usize) -> (r: Vec<char>)
    requires
        words_fit(words_view(words@)),
        words_view(words@).no_duplicates(),
        words.len() * WORD_LEN <= usize::MAX,
    ensures
        exists|letters: Seq<char>, counts: Seq<usize>, ranked: Seq<(char, usize)>|
            {
                &&& is_letter_set(letters, words_view(words@))
                &&& counts.len() == letters.len()
                &&& forall|k: int|
                    0 <= k < letters.len() ==> #[trigger] counts[k] == total_tally(
                        words_view(words@),
                        letters[k],
                    )
                &&& is_ranking(ranked, letters, counts)
                &&& r@ == round_window(ranked, *loop_counter as int)
            },
{
    let ghost ws = words_view(words@);
    let rows = word_chars(words);
    assert(rows_view(rows@) =~= ws);
    let letters = collect_letters(&rows);
    let mut counts: Vec<usize> = Vec::new();
    let mut k: usize = 0;
    while k < letters.len()
        invariant
            rows_view(rows@) == ws,
            words_fit(ws),
            rows.len() * WORD_LEN <= usize::MAX,
            k <= letters.len(),
            counts.len() == k,
            forall|j: int| 0 <= j < k ==> #[trigger] counts@[j] == total_tally(ws, letters@[j]),
        decreases letters.len() - k,
    {
        counts.push(count_letter(&rows, letters[k]));
        k = k + 1;
    }
    proof {
        lemma_ascending_distinct(letters@);
    }
    let ranked = rank_letters(&letters, &counts);
    let n = ranked.len();
    let mut r: Vec<char> = Vec::new();
    if *loop_counter < n / WORD_LEN + 1 {
        let start = *loop_counter * WORD_LEN;
        if start < n {
            let end = if n - start >= WORD_LEN {
                start + WORD_LEN
            } else {
                n
            };
            let mut i: usize = start;
            while i < end
                invariant
                    start <= i <= end,
                    end <= n,
                    n == ranked.len(),
                    r@ == ranked@.subrange(start as int, i as int).map_values(
                        |p: (char, usize)| p.0,
                    ),
                decreases end - i,
            {
                r.push(ranked[i].0);
                i = i + 1;
                assert(r@ =~= ranked@.subrange(start as int, i as int).map_values(
                    |p: (char, usize)| p.0,
                ));
            }
        }
    }
    assert(r@ == round_window(ranked@, *loop_counter as int));
    r
}

} // verus!
