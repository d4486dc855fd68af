//! Constraint extraction: what the history of guesses says about the answer.
//!
//! Every letter of every guess, with its position and feedback code, is a
//! cell of the history. Absent cells exclude their letter everywhere, present
//! cells exclude it at their position and require it somewhere, and correct
//! cells force it at their position.
use vstd::prelude::*;
use crate::words::{chars_of, history_view, history_wf, Entry, ABSENT, PRESENT, CORRECT};

verus! {

/// Position recorded in an exclusion that holds at every position.
pub const EVERYWHERE: usize = 6;

/// The cells of one guess: each letter with its position and code.
pub open spec fn entry_cells(guess: Seq<char>, codes: Seq<u8>) -> Seq<(char, usize, u8)> {
    Seq::new(guess.len(), |i: int| (guess[i], i as usize, codes[i]))
}

/// The cells of a history, guess after guess.
pub open spec fn cells_of(h: Seq<(Seq<char>, Seq<u8>)>) -> Seq<(char, usize, u8)>
    decreases h.len(),
{
    if h.len() == 0 {
        Seq::empty()
    } else {
        cells_of(h.drop_last()) + entry_cells(h.last().0, h.last().1)
    }
}

/// The exclusion a cell records, if any.
pub open spec fn omit_rule(cell: (char, usize, u8)) -> Option<(char, usize)> {
    if cell.2 == ABSENT {
        Some((cell.0, EVERYWHERE))
    } else if cell.2 == PRESENT {
        Some((cell.0, cell.1))
    } else {
        None
    }
}

/// The placement a cell confirms, if any.
pub open spec fn include_rule(cell: (char, usize, u8)) -> Option<(char, usize)> {
    if cell.2 == CORRECT {
        Some((cell.0, cell.1))
    } else {
        None
    }
}

/// The letter a cell requires somewhere in the answer, if any.
pub open spec fn required_rule(cell: (char, usize, u8)) -> Option<char> {
    if cell.2 == PRESENT {
        Some(cell.0)
    } else {
        None
    }
}

/// Exclusions of a history, in the order of its cells.
pub open spec fn omit_list_of(h: Seq<(Seq<char>, Seq<u8>)>) -> Seq<(char, usize)> {
    cells_of(h).filter_map(|cell: (char, usize, u8)| omit_rule(cell))
}

/// Confirmed placements of a history, in the order of its cells.
pub open spec fn include_list_of(h: Seq<(Seq<char>, Seq<u8>)>) -> Seq<(char, usize)> {
    cells_of(h).filter_map(|cell: (char, usize, u8)| include_rule(cell))
}

/// Required letters of a history, in the order of its cells.
pub open spec fn required_list_of(h: Seq<(Seq<char>, Seq<u8>)>) -> Seq<char> {
    cells_of(h).filter_map(|cell: (char, usize, u8)| required_rule(cell))
}

/// Whether an exclusion list keeps letter `c` out of position `i`.
pub open spec fn excluded_at(omits: Seq<(char, usize)>, c: char, i: usize) -> bool {
    omits.contains((c, EVERYWHERE)) || omits.contains((c, i))
}

/// Whether a placement list pins letter `c` to position `i`.
pub open spec fn forced_at(includes: Seq<(char, usize)>, c: char, i: usize) -> bool {
    includes.contains((c, i))
}

/// All cells of the history, guess after guess.
fn history_cells(board: &Vec<Entry>) -> (r: Vec<(char, usize, u8)>)
    requires
        history_wf(history_view(board@)),
    ensures
        r@ == cells_of(history_view(board@)),
{
    let ghost h = history_view(board@);
    let mut r: Vec<(char, usize, u8)> = Vec::new();
    let mut e: usize = 0;
    while e < board.len()
        invariant
            h == history_view(board@),
            history_wf(h),
            e <= board.len(),
            r@ == cells_of(h.take(e as int)),
        decreases board.len() - e,
    {
        let guess = chars_of(&board[e].0);
        let codes = &board[e].1;
        assert(h[e as int].0 == guess@ && h[e as int].1 == codes@);
        let ghost before = r@;
        let mut i: usize = 0;
        while i < guess.len()
            invariant
                h == history_view(board@),
                history_wf(h),
                e < board.len(),
                h[e as int].0 == guess@,
                h[e as int].1 == codes@,
                i <= guess.len(),
                before == cells_of(h.take(e as int)),
                r@ == before + entry_cells(guess@, codes@).take(i as int),
            decreases guess.len() - i,
        {
            r.push((guess[i], i, codes[i]));
            i = i + 1;
            assert(r@ =~= before + entry_cells(guess@, codes@).take(i as int));
        }
        assert(h.take(e + 1).drop_last() =~= h.take(e as int));
        assert(entry_cells(guess@, codes@).take(i as int) =~= entry_cells(guess@, codes@));
        e = e + 1;
    }
    assert(h.take(e as int) =~= h);
    r
}

/// Exclusions of the history: `(letter, EVERYWHERE)` for each absent cell
/// and `(letter, position)` for each present cell.
pub fn build_omit_list(board: &Vec<Entry>) -> (r: Vec<(char, usize)>)
    requires
        history_wf(history_view(board@)),
    ensures
        r@ == omit_list_of(history_view(board@)),
{
    let cells = history_cells(board);
    let ghost f = |cell: (char, usize, u8)| omit_rule(cell);
    let mut r: Vec<(char, usize)> = Vec::new();
    let mut k: usize = 0;
    while k < cells.len()
        invariant
            f == (|cell: (char, usize, u8)| omit_rule(cell)),
            k <= cells.len(),
            r@ == cells@.take(k as int).filter_map(f),
        decreases cells.len() - k,
    {
        proof {
            cells@.lemma_filter_map_take_succ(f, k as int);
        }
        let (c, i, code) = cells[k];
        if code == ABSENT {
            r.push((c, EVERYWHERE));
        } else if code == PRESENT {
            r.push((c, i));
        }
        k = k + 1;
        assert(r@ =~= cells@.take(k as int).filter_map(f));
    }
    assert(cells@.take(k as int) =~= cells@);
    r
}

/// Confirmed placements of the history: `(letter, position)` for each correct cell.
pub fn build_include_list(board: &Vec<Entry>) -> (r: Vec<(char, usize)>)
    requires
        history_wf(history_view(board@)),
    ensures
        r@ == include_list_of(history_view(board@)),
{
    let cells = history_cells(board);
    let ghost f = |cell: (char, usize, u8)| include_rule(cell);
    let mut r: Vec<(char, usize)> = Vec::new();
    let mut k: usize = 0;
    while k < cells.len()
        invariant
            f == (|cell: (char, usize, u8)| include_rule(cell)),
            k <= cells.len(),
            r@ == cells@.take(k as int).filter_map(f),
        decreases cells.len() - k,
    {
        proof {
            cells@.lemma_filter_map_take_succ(f, k as int);
        }
        let (c, i, code) = cells[k];
        if code == CORRECT {
            r.push((c, i));
        }
        k = k + 1;
        assert(r@ =~= cells@.take(k as int).filter_map(f));
    }
    assert(cells@.take(k as int) =~= cells@);
    r
}

/// Letters the answer holds at some other position: one for each present cell.
pub fn build_required_list(board: &Vec<Entry>) -> (r: Vec<char>)
    requires
        history_wf(history_view(board@)),
    ensures
        r@ == required_list_of(history_view(board@)),
{
    let cells = history_cells(board);
    let ghost f = |cell: (char, usize, u8)| required_rule(cell);
    let mut r: Vec<char> = Vec::new();
    let mut k: usize = 0;
    while k < cells.len()
        invariant
            f == (|cell: (char, usize, u8)| required_rule(cell)),
            k <= cells.len(),
            r@ == cells@.take(k as int).filter_map(f),
        decreases cells.len() - k,
    {
        proof {
            cells@.lemma_filter_map_take_succ(f, k as int);
        }
        let (c, _i, code) = cells[k];
        if code == PRESENT {
            r.push(c);
        }
        k = k + 1;
        assert(r@ =~= cells@.take(k as int).filter_map(f));
    }
    assert(cells@.take(k as int) =~= cells@);
    r
}

/// Every letter of every guess is a cell of the history.
pub proof fn lemma_cell_of_history(h: Seq<(Seq<char>, Seq<u8>)>, e: int, i: int)
    requires
        0 <= e < h.len(),
        0 <= i < h[e].0.len(),
    ensures
        cells_of(h).contains((h[e].0[i], i as usize, h[e].1[i])),
    decreases h.len(),
{
    let last = h.len() - 1;
    let prev = cells_of(h.drop_last());
    let here = entry_cells(h.last().0, h.last().1);
    assert(cells_of(h) == prev + here);
    if e == last {
        assert((prev + here)[prev.len() + i] == here[i]);
    } else {
        lemma_cell_of_history(h.drop_last(), e, i);
        let k = choose|k: int| 0 <= k < prev.len() && prev[k] == (h[e].0[i], i as usize, h[e].1[i]);
        assert((prev + here)[k] == prev[k]);
    }
}

/// Every cell of the history is a letter of some guess, with its position and code.
pub proof fn lemma_history_of_cell(h: Seq<(Seq<char>, Seq<u8>)>, cell: (char, usize, u8))
    requires
        cells_of(h).contains(cell),
    ensures
        exists|e: int, i: int|
            0 <= e < h.len() && 0 <= i < h[e].0.len() && cell == (
                #[trigger] h[e].0[i],
                i as usize,
                h[e].1[i],
            ),
    decreases h.len(),
{
    let prev = cells_of(h.drop_last());
    let here = entry_cells(h.last().0, h.last().1);
    let k = choose|k: int| 0 <= k < cells_of(h).len() && cells_of(h)[k] == cell;
    if k < prev.len() {
        assert(prev[k] == cell);
        lemma_history_of_cell(h.drop_last(), cell);
        let (e, i) = choose|e: int, i: int|
            0 <= e < h.drop_last().len() && 0 <= i < h.drop_last()[e].0.len() && cell == (
                #[trigger] h.drop_last()[e].0[i],
                i as usize,
                h.drop_last()[e].1[i],
            );
        assert(h[e] == h.drop_last()[e]);
    } else {
        let i = k - prev.len();
        assert(here[i] == cell);
        assert(h[h.len() - 1].0[i] == cell.0);
    }
}

/// What a rule yields on some element stands in the filtered sequence.
pub(crate) proof fn lemma_filter_map_keeps<A, B>(s: Seq<A>, f: spec_fn(A) -> Option<B>, k: int)
    requires
        0 <= k < s.len(),
        f(s[k]) is Some,
    ensures
        s.filter_map(f).contains(f(s[k])->0),
    decreases s.len(),
{
    let rest = s.drop_last();
    if k == s.len() - 1 {
        let out = s.filter_map(f);
        assert(out == rest.filter_map(f) + seq![f(s[k])->0]);
        assert(out[out.len() - 1] == f(s[k])->0);
    } else {
        assert(rest[k] == s[k]);
        lemma_filter_map_keeps(rest, f, k);
        let j = choose|j: int| 0 <= j < rest.filter_map(f).len() && rest.filter_map(f)[j] == f(s[k])->0;
        match f(s.last()) {
            Some(b) => {
                assert(s.filter_map(f) == rest.filter_map(f) + seq![b]);
                assert(s.filter_map(f)[j] == rest.filter_map(f)[j]);
            },
            None => {},
        }
    }
}

/// A letter that drew the absent code wherever it was guessed is never
/// confirmed at any position.
pub proof fn lemma_absent_letter_never_forced(h: Seq<(Seq<char>, Seq<u8>)>, c: char, p: usize)
    requires
        history_wf(h),
        forall|e: int, i: int|
            0 <= e < h.len() && 0 <= i < h[e].0.len() && #[trigger] h[e].0[i] == c ==> h[e].1[i]
                == ABSENT,
    ensures
        !forced_at(include_list_of(h), c, p),
{
    let f = |cell: (char, usize, u8)| include_rule(cell);
    if include_list_of(h).contains((c, p)) {
        cells_of(h).lemma_filter_map_contains(f, (c, p));
        let cell = choose|cell: (char, usize, u8)| #[trigger] cells_of(h).contains(cell) && f(cell) == Some((c, p));
        lemma_history_of_cell(h, cell);
        let (e, i) = choose|e: int, i: int|
            0 <= e < h.len() && 0 <= i < h[e].0.len() && cell == (
                #[trigger] h[e].0[i],
                i as usize,
                h[e].1[i],
            );
        assert(h[e].0[i] == c);
    }
}

/// A correct code confirms its letter at its position.
pub proof fn lemma_correct_cell_forced(h: Seq<(Seq<char>, Seq<u8>)>, e: int, i: int)
    requires
        history_wf(h),
        0 <= e < h.len(),
        0 <= i < h[e].0.len(),
        h[e].1[i] == CORRECT,
    ensures
        forced_at(include_list_of(h), h[e].0[i], i as usize),
{
    let f = |cell: (char, usize, u8)| include_rule(cell);
    lemma_cell_of_history(h, e, i);
    let cells = cells_of(h);
    let k = choose|k: int| 0 <= k < cells.len() && cells[k] == (h[e].0[i], i as usize, h[e].1[i]);
    lemma_filter_map_keeps(cells, f, k);
}

/// A value stands in what a rule extracts from a history exactly when the
/// rule yields it on some letter of some guess.
proof fn lemma_extracted<B>(h: Seq<(Seq<char>, Seq<u8>)>, f: spec_fn((char, usize, u8)) -> Option<B>, x: B)
    ensures
        cells_of(h).filter_map(f).contains(x) <==> exists|e: int, i: int|
            0 <= e < h.len() && 0 <= i < h[e].0.len() && f(
                (#[trigger] h[e].0[i], i as usize, h[e].1[i]),
            ) == Some(x),
{
    if cells_of(h).filter_map(f).contains(x) {
        cells_of(h).lemma_filter_map_contains(f, x);
        let cell = choose|cell: (char, usize, u8)| #[trigger] cells_of(h).contains(cell) && f(cell) == Some(x);
        lemma_history_of_cell(h, cell);
        let (e, i) = choose|e: int, i: int|
            0 <= e < h.len() && 0 <= i < h[e].0.len() && cell == (
                #[trigger] h[e].0[i],
                i as usize,
                h[e].1[i],
            );
        assert(f((h[e].0[i], i as usize, h[e].1[i])) == Some(x));
    }
    if exists|e: int, i: int|
        0 <= e < h.len() && 0 <= i < h[e].0.len() && f(
            (#[trigger] h[e].0[i], i as usize, h[e].1[i]),
        ) == Some(x) {
        let (e, i) = choose|e: int, i: int|
            0 <= e < h.len() && 0 <= i < h[e].0.len() && f(
                (#[trigger] h[e].0[i], i as usize, h[e].1[i]),
            ) == Some(x);
        lemma_cell_of_history(h, e, i);
        let cells = cells_of(h);
        let k = choose|k: int| 0 <= k < cells.len() && cells[k] == (h[e].0[i], i as usize, h[e].1[i]);
        lemma_filter_map_keeps(cells, f, k);
    }
}

/// What a rule extracts from every guess of `h1` it also extracts from `h2`
/// when `h2` holds every guess of `h1`.
proof fn lemma_extracted_subset<B>(
    h1: Seq<(Seq<char>, Seq<u8>)>,
    h2: Seq<(Seq<char>, Seq<u8>)>,
    f: spec_fn((char, usize, u8)) -> Option<B>,
    x: B,
)
    requires
        forall|e: int| 0 <= e < h1.len() ==> h2.contains(#[trigger] h1[e]),
        cells_of(h1).filter_map(f).contains(x),
    ensures
        cells_of(h2).filter_map(f).contains(x),
{
    lemma_extracted(h1, f, x);
    lemma_extracted(h2, f, x);
    let (e, i) = choose|e: int, i: int|
        0 <= e < h1.len() && 0 <= i < h1[e].0.len() && f(
            (#[trigger] h1[e].0[i], i as usize, h1[e].1[i]),
        ) == Some(x);
    assert(h2.contains(h1[e]));
    let e2 = choose|e2: int| 0 <= e2 < h2.len() && h2[e2] == h1[e];
    assert(f((h2[e2].0[i], i as usize, h2[e2].1[i])) == Some(x));
}

/// The constraint sets depend on the history as a set of guesses: two
/// histories holding the same guesses with the same feedback, in any order,
/// give the same exclusions, the same placements and the same required
/// letters, however often they are extracted.
pub proof fn lemma_extraction_order_free(h1: Seq<(Seq<char>, Seq<u8>)>, h2: Seq<(Seq<char>, Seq<u8>)>)
    requires
        forall|e: int| 0 <= e < h1.len() ==> h2.contains(#[trigger] h1[e]),
        forall|e: int| 0 <= e < h2.len() ==> h1.contains(#[trigger] h2[e]),
    ensures
        forall|x: (char, usize)| omit_list_of(h1).contains(x) <==> omit_list_of(h2).contains(x),
        forall|x: (char, usize)| include_list_of(h1).contains(x) <==> include_list_of(h2).contains(x),
        forall|c: char| required_list_of(h1).contains(c) <==> required_list_of(h2).contains(c),
{
    let fo = |cell: (char, usize, u8)| omit_rule(cell);
    let fi = |cell: (char, usize, u8)| include_rule(cell);
    let fr = |cell: (char, usize, u8)| required_rule(cell);
    assert forall|x: (char, usize)| omit_list_of(h1).contains(x) <==> omit_list_of(h2).contains(x) by {
        if omit_list_of(h1).contains(x) {
            lemma_extracted_subset(h1, h2, fo, x);
        }
        if omit_list_of(h2).contains(x) {
            lemma_extracted_subset(h2, h1, fo, x);
        }
    }
    assert forall|x: (char, usize)| include_list_of(h1).contains(x) <==> include_list_of(h2).contains(x) by {
        if include_list_of(h1).contains(x) {
            lemma_extracted_subset(h1, h2, fi, x);
        }
        if include_list_of(h2).contains(x) {
            lemma_extracted_subset(h2, h1, fi, x);
        }
    }
    assert forall|c: char| required_list_of(h1).contains(c) <==> required_list_of(h2).contains(c) by {
        if required_list_of(h1).contains(c) {
            lemma_extracted_subset(h1, h2, fr, c);
        }
        if required_list_of(h2).contains(c) {
            lemma_extracted_subset(h2, h1, fr, c);
        }
    }
}

} // verus!
