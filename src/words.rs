//! Words, feedback codes and the history of guesses, as plain values.
use vstd::prelude::*;

verus! {

/// Number of letters in a word of the game.
pub const WORD_LEN: usize = 5;

/// Feedback code: the letter does not occur in the answer.
pub const ABSENT: u8 = 0;

/// Feedback code: the letter occurs in the answer at another position.
pub const PRESENT: u8 = 1;

/// Feedback code: the letter stands at this position in the answer.
pub const CORRECT: u8 = 2;

/// One guess of the history: the word guessed and its feedback codes.
pub type Entry = (String, Vec<u8>);

/// The mathematical value of a history: each guess as its letters and codes.
pub open spec fn history_view(board: Seq<Entry>) -> Seq<(Seq<char>, Seq<u8>)> {
    board.map_values(|e: Entry| (e.0@, e.1@))
}

/// The mathematical value of a list of words.
pub open spec fn words_view(words: Seq<String>) -> Seq<Seq<char>> {
    words.map_values(|w: String| w@)
}

/// Every entry pairs a word of the game's length with one code per letter.
pub open spec fn history_wf(h: Seq<(Seq<char>, Seq<u8>)>) -> bool {
    forall|e: int|
        0 <= e < h.len() ==> #[trigger] h[e].0.len() == WORD_LEN && h[e].1.len() == WORD_LEN
}

/// No word is longer than the game's length (an empty line is allowed).
pub open spec fn words_fit(ws: Seq<Seq<char>>) -> bool {
    forall|k: int| 0 <= k < ws.len() ==> #[trigger] ws[k].len() <= WORD_LEN
}

/// The letters of a string, one per element.
pub fn chars_of(s: &String) -> (r: Vec<char>)
    ensures
        r@ == s@,
{
    let t = s.as_str();
    let n = t.unicode_len();
    let mut r: Vec<char> = Vec::new();
    let mut i: usize = 0;
    while i < n
        invariant
            n == s@.len(),
            t@ == s@,
            i <= n,
            r@ == s@.subrange(0, i as int),
        decreases n - i,
    {
        let c = t.get_char(i);
        r.push(c);
        i = i + 1;
        assert(r@ =~= s@.subrange(0, i as int));
    }
    assert(r@ =~= s@);
    r
}


/// The letters of each row.
pub open spec fn rows_view(rows: Seq<Vec<char>>) -> Seq<Seq<char>> {
    rows.map_values(|w: Vec<char>| w@)
}

/// The letters of each word.
pub fn word_chars(words: &Vec<String>) -> (r: Vec<Vec<char>>)
    ensures
        r.len() == words.len(),
        forall|k: int| 0 <= k < words.len() ==> #[trigger] r[k]@ == words[k]@,
{
    let mut r: Vec<Vec<char>> = Vec::new();
    let mut k: usize = 0;
    while k < words.len()
        invariant
            k <= words.len(),
            r.len() == k,
            forall|j: int| 0 <= j < k ==> #[trigger] r[j]@ == words[j]@,
        decreases words.len() - k,
    {
        r.push(chars_of(&words[k]));
        k = k + 1;
    }
    r
}


/// Whether `c` occurs in `s`.
pub fn holds_letter(s: &Vec<char>, c: char) -> (r: bool)
    ensures
        r == s@.contains(c),
{
    let mut i: usize = 0;
    while i < s.len()
        invariant
            i <= s.len(),
            forall|k: int| 0 <= k < i ==> s@[k] != c,
        decreases s.len() - i,
    {
        if s[i] == c {
            return true;
        }
        i = i + 1;
    }
    false
}


/// Whether `w` holds every letter of `required`.
pub fn holds_all(w: &Vec<char>, required: &Vec<char>) -> (r: bool)
    ensures
        r == forall|k: int| 0 <= k < required.len() ==> w@.contains(#[trigger] required@[k]),
{
    let mut k: usize = 0;
    while k < required.len()
        invariant
            k <= required.len(),
            forall|j: int| 0 <= j < k ==> w@.contains(#[trigger] required@[j]),
        decreases required.len() - k,
    {
        if !holds_letter(w, required[k]) {
            return false;
        }
        k = k + 1;
    }
    true
}


/// Whether two letter sequences are equal.
pub fn same_letters(a: &Vec<char>, b: &Vec<char>) -> (r: bool)
    ensures
        r == (a@ == b@),
{
    if a.len() != b.len() {
        return false;
    }
    let mut i: usize = 0;
    while i < a.len()
        invariant
            a.len() == b.len(),
            i <= a.len(),
            forall|j: int| 0 <= j < i ==> a@[j] == b@[j],
        decreases a.len() - i,
    {
        if a[i] != b[i] {
            return false;
        }
        i = i + 1;
    }
    assert(a@ =~= b@);
    true
}

} // verus!
