//! What a game needs between rounds: reading a feedback line, telling a
//! solved round, recording a guess in the history, and the answers of the
//! days before the one being played.
use vstd::prelude::*;
use crate::words::{
    chars_of, history_view, same_letters, words_view, Entry, WORD_LEN, ABSENT, PRESENT, CORRECT,
};

verus! {

/// Why a feedback line was refused.
#[derive(PartialEq, Eq, Structural, Debug, Clone, Copy)]
pub enum FeedbackError {
    /// The line does not hold one code per letter of a word.
    WrongLength,
    /// The first character that is not one of `0`, `1` or `2`.
    BadCode(char),
}

/// A line without its one trailing newline, if it has one.
pub open spec fn trimmed(line: Seq<char>) -> Seq<char> {
    if line.len() > 0 && line.last() == '\n' {
        line.drop_last()
    } else {
        line
    }
}

/// The feedback code a character stands for.
pub open spec fn code_of(c: char) -> Option<u8> {
    if c == '0' {
        Some(ABSENT)
    } else if c == '1' {
        Some(PRESENT)
    } else if c == '2' {
        Some(CORRECT)
    } else {
        None
    }
}

/// The codes of a line, or why it is refused.
pub open spec fn parse_spec(line: Seq<char>) -> Result<Seq<u8>, FeedbackError> {
    let t = trimmed(line);
    if t.len() != WORD_LEN {
        Err(FeedbackError::WrongLength)
    } else if exists|i: int| 0 <= i < t.len() && code_of(#[trigger] t[i]) is None {
        let i = choose|i: int|
            0 <= i < t.len() && code_of(#[trigger] t[i]) is None && forall|j: int|
                0 <= j < i ==> code_of(#[trigger] t[j]) is Some;
        Err(FeedbackError::BadCode(t[i]))
    } else {
        Ok(Seq::new(WORD_LEN as nat, |i: int| code_of(t[i])->0))
    }
}

/// Reads one line of feedback: exactly one digit per letter, `0` absent,
/// `1` present, `2` correct, with an optional trailing newline.
pub fn parse_board_results(input: &String) -> (r: Result<Vec<u8>, FeedbackError>)
    ensures
        match (r, parse_spec(input@)) {
            (Ok(v), Ok(s)) => v@ == s,
            (Err(e), Err(f)) => e == f,
            _ => false,
        },
{
    let all = chars_of(input);
    let mut n = all.len();
    if n > 0 && all[n - 1] == '\n' {
        n = n - 1;
    }
    let ghost t = trimmed(input@);
    assert(t =~= all@.subrange(0, n as int));
    if n != WORD_LEN {
        return Err(FeedbackError::WrongLength);
    }
    let mut codes: Vec<u8> = Vec::new();
    let mut i: usize = 0;
    while i < n
        invariant
            t == all@.subrange(0, n as int),
            n == WORD_LEN,
            n <= all.len(),
            t == trimmed(input@),
            i <= n,
            codes.len() == i,
            forall|j: int| 0 <= j < i ==> code_of(#[trigger] t[j]) == Some(codes@[j]),
        decreases n - i,
    {
        let c = all[i];
        assert(t[i as int] == c);
        let code: u8 = if c == '0' {
            ABSENT
        } else if c == '1' {
            PRESENT
        } else if c == '2' {
            CORRECT
        } else {
            assert(code_of(t[i as int]) is None);
            assert(forall|j: int| 0 <= j < i ==> code_of(#[trigger] t[j]) is Some);
            proof {
                let k = choose|k: int|
                    0 <= k < t.len() && code_of(#[trigger] t[k]) is None && forall|j: int|
                        0 <= j < k ==> code_of(#[trigger] t[j]) is Some;
                if k < i {
                    assert(code_of(t[k]) == Some(codes@[k]));
                } else if k > i {
                    assert(code_of(t[i as int]) is Some);
                }
            }
            return Err(FeedbackError::BadCode(c));
        };
        codes.push(code);
        i = i + 1;
    }
    assert(codes@ =~= Seq::new(WORD_LEN as nat, |j: int| code_of(t[j])->0));
    Ok(codes)
}

/// A round is solved when every position is marked correct.
pub open spec fn all_correct(codes: Seq<u8>) -> bool {
    codes.len() == WORD_LEN && forall|i: int| 0 <= i < WORD_LEN ==> #[trigger] codes[i] == CORRECT
}

/// Whether the feedback marks every position correct.
pub fn is_solved(codes: &Vec<u8>) -> (r: bool)
    ensures
        r == all_correct(codes@),
{
    if codes.len() != WORD_LEN {
        return false;
    }
    let mut i: usize = 0;
    while i < WORD_LEN
        invariant
            codes.len() == WORD_LEN,
            i <= WORD_LEN,
            forall|j: int| 0 <= j < i ==> #[trigger] codes@[j] == CORRECT,
        decreases WORD_LEN - i,
    {
        if codes[i] != CORRECT {
            return false;
        }
        i = i + 1;
    }
    true
}

/// The index of the first entry that guessed `w`, if any.
pub open spec fn first_entry_of(h: Seq<(Seq<char>, Seq<u8>)>, w: Seq<char>) -> Option<int> {
    if exists|k: int| 0 <= k < h.len() && #[trigger] h[k].0 == w {
        Some(
            choose|k: int|
                0 <= k < h.len() && #[trigger] h[k].0 == w && forall|j: int|
                    0 <= j < k ==> #[trigger] h[j].0 != w,
        )
    } else {
        None
    }
}

/// Records a guess and its feedback in the history, which is keyed by the
/// guessed word: an entry for the same word is replaced, else the entry
/// is appended.
pub fn record_guess(board: &mut Vec<Entry>, guess: String, codes: Vec<u8>)
    ensures
        history_view(final(board)@) == match first_entry_of(history_view(old(board)@), guess@) {
            Some(k) => history_view(old(board)@).update(k, (guess@, codes@)),
            None => history_view(old(board)@).push((guess@, codes@)),
        },
{
    let ghost h = history_view(board@);
    let g = chars_of(&guess);
    let mut k: usize = 0;
    while k < board.len()
        invariant
            h == history_view(board@),
            h == history_view(old(board)@),
            g@ == guess@,
            k <= board.len(),
            forall|j: int| 0 <= j < k ==> #[trigger] h[j].0 != guess@,
        decreases board.len() - k,
    {
        let w = chars_of(&board[k].0);
        assert(h[k as int].0 == w@);
        if same_letters(&w, &g) {
            proof {
                assert(h[k as int].0 == guess@ && forall|j: int| 0 <= j < k ==> #[trigger] h[j].0 != guess@);
                let c = choose|c: int|
                    0 <= c < h.len() && #[trigger] h[c].0 == guess@ && forall|j: int|
                        0 <= j < c ==> #[trigger] h[j].0 != guess@;
                if c < k {
                    assert(h[c].0 != guess@);
                } else if c > k {
                    assert(h[k as int].0 != guess@);
                }
                assert(first_entry_of(h, guess@) == Some(k as int));
            }
            board.set(k, (guess, codes));
            assert(history_view(board@) =~= h.update(k as int, (guess@, codes@)));
            return;
        }
        assert(h[k as int].0 != guess@);
        k = k + 1;
    }
    board.push((guess, codes));
    assert(history_view(board@) =~= h.push((guess@, codes@)));
}

/// The answers of the days before `day`: the answer of `day` itself and of
/// every later day is left out.
pub fn past_answers(answers: &Vec<String>, day: usize) -> (r: Vec<String>)
    ensures
        words_view(r@) == words_view(answers@).take(
            if day < answers.len() {
                day as int
            } else {
                answers.len() as int
            },
        ),
{
    let end = if day < answers.len() {
        day
    } else {
        answers.len()
    };
    let mut r: Vec<String> = Vec::new();
    let mut k: usize = 0;
    while k < end
        invariant
            end <= answers.len(),
            k <= end,
            words_view(r@) == words_view(answers@).take(k as int),
        decreases end - k,
    {
        let ghost prev = r@;
        r.push(answers[k].clone());
        assert(r@ == prev.push(answers@[k as int]));
        k = k + 1;
        assert(words_view(r@) =~= words_view(answers@).take(k as int)) by {
            assert(words_view(prev) =~= words_view(answers@).take(k - 1));
        }
    }
    r
}

} // verus!
