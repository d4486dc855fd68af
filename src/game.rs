//! Feedback for a guess against a known answer, as simulated play needs it.
use vstd::prelude::*;
use crate::words::{chars_of, holds_letter, WORD_LEN, ABSENT, PRESENT, CORRECT};

verus! {

/// The code for position `i` of `guess`: `CORRECT` where the letters agree,
/// else `PRESENT` where the answer holds the letter anywhere, else `ABSENT`.
/// A letter the answer holds once may be marked `PRESENT` more than once.
pub open spec fn feedback_at(answer: Seq<char>, guess: Seq<char>, i: int) -> u8 {
    if guess[i] == answer[i] {
        CORRECT
    } else if answer.contains(guess[i]) {
        PRESENT
    } else {
        ABSENT
    }
}

/// The codes for every position of `guess`.
pub open spec fn feedback_of(answer: Seq<char>, guess: Seq<char>) -> Seq<u8> {
    Seq::new(guess.len(), |i: int| feedback_at(answer, guess, i))
}

/// Scores `guess_word` against `answer`, one code per letter.
pub fn determine_board_results(answer: &String, guess_word: &String) -> (r: Vec<u8>)
    requires
        answer@.len() == WORD_LEN,
        guess_word@.len() == WORD_LEN,
    ensures
        r@ == feedback_of(answer@, guess_word@),
{
    let answer_chars = chars_of(answer);
    let guess_chars = chars_of(guess_word);
    let mut state: Vec<u8> = Vec::new();
    let mut i: usize = 0;
    while i < guess_chars.len()
        invariant
            answer_chars@ == answer@,
            guess_chars@ == guess_word@,
            answer@.len() == guess_word@.len(),
            i <= guess_chars.len(),
            state@ == feedback_of(answer@, guess_word@).subrange(0, i as int),
        decreases guess_chars.len() - i,
    {
        let c = guess_chars[i];
        let code = if c == answer_chars[i] {
            CORRECT
        } else if holds_letter(&answer_chars, c) {
            PRESENT
        } else {
            ABSENT
        };
        state.push(code);
        i = i + 1;
        assert(state@ =~= feedback_of(answer@, guess_word@).subrange(0, i as int));
    }
    assert(state@ =~= feedback_of(answer@, guess_word@));
    state
}

/// A guess equal to the answer is marked correct at every position.
pub proof fn lemma_exact_guess_all_correct(answer: Seq<char>)
    ensures
        forall|i: int| 0 <= i < answer.len() ==> #[trigger] feedback_of(answer, answer)[i] == CORRECT,
{
}

/// A guess that shares no letter with the answer is marked absent at every position.
pub proof fn lemma_disjoint_guess_all_absent(answer: Seq<char>, guess: Seq<char>)
    requires
        answer.len() == guess.len(),
        forall|i: int| 0 <= i < guess.len() ==> !answer.contains(#[trigger] guess[i]),
    ensures
        forall|i: int| 0 <= i < guess.len() ==> #[trigger] feedback_of(answer, guess)[i] == ABSENT,
{
    assert forall|i: int| 0 <= i < guess.len() implies #[trigger] feedback_of(answer, guess)[i] == ABSENT by {
        assert(!answer.contains(guess[i]));
        if guess[i] == answer[i] {
            assert(answer.contains(guess[i]));
        }
    }
}

} // verus!
