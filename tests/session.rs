use wordlehelper::{is_solved, parse_board_results, past_answers, record_guess, Entry, FeedbackError};

fn s(w: &str) -> String {
    w.to_string()
}

#[test]
fn feedback_line_parses() {
    assert_eq!(parse_board_results(&s("01202\n")), Ok(vec![0, 1, 2, 0, 2]));
    assert_eq!(parse_board_results(&s("22222")), Ok(vec![2, 2, 2, 2, 2]));
}

#[test]
fn feedback_line_of_wrong_length() {
    assert_eq!(parse_board_results(&s("0120\n")), Err(FeedbackError::WrongLength));
    assert_eq!(parse_board_results(&s("012020")), Err(FeedbackError::WrongLength));
    assert_eq!(parse_board_results(&s("")), Err(FeedbackError::WrongLength));
}

#[test]
fn feedback_line_with_bad_character() {
    assert_eq!(parse_board_results(&s("01a02\n")), Err(FeedbackError::BadCode('a')));
    assert_eq!(parse_board_results(&s("01392")), Err(FeedbackError::BadCode('3')));
}

#[test]
fn solved_only_when_all_correct() {
    assert!(is_solved(&vec![2, 2, 2, 2, 2]));
    assert!(!is_solved(&vec![2, 2, 1, 2, 2]));
    assert!(!is_solved(&vec![2, 2, 2, 2]));
}

#[test]
fn recording_appends_new_guesses() {
    let mut board: Vec<Entry> = Vec::new();
    record_guess(&mut board, s("crane"), vec![0, 2, 2, 1, 2]);
    record_guess(&mut board, s("trace"), vec![1, 2, 2, 1, 2]);
    assert_eq!(board, vec![(s("crane"), vec![0, 2, 2, 1, 2]), (s("trace"), vec![1, 2, 2, 1, 2])]);
}

#[test]
fn recording_same_guess_replaces_entry() {
    let mut board: Vec<Entry> = Vec::new();
    record_guess(&mut board, s("crane"), vec![0, 0, 0, 0, 0]);
    record_guess(&mut board, s("trace"), vec![1, 2, 2, 1, 2]);
    record_guess(&mut board, s("crane"), vec![2, 2, 2, 2, 2]);
    assert_eq!(board, vec![(s("crane"), vec![2, 2, 2, 2, 2]), (s("trace"), vec![1, 2, 2, 1, 2])]);
}

#[test]
fn past_answers_leave_out_the_day_itself() {
    let answers = vec![s("cigar"), s("rebut"), s("sissy"), s("humph")];
    assert_eq!(past_answers(&answers, 2), vec![s("cigar"), s("rebut")]);
    assert!(past_answers(&answers, 0).is_empty());
    assert_eq!(past_answers(&answers, 9), answers);
}
