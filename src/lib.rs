//! Guess suggestion for a five-letter word game: constraint extraction from
//! the guess history, a positional letter-frequency model, per-position
//! distance rankings, a rotation search over those rankings, a whole-word
//! scorer and the feedback evaluator used for simulated play.
pub mod words;
pub mod game;
pub mod constraints;
pub mod frequency;
pub mod ranking;
pub mod search;
pub mod scorer;
pub mod letters;
pub mod session;

pub use game::determine_board_results;
pub use constraints::{build_include_list, build_omit_list, build_required_list};
pub use frequency::{get_letter_frequencies, FrequencyTable};
pub use ranking::get_distance_list;
pub use search::{next_guess, search_word};
pub use scorer::suggest_word;
pub use letters::suggest_letters;
pub use words::Entry;
pub use session::{is_solved, parse_board_results, past_answers, record_guess, FeedbackError};
