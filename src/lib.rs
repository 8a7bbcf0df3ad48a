//! A solver's engine for the five-letter word-guessing game: the knowledge
//! gathered from feedback, the filter that keeps the words still possible,
//! the enumeration of the feedback a guess can still receive, and two ways of
//! choosing the next guess.
use vstd::prelude::*;

pub mod expected;
pub mod filter;
pub mod frequency;
pub mod laws;
pub mod letters;
pub mod patterns;
pub mod state;

pub use expected::{choose_guess, expected_remaining, pick_by_expected_remaining};
pub use filter::{filter_candidates, filter_wordlist, word_fits, word_has_letter};
pub use frequency::{alphabet_letters, FrequencyRanker};
pub use letters::LetterSet;
pub use patterns::{get_all_possiblities, options_at};
pub use state::{
    lower_letter, parse_feedback, parse_word, symbol_from_char, ConstraintState, FeedbackSymbol,
    SolverError, Word,
};
