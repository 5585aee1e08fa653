//! Decision support for the five-letter word game: the feedback a guess
//! receives from a hidden word, the grouping of a candidate list by that
//! feedback, and a guesser that filters and ranks its remaining candidates.

pub mod feedback;
pub mod groups;
pub mod guesser;
pub mod loader;
pub mod rank;
pub mod word;

pub use feedback::{FeedbackError, GuessBlock, GuessResult};
pub use guesser::{GuesserError, Observation, WordleGuesser};
pub use loader::{load_wordlist_from_json, words_from_strings, LoadError};
pub use rank::top_by_score;
pub use word::{WordError, WordleWord};
