//! Letter-guessing strategies for a hangman-style game, measured against a
//! dictionary.
//!
//! A [`WordList`] stores the dictionary compactly, one flat buffer per word
//! length. An [`Executioner`] holds a secret word and answers where a guessed
//! letter occurs. A [`Strategy`] guesses letters until it is done, and the
//! executioner counts the guesses that revealed nothing.

pub mod epic_strategy;
pub mod executioner;
pub mod letters;
pub mod random;
pub mod random_strategy;
pub mod simple_strategy;
pub mod strategy;
pub mod word_list;

pub use epic_strategy::EpicStrategy;
pub use executioner::{follows, guesses_since, Executioner, HonestExecutioner};
pub use letters::{
    alphabet, covered, distinct_letters, is_letter, is_word, positions, revealed,
    stops_when_revealed, wrong,
};
pub use random_strategy::RandomStrategy;
pub use simple_strategy::{SimpleStrategy, OPTIMAL_ORDER};
pub use strategy::{may_score, score_words, Strategy};
pub use word_list::{Word, WordList, MAX_WORD_LEN};
