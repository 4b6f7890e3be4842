//! Guess evaluation for a five-letter word-deduction game.
//!
//! A guess is compared with a target word letter by letter, and the outcome
//! is packed into one small number, the feedback score. This crate computes
//! such scores, writes and reads them as text, estimates how well a guess
//! splits a list of still-possible targets, and ranks guesses by that.
//!
//! * [`codec`] writes a feedback score as five characters and reads it back.
//! * [`scorer`] scores a guess against a target.
//! * [`counting`] tells the digits of a score by counting letters.
//! * [`estimator`] counts the targets of each score and sums the counts up.
//! * [`ranker`] compares two guesses by what was estimated of them.
//! * [`sorting`] sorts guesses into the order of suggestion.
//! * [`suggest`] ranks a list of guesses and lays out the printed list.
//! * [`game`] narrows the targets down by a score that came back.
//! * [`word_order`] proves that a list of guesses has one ranking.
//! * [`word_lists`] orders words by how common they are.
//! * [`permutation`] holds what is proved of lists in another order.
//!
//! Every function is verified with Verus against the contract it states,
//! but for the two that hand a list to a sorting routine from outside:
//! their contracts say what that routine is documented to do.

pub mod codec;
pub mod counting;
pub mod estimator;
pub mod game;
pub mod permutation;
pub mod ranker;
pub mod scorer;
pub mod sorting;
pub mod suggest;
pub mod word_lists;
pub mod word_order;

pub use codec::{format_score, parse_score, WordScore, NUM_SCORES, WINNING_SCORE, WORD_LENGTH};
pub use estimator::{estimate_guess_quality, GuessQuality};
pub use ranker::{compare_quality, Rank};
pub use scorer::{score_word_pair, score_word_pair_simple};
pub use sorting::rank_qualities;
pub use suggest::generate_suggestions;
