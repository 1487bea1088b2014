//! A verified engine for exhaustively searching deals of a
//! Beggar-My-Neighbour style card game.
//!
//! The deck is a fixed multiset of 52 symbols (36 blanks and four each of
//! Jack, Queen, King, Ace). The library enumerates arrangements of that
//! multiset in lexicographic order, simulates each deal with a deterministic
//! state machine up to a turn cutoff, folds the outcomes into extremal
//! statistics, and converts between decks and their 52-character textual
//! hashes. A checkpoint record allows a caller to resume enumeration where a
//! previous run stopped.

pub mod batch;
pub mod card;
pub mod checkpoint;
pub mod codec;
pub mod stats;
pub mod game;
pub mod permutation;

pub use card::Card;
