//! A word-transition ("Markov chain") sentence library.
//!
//! The library builds a transition model from a text corpus: for every word
//! (a whitespace-delimited token, trailing punctuation included) it records
//! which words were seen immediately after it, and how often the word stood
//! at the start, in the middle, or at the end of a sentence.  From a built
//! model it generates random sentences: a random starter word followed by
//! random recorded successors until a dead end (or a caller-given bound) is
//! reached.

pub mod lex;
pub mod tokenize;
pub mod model;
pub mod indexer;
pub mod generator;
