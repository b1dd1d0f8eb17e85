//! Counting the phrases of a dictionary that have a given number of words
//! and a given number of letters.
pub mod phrase;
pub mod search;
pub mod input;
