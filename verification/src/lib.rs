//! Parsing of separator-delimited numeric pairs.
//!
//! `pair::parse_pair` splits a string at the first occurrence of a separator
//! character and parses both halves with a caller-chosen [`pair::ParseFromStr`]
//! type; `decimal` provides the verified `i32` instance.

pub mod decimal;
pub mod pair;
