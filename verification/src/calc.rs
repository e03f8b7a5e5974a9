//! The text side of a family of line calculators: splitting a line into
//! words, reading operators and memory commands, and parsing
//! expressions with precedence and parentheses into a tree. Numbers are
//! kept as their text; reading and combining their values is left to
//! the caller.

pub mod text;
pub mod token;
pub mod parser;
pub mod line;
