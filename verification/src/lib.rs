//! Small verified algorithms and data structures: merging sorted
//! sequences, bracket matching, a bookshelf with title search, a
//! schedule calendar, an arithmetic-expression parser and more.

pub mod merge;
pub mod parenthesis;
pub mod calendar;
pub mod library;
pub mod calc;
pub mod poker;
pub mod ledger;
pub mod todo;
pub mod quiz;
