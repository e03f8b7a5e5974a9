//! A book: its title and its author.

use vstd::prelude::*;

verus! {

/// A book with its title and author.
#[derive(Debug)]
pub struct Book {
    pub title: String,
    pub author: String,
}

impl Book {
    /// Makes a book with the given title and author.
    pub fn new(title: &str, author: &str) -> (book: Self)
        ensures
            book.title@ == title@,
            book.author@ == author@,
    {
        broadcast use vstd::string::group_string_axioms;

        Self { title: title.to_string(), author: author.to_string() }
    }
}

} // verus!
