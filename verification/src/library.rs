//! Books and a bookshelf that finds books by their titles.

pub mod book;
pub mod bookshelf;
