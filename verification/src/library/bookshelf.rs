//! A bookshelf: books kept in the order they were added, searched by
//! title in three ways (fuzzy, exact, and by part of the title).

use vstd::prelude::*;
use fuzzy_matcher::skim::SkimMatcherV2;
use fuzzy_matcher::FuzzyMatcher;
use super::book::Book;

verus! {

/// The score that the skim fuzzy matcher in its default configuration
/// gives `choice` for `pattern` (`None` when the pattern does not
/// match).
pub uninterp spec fn skim_score(choice: Seq<char>, pattern: Seq<char>) -> Option<i64>;

/// Calls `FuzzyMatcher::fuzzy_match` of a default `SkimMatcherV2` on
/// `choice` and `pattern`. Trusted: the result is `skim_score` of the
/// two texts, and an empty pattern scores `Some(0)`. A default matcher
/// holds no state that the score depends on (only scratch caches), so
/// building it per call gives the same scores as keeping one.
#[verifier::external_body]
fn skim_fuzzy_match(choice: &str, pattern: &str) -> (score: Option<i64>)
    ensures
        score == skim_score(choice@, pattern@),
        pattern@.len() == 0 ==> score == Some(0i64),
{
    SkimMatcherV2::default().fuzzy_match(choice, pattern)
}

/// Compares two texts with `str`'s `==`. Trusted: the result tells
/// whether the two hold the same characters.
#[verifier::external_body]
fn str_equal(a: &str, b: &str) -> (same: bool)
    ensures
        same == (a@ == b@),
{
    a == b
}

/// `needle` occurs in `haystack` as a run of consecutive characters.
pub open spec fn contains_text(haystack: Seq<char>, needle: Seq<char>) -> bool {
    exists|i: int|
        0 <= i && i + needle.len() <= haystack.len() && #[trigger] haystack.subrange(
            i,
            i + needle.len(),
        ) == needle
}

/// Calls `str::contains` with a `&str` pattern. Trusted: the result
/// tells whether `needle` occurs in `haystack`.
#[verifier::external_body]
fn str_contains(haystack: &str, needle: &str) -> (found: bool)
    ensures
        found == contains_text(haystack@, needle@),
{
    haystack.contains(needle)
}

/// A fuzzy-match score counts as a hit when there is one and it is
/// positive.
pub open spec fn score_is_hit(score: Option<i64>) -> bool {
    match score {
        Some(s) => s > 0,
        None => false,
    }
}

/// Tells whether a fuzzy-match score counts as a hit: a score that
/// exists and is positive.
pub fn is_fuzzy_hit(score: Option<i64>) -> (hit: bool)
    ensures
        hit == score_is_hit(score),
{
    match score {
        Some(s) => s > 0,
        None => false,
    }
}

/// The books found by a fuzzy search for `query`.
pub open spec fn fuzzy_found(query: Seq<char>) -> spec_fn(Book) -> bool {
    |b: Book| score_is_hit(skim_score(b.title@, query))
}

/// The books whose title is exactly `query`.
pub open spec fn exact_found(query: Seq<char>) -> spec_fn(Book) -> bool {
    |b: Book| b.title@ == query
}

/// The books whose title contains `query`.
pub open spec fn partial_found(query: Seq<char>) -> spec_fn(Book) -> bool {
    |b: Book| contains_text(b.title@, query)
}

/// The books that a search returned, as values.
pub open spec fn found_books(found: Seq<&Book>) -> Seq<Book> {
    found.map_values(|b: &Book| *b)
}

/// A bookshelf: the books in the order they were added.
pub struct Bookshelf {
    books: Vec<Book>,
}

impl Default for Bookshelf {
    /// An empty bookshelf.
    fn default() -> (shelf: Self)
        ensures
            shelf.books() == Seq::<Book>::empty(),
    {
        Self::new()
    }
}

impl Bookshelf {
    /// The books on the shelf, in the order they were added.
    pub closed spec fn books(&self) -> Seq<Book> {
        self.books@
    }

    /// An empty bookshelf.
    pub fn new() -> (shelf: Self)
        ensures
            shelf.books() == Seq::<Book>::empty(),
    {
        Self { books: Vec::new() }
    }

    /// Puts `book` on the shelf after the books already there.
    pub fn add_book(&mut self, book: Book)
        ensures
            final(self).books() == old(self).books().push(book),
    {
        self.books.push(book);
    }

    /// The books, in shelf order, whose title the fuzzy matcher scores
    /// positively for `title_query`.
    pub fn search_books(&self, title_query: &str) -> (found: Vec<&Book>)
        ensures
            found_books(found@) == self.books().filter(fuzzy_found(title_query@)),
            title_query@.len() == 0 ==> found@.len() == 0,
    {
        let mut found: Vec<&Book> = Vec::new();
        let n = self.books.len();
        for i in 0..n
            invariant
                n == self.books@.len(),
                found_books(found@) == self.books@.take(i as int).filter(fuzzy_found(title_query@)),
                title_query@.len() == 0 ==> found@.len() == 0,
        {
            let book = &self.books[i];
            let score = skim_fuzzy_match(book.title.as_str(), title_query);
            proof {
                self.books@.take(i as int).lemma_filter_push(self.books@[i as int], fuzzy_found(title_query@));
                assert(self.books@.take(i + 1) == self.books@.take(i as int).push(self.books@[i as int]));
            }
            if is_fuzzy_hit(score) {
                found.push(book);
                assert(found_books(found@) =~= found_books(found@.drop_last()).push(*book));
            }
        }
        assert(self.books@.take(n as int) == self.books@);
        found
    }

    /// The books, in shelf order, whose title is exactly `title_query`.
    pub fn search_books_exact(&self, title_query: &str) -> (found: Vec<&Book>)
        ensures
            found_books(found@) == self.books().filter(exact_found(title_query@)),
    {
        let mut found: Vec<&Book> = Vec::new();
        let n = self.books.len();
        for i in 0..n
            invariant
                n == self.books@.len(),
                found_books(found@) == self.books@.take(i as int).filter(exact_found(title_query@)),
        {
            let book = &self.books[i];
            proof {
                self.books@.take(i as int).lemma_filter_push(self.books@[i as int], exact_found(title_query@));
                assert(self.books@.take(i + 1) == self.books@.take(i as int).push(self.books@[i as int]));
            }
            if str_equal(book.title.as_str(), title_query) {
                found.push(book);
                assert(found_books(found@) =~= found_books(found@.drop_last()).push(*book));
            }
        }
        assert(self.books@.take(n as int) == self.books@);
        found
    }

    /// The books, in shelf order, whose title contains `title_query`.
    pub fn search_books_partial(&self, title_query: &str) -> (found: Vec<&Book>)
        ensures
            found_books(found@) == self.books().filter(partial_found(title_query@)),
    {
        let mut found: Vec<&Book> = Vec::new();
        let n = self.books.len();
        for i in 0..n
            invariant
                n == self.books@.len(),
                found_books(found@) == self.books@.take(i as int).filter(partial_found(title_query@)),
        {
            let book = &self.books[i];
            proof {
                self.books@.take(i as int).lemma_filter_push(self.books@[i as int], partial_found(title_query@));
                assert(self.books@.take(i + 1) == self.books@.take(i as int).push(self.books@[i as int]));
            }
            if str_contains(book.title.as_str(), title_query) {
                found.push(book);
                assert(found_books(found@) =~= found_books(found@.drop_last()).push(*book));
            }
        }
        assert(self.books@.take(n as int) == self.books@);
        found
    }
}

/// Law: every book that the exact search finds, the search by part of
/// the title finds too.
pub proof fn law_exact_within_partial(books: Seq<Book>, query: Seq<char>, b: Book)
    requires
        books.filter(exact_found(query)).contains(b),
    ensures
        books.filter(partial_found(query)).contains(b),
{
    books.lemma_filter_contains_rev(exact_found(query), b);
    let f = books.filter(exact_found(query));
    let k = choose|k: int| 0 <= k < f.len() && f[k] == b;
    books.lemma_filter_pred(exact_found(query), k);
    assert(b.title@ == query);
    assert(b.title@.subrange(0int, 0int + query.len()) =~= query);
    assert(partial_found(query)(b));
    let i = choose|i: int| 0 <= i < books.len() && books[i] == b;
    books.lemma_filter_contains(partial_found(query), i);
}

/// Law: the search by part of the title finds every book for an empty
/// query.
pub proof fn law_partial_empty_query(books: Seq<Book>)
    ensures
        books.filter(partial_found(Seq::<char>::empty())) == books,
    decreases books.len(),
{
    let query = Seq::<char>::empty();
    if books.len() > 0 {
        law_partial_empty_query(books.drop_last());
        let b = books.last();
        assert(b.title@.subrange(0int, 0int + query.len()) =~= query);
        assert(partial_found(query)(b));
        assert(books.drop_last().push(b) =~= books);
        books.drop_last().lemma_filter_push(b, partial_found(query));
    } else {
        assert(books =~= Seq::<Book>::empty());
    }
}

/// Law: after a book is added, each search finds what it found before,
/// followed by the new book if the new book matches.
pub proof fn law_search_after_add(books: Seq<Book>, b: Book, matches: spec_fn(Book) -> bool)
    ensures
        books.push(b).filter(matches) == if matches(b) {
            books.filter(matches).push(b)
        } else {
            books.filter(matches)
        },
{
    books.lemma_filter_push(b, matches);
}

} // verus!
