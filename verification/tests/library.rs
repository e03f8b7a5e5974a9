use rust_insight::library::book::Book;
use rust_insight::library::bookshelf::{is_fuzzy_hit, Bookshelf};

#[test]
fn test_bookshelf() {
    let mut shelf = Bookshelf::new();
    let book1 = Book::new("ChatGPT! AI로 배우는 Rust!", "홍길동");
    let book2 = Book::new("Python 프로그래밍 입문", "최영희");
    shelf.add_book(book1);
    shelf.add_book(book2);
    let found_books = shelf.search_books("chatgpt");
    println!("{:?}", found_books);
}

fn sample_shelf() -> Bookshelf {
    let mut shelf = Bookshelf::default();
    shelf.add_book(Book::new("ChatGPT! AI로 배우는 Rust!", "홍길동"));
    shelf.add_book(Book::new("Python 프로그래밍 입문", "최영희"));
    shelf.add_book(Book::new("Rust", "Ferris"));
    shelf
}

#[test]
fn book_new_keeps_title_and_author() {
    let book = Book::new("Rust", "Ferris");
    assert_eq!(book.title, "Rust");
    assert_eq!(book.author, "Ferris");
}

#[test]
fn fuzzy_search_finds_matching_title() {
    let shelf = sample_shelf();
    let found = shelf.search_books("chatgpt");
    assert_eq!(found.len(), 1);
    assert_eq!(found[0].author, "홍길동");
}

#[test]
fn fuzzy_search_with_empty_query_finds_nothing() {
    let shelf = sample_shelf();
    assert!(shelf.search_books("").is_empty());
}

#[test]
fn exact_search_needs_whole_title() {
    let shelf = sample_shelf();
    let found = shelf.search_books_exact("Rust");
    assert_eq!(found.len(), 1);
    assert_eq!(found[0].author, "Ferris");
    assert!(shelf.search_books_exact("rust").is_empty());
}

#[test]
fn partial_search_finds_every_title_containing_query() {
    let shelf = sample_shelf();
    let found = shelf.search_books_partial("Rust");
    let authors: Vec<&str> = found.iter().map(|b| b.author.as_str()).collect();
    assert_eq!(authors, vec!["홍길동", "Ferris"]);
    assert_eq!(shelf.search_books_partial("").len(), 3);
    assert!(shelf.search_books_partial("Java").is_empty());
}

#[test]
fn fuzzy_hit_needs_positive_score() {
    assert!(is_fuzzy_hit(Some(1)));
    assert!(!is_fuzzy_hit(Some(0)));
    assert!(!is_fuzzy_hit(Some(-4)));
    assert!(!is_fuzzy_hit(None));
}

#[test]
fn empty_shelf_finds_nothing() {
    let shelf = Bookshelf::new();
    assert!(shelf.search_books("a").is_empty());
    assert!(shelf.search_books_exact("a").is_empty());
    assert!(shelf.search_books_partial("").is_empty());
}
