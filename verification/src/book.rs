//! Book Module
//!
//! This module contains the definition for the Book type and
//! associated functionality.

use vstd::prelude::*;

verus! {

/// Mathematical model of a book.
pub struct BookView {
    pub title: Seq<char>,
    pub page: int,
}

/// A Library Book
#[derive(Debug)]
pub struct Book {
    /// The title of the book
    title: String,

    /// The page this book is open at
    page: i32,
}

impl View for Book {
    type V = BookView;

    closed spec fn view(&self) -> BookView {
        BookView { title: self.title@, page: self.page as int }
    }
}

impl Book {
    /// Create a New Book
    pub fn new(title: &str) -> (book: Book)
        ensures
            book@.title == title@,
            book@.page == 1,
    {
        Book { title: title.to_owned(), page: 1 }
    }
}

} // verus!
