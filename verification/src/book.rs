//! Catalog records and their mathematical images.

use vstd::prelude::*;

verus! {

/// One catalog record, as stored and as echoed back to clients.
#[derive(Debug, PartialEq, Eq)]
pub struct Book {
    pub id: usize,
    pub title: String,
    pub author: String,
    pub year: u32,
}

/// The fields a client supplies when adding or updating a record;
/// the id is never client-supplied.
#[derive(Debug, PartialEq, Eq)]
pub struct BookFields {
    pub title: String,
    pub author: String,
    pub year: u32,
}

/// Mathematical image of a stored record.
pub struct BookView {
    pub id: int,
    pub title: Seq<char>,
    pub author: Seq<char>,
    pub year: int,
}

/// Mathematical image of client-supplied fields.
pub struct BookFieldsView {
    pub title: Seq<char>,
    pub author: Seq<char>,
    pub year: int,
}

impl View for Book {
    type V = BookView;

    open spec fn view(&self) -> BookView {
        BookView {
            id: self.id as int,
            title: self.title@,
            author: self.author@,
            year: self.year as int,
        }
    }
}

impl View for BookFields {
    type V = BookFieldsView;

    open spec fn view(&self) -> BookFieldsView {
        BookFieldsView { title: self.title@, author: self.author@, year: self.year as int }
    }
}

impl BookFieldsView {
    /// The record these fields become once the store assigns `id`.
    pub open spec fn with_id(self, id: int) -> BookView {
        BookView { id, title: self.title, author: self.author, year: self.year }
    }
}

impl Clone for Book {
    fn clone(&self) -> (r: Book)
        ensures
            r == *self,
    {
        Book {
            id: self.id,
            title: self.title.clone(),
            author: self.author.clone(),
            year: self.year,
        }
    }
}

impl Clone for BookFields {
    fn clone(&self) -> (r: BookFields)
        ensures
            r == *self,
    {
        BookFields { title: self.title.clone(), author: self.author.clone(), year: self.year }
    }
}

} // verus!
