//! Action dispatch: one decoded request against the shared catalog gives
//! one reply, and the whole per-message step (decode, dispatch, encode)
//! has a single contract.

use vstd::prelude::*;
use vstd::string::StringExecFns;

use crate::book::BookFields;
use crate::book::BookView;
use crate::codec::{
    book_json, books_json, decode, error_text, spec_decode, Request, RequestView, WebSocketError,
    encode_book, encode_books,
};
use crate::store::{has_id, index_of_id, next_id, Store};

verus! {

/// The catalog after one request has acted on it.
pub open spec fn store_after(s: Seq<BookView>, req: RequestView) -> Seq<BookView> {
    match req {
        RequestView::GetAll => s,
        RequestView::GetOne { .. } => s,
        RequestView::Add { book } => s.push(book.with_id(next_id(s))),
        RequestView::Update { id, book } => if has_id(s, id) {
            s.update(index_of_id(s, id), book.with_id(id))
        } else {
            s
        },
        RequestView::Delete { id } => if has_id(s, id) {
            s.remove(index_of_id(s, id))
        } else {
            s
        },
    }
}

/// The reply sent for one request against the catalog `s`.
pub open spec fn reply_text(s: Seq<BookView>, req: RequestView) -> Seq<char> {
    match req {
        RequestView::GetAll => books_json(s),
        RequestView::GetOne { id } => if has_id(s, id) {
            book_json(s[index_of_id(s, id)])
        } else {
            error_text(WebSocketError::BookNotFound)
        },
        RequestView::Add { .. } => "Book added"@,
        RequestView::Update { id, .. } => if has_id(s, id) {
            "Book updated"@
        } else {
            error_text(WebSocketError::BookNotFound)
        },
        RequestView::Delete { id } => if has_id(s, id) {
            "Book deleted"@
        } else {
            error_text(WebSocketError::BookNotFound)
        },
    }
}

/// Whether a request misses: it names an id with no live item.
pub open spec fn request_misses(s: Seq<BookView>, req: RequestView) -> bool {
    match req {
        RequestView::GetOne { id } => !has_id(s, id),
        RequestView::Update { id, .. } => !has_id(s, id),
        RequestView::Delete { id } => !has_id(s, id),
        _ => false,
    }
}

/// The catalog after one inbound text has been handled: an undecodable
/// text leaves it untouched.
pub open spec fn session_store(s: Seq<BookView>, t: Seq<char>) -> Seq<BookView> {
    match spec_decode(t) {
        Ok(q) => store_after(s, q),
        Err(_) => s,
    }
}

/// The reply to one inbound text.
pub open spec fn session_reply(s: Seq<BookView>, t: Seq<char>) -> Seq<char> {
    match spec_decode(t) {
        Ok(q) => reply_text(s, q),
        Err(e) => error_text(e),
    }
}

/// One per client connection: drives each inbound text through decode,
/// dispatch and encode. It holds no per-client state of its own; the
/// embedding program owns the one shared catalog and hands it in under
/// its exclusive guard, so every message is handled independently.
pub struct WebSocketSession;

impl WebSocketSession {
    /// Serves a list request: the JSON of every live item. Never fails.
    pub fn handle_get_books(&self, books: &Store) -> (r: Result<String, WebSocketError>)
        ensures
            r matches Ok(t) && t@ == books_json(books@),
    {
        let v = books.list();
        Ok(encode_books(&v))
    }

    /// Serves a single-item request: the item's JSON, or `BookNotFound`
    /// exactly when no item carries the id.
    pub fn handle_get_book(&self, books: &Store, id: usize) -> (r: Result<String, WebSocketError>)
        requires
            books.wf(),
        ensures
            match r {
                Ok(t) => has_id(books@, id as int) && t@ == book_json(
                    books@[index_of_id(books@, id as int)],
                ),
                Err(e) => !has_id(books@, id as int) && e == WebSocketError::BookNotFound,
            },
    {
        match books.get(id) {
            Some(b) => Ok(encode_book(&b)),
            None => Err(WebSocketError::BookNotFound),
        }
    }

    /// Serves an add request: stores the fields under the next id and
    /// acknowledges. Never fails.
    pub fn handle_add_book(&self, books: &mut Store, book: BookFields) -> (r: Result<
        String,
        WebSocketError,
    >)
        requires
            old(books).wf(),
            next_id(old(books)@) <= usize::MAX,
        ensures
            final(books).wf(),
            final(books)@ == old(books)@.push(book@.with_id(next_id(old(books)@))),
            r matches Ok(t) && t@ == "Book added"@,
    {
        let _stored = books.insert(book);
        Ok(String::from_str("Book added"))
    }

    /// Serves an update request: replaces the item's fields in place, or
    /// answers `BookNotFound` exactly when no item carries the id.
    pub fn handle_update_book(&self, books: &mut Store, id: usize, book: BookFields) -> (r: Result<
        String,
        WebSocketError,
    >)
        requires
            old(books).wf(),
        ensures
            final(books).wf(),
            match r {
                Ok(t) => {
                    &&& has_id(old(books)@, id as int)
                    &&& final(books)@ == old(books)@.update(
                        index_of_id(old(books)@, id as int),
                        book@.with_id(id as int),
                    )
                    &&& t@ == "Book updated"@
                },
                Err(e) => {
                    &&& !has_id(old(books)@, id as int)
                    &&& e == WebSocketError::BookNotFound
                    &&& final(books)@ == old(books)@
                },
            },
    {
        match books.update(id, book) {
            Some(_b) => Ok(String::from_str("Book updated")),
            None => Err(WebSocketError::BookNotFound),
        }
    }

    /// Serves a delete request: removes the item, or answers
    /// `BookNotFound` exactly when no item carries the id.
    pub fn handle_delete_book(&self, books: &mut Store, id: usize) -> (r: Result<
        String,
        WebSocketError,
    >)
        requires
            old(books).wf(),
        ensures
            final(books).wf(),
            match r {
                Ok(t) => {
                    &&& has_id(old(books)@, id as int)
                    &&& final(books)@ == old(books)@.remove(index_of_id(old(books)@, id as int))
                    &&& t@ == "Book deleted"@
                },
                Err(e) => {
                    &&& !has_id(old(books)@, id as int)
                    &&& e == WebSocketError::BookNotFound
                    &&& final(books)@ == old(books)@
                },
            },
    {
        if books.delete(id) {
            Ok(String::from_str("Book deleted"))
        } else {
            Err(WebSocketError::BookNotFound)
        }
    }

    /// Executes exactly one decoded request against the catalog. The only
    /// error is `BookNotFound`, exactly when the request names an id with
    /// no live item; the reply text is fixed by the request and the
    /// catalog either way.
    pub fn handle_request(&self, books: &mut Store, req: Request) -> (r: Result<
        String,
        WebSocketError,
    >)
        requires
            old(books).wf(),
            req@ is Add ==> next_id(old(books)@) <= usize::MAX,
        ensures
            final(books).wf(),
            final(books)@ == store_after(old(books)@, req@),
            match r {
                Ok(t) => !request_misses(old(books)@, req@) && t@ == reply_text(old(books)@, req@),
                Err(e) => request_misses(old(books)@, req@) && e == WebSocketError::BookNotFound
                    && error_text(e) == reply_text(old(books)@, req@),
            },
    {
        match req {
            Request::GetAll => self.handle_get_books(books),
            Request::GetOne { id } => self.handle_get_book(books, id),
            Request::Add { book } => self.handle_add_book(books, book),
            Request::Update { id, book } => self.handle_update_book(books, id, book),
            Request::Delete { id } => self.handle_delete_book(books, id),
        }
    }

    /// Handles one inbound text end to end: decode, dispatch, encode. An
    /// undecodable or incomplete message leaves the catalog untouched and
    /// yields the error's text; otherwise the catalog moves to
    /// `store_after` and the reply is `reply_text`.
    pub fn handle_text_message(&self, books: &mut Store, text: &str) -> (r: String)
        requires
            old(books).wf(),
            (spec_decode(text@) matches Ok(q) && q is Add) ==> next_id(old(books)@)
                <= usize::MAX,
        ensures
            final(books).wf(),
            final(books)@ == session_store(old(books)@, text@),
            r@ == session_reply(old(books)@, text@),
    {
        match decode(text) {
            Err(e) => String::from_str(e.message()),
            Ok(req) => match self.handle_request(books, req) {
                Ok(t) => t,
                Err(e) => String::from_str(e.message()),
            },
        }
    }
}

} // verus!
