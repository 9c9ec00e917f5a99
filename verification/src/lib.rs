//! An in-memory book catalog behind a text-message protocol.
//!
//! The catalog maps numeric ids to records; clients drive it with JSON
//! requests ("get_books", "get_book", "add_book", "update_book",
//! "delete_book") and receive either a JSON payload or a plain status or
//! error string. The store, the wire codec and the dispatcher are all
//! verified; the network shell around them is not part of this crate.

pub mod book;
pub mod codec;
pub mod dispatch;
pub mod store;

pub use book::{Book, BookFields, BookFieldsView, BookView};
pub use codec::{Request, WebSocketError};
pub use dispatch::WebSocketSession;
pub use store::Store;
