use book_catalog::codec::{decode, encode_book, encode_books, Request, WebSocketError};
use book_catalog::Book;

#[test]
fn decode_get_books() {
    let r = decode("{\"action\":\"get_books\"}");
    assert!(matches!(r, Ok(Request::GetAll)));
}

#[test]
fn decode_get_book_with_id() {
    let r = decode("{\"action\":\"get_book\",\"id\":7}");
    match r {
        Ok(Request::GetOne { id }) => assert_eq!(id, 7),
        _ => panic!("expected GetOne"),
    }
}

#[test]
fn decode_add_book() {
    let r = decode(
        "{\"action\":\"add_book\",\"book\":{\"title\":\"Dune\",\"author\":\"Herbert\",\"year\":1965}}",
    );
    match r {
        Ok(Request::Add { book }) => {
            assert_eq!(book.title, "Dune");
            assert_eq!(book.author, "Herbert");
            assert_eq!(book.year, 1965);
        },
        _ => panic!("expected Add"),
    }
}

#[test]
fn decode_update_book() {
    let r = decode(
        "{\"id\":3,\"action\":\"update_book\",\"book\":{\"year\":2001,\"title\":\"T\",\"author\":\"A\"}}",
    );
    match r {
        Ok(Request::Update { id, book }) => {
            assert_eq!(id, 3);
            assert_eq!(book.title, "T");
            assert_eq!(book.author, "A");
            assert_eq!(book.year, 2001);
        },
        _ => panic!("expected Update"),
    }
}

#[test]
fn decode_delete_book() {
    let r = decode("{\"action\":\"delete_book\",\"id\":2}");
    match r {
        Ok(Request::Delete { id }) => assert_eq!(id, 2),
        _ => panic!("expected Delete"),
    }
}

#[test]
fn decode_tolerates_whitespace() {
    let r = decode("  {\n\t\"action\" :\t\"get_book\" ,\r\n \"id\" : 5 }  ");
    match r {
        Ok(Request::GetOne { id }) => assert_eq!(id, 5),
        _ => panic!("expected GetOne"),
    }
}

#[test]
fn decode_missing_id_is_invalid_request() {
    assert_eq!(decode("{\"action\":\"get_book\"}"), Err(WebSocketError::InvalidRequest));
    assert_eq!(decode("{\"action\":\"delete_book\"}"), Err(WebSocketError::InvalidRequest));
}

#[test]
fn decode_missing_book_is_invalid_request() {
    assert_eq!(decode("{\"action\":\"add_book\"}"), Err(WebSocketError::InvalidRequest));
    assert_eq!(
        decode("{\"action\":\"update_book\",\"id\":1}"),
        Err(WebSocketError::InvalidRequest)
    );
    assert_eq!(
        decode(
            "{\"action\":\"update_book\",\"book\":{\"title\":\"T\",\"author\":\"A\",\"year\":1}}"
        ),
        Err(WebSocketError::InvalidRequest)
    );
}

#[test]
fn decode_malformed_text_is_invalid_json() {
    assert_eq!(decode("{not json"), Err(WebSocketError::InvalidJson));
    assert_eq!(decode(""), Err(WebSocketError::InvalidJson));
    assert_eq!(decode("[1,2]"), Err(WebSocketError::InvalidJson));
    assert_eq!(decode("{\"action\":\"get_books\"} trailing"), Err(WebSocketError::InvalidJson));
}

#[test]
fn decode_unknown_action_is_invalid_json() {
    assert_eq!(decode("{\"action\":\"fly\"}"), Err(WebSocketError::InvalidJson));
}

#[test]
fn decode_missing_action_is_invalid_json() {
    assert_eq!(decode("{\"id\":1}"), Err(WebSocketError::InvalidJson));
}

#[test]
fn decode_duplicate_member_is_invalid_json() {
    assert_eq!(
        decode("{\"action\":\"get_books\",\"action\":\"get_books\"}"),
        Err(WebSocketError::InvalidJson)
    );
}

#[test]
fn decode_incomplete_book_is_invalid_json() {
    assert_eq!(
        decode("{\"action\":\"add_book\",\"book\":{\"title\":\"T\",\"author\":\"A\"}}"),
        Err(WebSocketError::InvalidJson)
    );
}

#[test]
fn decode_year_out_of_range_is_invalid_json() {
    assert_eq!(
        decode(
            "{\"action\":\"add_book\",\"book\":{\"title\":\"T\",\"author\":\"A\",\"year\":4294967296}}"
        ),
        Err(WebSocketError::InvalidJson)
    );
}

#[test]
fn decode_resolves_escapes() {
    let r = decode(
        "{\"action\":\"add_book\",\"book\":{\"title\":\"a\\\"b\\\\c\\nd\",\"author\":\"x\\ty\",\"year\":1}}",
    );
    match r {
        Ok(Request::Add { book }) => {
            assert_eq!(book.title, "a\"b\\c\nd");
            assert_eq!(book.author, "x\ty");
        },
        _ => panic!("expected Add"),
    }
}

#[test]
fn encode_book_is_exact() {
    let b = Book {
        id: 1,
        title: "Dune".to_string(),
        author: "Herbert".to_string(),
        year: 1965,
    };
    assert_eq!(
        encode_book(&b),
        "{\"id\":1,\"title\":\"Dune\",\"author\":\"Herbert\",\"year\":1965}"
    );
}

#[test]
fn encode_book_escapes_specials() {
    let b = Book {
        id: 12,
        title: "a\"b\\c".to_string(),
        author: "x\ny".to_string(),
        year: 0,
    };
    assert_eq!(
        encode_book(&b),
        "{\"id\":12,\"title\":\"a\\\"b\\\\c\",\"author\":\"x\\ny\",\"year\":0}"
    );
}

#[test]
fn encode_books_empty_and_many() {
    let none: Vec<Book> = Vec::new();
    assert_eq!(encode_books(&none), "[]");
    let some = vec![
        Book { id: 1, title: "A".to_string(), author: "a".to_string(), year: 1 },
        Book { id: 2, title: "B".to_string(), author: "b".to_string(), year: 2 },
    ];
    assert_eq!(
        encode_books(&some),
        "[{\"id\":1,\"title\":\"A\",\"author\":\"a\",\"year\":1},{\"id\":2,\"title\":\"B\",\"author\":\"b\",\"year\":2}]"
    );
}

#[test]
fn error_messages_are_exact() {
    assert_eq!(WebSocketError::InvalidRequest.message(), "Invalid request");
    assert_eq!(WebSocketError::BookNotFound.message(), "Book not found");
    assert_eq!(WebSocketError::InvalidJson.message(), "Invalid JSON request");
}

#[test]
fn decode_year_at_upper_bound_is_accepted() {
    let r = decode(
        "{\"action\":\"add_book\",\"book\":{\"title\":\"T\",\"author\":\"A\",\"year\":4294967295}}",
    );
    match r {
        Ok(Request::Add { book }) => assert_eq!(book.year, u32::MAX),
        _ => panic!("expected Add"),
    }
}

#[test]
fn decode_resolves_rarer_escapes() {
    let r = decode(
        "{\"action\":\"add_book\",\"book\":{\"title\":\"a\\/b\",\"author\":\"\\b\\f\\r\",\"year\":1}}",
    );
    match r {
        Ok(Request::Add { book }) => {
            assert_eq!(book.title, "a/b");
            assert_eq!(book.author, "\u{0008}\u{000C}\r");
        },
        _ => panic!("expected Add"),
    }
}

#[test]
fn decode_unknown_escape_is_invalid_json() {
    assert_eq!(
        decode("{\"action\":\"add_book\",\"book\":{\"title\":\"a\\qb\",\"author\":\"A\",\"year\":1}}"),
        Err(WebSocketError::InvalidJson)
    );
}

#[test]
fn decode_unterminated_string_is_invalid_json() {
    assert_eq!(decode("{\"action\":\"get_books"), Err(WebSocketError::InvalidJson));
}
