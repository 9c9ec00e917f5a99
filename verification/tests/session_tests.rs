use book_catalog::{Store, WebSocketSession};

#[test]
fn get_all_on_empty_store_gives_empty_array() {
    let session = WebSocketSession;
    let mut store = Store::new();
    assert_eq!(session.handle_text_message(&mut store, "{\"action\":\"get_books\"}"), "[]");
}

#[test]
fn add_then_get_all_shows_the_book() {
    let session = WebSocketSession;
    let mut store = Store::new();
    let reply = session.handle_text_message(&mut store, 
        "{\"action\":\"add_book\",\"book\":{\"title\":\"Dune\",\"author\":\"Herbert\",\"year\":1965}}",
    );
    assert_eq!(reply, "Book added");
    assert_eq!(
        session.handle_text_message(&mut store, "{\"action\":\"get_books\"}"),
        "[{\"id\":1,\"title\":\"Dune\",\"author\":\"Herbert\",\"year\":1965}]"
    );
}

#[test]
fn get_one_on_empty_store_is_not_found() {
    let session = WebSocketSession;
    let mut store = Store::new();
    assert_eq!(
        session.handle_text_message(&mut store, "{\"action\":\"get_book\",\"id\":99}"),
        "Book not found"
    );
}

#[test]
fn malformed_text_is_invalid_json_request() {
    let session = WebSocketSession;
    let mut store = Store::new();
    assert_eq!(session.handle_text_message(&mut store, "{not json"), "Invalid JSON request");
}

#[test]
fn update_of_missing_id_is_not_found_and_store_unchanged() {
    let session = WebSocketSession;
    let mut store = Store::new();
    let reply = session.handle_text_message(&mut store, 
        "{\"action\":\"update_book\",\"id\":1,\"book\":{\"title\":\"T\",\"author\":\"A\",\"year\":1}}",
    );
    assert_eq!(reply, "Book not found");
    assert_eq!(session.handle_text_message(&mut store, "{\"action\":\"get_books\"}"), "[]");
}

#[test]
fn add_delete_add_reuses_the_freed_id() {
    let session = WebSocketSession;
    let mut store = Store::new();
    session.handle_text_message(&mut store, 
        "{\"action\":\"add_book\",\"book\":{\"title\":\"First\",\"author\":\"A\",\"year\":1}}",
    );
    assert_eq!(
        session.handle_text_message(&mut store, "{\"action\":\"delete_book\",\"id\":1}"),
        "Book deleted"
    );
    session.handle_text_message(&mut store, 
        "{\"action\":\"add_book\",\"book\":{\"title\":\"Second\",\"author\":\"B\",\"year\":2}}",
    );
    assert_eq!(
        session.handle_text_message(&mut store, "{\"action\":\"get_book\",\"id\":1}"),
        "{\"id\":1,\"title\":\"Second\",\"author\":\"B\",\"year\":2}"
    );
}

#[test]
fn missing_required_field_is_invalid_request() {
    let session = WebSocketSession;
    let mut store = Store::new();
    assert_eq!(
        session.handle_text_message(&mut store, "{\"action\":\"get_book\"}"),
        "Invalid request"
    );
    assert_eq!(session.handle_text_message(&mut store, "{\"action\":\"add_book\"}"), "Invalid request");
}

#[test]
fn update_replaces_fields_in_place() {
    let session = WebSocketSession;
    let mut store = Store::new();
    session.handle_text_message(&mut store, 
        "{\"action\":\"add_book\",\"book\":{\"title\":\"Old\",\"author\":\"O\",\"year\":1}}",
    );
    let reply = session.handle_text_message(&mut store, 
        "{\"action\":\"update_book\",\"id\":1,\"book\":{\"title\":\"New\",\"author\":\"N\",\"year\":2}}",
    );
    assert_eq!(reply, "Book updated");
    assert_eq!(
        session.handle_text_message(&mut store, "{\"action\":\"get_book\",\"id\":1}"),
        "{\"id\":1,\"title\":\"New\",\"author\":\"N\",\"year\":2}"
    );
}

#[test]
fn errors_do_not_end_the_session() {
    let session = WebSocketSession;
    let mut store = Store::new();
    assert_eq!(session.handle_text_message(&mut store, "garbage"), "Invalid JSON request");
    assert_eq!(
        session.handle_text_message(&mut store, 
            "{\"action\":\"add_book\",\"book\":{\"title\":\"T\",\"author\":\"A\",\"year\":3}}"
        ),
        "Book added"
    );
    assert_eq!(
        session.handle_text_message(&mut store, "{\"action\":\"delete_book\",\"id\":9}"),
        "Book not found"
    );
    assert_eq!(
        session.handle_text_message(&mut store, "{\"action\":\"get_book\",\"id\":1}"),
        "{\"id\":1,\"title\":\"T\",\"author\":\"A\",\"year\":3}"
    );
}
