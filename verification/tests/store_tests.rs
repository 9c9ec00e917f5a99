use book_catalog::{BookFields, Store};

fn fields(title: &str, author: &str, year: u32) -> BookFields {
    BookFields { title: title.to_string(), author: author.to_string(), year }
}

#[test]
fn empty_store_lists_nothing() {
    let store = Store::new();
    assert_eq!(store.list().len(), 0);
}

#[test]
fn first_insert_gets_id_one() {
    let mut store = Store::new();
    let b = store.insert(fields("Dune", "Herbert", 1965));
    assert_eq!(b.id, 1);
}

#[test]
fn insert_assigns_max_plus_one() {
    let mut store = Store::new();
    assert_eq!(store.insert(fields("A", "a", 1)).id, 1);
    assert_eq!(store.insert(fields("B", "b", 2)).id, 2);
    assert_eq!(store.insert(fields("C", "c", 3)).id, 3);
    assert!(store.delete(2));
    let b = store.insert(fields("D", "d", 4));
    assert_eq!(b.id, 4);
}

#[test]
fn deleted_max_id_is_reused() {
    let mut store = Store::new();
    assert_eq!(store.insert(fields("A", "a", 1)).id, 1);
    assert!(store.delete(1));
    assert_eq!(store.insert(fields("B", "b", 2)).id, 1);
}

#[test]
fn add_then_get_round_trip() {
    let mut store = Store::new();
    let added = store.insert(fields("Dune", "Herbert", 1965));
    let got = store.get(added.id).expect("item should be live");
    assert_eq!(got.id, added.id);
    assert_eq!(got.title, "Dune");
    assert_eq!(got.author, "Herbert");
    assert_eq!(got.year, 1965);
}

#[test]
fn update_is_in_place() {
    let mut store = Store::new();
    store.insert(fields("A", "a", 1));
    store.insert(fields("B", "b", 2));
    let updated = store.update(1, fields("A2", "a2", 11)).expect("id 1 is live");
    assert_eq!(updated.id, 1);
    assert_eq!(store.list().len(), 2);
    let got = store.get(1).expect("id 1 still live");
    assert_eq!(got.id, 1);
    assert_eq!(got.title, "A2");
    assert_eq!(got.author, "a2");
    assert_eq!(got.year, 11);
}

#[test]
fn update_missing_id_changes_nothing() {
    let mut store = Store::new();
    store.insert(fields("A", "a", 1));
    assert!(store.update(9, fields("X", "x", 9)).is_none());
    assert_eq!(store.list().len(), 1);
    let got = store.get(1).unwrap();
    assert_eq!(got.title, "A");
}

#[test]
fn delete_is_final() {
    let mut store = Store::new();
    store.insert(fields("A", "a", 1));
    assert!(store.delete(1));
    assert!(store.get(1).is_none());
    assert!(store.update(1, fields("X", "x", 9)).is_none());
    assert!(!store.delete(1));
}

#[test]
fn serialized_adds_get_distinct_ids() {
    let mut store = Store::new();
    let n: usize = 10;
    let mut ids = Vec::new();
    for k in 0..n {
        let b = store.insert(fields("T", "A", k as u32));
        ids.push(b.id);
    }
    for i in 0..n {
        for j in 0..n {
            if i != j {
                assert_ne!(ids[i], ids[j]);
            }
        }
    }
    assert_eq!(store.list().len(), n);
}

#[test]
fn can_insert_on_ordinary_store() {
    let mut store = Store::new();
    assert!(store.can_insert());
    store.insert(fields("A", "a", 1));
    assert!(store.can_insert());
}
