use oneroster::document::{Document, Field};
use oneroster::error::StorageError;
use oneroster::store::Store;
use oneroster::value::Value;

fn doc(pairs: &[(&str, &str)]) -> Document {
    let mut fields = Vec::new();
    for (n, v) in pairs {
        fields.push(Field { name: n.to_string(), value: Value::Str(v.to_string()) });
    }
    Document { fields }
}

fn id_of(d: &Document) -> String {
    match d.get("sourcedId") {
        Some(Value::Str(s)) => s.clone(),
        _ => panic!("document without sourcedId"),
    }
}

/// Smoke test: initialise the collection and upsert two sessions,
/// re-submitting on conflict.
#[test]
fn db() {
    let mut store = Store::new();
    store
        .upsert(vec![doc(&[("sourcedId", "43278488"), ("status", "active")])])
        .unwrap();
    store
        .upsert(vec![doc(&[("sourcedId", "43278489"), ("status", "tobedeleted")])])
        .unwrap();
    assert_eq!(store.len(), 2);
}

#[test]
fn upsert_same_document_twice_keeps_one_row() {
    let mut store = Store::new();
    let d = doc(&[("sourcedId", "s1"), ("status", "active")]);
    store.upsert(vec![d]).unwrap();
    let d2 = doc(&[("sourcedId", "s1"), ("status", "active")]);
    store.upsert(vec![d2]).unwrap();
    assert_eq!(store.len(), 1);
}

#[test]
fn upsert_second_write_wins() {
    let mut store = Store::new();
    store
        .upsert(vec![doc(&[("sourcedId", "s1"), ("status", "active")])])
        .unwrap();
    store
        .upsert(vec![doc(&[("sourcedId", "s1"), ("status", "tobedeleted")])])
        .unwrap();
    assert_eq!(store.len(), 1);
    let page = store.fetch_page(10, 0);
    assert_eq!(page.len(), 1);
    match page[0].get("status") {
        Some(Value::Str(s)) => assert_eq!(s, "tobedeleted"),
        _ => panic!("status missing"),
    }
}

#[test]
fn malformed_item_rolls_back_whole_batch() {
    let mut store = Store::new();
    let batch = vec![
        doc(&[("sourcedId", "a"), ("status", "active")]),
        doc(&[("status", "active")]), // no sourcedId: malformed
        doc(&[("sourcedId", "c"), ("status", "active")]),
    ];
    let r = store.upsert(batch);
    assert_eq!(r, Err(StorageError::MalformedDocument));
    assert_eq!(store.len(), 0);
}

#[test]
fn empty_sourced_id_is_malformed() {
    let mut store = Store::new();
    let r = store.upsert(vec![doc(&[("sourcedId", ""), ("status", "active")])]);
    assert_eq!(r, Err(StorageError::MalformedDocument));
    assert_eq!(store.len(), 0);
}

#[test]
fn rows_are_ordered_by_sourced_id() {
    let mut store = Store::new();
    store
        .upsert(vec![
            doc(&[("sourcedId", "b")]),
            doc(&[("sourcedId", "a")]),
            doc(&[("sourcedId", "c")]),
        ])
        .unwrap();
    let page = store.fetch_page(10, 0);
    let ids: Vec<String> = page.iter().map(id_of).collect();
    assert_eq!(ids, vec!["a", "b", "c"]);
}

#[test]
fn fetch_page_windows() {
    let mut store = Store::new();
    store
        .upsert(vec![
            doc(&[("sourcedId", "1")]),
            doc(&[("sourcedId", "2")]),
            doc(&[("sourcedId", "3")]),
            doc(&[("sourcedId", "4")]),
        ])
        .unwrap();
    let p = store.fetch_page(2, 1);
    let ids: Vec<String> = p.iter().map(id_of).collect();
    assert_eq!(ids, vec!["2", "3"]);
    let tail = store.fetch_page(10, 3);
    let ids: Vec<String> = tail.iter().map(id_of).collect();
    assert_eq!(ids, vec!["4"]);
    let beyond = store.fetch_page(10, 9);
    assert_eq!(beyond.len(), 0);
}

#[test]
fn batch_later_duplicate_wins() {
    let mut store = Store::new();
    store
        .upsert(vec![
            doc(&[("sourcedId", "x"), ("status", "active")]),
            doc(&[("sourcedId", "x"), ("status", "tobedeleted")]),
        ])
        .unwrap();
    assert_eq!(store.len(), 1);
    let page = store.fetch_page(10, 0);
    match page[0].get("status") {
        Some(Value::Str(s)) => assert_eq!(s, "tobedeleted"),
        _ => panic!("status missing"),
    }
}
