use oneroster::document::{Document, Field};
use oneroster::engine::get_all;
use oneroster::error::ParseError;
use oneroster::exec::execute;
use oneroster::query::compile_query;
use oneroster::store::Store;
use oneroster::value::{i64_to_string, render_value, Value};

fn doc(pairs: &[(&str, &str)]) -> Document {
    let mut fields = Vec::new();
    for (n, v) in pairs {
        fields.push(Field { name: n.to_string(), value: Value::Str(v.to_string()) });
    }
    Document { fields }
}

fn field_str(d: &Document, name: &str) -> String {
    d.field_text(name)
}

/// Storing an active and a to-be-deleted session and asking for the
/// active ones returns exactly the active one, projected to the two
/// requested fields.
#[test]
fn active_sessions_scenario() {
    let mut store = Store::new();
    store
        .upsert(vec![
            doc(&[("sourcedId", "1"), ("status", "active")]),
            doc(&[("sourcedId", "2"), ("status", "tobedeleted")]),
        ])
        .unwrap();
    let (_plan, out) = get_all(
        &store,
        "sourcedId,status",
        "status='active'",
        "sourcedId",
        50,
        0,
    )
    .unwrap();
    assert_eq!(out.len(), 1);
    assert_eq!(out[0].fields.len(), 2);
    assert_eq!(out[0].fields[0].name, "sourcedId");
    assert_eq!(field_str(&out[0], "sourcedId"), "1");
    assert_eq!(out[0].fields[1].name, "status");
    assert_eq!(field_str(&out[0], "status"), "active");
}

#[test]
fn execute_is_deterministic_and_sorted() {
    let mut store = Store::new();
    store
        .upsert(vec![
            doc(&[("sourcedId", "3"), ("status", "active")]),
            doc(&[("sourcedId", "1"), ("status", "active")]),
            doc(&[("sourcedId", "2"), ("status", "active")]),
        ])
        .unwrap();
    let plan = compile_query("sourcedId", "", "sourcedId").unwrap();
    let page = store.fetch_page(50, 0);
    let once = execute(&page, &plan);
    let twice = execute(&page, &plan);
    let ids_once: Vec<String> = once.iter().map(|d| field_str(d, "sourcedId")).collect();
    let ids_twice: Vec<String> = twice.iter().map(|d| field_str(d, "sourcedId")).collect();
    assert_eq!(ids_once, vec!["1", "2", "3"]);
    assert_eq!(ids_once, ids_twice);
}

#[test]
fn sort_with_equal_keys_is_stable() {
    // Both documents share the sort key; their page order (by sourcedId)
    // must survive the sort.
    let mut store = Store::new();
    store
        .upsert(vec![
            doc(&[("sourcedId", "b"), ("status", "active")]),
            doc(&[("sourcedId", "a"), ("status", "active")]),
        ])
        .unwrap();
    let (_p, out) = get_all(&store, "sourcedId,status", "", "status", 50, 0).unwrap();
    let ids: Vec<String> = out.iter().map(|d| field_str(d, "sourcedId")).collect();
    assert_eq!(ids, vec!["a", "b"]);
}

#[test]
fn projection_fills_missing_fields_with_null() {
    let plan = compile_query("sourcedId,year", "", "sourcedId").unwrap();
    let docs = vec![doc(&[("sourcedId", "1"), ("status", "active")])];
    let out = execute(&docs, &plan);
    assert_eq!(out[0].fields.len(), 2);
    assert_eq!(out[0].fields[1].name, "year");
    assert!(matches!(out[0].fields[1].value, Value::Null));
}

#[test]
fn pagination_happens_before_filtering() {
    let mut store = Store::new();
    store
        .upsert(vec![
            doc(&[("sourcedId", "1"), ("status", "active")]),
            doc(&[("sourcedId", "2"), ("status", "tobedeleted")]),
            doc(&[("sourcedId", "3"), ("status", "active")]),
        ])
        .unwrap();
    // The page window is [1, 2]; the filter then leaves only "1", so the
    // page comes back shorter than its limit.
    let (_p, out) = get_all(&store, "sourcedId", "status='active'", "sourcedId", 2, 0).unwrap();
    let ids: Vec<String> = out.iter().map(|d| field_str(d, "sourcedId")).collect();
    assert_eq!(ids, vec!["1"]);
}

#[test]
fn bad_parameters_reject_before_storage() {
    let store = Store::new();
    assert_eq!(
        get_all(&store, "", "", "sourcedId", 10, 0).unwrap_err(),
        ParseError::EmptyFieldList
    );
    assert_eq!(
        get_all(&store, "sourcedId", "broken", "sourcedId", 10, 0).unwrap_err(),
        ParseError::BadTerm
    );
    assert_eq!(
        get_all(&store, "sourcedId", "", "", 10, 0).unwrap_err(),
        ParseError::EmptySort
    );
}

#[test]
fn scalar_rendering() {
    assert_eq!(i64_to_string(0), "0");
    assert_eq!(i64_to_string(42), "42");
    assert_eq!(i64_to_string(-123), "-123");
    assert_eq!(i64_to_string(i64::MIN), "-9223372036854775808");
    assert_eq!(render_value(&Value::Bool(true)), "true");
    assert_eq!(render_value(&Value::Bool(false)), "false");
    assert_eq!(render_value(&Value::Null), "");
    assert_eq!(render_value(&Value::Int(7)), "7");
    assert_eq!(render_value(&Value::Str("x".to_string())), "x");
}

#[test]
fn filters_compare_rendered_scalars() {
    let plan = compile_query("sourcedId,n", "n='42'", "sourcedId").unwrap();
    let mut d = doc(&[("sourcedId", "1")]);
    d.fields.push(Field { name: "n".to_string(), value: Value::Int(42) });
    let out = execute(&vec![d], &plan);
    assert_eq!(out.len(), 1);
}
