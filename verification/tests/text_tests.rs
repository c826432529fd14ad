use oneroster::document::{Document, Field};
use oneroster::model::{vec_is_none, AcademicSession, Org};
use oneroster::text::{join_with_spaces, split_str, str_contains, str_eq, str_le, trim};
use oneroster::value::Value;

#[test]
fn lexicographic_order() {
    assert!(str_le("", "a"));
    assert!(str_le("a", "a"));
    assert!(str_le("a", "b"));
    assert!(!str_le("b", "a"));
    assert!(str_le("ab", "b"));
    assert!(str_le("a", "ab"));
    assert!(!str_le("ab", "a"));
    assert!(str_eq("abc", "abc"));
    assert!(!str_eq("abc", "abd"));
}

#[test]
fn split_on_delimiter() {
    let parts = split_str("a,b,c", ',');
    assert_eq!(parts, vec!["a", "b", "c"]);
    assert_eq!(split_str("", ','), vec![""]);
    assert_eq!(split_str("a,,b", ','), vec!["a", "", "b"]);
    assert_eq!(split_str("abc", ','), vec!["abc"]);
}

#[test]
fn trim_strips_outer_whitespace() {
    assert_eq!(trim("  hello  "), "hello");
    assert_eq!(trim("hello"), "hello");
    assert_eq!(trim("\t a b \n"), "a b");
    assert_eq!(trim("   "), "");
}

#[test]
fn substring_search() {
    assert!(str_contains("hello", "ell"));
    assert!(str_contains("hello", ""));
    assert!(str_contains("hello", "hello"));
    assert!(!str_contains("hello", "elp"));
    assert!(!str_contains("he", "hello"));
}

#[test]
fn join_with_single_spaces() {
    let v: Vec<String> = vec!["a".to_string(), "b".to_string(), "c".to_string()];
    assert_eq!(join_with_spaces(&v), "a b c");
    let one: Vec<String> = vec!["solo".to_string()];
    assert_eq!(join_with_spaces(&one), "solo");
    let none: Vec<String> = Vec::new();
    assert_eq!(join_with_spaces(&none), "");
}

#[test]
fn vec_is_none_checks_first_member() {
    let absent: Option<Vec<Option<u32>>> = None;
    assert!(!vec_is_none(&absent));
    let first_none: Option<Vec<Option<u32>>> = Some(vec![None, Some(1)]);
    assert!(vec_is_none(&first_none));
    let first_some: Option<Vec<Option<u32>>> = Some(vec![Some(1), None]);
    assert!(!vec_is_none(&first_some));
}

fn value_of(d: &Document, name: &str) -> Option<Value> {
    d.get(name).cloned()
}

#[test]
fn academic_session_to_document() {
    let s = AcademicSession {
        sourced_id: "s1".to_string(),
        status: "active".to_string(),
        year: Some("2021".to_string()),
    };
    let d = s.to_document();
    assert_eq!(d.fields.len(), 3);
    assert!(matches!(value_of(&d, "sourcedId"), Some(Value::Str(v)) if v == "s1"));
    assert!(matches!(value_of(&d, "status"), Some(Value::Str(v)) if v == "active"));
    assert!(matches!(value_of(&d, "year"), Some(Value::Str(v)) if v == "2021"));
    let no_year = AcademicSession {
        sourced_id: "s2".to_string(),
        status: "active".to_string(),
        year: None,
    };
    let d2 = no_year.to_document();
    assert_eq!(d2.fields.len(), 2);
    assert!(value_of(&d2, "year").is_none());
}

#[test]
fn org_to_document() {
    let o = Org {
        sourced_id: "o1".to_string(),
        name: "North High".to_string(),
        parent: None,
        children: None,
    };
    let d = o.to_document();
    assert_eq!(d.fields.len(), 2);
    assert!(matches!(value_of(&d, "name"), Some(Value::Str(v)) if v == "North High"));
    assert!(value_of(&d, "parent").is_none());
}

#[test]
fn duplicate_field_first_occurrence_governs() {
    let d = Document {
        fields: vec![
            Field { name: "k".to_string(), value: Value::Str("first".to_string()) },
            Field { name: "k".to_string(), value: Value::Str("second".to_string()) },
        ],
    };
    assert!(matches!(value_of(&d, "k"), Some(Value::Str(v)) if v == "first"));
}
