use oneroster::document::{Document, Field};
use oneroster::error::ParseError;
use oneroster::query::{compile_projection, compile_sort, eval_filter, parse_filter, Conn, Op};
use oneroster::value::Value;

fn doc(pairs: &[(&str, &str)]) -> Document {
    let mut fields = Vec::new();
    for (n, v) in pairs {
        fields.push(Field { name: n.to_string(), value: Value::Str(v.to_string()) });
    }
    Document { fields }
}

#[test]
fn filter_round_trip_equality() {
    let f = parse_filter("status='active'").unwrap();
    assert_eq!(f.terms.len(), 1);
    assert_eq!(f.terms[0].field, "status");
    assert_eq!(f.terms[0].op, Op::Eq);
    assert_eq!(f.terms[0].literal, "active");
    assert!(eval_filter(&f, &doc(&[("status", "active")])));
    assert!(!eval_filter(&f, &doc(&[("status", "tobedeleted")])));
    assert!(!eval_filter(&f, &doc(&[("other", "active")])));
}

#[test]
fn filter_round_trip_complement() {
    let f = parse_filter("status!='active'").unwrap();
    assert_eq!(f.terms[0].op, Op::Ne);
    assert!(!eval_filter(&f, &doc(&[("status", "active")])));
    assert!(eval_filter(&f, &doc(&[("status", "tobedeleted")])));
    assert!(eval_filter(&f, &doc(&[("other", "x")])));
}

#[test]
fn embedded_quote_cannot_inject_predicates() {
    let f = parse_filter("tag='a''; drop'").unwrap();
    assert_eq!(f.terms.len(), 1);
    assert_eq!(f.conns.len(), 0);
    assert_eq!(f.terms[0].field, "tag");
    assert_eq!(f.terms[0].op, Op::Eq);
    assert_eq!(f.terms[0].literal, "a''; drop");
    assert!(eval_filter(&f, &doc(&[("tag", "a''; drop")])));
    assert!(!eval_filter(&f, &doc(&[("tag", "a")])));
}

#[test]
fn connectors_split_in_order() {
    let f = parse_filter("a='1' AND b='2' OR c='3'").unwrap();
    assert_eq!(f.terms.len(), 3);
    assert_eq!(f.conns, vec![Conn::And, Conn::Or]);
}

#[test]
fn chain_groups_right_associatively() {
    // a='1' AND (b='2' OR c='3'), not (a='1' AND b='2') OR c='3'.
    let f = parse_filter("a='1' AND b='2' OR c='3'").unwrap();
    let d = doc(&[("a", "0"), ("b", "2"), ("c", "3")]);
    assert!(!eval_filter(&f, &d));
    let d2 = doc(&[("a", "1"), ("b", "9"), ("c", "3")]);
    assert!(eval_filter(&f, &d2));
}

#[test]
fn literal_whitespace_is_trimmed() {
    let f = parse_filter("name=' alice '").unwrap();
    assert_eq!(f.terms[0].literal, "alice");
}

#[test]
fn comparison_and_contains_operators() {
    let ge = parse_filter("n>='b'").unwrap();
    assert!(eval_filter(&ge, &doc(&[("n", "b")])));
    assert!(eval_filter(&ge, &doc(&[("n", "c")])));
    assert!(!eval_filter(&ge, &doc(&[("n", "a")])));
    let lt = parse_filter("n<'b'").unwrap();
    assert!(eval_filter(&lt, &doc(&[("n", "a")])));
    assert!(!eval_filter(&lt, &doc(&[("n", "b")])));
    let gt = parse_filter("n>'b'").unwrap();
    assert!(!eval_filter(&gt, &doc(&[("n", "b")])));
    assert!(eval_filter(&gt, &doc(&[("n", "ba")])));
    let le = parse_filter("n<='b'").unwrap();
    assert!(eval_filter(&le, &doc(&[("n", "b")])));
    assert!(!eval_filter(&le, &doc(&[("n", "ba")])));
    let has = parse_filter("n~'ell'").unwrap();
    assert!(eval_filter(&has, &doc(&[("n", "hello")])));
    assert!(!eval_filter(&has, &doc(&[("n", "help")])));
}

#[test]
fn empty_filter_matches_everything() {
    let f = parse_filter("").unwrap();
    assert_eq!(f.terms.len(), 0);
    assert!(eval_filter(&f, &doc(&[("any", "thing")])));
    assert!(eval_filter(&f, &doc(&[])));
}

#[test]
fn malformed_terms_are_rejected() {
    assert_eq!(parse_filter("status=active").unwrap_err(), ParseError::BadTerm);
    assert_eq!(parse_filter("='active'").unwrap_err(), ParseError::BadTerm);
    assert_eq!(parse_filter("nonsense").unwrap_err(), ParseError::BadTerm);
    assert_eq!(
        parse_filter("status='active' AND junk").unwrap_err(),
        ParseError::BadTerm
    );
    assert_eq!(parse_filter("a b='x'").unwrap_err(), ParseError::BadTerm);
}

#[test]
fn projection_keeps_order_and_rejects_empties() {
    let p = compile_projection("sourcedId,status,year").unwrap();
    assert_eq!(p, vec!["sourcedId", "status", "year"]);
    assert_eq!(compile_projection("").unwrap_err(), ParseError::EmptyFieldList);
    assert_eq!(compile_projection("a,,b").unwrap_err(), ParseError::EmptyFieldList);
}

#[test]
fn sort_key_must_not_be_empty() {
    assert_eq!(compile_sort("sourcedId").unwrap(), "sourcedId");
    assert_eq!(compile_sort("").unwrap_err(), ParseError::EmptySort);
}
