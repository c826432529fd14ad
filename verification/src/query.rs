//! The query compiler: a pure translation of untrusted REST query
//! parameters — field list, filter expression, sort key — into an
//! executable plan.
//!
//! The filter grammar: the raw string splits on the literal delimiters
//! `" AND "` and `" OR "` (case-sensitive, single space each side); the
//! delimiters found, in order, become the chain's connectors.  Each segment
//! must match `<field><operator>'<literal>'` with operator one of
//! `!=`, `>=`, `<=`, `>`, `<`, `=`, `~`; the quotes are stripped and the
//! literal's outer whitespace trimmed.  A segment that does not match is
//! rejected as a parse error rather than silently dropped, so no malformed
//! input ever reaches the executor.  A quote character inside the literal
//! stays literal text: it can never introduce another predicate.
//!
//! The chain is evaluated right-associatively with no precedence between
//! `AND` and `OR` — `a='1' AND b='2' OR c='3'` groups as
//! `a='1' AND (b='2' OR c='3')`.  Existing clients of this grammar rely
//! on that grouping, so it is specified and kept deliberately rather than
//! replaced by conventional precedence.

use vstd::prelude::*;
use vstd::string::*;

use crate::document::{doc_text, Field};
use crate::error::ParseError;
use crate::text::{
    contains_seq, find_char, lex_le, match_at, matches_at, split_char, split_str, str_contains,
    str_eq, str_le, trim, trim_spec,
};

verus! {

/// A comparison operator of the filter grammar.
#[derive(Clone, Copy, Debug, PartialEq, Eq, Structural)]
pub enum Op {
    Eq,
    Ne,
    Gt,
    Lt,
    Ge,
    Le,
    /// `~`: the field's text contains the literal.
    Contains,
}

/// A logical connector of the filter grammar.
#[derive(Clone, Copy, Debug, PartialEq, Eq, Structural)]
pub enum Conn {
    And,
    Or,
}

/// One comparison of the filter grammar: `<field><op>'<literal>'`.
#[derive(Debug)]
pub struct Term {
    pub field: String,
    pub op: Op,
    pub literal: String,
}

impl Clone for Term {
    fn clone(&self) -> (r: Self)
        ensures
            r == *self,
    {
        Term { field: self.field.clone(), op: self.op, literal: self.literal.clone() }
    }
}

/// A compiled filter: a flat chain of terms joined by connectors,
/// evaluated right-associatively.  No terms means "match all".
#[derive(Debug)]
pub struct Filter {
    pub terms: Vec<Term>,
    pub conns: Vec<Conn>,
}

impl Filter {
    /// A chain is well formed when it is empty or has exactly one more
    /// term than connectors.
    pub open spec fn wf(self) -> bool {
        (self.terms@.len() == 0 && self.conns@.len() == 0) || self.terms@.len() == self.conns@.len()
            + 1
    }

    /// The mathematical content of the chain: each term as
    /// (field, operator, literal) over character sequences.
    pub open spec fn term_views(self) -> Seq<(Seq<char>, Op, Seq<char>)> {
        self.terms@.map_values(|t: Term| (t.field@, t.op, t.literal@))
    }
}

/// The delimiter `" AND "`.
pub open spec fn and_tok() -> Seq<char> {
    seq![' ', 'A', 'N', 'D', ' ']
}

/// The delimiter `" OR "`.
pub open spec fn or_tok() -> Seq<char> {
    seq![' ', 'O', 'R', ' ']
}

/// A connector delimiter occurs in `s` at index `i`.
pub open spec fn conn_at(s: Seq<char>, i: int) -> bool {
    matches_at(s, i, and_tok()) || matches_at(s, i, or_tok())
}

/// The first index at or after `i` where a connector delimiter occurs, or
/// `s.len()` when none does.
pub open spec fn find_conn_from(s: Seq<char>, i: int) -> int
    decreases s.len() - i,
    when 0 <= i <= s.len()
{
    if i >= s.len() {
        i
    } else if conn_at(s, i) {
        i
    } else {
        find_conn_from(s, i + 1)
    }
}

proof fn lemma_find_conn_from_unique(s: Seq<char>, i0: int, k: int)
    requires
        0 <= i0 <= k <= s.len(),
        forall|j: int| i0 <= j < k ==> !conn_at(s, j),
        k < s.len() ==> conn_at(s, k),
    ensures
        find_conn_from(s, i0) == k,
    decreases k - i0,
{
    if i0 < k {
        lemma_find_conn_from_unique(s, i0 + 1, k);
    }
}

proof fn lemma_find_conn_from_props(s: Seq<char>, i0: int)
    requires
        0 <= i0 <= s.len(),
    ensures
        i0 <= find_conn_from(s, i0) <= s.len(),
        find_conn_from(s, i0) < s.len() ==> conn_at(s, find_conn_from(s, i0)),
    decreases s.len() - i0,
{
    if i0 < s.len() && !conn_at(s, i0) {
        lemma_find_conn_from_props(s, i0 + 1);
    }
}

/// The segments of `s` between connector delimiters, and the connectors
/// found, in order of appearance.
pub open spec fn tokenize(s: Seq<char>) -> (Seq<Seq<char>>, Seq<Conn>)
    decreases s.len(),
    via tokenize_decreases
{
    let f = find_conn_from(s, 0);
    if f >= s.len() {
        (seq![s], Seq::<Conn>::empty())
    } else {
        let is_and = matches_at(s, f, and_tok());
        let d: int = if is_and {
            5
        } else {
            4
        };
        let r = tokenize(s.skip(f + d));
        (
            seq![s.subrange(0, f)] + r.0,
            seq![if is_and {
                Conn::And
            } else {
                Conn::Or
            }] + r.1,
        )
    }
}

#[via_fn]
proof fn tokenize_decreases(s: Seq<char>) {
    lemma_find_conn_from_props(s, 0);
}

/// Tokenizing yields exactly one more segment than connectors.
pub proof fn lemma_tokenize_len(s: Seq<char>)
    ensures
        tokenize(s).0.len() == tokenize(s).1.len() + 1,
    decreases s.len(),
{
    lemma_find_conn_from_props(s, 0);
    let f = find_conn_from(s, 0);
    if f < s.len() {
        let d: int = if matches_at(s, f, and_tok()) {
            5
        } else {
            4
        };
        lemma_tokenize_len(s.skip(f + d));
    }
}

/// A character that may stand in a field name: a letter, digit or
/// underscore.
pub open spec fn word_char(c: char) -> bool {
    ('a' <= c && c <= 'z') || ('A' <= c && c <= 'Z') || ('0' <= c && c <= '9') || c == '_'
}

/// An operator token begins in `s` at index `i`.
pub open spec fn op_start(s: Seq<char>, i: int) -> bool {
    0 <= i < s.len() && (s[i] == '>' || s[i] == '<' || s[i] == '=' || s[i] == '~' || (s[i] == '!'
        && i + 1 < s.len() && s[i + 1] == '='))
}

/// The first index at or after `i` where an operator token begins, or
/// `s.len()` when none does.
pub open spec fn find_op_from(s: Seq<char>, i: int) -> int
    decreases s.len() - i,
    when 0 <= i <= s.len()
{
    if i >= s.len() {
        i
    } else if op_start(s, i) {
        i
    } else {
        find_op_from(s, i + 1)
    }
}

proof fn lemma_find_op_from_unique(s: Seq<char>, i0: int, k: int)
    requires
        0 <= i0 <= k <= s.len(),
        forall|j: int| i0 <= j < k ==> !op_start(s, j),
        k < s.len() ==> op_start(s, k),
    ensures
        find_op_from(s, i0) == k,
    decreases k - i0,
{
    if i0 < k {
        lemma_find_op_from_unique(s, i0 + 1, k);
    }
}

proof fn lemma_find_op_from_props(s: Seq<char>, i0: int)
    requires
        0 <= i0 <= s.len(),
    ensures
        i0 <= find_op_from(s, i0) <= s.len(),
        find_op_from(s, i0) < s.len() ==> op_start(s, find_op_from(s, i0)),
    decreases s.len() - i0,
{
    if i0 < s.len() && !op_start(s, i0) {
        lemma_find_op_from_props(s, i0 + 1);
    }
}

/// The operator beginning at index `p` and the length of its token.
pub open spec fn op_and_len(s: Seq<char>, p: int) -> (Op, int) {
    if s[p] == '!' {
        (Op::Ne, 2)
    } else if s[p] == '>' {
        if p + 1 < s.len() && s[p + 1] == '=' {
            (Op::Ge, 2)
        } else {
            (Op::Gt, 1)
        }
    } else if s[p] == '<' {
        if p + 1 < s.len() && s[p + 1] == '=' {
            (Op::Le, 2)
        } else {
            (Op::Lt, 1)
        }
    } else if s[p] == '=' {
        (Op::Eq, 1)
    } else {
        (Op::Contains, 1)
    }
}

/// The meaning of one segment: the field name (non-empty word characters
/// before the first operator token), the operator, and the quote-delimited
/// literal with its outer whitespace trimmed.  `None` when the segment does
/// not match the term pattern.
pub open spec fn parse_term_spec(s: Seq<char>) -> Option<(Seq<char>, Op, Seq<char>)> {
    let p = find_op_from(s, 0);
    if p >= s.len() || p < 1 || exists|j: int| 0 <= j < p && !word_char(s[j]) {
        None
    } else {
        let (op, ol) = op_and_len(s, p);
        let rest = s.skip(p + ol);
        if rest.len() >= 2 && rest[0] == '\'' && rest[rest.len() - 1] == '\'' {
            Some((s.subrange(0, p), op, trim_spec(rest.subrange(1, rest.len() - 1))))
        } else {
            None
        }
    }
}

/// The terms of a segment sequence, or `None` when any segment fails the
/// term pattern.
pub open spec fn parse_segments(segs: Seq<Seq<char>>) -> Option<Seq<(Seq<char>, Op, Seq<char>)>>
    decreases segs.len(),
{
    if segs.len() == 0 {
        Some(Seq::empty())
    } else {
        match (parse_term_spec(segs[0]), parse_segments(segs.skip(1))) {
            (Some(t), Some(r)) => Some(seq![t] + r),
            _ => None,
        }
    }
}

pub proof fn lemma_parse_segments_none(segs: Seq<Seq<char>>, i: int)
    requires
        0 <= i < segs.len(),
        parse_term_spec(segs[i]) is None,
    ensures
        parse_segments(segs) is None,
    decreases i,
{
    if i > 0 {
        assert(segs.skip(1)[i - 1] == segs[i]);
        lemma_parse_segments_none(segs.skip(1), i - 1);
    }
}

pub proof fn lemma_parse_segments_all(segs: Seq<Seq<char>>, ts: Seq<(Seq<char>, Op, Seq<char>)>)
    requires
        ts.len() == segs.len(),
        forall|k: int| 0 <= k < segs.len() ==> parse_term_spec(#[trigger] segs[k]) == Some(ts[k]),
    ensures
        parse_segments(segs) == Some(ts),
    decreases segs.len(),
{
    if segs.len() > 0 {
        assert forall|k: int| 0 <= k < segs.skip(1).len() implies parse_term_spec(
            #[trigger] segs.skip(1)[k],
        ) == Some(ts.skip(1)[k]) by {
            assert(segs.skip(1)[k] == segs[k + 1]);
            assert(ts.skip(1)[k] == ts[k + 1]);
        }
        lemma_parse_segments_all(segs.skip(1), ts.skip(1));
        assert(seq![ts[0]] + ts.skip(1) =~= ts);
    }
}

/// The meaning of a whole filter parameter: the empty string matches all;
/// otherwise every segment must parse as a term.
pub open spec fn parse_filter_spec(s: Seq<char>) -> Option<
    (Seq<(Seq<char>, Op, Seq<char>)>, Seq<Conn>),
> {
    if s.len() == 0 {
        Some((Seq::empty(), Seq::empty()))
    } else {
        match parse_segments(tokenize(s).0) {
            Some(ts) => Some((ts, tokenize(s).1)),
            None => None,
        }
    }
}

/// One comparison applied to a document, through the text of the named
/// field.
pub open spec fn eval_term(field: Seq<char>, op: Op, lit: Seq<char>, d: Seq<Field>) -> bool {
    let v = doc_text(d, field);
    match op {
        Op::Eq => v == lit,
        Op::Ne => v != lit,
        Op::Gt => !lex_le(v, lit),
        Op::Lt => !lex_le(lit, v),
        Op::Ge => lex_le(lit, v),
        Op::Le => lex_le(v, lit),
        Op::Contains => contains_seq(v, lit),
    }
}

/// The right-associative evaluation of the chain from term `i` on.
pub open spec fn eval_from(
    terms: Seq<(Seq<char>, Op, Seq<char>)>,
    conns: Seq<Conn>,
    d: Seq<Field>,
    i: int,
) -> bool
    decreases terms.len() - i,
    when 0 <= i <= terms.len()
{
    if i >= terms.len() {
        true
    } else if i == terms.len() - 1 {
        eval_term(terms[i].0, terms[i].1, terms[i].2, d)
    } else {
        let head = eval_term(terms[i].0, terms[i].1, terms[i].2, d);
        let rest = eval_from(terms, conns, d, i + 1);
        if i < conns.len() && conns[i] == Conn::And {
            head && rest
        } else {
            head || rest
        }
    }
}

/// Whether a document satisfies a compiled filter.  An empty chain
/// matches everything.
pub open spec fn filter_matches(f: Filter, d: Seq<Field>) -> bool {
    eval_from(f.term_views(), f.conns@, d, 0)
}

/// A filter of one equality term matches exactly the documents whose
/// named field's text equals the literal; one inequality term matches
/// exactly the complement.
pub proof fn lemma_filter_round_trip(f: Filter, field: Seq<char>, lit: Seq<char>, d: Seq<Field>)
    requires
        f.conns@.len() == 0,
        f.term_views() == seq![(field, Op::Eq, lit)],
    ensures
        filter_matches(f, d) == (doc_text(d, field) == lit),
{
    assert(f.term_views()[0] == (field, Op::Eq, lit));
}

/// The complement half of the round trip: `!=` matches exactly the
/// documents `=` rejects.
pub proof fn lemma_filter_round_trip_neg(f: Filter, field: Seq<char>, lit: Seq<char>, d: Seq<Field>)
    requires
        f.conns@.len() == 0,
        f.term_views() == seq![(field, Op::Ne, lit)],
    ensures
        filter_matches(f, d) == (doc_text(d, field) != lit),
{
    assert(f.term_views()[0] == (field, Op::Ne, lit));
}

/// A quote character embedded in a filter literal cannot alter the
/// predicate's structure: whatever quotes `lit` contains, the raw
/// expression `<field>='<lit>'` parses as exactly one equality term whose
/// literal is `lit` trimmed — never as additional predicate logic.  (A
/// connector delimiter inside the literal is excluded: the grammar splits
/// on those before terms are read.)
pub proof fn lemma_literal_injection_safe(field: Seq<char>, lit: Seq<char>)
    requires
        field.len() >= 1,
        forall|j: int| 0 <= j < field.len() ==> word_char(#[trigger] field[j]),
        forall|i: int| !conn_at(field + seq!['='] + seq!['\''] + lit + seq!['\''], i),
    ensures
        parse_filter_spec(field + seq!['='] + seq!['\''] + lit + seq!['\'']) == Some(
            (seq![(field, Op::Eq, trim_spec(lit))], Seq::<Conn>::empty()),
        ),
{
    let raw = field + seq!['='] + seq!['\''] + lit + seq!['\''];
    let p = field.len() as int;
    assert(raw.len() == field.len() + lit.len() + 3);
    assert forall|j: int| 0 <= j < p implies raw[j] == field[j] by {}
    assert(raw[p] == '=');
    assert(raw[p + 1] == '\'');
    assert(raw[raw.len() - 1] == '\'');
    lemma_find_conn_from_unique(raw, 0, raw.len() as int);
    assert(tokenize(raw).0 =~= seq![raw]);
    assert(tokenize(raw).1 =~= Seq::<Conn>::empty());
    assert forall|j: int| 0 <= j < p implies !op_start(raw, j) by {
        assert(word_char(raw[j]));
    }
    assert(op_start(raw, p));
    lemma_find_op_from_unique(raw, 0, p);
    assert(!(p >= raw.len() || p < 1 || exists|j: int| 0 <= j < p && !word_char(raw[j])));
    assert(op_and_len(raw, p) == (Op::Eq, 1int));
    let rest = raw.skip(p + 1);
    assert(rest.len() == lit.len() + 2);
    assert(rest[0] == raw[p + 1]);
    assert(rest[rest.len() - 1] == raw[raw.len() - 1]);
    assert(rest.subrange(1, rest.len() - 1) =~= lit);
    assert(raw.subrange(0, p) =~= field);
    assert(parse_term_spec(raw) == Some((field, Op::Eq, trim_spec(lit))));
    let segs = tokenize(raw).0;
    assert(segs[0] == raw);
    assert(segs.skip(1) =~= Seq::<Seq<char>>::empty());
    assert(parse_segments(segs.skip(1)) == Some(Seq::<(Seq<char>, Op, Seq<char>)>::empty()));
    assert(parse_segments(segs) == Some(
        seq![(field, Op::Eq, trim_spec(lit))] + Seq::<(Seq<char>, Op, Seq<char>)>::empty(),
    ));
    assert(seq![(field, Op::Eq, trim_spec(lit))] + Seq::<(Seq<char>, Op, Seq<char>)>::empty()
        =~= seq![(field, Op::Eq, trim_spec(lit))]);
}

/// Finds the first connector delimiter in `s`.
fn find_conn_exec(s: &str) -> (i: usize)
    ensures
        i == find_conn_from(s@, 0),
        i <= s@.len(),
{
    proof {
        reveal_strlit(" AND ");
        reveal_strlit(" OR ");
        assert(" AND "@ =~= and_tok());
        assert(" OR "@ =~= or_tok());
    }
    let len = s.unicode_len();
    let mut i: usize = 0;
    loop
        invariant
            i <= len,
            len == s@.len(),
            " AND "@ == and_tok(),
            " OR "@ == or_tok(),
            forall|j: int| 0 <= j < i ==> !conn_at(s@, j),
        decreases len - i,
    {
        if i == len {
            proof {
                lemma_find_conn_from_unique(s@, 0, i as int);
            }
            return i;
        }
        if match_at(s, i, " AND ") || match_at(s, i, " OR ") {
            proof {
                lemma_find_conn_from_unique(s@, 0, i as int);
            }
            return i;
        }
        i = i + 1;
    }
}

/// Splits a filter parameter into its segments and connectors.
fn tokenize_exec(s: &str) -> (r: (Vec<String>, Vec<Conn>))
    ensures
        r.0@.len() == tokenize(s@).0.len(),
        forall|i: int| 0 <= i < r.0@.len() ==> r.0@[i]@ == tokenize(s@).0[i],
        r.1@ == tokenize(s@).1,
    decreases s@.len(),
{
    proof {
        reveal_strlit(" AND ");
        assert(" AND "@ =~= and_tok());
    }
    let len = s.unicode_len();
    let f = find_conn_exec(s);
    if f == len {
        let mut segs: Vec<String> = Vec::new();
        segs.push(s.to_owned());
        (segs, Vec::new())
    } else {
        proof {
            lemma_find_conn_from_props(s@, 0);
        }
        let is_and = match_at(s, f, " AND ");
        let d: usize = if is_and {
            5
        } else {
            4
        };
        assert(f + d <= s@.len());
        let head = s.substring_char(0, f).to_owned();
        let rest = s.substring_char(f + d, len);
        assert(rest@ == s@.skip(f + d));
        let (mut segs, mut conns) = tokenize_exec(rest);
        segs.insert(0, head);
        conns.insert(
            0,
            if is_and {
                Conn::And
            } else {
                Conn::Or
            },
        );
        proof {
            assert(conns@ =~= tokenize(s@).1);
        }
        (segs, conns)
    }
}

/// Finds the first operator token in `s`.
fn find_op_exec(s: &str) -> (i: usize)
    ensures
        i == find_op_from(s@, 0),
        i <= s@.len(),
{
    let len = s.unicode_len();
    let mut i: usize = 0;
    loop
        invariant
            i <= len,
            len == s@.len(),
            forall|j: int| 0 <= j < i ==> !op_start(s@, j),
        decreases len - i,
    {
        if i == len {
            proof {
                lemma_find_op_from_unique(s@, 0, i as int);
            }
            return i;
        }
        let c = s.get_char(i);
        let here = if c == '>' || c == '<' || c == '=' || c == '~' {
            true
        } else if c == '!' && i + 1 < len {
            s.get_char(i + 1) == '='
        } else {
            false
        };
        if here {
            proof {
                lemma_find_op_from_unique(s@, 0, i as int);
            }
            return i;
        }
        i = i + 1;
    }
}

/// Parses one segment as a term of the grammar.
fn parse_term(s: &str) -> (r: Option<Term>)
    ensures
        match r {
            Some(t) => parse_term_spec(s@) == Some((t.field@, t.op, t.literal@)),
            None => parse_term_spec(s@) is None,
        },
{
    let len = s.unicode_len();
    let p = find_op_exec(s);
    if p == len || p == 0 {
        return None;
    }
    let mut j: usize = 0;
    while j < p
        invariant
            j <= p,
            p < s@.len(),
            p == find_op_from(s@, 0),
            forall|k: int| 0 <= k < j ==> word_char(s@[k]),
        decreases p - j,
    {
        let c = s.get_char(j);
        if !(('a' <= c && c <= 'z') || ('A' <= c && c <= 'Z') || ('0' <= c && c <= '9') || c
            == '_') {
            assert(!word_char(s@[j as int]));
            return None;
        }
        j = j + 1;
    }
    let c = s.get_char(p);
    let (op, ol): (Op, usize) = if c == '!' {
        (Op::Ne, 2)
    } else if c == '>' {
        if p + 1 < len && s.get_char(p + 1) == '=' {
            (Op::Ge, 2)
        } else {
            (Op::Gt, 1)
        }
    } else if c == '<' {
        if p + 1 < len && s.get_char(p + 1) == '=' {
            (Op::Le, 2)
        } else {
            (Op::Lt, 1)
        }
    } else if c == '=' {
        (Op::Eq, 1)
    } else {
        (Op::Contains, 1)
    };
    proof {
        lemma_find_op_from_props(s@, 0);
        assert(op_start(s@, p as int));
        assert((op, ol as int) == op_and_len(s@, p as int));
        assert(p + ol <= s@.len());
    }
    let rest_len = len - p - ol;
    assert(s@.skip(p + ol).len() == rest_len);
    if rest_len < 2 {
        return None;
    }
    let q0 = s.get_char(p + ol);
    let q1 = s.get_char(len - 1);
    proof {
        assert(s@.skip(p + ol)[0] == s@[p + ol]);
        assert(s@.skip(p + ol)[rest_len - 1] == s@[len - 1]);
    }
    if !(q0 == '\'' && q1 == '\'') {
        return None;
    }
    let raw_lit = s.substring_char(p + ol + 1, len - 1);
    let literal = trim(raw_lit);
    proof {
        assert(raw_lit@ =~= s@.skip(p + ol).subrange(1, rest_len as int - 1));
    }
    let field = s.substring_char(0, p).to_owned();
    Some(Term { field, op, literal })
}

/// Compiles a raw filter parameter into a filter chain.
///
/// The empty string compiles to the match-all chain.  Any segment that
/// fails the term pattern rejects the whole parameter: nothing
/// partially-built reaches the executor.
pub fn parse_filter(raw: &str) -> (r: Result<Filter, ParseError>)
    ensures
        match r {
            Ok(f) => f.wf() && parse_filter_spec(raw@) == Some((f.term_views(), f.conns@)),
            Err(e) => e == ParseError::BadTerm && parse_filter_spec(raw@) is None,
        },
{
    if raw.unicode_len() == 0 {
        let f = Filter { terms: Vec::new(), conns: Vec::new() };
        proof {
            assert(f.term_views() =~= Seq::<(Seq<char>, Op, Seq<char>)>::empty());
        }
        return Ok(f);
    }
    let (segs, conns) = tokenize_exec(raw);
    proof {
        lemma_tokenize_len(raw@);
    }
    let mut terms: Vec<Term> = Vec::new();
    let mut i: usize = 0;
    while i < segs.len()
        invariant
            i <= segs.len(),
            raw@.len() != 0,
            segs@.len() == tokenize(raw@).0.len(),
            forall|k: int| 0 <= k < segs@.len() ==> segs@[k]@ == tokenize(raw@).0[k],
            terms@.len() == i,
            forall|k: int|
                0 <= k < i ==> parse_term_spec(tokenize(raw@).0[k]) == Some(
                    (#[trigger] terms@[k].field@, terms@[k].op, terms@[k].literal@),
                ),
        decreases segs.len() - i,
    {
        match parse_term(segs[i].as_str()) {
            Some(t) => {
                terms.push(t);
            },
            None => {
                proof {
                    let segsv = tokenize(raw@).0;
                    assert(parse_term_spec(segsv[i as int]) is None);
                    lemma_parse_segments_none(segsv, i as int);
                }
                return Err(ParseError::BadTerm);
            },
        }
        i = i + 1;
    }
    let f = Filter { terms, conns };
    proof {
        assert(raw@.len() > 0);
        let segsv = tokenize(raw@).0;
        assert forall|k: int| 0 <= k < segsv.len() implies parse_term_spec(#[trigger] segsv[k])
            == Some(f.term_views()[k]) by {
            assert(parse_term_spec(tokenize(raw@).0[k]) == Some(
                (terms@[k].field@, terms@[k].op, terms@[k].literal@),
            ));
        }
        lemma_parse_segments_all(segsv, f.term_views());
    }
    Ok(f)
}

/// Evaluates a compiled filter against one document.
pub fn eval_filter(f: &Filter, d: &crate::document::Document) -> (r: bool)
    requires
        f.wf(),
    ensures
        r == filter_matches(*f, d@),
{
    let n = f.terms.len();
    if n == 0 {
        return true;
    }
    let mut acc = eval_term_exec(&f.terms[n - 1], d);
    proof {
        assert(f.term_views()[n - 1] == (f.terms@[n - 1].field@, f.terms@[n - 1].op, f.terms@[n
            - 1].literal@));
    }
    let mut k = n - 1;
    while k > 0
        invariant
            k < n,
            n == f.terms@.len(),
            f.wf(),
            acc == eval_from(f.term_views(), f.conns@, d@, k as int),
        decreases k,
    {
        k = k - 1;
        let head = eval_term_exec(&f.terms[k], d);
        proof {
            assert(f.term_views()[k as int] == (f.terms@[k as int].field@, f.terms@[k as int].op,
                f.terms@[k as int].literal@));
        }
        acc = match f.conns[k] {
            Conn::And => head && acc,
            Conn::Or => head || acc,
        };
    }
    acc
}

/// Evaluates one term against one document.
fn eval_term_exec(t: &Term, d: &crate::document::Document) -> (r: bool)
    ensures
        r == eval_term(t.field@, t.op, t.literal@, d@),
{
    let v = d.field_text(t.field.as_str());
    match t.op {
        Op::Eq => str_eq(v.as_str(), t.literal.as_str()),
        Op::Ne => !str_eq(v.as_str(), t.literal.as_str()),
        Op::Gt => !str_le(v.as_str(), t.literal.as_str()),
        Op::Lt => !str_le(t.literal.as_str(), v.as_str()),
        Op::Ge => str_le(t.literal.as_str(), v.as_str()),
        Op::Le => str_le(v.as_str(), t.literal.as_str()),
        Op::Contains => str_contains(v.as_str(), t.literal.as_str()),
    }
}

/// Compiles a comma-separated field list into the ordered projection.
/// Every entry maps identically to itself as output key and source path.
/// The empty list, or an empty entry, is rejected.
pub fn compile_projection(s: &str) -> (r: Result<Vec<String>, ParseError>)
    ensures
        match r {
            Ok(v) => {
                &&& v@.len() == split_char(s@, ',').len()
                &&& forall|i: int| 0 <= i < v@.len() ==> v@[i]@ == split_char(s@, ',')[i]
                &&& forall|i: int|
                    0 <= i < split_char(s@, ',').len() ==> (#[trigger] split_char(s@, ',')[i]).len()
                        > 0
            },
            Err(e) => {
                &&& e == ParseError::EmptyFieldList
                &&& exists|i: int|
                    0 <= i < split_char(s@, ',').len() && (#[trigger] split_char(s@, ',')[i]).len()
                        == 0
            },
        },
{
    let parts = split_str(s, ',');
    let mut i: usize = 0;
    while i < parts.len()
        invariant
            i <= parts.len(),
            parts@.len() == split_char(s@, ',').len(),
            forall|k: int| 0 <= k < parts@.len() ==> parts@[k]@ == split_char(s@, ',')[k],
            forall|k: int| 0 <= k < i ==> (#[trigger] split_char(s@, ',')[k]).len() > 0,
        decreases parts.len() - i,
    {
        if parts[i].as_str().unicode_len() == 0 {
            assert(split_char(s@, ',')[i as int].len() == 0);
            return Err(ParseError::EmptyFieldList);
        }
        i = i + 1;
    }
    Ok(parts)
}

/// Compiles the sort parameter: a single field name, ascending only.
/// The empty name is rejected.
pub fn compile_sort(s: &str) -> (r: Result<String, ParseError>)
    ensures
        match r {
            Ok(v) => v@ == s@ && s@.len() > 0,
            Err(e) => e == ParseError::EmptySort && s@.len() == 0,
        },
{
    if s.unicode_len() == 0 {
        Err(ParseError::EmptySort)
    } else {
        Ok(s.to_owned())
    }
}

/// The compiled, executable form of a client's field/filter/sort request.
#[derive(Debug)]
pub struct QueryPlan {
    /// The fields to project, in output order.
    pub fields: Vec<String>,
    /// The filter chain; empty means match all.
    pub filter: Filter,
    /// The field whose text the result is sorted by, ascending.
    pub sort: String,
}

impl QueryPlan {
    pub open spec fn wf(self) -> bool {
        self.filter.wf()
    }
}

/// Compiles the three query parameters into a plan.  Compilation touches
/// no storage and rejects malformed input before anything else runs:
/// the field list first, then the filter, then the sort key.
pub fn compile_query(fields: &str, filter: &str, sort: &str) -> (r: Result<QueryPlan, ParseError>)
    ensures
        match r {
            Ok(p) => {
                &&& p.wf()
                &&& p.fields@.len() == split_char(fields@, ',').len()
                &&& forall|i: int|
                    0 <= i < p.fields@.len() ==> p.fields@[i]@ == split_char(fields@, ',')[i]
                &&& forall|i: int|
                    0 <= i < split_char(fields@, ',').len() ==> (#[trigger] split_char(
                        fields@,
                        ',',
                    )[i]).len() > 0
                &&& parse_filter_spec(filter@) == Some((p.filter.term_views(), p.filter.conns@))
                &&& p.sort@ == sort@
                &&& sort@.len() > 0
            },
            Err(e) => {
                ||| (e == ParseError::EmptyFieldList && exists|i: int|
                    0 <= i < split_char(fields@, ',').len() && (#[trigger] split_char(
                        fields@,
                        ',',
                    )[i]).len() == 0)
                ||| (e == ParseError::BadTerm && parse_filter_spec(filter@) is None)
                ||| (e == ParseError::EmptySort && sort@.len() == 0)
            },
        },
{
    let fields = match compile_projection(fields) {
        Ok(v) => v,
        Err(e) => {
            return Err(e);
        },
    };
    let filter = match parse_filter(filter) {
        Ok(f) => f,
        Err(e) => {
            return Err(e);
        },
    };
    let sort = match compile_sort(sort) {
        Ok(v) => v,
        Err(e) => {
            return Err(e);
        },
    };
    Ok(QueryPlan { fields, filter, sort })
}

} // verus!
