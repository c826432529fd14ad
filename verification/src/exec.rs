//! The query executor: applies a compiled plan to a retrieved page of
//! documents.  The pipeline is fixed: filter first, then projection, then
//! a stable ascending sort of the filtered, projected set by the sort
//! field's text.  Because sorting runs after projection, a sort field that
//! was not projected sorts by the empty text; callers should include the
//! sort field in the field list.
//!
//! The executor is pure: its result is a function of the documents and
//! the plan alone.

use vstd::multiset::Multiset;
use vstd::prelude::*;
use vstd::seq_lib::*;
use vstd::string::*;

use crate::document::{doc_get, doc_text, Document, Field};
use crate::query::{filter_matches, Filter, QueryPlan};
use crate::text::lex_le;
use crate::value::Value;

verus! {

/// An absent projection source yields an explicit null field.
pub open spec fn opt_or_null(o: Option<Value>) -> Value {
    match o {
        Some(v) => v,
        None => Value::Null,
    }
}

/// The projection of one document: exactly the requested fields, in the
/// requested order, each carrying the document's value for that name or
/// null when absent.
pub open spec fn project_spec(names: Seq<String>, d: Seq<Field>) -> Seq<Field> {
    Seq::new(
        names.len(),
        |i: int| (Field { name: names[i], value: opt_or_null(doc_get(d, names[i]@)) }),
    )
}

/// The documents of `docs` that satisfy `f`, in their given order.
pub open spec fn matching_docs(f: Filter, docs: Seq<Seq<Field>>) -> Seq<Seq<Field>> {
    docs.filter(|d: Seq<Field>| filter_matches(f, d))
}

/// Stable insertion of `d` into `s`: `d` goes after every document whose
/// sort text is less than or equal to its own.
pub open spec fn insert_sorted(d: Seq<Field>, s: Seq<Seq<Field>>, sort: Seq<char>) -> Seq<
    Seq<Field>,
>
    decreases s.len(),
{
    if s.len() == 0 {
        seq![d]
    } else if lex_le(doc_text(s[0], sort), doc_text(d, sort)) {
        seq![s[0]] + insert_sorted(d, s.skip(1), sort)
    } else {
        seq![d] + s
    }
}

/// The stable ascending sort of `docs` by the text of the field named
/// `sort`.
pub open spec fn sort_docs(docs: Seq<Seq<Field>>, sort: Seq<char>) -> Seq<Seq<Field>>
    decreases docs.len(),
{
    if docs.len() == 0 {
        Seq::empty()
    } else {
        insert_sorted(docs.last(), sort_docs(docs.drop_last(), sort), sort)
    }
}

/// The whole pipeline: filter, then project, then stable sort.
pub open spec fn execute_spec(docs: Seq<Seq<Field>>, plan: QueryPlan) -> Seq<Seq<Field>> {
    sort_docs(
        matching_docs(plan.filter, docs).map_values(|d: Seq<Field>| project_spec(plan.fields@, d)),
        plan.sort@,
    )
}

/// The result is ordered: earlier documents never carry a greater sort
/// text than later ones.
pub open spec fn sorted_by_text(s: Seq<Seq<Field>>, sort: Seq<char>) -> bool {
    forall|i: int, j: int|
        0 <= i < j < s.len() ==> lex_le(doc_text(s[i], sort), doc_text(s[j], sort))
}

/// The documents whose sort text equals `k`, used to state stability.
pub open spec fn text_is(sort: Seq<char>, k: Seq<char>) -> spec_fn(Seq<Field>) -> bool {
    |x: Seq<Field>| doc_text(x, sort) == k
}

proof fn lemma_insert_sorted_elems(d: Seq<Field>, s: Seq<Seq<Field>>, sort: Seq<char>)
    ensures
        insert_sorted(d, s, sort).len() == s.len() + 1,
        forall|k: int|
            0 <= k < insert_sorted(d, s, sort).len() ==> (#[trigger] insert_sorted(d, s, sort)[k]
                == d || s.contains(insert_sorted(d, s, sort)[k])),
    decreases s.len(),
{
    let r = insert_sorted(d, s, sort);
    if s.len() == 0 {
    } else if lex_le(doc_text(s[0], sort), doc_text(d, sort)) {
        let t = s.skip(1);
        lemma_insert_sorted_elems(d, t, sort);
        assert forall|k: int| 0 <= k < r.len() implies (#[trigger] r[k] == d || s.contains(
            r[k],
        )) by {
            if k == 0 {
                assert(s[0] == r[0]);
                assert(s.contains(s[0]));
            } else {
                let ins = insert_sorted(d, t, sort);
                assert(r[k] == ins[k - 1]);
                if ins[k - 1] == d {
                } else {
                    let m = choose|m: int| 0 <= m < t.len() && t[m] == ins[k - 1];
                    assert(s[m + 1] == t[m]);
                    assert(s.contains(s[m + 1]));
                }
            }
        }
    } else {
        assert forall|k: int| 0 <= k < r.len() implies (#[trigger] r[k] == d || s.contains(
            r[k],
        )) by {
            if k > 0 {
                assert(r[k] == s[k - 1]);
                assert(s.contains(s[k - 1]));
            }
        }
    }
}

proof fn lemma_insert_sorted_sorted(d: Seq<Field>, s: Seq<Seq<Field>>, sort: Seq<char>)
    requires
        sorted_by_text(s, sort),
    ensures
        sorted_by_text(insert_sorted(d, s, sort), sort),
    decreases s.len(),
{
    let r = insert_sorted(d, s, sort);
    let dt = doc_text(d, sort);
    if s.len() == 0 {
    } else if lex_le(doc_text(s[0], sort), dt) {
        let t = s.skip(1);
        assert forall|i: int, j: int| 0 <= i < j < t.len() implies lex_le(
            doc_text(t[i], sort),
            doc_text(t[j], sort),
        ) by {
            assert(t[i] == s[i + 1] && t[j] == s[j + 1]);
        }
        lemma_insert_sorted_sorted(d, t, sort);
        lemma_insert_sorted_elems(d, t, sort);
        let ins = insert_sorted(d, t, sort);
        assert forall|i: int, j: int| 0 <= i < j < r.len() implies lex_le(
            doc_text(r[i], sort),
            doc_text(r[j], sort),
        ) by {
            if i == 0 {
                assert(r[j] == ins[j - 1]);
                if ins[j - 1] == d {
                } else {
                    let m = choose|m: int| 0 <= m < t.len() && t[m] == ins[j - 1];
                    assert(t[m] == s[m + 1]);
                    assert(lex_le(doc_text(s[0], sort), doc_text(s[m + 1], sort)));
                }
            } else {
                assert(r[i] == ins[i - 1] && r[j] == ins[j - 1]);
            }
        }
    } else {
        crate::text::lemma_lex_le_total(doc_text(s[0], sort), dt);
        assert forall|i: int, j: int| 0 <= i < j < r.len() implies lex_le(
            doc_text(r[i], sort),
            doc_text(r[j], sort),
        ) by {
            if i == 0 {
                assert(r[j] == s[j - 1]);
                if j == 1 {
                } else {
                    crate::text::lemma_lex_le_trans(
                        dt,
                        doc_text(s[0], sort),
                        doc_text(s[j - 1], sort),
                    );
                }
            } else {
                assert(r[i] == s[i - 1] && r[j] == s[j - 1]);
            }
        }
    }
}

/// Sorting yields an ordered sequence.
pub proof fn lemma_sort_docs_sorted(docs: Seq<Seq<Field>>, sort: Seq<char>)
    ensures
        sorted_by_text(sort_docs(docs, sort), sort),
    decreases docs.len(),
{
    if docs.len() > 0 {
        lemma_sort_docs_sorted(docs.drop_last(), sort);
        lemma_insert_sorted_sorted(docs.last(), sort_docs(docs.drop_last(), sort), sort);
    }
}

proof fn lemma_insert_sorted_multiset(d: Seq<Field>, s: Seq<Seq<Field>>, sort: Seq<char>)
    ensures
        insert_sorted(d, s, sort).to_multiset() == s.to_multiset().insert(d),
    decreases s.len(),
{
    broadcast use vstd::seq_lib::group_seq_properties;

    let r = insert_sorted(d, s, sort);
    if s.len() == 0 {
        assert(seq![d] =~= Seq::<Seq<Field>>::empty().push(d));
        assert(r.to_multiset() =~= s.to_multiset().insert(d));
    } else if lex_le(doc_text(s[0], sort), doc_text(d, sort)) {
        let t = s.skip(1);
        lemma_insert_sorted_multiset(d, t, sort);
        let ins = insert_sorted(d, t, sort);
        lemma_multiset_commutative(seq![s[0]], ins);
        assert(s =~= seq![s[0]] + t);
        lemma_multiset_commutative(seq![s[0]], t);
        assert(r.to_multiset() =~= s.to_multiset().insert(d));
    } else {
        lemma_multiset_commutative(seq![d], s);
        assert(seq![d].to_multiset() =~= Multiset::<Seq<Field>>::empty().insert(d));
        assert(r.to_multiset() =~= s.to_multiset().insert(d));
    }
}

/// Sorting permutes: the sorted sequence holds exactly the documents of
/// the input, with multiplicity.
pub proof fn lemma_sort_docs_multiset(docs: Seq<Seq<Field>>, sort: Seq<char>)
    ensures
        sort_docs(docs, sort).to_multiset() == docs.to_multiset(),
    decreases docs.len(),
{
    broadcast use vstd::seq_lib::group_seq_properties;

    if docs.len() > 0 {
        lemma_sort_docs_multiset(docs.drop_last(), sort);
        lemma_insert_sorted_multiset(docs.last(), sort_docs(docs.drop_last(), sort), sort);
        assert(docs.drop_last().push(docs.last()) =~= docs);
    }
}

proof fn lemma_filter_all_false(s: Seq<Seq<Field>>, pred: spec_fn(Seq<Field>) -> bool)
    requires
        forall|k: int| 0 <= k < s.len() ==> !pred(#[trigger] s[k]),
    ensures
        s.filter(pred) == Seq::<Seq<Field>>::empty(),
    decreases s.len(),
{
    reveal(Seq::filter);
    if s.len() > 0 {
        lemma_filter_all_false(s.drop_last(), pred);
    }
}

proof fn lemma_insert_sorted_stable(d: Seq<Field>, s: Seq<Seq<Field>>, sort: Seq<char>, k: Seq<char>)
    requires
        sorted_by_text(s, sort),
    ensures
        insert_sorted(d, s, sort).filter(text_is(sort, k)) == if doc_text(d, sort) == k {
            s.filter(text_is(sort, k)).push(d)
        } else {
            s.filter(text_is(sort, k))
        },
    decreases s.len(),
{
    let p = text_is(sort, k);
    let r = insert_sorted(d, s, sort);
    if s.len() == 0 {
        reveal(Seq::filter);
        assert(seq![d] =~= Seq::<Seq<Field>>::empty().push(d));
        lemma_filter_push(Seq::<Seq<Field>>::empty(), p, d);
        if p(d) {
            assert(r.filter(p) =~= s.filter(p).push(d));
        } else {
            assert(r.filter(p) =~= s.filter(p));
        }
    } else if lex_le(doc_text(s[0], sort), doc_text(d, sort)) {
        let t = s.skip(1);
        assert forall|i: int, j: int| 0 <= i < j < t.len() implies lex_le(
            doc_text(t[i], sort),
            doc_text(t[j], sort),
        ) by {
            assert(t[i] == s[i + 1] && t[j] == s[j + 1]);
        }
        lemma_insert_sorted_stable(d, t, sort, k);
        let ins = insert_sorted(d, t, sort);
        Seq::filter_distributes_over_add(seq![s[0]], ins, p);
        assert(s =~= seq![s[0]] + t);
        Seq::filter_distributes_over_add(seq![s[0]], t, p);
        if doc_text(d, sort) == k {
            assert(seq![s[0]].filter(p) + t.filter(p).push(d) =~= (seq![s[0]].filter(p) + t.filter(
                p,
            )).push(d));
            assert(r.filter(p) =~= s.filter(p).push(d));
        } else {
            assert(r.filter(p) =~= s.filter(p));
        }
    } else {
        Seq::filter_distributes_over_add(seq![d], s, p);
        reveal(Seq::filter);
        assert(seq![d] =~= Seq::<Seq<Field>>::empty().push(d));
        lemma_filter_push(Seq::<Seq<Field>>::empty(), p, d);
        if doc_text(d, sort) == k {
            crate::text::lemma_lex_le_refl(doc_text(d, sort));
            assert forall|m: int| 0 <= m < s.len() implies !p(#[trigger] s[m]) by {
                if doc_text(s[m], sort) == k {
                    if m == 0 {
                        assert(lex_le(doc_text(s[0], sort), doc_text(d, sort)));
                    } else {
                        crate::text::lemma_lex_le_trans(
                            doc_text(s[0], sort),
                            doc_text(s[m], sort),
                            doc_text(d, sort),
                        );
                    }
                }
            }
            lemma_filter_all_false(s, p);
            assert(r.filter(p) =~= s.filter(p).push(d));
        } else {
            assert(seq![d].filter(p) =~= Seq::<Seq<Field>>::empty());
            assert(r.filter(p) =~= s.filter(p));
        }
    }
}

/// Sorting is stable: for every sort text, the documents carrying it
/// appear in the sorted result in exactly their input order.
pub proof fn lemma_sort_docs_stable(docs: Seq<Seq<Field>>, sort: Seq<char>, k: Seq<char>)
    ensures
        sort_docs(docs, sort).filter(text_is(sort, k)) == docs.filter(text_is(sort, k)),
    decreases docs.len(),
{
    let p = text_is(sort, k);
    if docs.len() == 0 {
        reveal(Seq::filter);
    } else {
        lemma_sort_docs_stable(docs.drop_last(), sort, k);
        lemma_sort_docs_sorted(docs.drop_last(), sort);
        lemma_insert_sorted_stable(docs.last(), sort_docs(docs.drop_last(), sort), sort, k);
        assert(docs.drop_last().push(docs.last()) =~= docs);
        lemma_filter_push(docs.drop_last(), p, docs.last());
    }
}

/// Filtering a sequence extended by one document keeps the document
/// exactly when it matches.
proof fn lemma_filter_push(s: Seq<Seq<Field>>, pred: spec_fn(Seq<Field>) -> bool, x: Seq<Field>)
    ensures
        s.push(x).filter(pred) == if pred(x) {
            s.filter(pred).push(x)
        } else {
            s.filter(pred)
        },
{
    assert(s.push(x).drop_last() =~= s);
    assert(s.push(x).last() == x);
    reveal(Seq::filter);
}

/// Projects one document under the plan's field list.
pub fn project_doc(names: &Vec<String>, d: &Document) -> (r: Document)
    ensures
        r@ == project_spec(names@, d@),
{
    let mut fields: Vec<Field> = Vec::new();
    let mut i: usize = 0;
    while i < names.len()
        invariant
            i <= names.len(),
            fields@.len() == i,
            forall|k: int| 0 <= k < i ==> fields@[k] == project_spec(names@, d@)[k],
        decreases names.len() - i,
    {
        let value = match d.get(names[i].as_str()) {
            Some(v) => v.clone(),
            None => Value::Null,
        };
        fields.push(Field { name: names[i].clone(), value });
        i = i + 1;
    }
    let r = Document { fields };
    proof {
        assert(r@ =~= project_spec(names@, d@));
    }
    r
}

/// Whether `a`'s sort text is at most `key` in lexicographic order.
fn sorts_no_later(a: &Document, sort: &str, key: &str) -> (r: bool)
    ensures
        r == lex_le(doc_text(a@, sort@), key@),
{
    let t = a.field_text(sort);
    crate::text::str_le(t.as_str(), key)
}

/// Inserts a document into an already sorted run, after every document
/// whose sort text is less than or equal to its own.
fn insert_doc_sorted(out: &mut Vec<Document>, d: Document, sort: &str)
    ensures
        final(out)@.map_values(|x: Document| x@) == insert_sorted(
            d@,
            old(out)@.map_values(|x: Document| x@),
            sort@,
        ),
{
    let ghost s = old(out)@.map_values(|x: Document| x@);
    let key = d.field_text(sort);
    let mut j: usize = 0;
    while j < out.len() && sorts_no_later(&out[j], sort, key.as_str())
        invariant
            j <= out.len(),
            s == out@.map_values(|x: Document| x@),
            key@ == doc_text(d@, sort@),
            forall|k: int| 0 <= k < j ==> lex_le(doc_text(s[k], sort@), doc_text(d@, sort@)),
        decreases out.len() - j,
    {
        j = j + 1;
    }
    proof {
        lemma_insert_sorted_at(d@, s, sort@, j as int);
    }
    out.insert(j, d);
    proof {
        let m = final(out)@.map_values(|x: Document| x@);
        assert(m =~= s.subrange(0, j as int) + seq![d@] + s.skip(j as int));
    }
}

/// `insert_sorted` places the document at the first index whose sort text
/// exceeds its own.
proof fn lemma_insert_sorted_at(d: Seq<Field>, s: Seq<Seq<Field>>, sort: Seq<char>, j: int)
    requires
        0 <= j <= s.len(),
        forall|k: int| 0 <= k < j ==> lex_le(doc_text(s[k], sort), doc_text(d, sort)),
        j < s.len() ==> !lex_le(doc_text(s[j], sort), doc_text(d, sort)),
    ensures
        insert_sorted(d, s, sort) == s.subrange(0, j) + seq![d] + s.skip(j),
    decreases s.len(),
{
    if s.len() == 0 {
        assert(insert_sorted(d, s, sort) =~= s.subrange(0, j) + seq![d] + s.skip(j));
    } else if j == 0 {
        assert(insert_sorted(d, s, sort) =~= s.subrange(0, j) + seq![d] + s.skip(j));
    } else {
        assert(lex_le(doc_text(s[0], sort), doc_text(d, sort)));
        let t = s.skip(1);
        assert forall|k: int| 0 <= k < j - 1 implies lex_le(
            doc_text(t[k], sort),
            doc_text(d, sort),
        ) by {
            assert(t[k] == s[k + 1]);
        }
        assert(j - 1 < t.len() ==> t[j - 1] == s[j]);
        lemma_insert_sorted_at(d, t, sort, j - 1);
        assert(seq![s[0]] + (t.subrange(0, j - 1) + seq![d] + t.skip(j - 1)) =~= s.subrange(0, j)
            + seq![d] + s.skip(j));
    }
}

/// Applies a compiled plan to a page of documents: filter, project, then
/// stable sort.  The result is fully determined by the documents and the
/// plan, so repeated execution over the same input yields the same output.
pub fn execute(docs: &Vec<Document>, plan: &QueryPlan) -> (r: Vec<Document>)
    requires
        plan.wf(),
    ensures
        r@.map_values(|x: Document| x@) == execute_spec(
            docs@.map_values(|x: Document| x@),
            *plan,
        ),
{
    let ghost dv = docs@.map_values(|x: Document| x@);
    let ghost pred = |d: Seq<Field>| filter_matches(plan.filter, d);
    let ghost proj = |d: Seq<Field>| project_spec(plan.fields@, d);
    let mut kept: Vec<Document> = Vec::new();
    let mut i: usize = 0;
    proof {
        assert(dv.take(0) =~= Seq::<Seq<Field>>::empty());
        reveal(Seq::filter);
        assert(kept@.map_values(|x: Document| x@) =~= dv.take(0).filter(pred).map_values(proj));
    }
    while i < docs.len()
        invariant
            i <= docs.len(),
            plan.wf(),
            dv == docs@.map_values(|x: Document| x@),
            dv.len() == docs@.len(),
            pred == (|d: Seq<Field>| filter_matches(plan.filter, d)),
            proj == (|d: Seq<Field>| project_spec(plan.fields@, d)),
            kept@.map_values(|x: Document| x@) == dv.take(i as int).filter(pred).map_values(proj),
        decreases docs.len() - i,
    {
        let ghost prefix = dv.take(i as int);
        proof {
            assert(dv[i as int] == docs@[i as int]@);
            assert(pred(dv[i as int]) == filter_matches(plan.filter, dv[i as int]));
            assert(proj(dv[i as int]) == project_spec(plan.fields@, dv[i as int]));
            assert(dv.take(i + 1) =~= prefix.push(dv[i as int]));
            lemma_filter_push(prefix, pred, dv[i as int]);
        }
        if crate::query::eval_filter(&plan.filter, &docs[i]) {
            let ghost k0 = kept@;
            let p = project_doc(&plan.fields, &docs[i]);
            kept.push(p);
            proof {
                assert(p@ == proj(dv[i as int]));
                assert(kept@ =~= k0.push(p));
                assert(kept@.map_values(|x: Document| x@) =~= k0.map_values(|x: Document| x@).push(
                    p@,
                ));
                assert(dv.take(i + 1).filter(pred) == prefix.filter(pred).push(dv[i as int]));
                assert(prefix.filter(pred).push(dv[i as int]).map_values(proj) =~= prefix.filter(
                    pred,
                ).map_values(proj).push(proj(dv[i as int])));
                assert(kept@.map_values(|x: Document| x@) =~= dv.take(i + 1).filter(pred)
                    .map_values(proj));
            }
        } else {
            proof {
                assert(kept@.map_values(|x: Document| x@) =~= dv.take(i + 1).filter(pred)
                    .map_values(proj));
            }
        }
        i = i + 1;
    }
    proof {
        assert(dv.take(dv.len() as int) =~= dv);
    }
    let mut out: Vec<Document> = Vec::new();
    let ghost kv = kept@.map_values(|x: Document| x@);
    let mut j: usize = 0;
    proof {
        assert(kv.take(0) =~= Seq::<Seq<Field>>::empty());
        assert(out@.map_values(|x: Document| x@) =~= sort_docs(kv.take(0), plan.sort@));
    }
    while j < kept.len()
        invariant
            j <= kept.len(),
            kv == kept@.map_values(|x: Document| x@),
            kv.len() == kept@.len(),
            out@.map_values(|x: Document| x@) == sort_docs(kv.take(j as int), plan.sort@),
        decreases kept.len() - j,
    {
        let d = kept[j].clone();
        assert(d@ == kv[j as int]);
        insert_doc_sorted(&mut out, d, plan.sort.as_str());
        proof {
            assert(kv.take(j + 1).drop_last() =~= kv.take(j as int));
            assert(kv.take(j + 1).last() == kv[j as int]);
        }
        j = j + 1;
    }
    proof {
        assert(kv.take(kv.len() as int) =~= kv);
    }
    out
}

} // verus!
