//! The document store: one collection of resource documents, keyed by
//! `sourcedId`, held in ascending identifier order.  Upsert is an
//! all-or-nothing batch: either every document of the batch is
//! inserted-or-replaced, or — when any document is malformed — nothing
//! changes at all.  Retrieval pages through the rows in identifier order;
//! that storage order is the stable basis for pagination, not the final
//! response order.
//!
//! Pagination is applied here, before any filter runs in memory, so a
//! page may yield fewer than `limit` documents once filtered: a documented
//! property of the design, not an accident.

use vstd::prelude::*;
use vstd::string::*;

use crate::document::{doc_id, doc_valid, Document, Field};
use crate::error::StorageError;
use crate::text::{lex_le, lex_lt};

verus! {

/// Rows are strictly ordered by identifier: sorted, and free of
/// duplicates.
pub open spec fn rows_sorted(rows: Seq<Seq<Field>>) -> bool {
    forall|i: int, j: int| 0 <= i < j < rows.len() ==> lex_lt(doc_id(rows[i]), doc_id(rows[j]))
}

/// Every row is a valid document.
pub open spec fn rows_valid(rows: Seq<Seq<Field>>) -> bool {
    forall|i: int| 0 <= i < rows.len() ==> doc_valid(#[trigger] rows[i])
}

/// The row stored under `id`, if any.
pub open spec fn rows_lookup(rows: Seq<Seq<Field>>, id: Seq<char>) -> Option<Seq<Field>>
    decreases rows.len(),
{
    if rows.len() == 0 {
        None
    } else if doc_id(rows[0]) == id {
        Some(rows[0])
    } else {
        rows_lookup(rows.skip(1), id)
    }
}

/// One insert-or-replace, keeping the rows in ascending identifier order.
pub open spec fn upsert_one(rows: Seq<Seq<Field>>, d: Seq<Field>) -> Seq<Seq<Field>>
    decreases rows.len(),
{
    if rows.len() == 0 {
        seq![d]
    } else if doc_id(d) == doc_id(rows[0]) {
        seq![d] + rows.skip(1)
    } else if lex_lt(doc_id(d), doc_id(rows[0])) {
        seq![d] + rows
    } else {
        seq![rows[0]] + upsert_one(rows.skip(1), d)
    }
}

/// A whole batch applied in order: a later document with the same
/// identifier replaces an earlier one.
pub open spec fn upsert_all(rows: Seq<Seq<Field>>, batch: Seq<Seq<Field>>) -> Seq<Seq<Field>>
    decreases batch.len(),
{
    if batch.len() == 0 {
        rows
    } else {
        upsert_one(upsert_all(rows, batch.drop_last()), batch.last())
    }
}

/// Every document of the batch is valid.
pub open spec fn batch_valid(batch: Seq<Seq<Field>>) -> bool {
    forall|i: int| 0 <= i < batch.len() ==> doc_valid(#[trigger] batch[i])
}

proof fn lemma_upsert_one_elems(rows: Seq<Seq<Field>>, d: Seq<Field>)
    ensures
        rows.len() <= upsert_one(rows, d).len() <= rows.len() + 1,
        forall|k: int|
            0 <= k < upsert_one(rows, d).len() ==> (#[trigger] upsert_one(rows, d)[k] == d
                || rows.contains(upsert_one(rows, d)[k])),
    decreases rows.len(),
{
    let r = upsert_one(rows, d);
    if rows.len() == 0 {
    } else if doc_id(d) == doc_id(rows[0]) {
        assert forall|k: int| 0 <= k < r.len() implies (#[trigger] r[k] == d || rows.contains(
            r[k],
        )) by {
            if k > 0 {
                assert(r[k] == rows[k]);
                assert(rows.contains(rows[k]));
            }
        }
    } else if lex_lt(doc_id(d), doc_id(rows[0])) {
        assert forall|k: int| 0 <= k < r.len() implies (#[trigger] r[k] == d || rows.contains(
            r[k],
        )) by {
            if k > 0 {
                assert(r[k] == rows[k - 1]);
                assert(rows.contains(rows[k - 1]));
            }
        }
    } else {
        let t = rows.skip(1);
        lemma_upsert_one_elems(t, d);
        assert forall|k: int| 0 <= k < r.len() implies (#[trigger] r[k] == d || rows.contains(
            r[k],
        )) by {
            if k == 0 {
                assert(r[0] == rows[0]);
                assert(rows.contains(rows[0]));
            } else {
                let ins = upsert_one(t, d);
                assert(r[k] == ins[k - 1]);
                if ins[k - 1] != d {
                    let m = choose|m: int| 0 <= m < t.len() && t[m] == ins[k - 1];
                    assert(rows[m + 1] == t[m]);
                    assert(rows.contains(rows[m + 1]));
                }
            }
        }
    }
}

/// Insert-or-replace keeps the rows strictly ordered and valid.
pub proof fn lemma_upsert_one_inv(rows: Seq<Seq<Field>>, d: Seq<Field>)
    requires
        rows_sorted(rows),
        rows_valid(rows),
        doc_valid(d),
    ensures
        rows_sorted(upsert_one(rows, d)),
        rows_valid(upsert_one(rows, d)),
    decreases rows.len(),
{
    let r = upsert_one(rows, d);
    lemma_upsert_one_elems(rows, d);
    if rows.len() == 0 {
    } else if doc_id(d) == doc_id(rows[0]) {
        assert forall|i: int, j: int| 0 <= i < j < r.len() implies lex_lt(
            doc_id(r[i]),
            doc_id(r[j]),
        ) by {
            if i == 0 {
                assert(r[j] == rows[j]);
                assert(lex_lt(doc_id(rows[0]), doc_id(rows[j])));
            } else {
                assert(r[i] == rows[i] && r[j] == rows[j]);
            }
        }
        assert forall|i: int| 0 <= i < r.len() implies doc_valid(#[trigger] r[i]) by {
            if i > 0 {
                assert(r[i] == rows[i]);
            }
        }
    } else if lex_lt(doc_id(d), doc_id(rows[0])) {
        assert forall|i: int, j: int| 0 <= i < j < r.len() implies lex_lt(
            doc_id(r[i]),
            doc_id(r[j]),
        ) by {
            if i == 0 {
                assert(r[j] == rows[j - 1]);
                if j > 1 {
                    assert(lex_lt(doc_id(rows[0]), doc_id(rows[j - 1])));
                    crate::text::lemma_lex_lt_trans(
                        doc_id(d),
                        doc_id(rows[0]),
                        doc_id(rows[j - 1]),
                    );
                }
            } else {
                assert(r[i] == rows[i - 1] && r[j] == rows[j - 1]);
            }
        }
        assert forall|i: int| 0 <= i < r.len() implies doc_valid(#[trigger] r[i]) by {
            if i > 0 {
                assert(r[i] == rows[i - 1]);
            }
        }
    } else {
        let t = rows.skip(1);
        assert forall|i: int, j: int| 0 <= i < j < t.len() implies lex_lt(
            doc_id(t[i]),
            doc_id(t[j]),
        ) by {
            assert(t[i] == rows[i + 1] && t[j] == rows[j + 1]);
        }
        assert forall|i: int| 0 <= i < t.len() implies doc_valid(#[trigger] t[i]) by {
            assert(t[i] == rows[i + 1]);
        }
        lemma_upsert_one_inv(t, d);
        lemma_upsert_one_elems(t, d);
        let ins = upsert_one(t, d);
        assert(!lex_lt(doc_id(d), doc_id(rows[0])) && doc_id(d) != doc_id(rows[0]));
        crate::text::lemma_lex_le_total(doc_id(d), doc_id(rows[0]));
        assert(lex_lt(doc_id(rows[0]), doc_id(d)));
        assert forall|i: int, j: int| 0 <= i < j < r.len() implies lex_lt(
            doc_id(r[i]),
            doc_id(r[j]),
        ) by {
            if i == 0 {
                assert(r[j] == ins[j - 1]);
                if ins[j - 1] == d {
                } else {
                    let m = choose|m: int| 0 <= m < t.len() && t[m] == ins[j - 1];
                    assert(t[m] == rows[m + 1]);
                    assert(lex_lt(doc_id(rows[0]), doc_id(rows[m + 1])));
                }
            } else {
                assert(r[i] == ins[i - 1] && r[j] == ins[j - 1]);
            }
        }
        assert forall|i: int| 0 <= i < r.len() implies doc_valid(#[trigger] r[i]) by {
            if i > 0 {
                assert(r[i] == ins[i - 1]);
            }
        }
    }
}

/// What is stored under each identifier after one insert-or-replace: the
/// new document under its own identifier, and what was there before under
/// every other.
pub proof fn lemma_upsert_one_lookup(rows: Seq<Seq<Field>>, d: Seq<Field>, id: Seq<char>)
    ensures
        rows_lookup(upsert_one(rows, d), id) == if id == doc_id(d) {
            Some(d)
        } else {
            rows_lookup(rows, id)
        },
    decreases rows.len(),
{
    let r = upsert_one(rows, d);
    if rows.len() == 0 {
        assert(r == seq![d]);
        assert(r[0] == d);
        assert(r.skip(1) =~= Seq::<Seq<Field>>::empty());
        assert(rows_lookup(r.skip(1), id) is None);
        assert(rows_lookup(r, id) == if doc_id(d) == id {
            Some(d)
        } else {
            rows_lookup(r.skip(1), id)
        });
    } else if doc_id(d) == doc_id(rows[0]) {
        assert(r[0] == d);
        assert(r.skip(1) =~= rows.skip(1));
        assert(rows_lookup(r, id) == if doc_id(d) == id {
            Some(d)
        } else {
            rows_lookup(rows.skip(1), id)
        });
        if id == doc_id(d) {
        } else {
            assert(rows_lookup(rows, id) == rows_lookup(rows.skip(1), id));
        }
    } else if lex_lt(doc_id(d), doc_id(rows[0])) {
        assert(r[0] == d);
        assert(r.skip(1) =~= rows);
        assert(rows_lookup(r, id) == if doc_id(d) == id {
            Some(d)
        } else {
            rows_lookup(rows, id)
        });
    } else {
        assert(r[0] == rows[0]);
        assert(r.skip(1) =~= upsert_one(rows.skip(1), d));
        lemma_upsert_one_lookup(rows.skip(1), d, id);
        assert(rows_lookup(r, id) == if doc_id(rows[0]) == id {
            Some(rows[0])
        } else {
            rows_lookup(upsert_one(rows.skip(1), d), id)
        });
        assert(rows_lookup(rows, id) == if doc_id(rows[0]) == id {
            Some(rows[0])
        } else {
            rows_lookup(rows.skip(1), id)
        });
    }
}

/// Upserting the same document twice is the same as upserting it once;
/// its identifier then resolves to exactly that document.
pub proof fn lemma_upsert_idempotent(rows: Seq<Seq<Field>>, d: Seq<Field>)
    ensures
        upsert_one(upsert_one(rows, d), d) == upsert_one(rows, d),
        rows_lookup(upsert_one(rows, d), doc_id(d)) == Some(d),
    decreases rows.len(),
{
    lemma_upsert_one_lookup(rows, d, doc_id(d));
    let r = upsert_one(rows, d);
    if rows.len() == 0 {
        assert(upsert_one(r, d) =~= r);
    } else if doc_id(d) == doc_id(rows[0]) {
        assert(r[0] == d);
        assert(upsert_one(r, d) =~= seq![d] + r.skip(1));
        assert(seq![d] + r.skip(1) =~= r);
    } else if lex_lt(doc_id(d), doc_id(rows[0])) {
        assert(r[0] == d);
        assert(upsert_one(r, d) =~= seq![d] + r.skip(1));
        assert(seq![d] + r.skip(1) =~= r);
    } else {
        lemma_upsert_idempotent(rows.skip(1), d);
        assert(r[0] == rows[0]);
        assert(r.skip(1) =~= upsert_one(rows.skip(1), d));
        assert(upsert_one(r, d) =~= seq![rows[0]] + upsert_one(r.skip(1), d));
        assert(seq![rows[0]] + upsert_one(r.skip(1), d) =~= r);
    }
}

/// Submitting the same one-document batch twice leaves the store exactly
/// as one submission leaves it.
pub proof fn lemma_upsert_batch_idempotent(rows: Seq<Seq<Field>>, d: Seq<Field>)
    ensures
        upsert_all(upsert_all(rows, seq![d]), seq![d]) == upsert_all(rows, seq![d]),
{
    assert(seq![d].drop_last() =~= Seq::<Seq<Field>>::empty());
    assert(seq![d].last() == d);
    assert(upsert_all(rows, Seq::<Seq<Field>>::empty()) == rows);
    assert(upsert_all(upsert_one(rows, d), Seq::<Seq<Field>>::empty()) == upsert_one(rows, d));
    assert(upsert_all(rows, seq![d]) == upsert_one(rows, d));
    lemma_upsert_idempotent(rows, d);
}

/// A strictly ordered store holds at most one row per identifier.
pub proof fn lemma_rows_unique(rows: Seq<Seq<Field>>)
    requires
        rows_sorted(rows),
    ensures
        forall|i: int, j: int| 0 <= i < j < rows.len() ==> doc_id(rows[i]) != doc_id(rows[j]),
{
    assert forall|i: int, j: int| 0 <= i < j < rows.len() implies doc_id(rows[i]) != doc_id(
        rows[j],
    ) by {
        assert(lex_lt(doc_id(rows[i]), doc_id(rows[j])));
    }
}

/// One collection of resource documents, in ascending `sourcedId` order.
#[derive(Debug)]
pub struct Store {
    pub rows: Vec<Document>,
}

impl View for Store {
    type V = Seq<Seq<Field>>;

    open spec fn view(&self) -> Seq<Seq<Field>> {
        self.rows@.map_values(|d: Document| d@)
    }
}

/// `upsert_one` places the document at the first index whose identifier
/// is not below its own.
proof fn lemma_upsert_one_at(rows: Seq<Seq<Field>>, d: Seq<Field>, j: int)
    requires
        0 <= j <= rows.len(),
        forall|k: int| 0 <= k < j ==> lex_lt(doc_id(rows[k]), doc_id(d)),
        j < rows.len() ==> !lex_lt(doc_id(rows[j]), doc_id(d)),
    ensures
        upsert_one(rows, d) == if j < rows.len() && doc_id(rows[j]) == doc_id(d) {
            rows.update(j, d)
        } else {
            rows.subrange(0, j) + seq![d] + rows.skip(j)
        },
    decreases rows.len(),
{
    if rows.len() == 0 {
        assert(upsert_one(rows, d) =~= rows.subrange(0, j) + seq![d] + rows.skip(j));
    } else if j == 0 {
        if doc_id(rows[0]) == doc_id(d) {
            assert(upsert_one(rows, d) =~= rows.update(0, d));
        } else {
            crate::text::lemma_lex_lt_not_le(doc_id(rows[0]), doc_id(d));
            crate::text::lemma_lex_lt_not_le(doc_id(d), doc_id(rows[0]));
            assert(lex_lt(doc_id(d), doc_id(rows[0])));
            assert(upsert_one(rows, d) =~= rows.subrange(0, j) + seq![d] + rows.skip(j));
        }
    } else {
        assert(lex_lt(doc_id(rows[0]), doc_id(d)));
        assert(doc_id(d) != doc_id(rows[0]));
        assert(!lex_lt(doc_id(d), doc_id(rows[0]))) by {
            if lex_lt(doc_id(d), doc_id(rows[0])) {
                crate::text::lemma_lex_le_antisymm(doc_id(d), doc_id(rows[0]));
            }
        }
        let t = rows.skip(1);
        assert forall|k: int| 0 <= k < j - 1 implies lex_lt(doc_id(t[k]), doc_id(d)) by {
            assert(t[k] == rows[k + 1]);
        }
        assert(j - 1 < t.len() ==> t[j - 1] == rows[j]);
        lemma_upsert_one_at(t, d, j - 1);
        if j < rows.len() && doc_id(rows[j]) == doc_id(d) {
            assert(seq![rows[0]] + t.update(j - 1, d) =~= rows.update(j, d));
        } else {
            assert(seq![rows[0]] + (t.subrange(0, j - 1) + seq![d] + t.skip(j - 1))
                =~= rows.subrange(0, j) + seq![d] + rows.skip(j));
        }
    }
}

/// Whether the row's identifier is strictly below `did`.
fn row_id_below(row: &Document, did: &str) -> (r: bool)
    requires
        doc_valid(row@),
    ensures
        r == lex_lt(doc_id(row@), did@),
{
    let rid = row.id();
    let le = crate::text::str_le(did, rid.as_str());
    proof {
        crate::text::lemma_lex_le_total(doc_id(row@), did@);
        if le && lex_lt(doc_id(row@), did@) {
            crate::text::lemma_lex_le_antisymm(did@, doc_id(row@));
        }
    }
    !le
}

impl Store {
    /// The store's invariant: rows strictly ordered by identifier, every
    /// row valid.
    pub open spec fn inv(self) -> bool {
        rows_sorted(self@) && rows_valid(self@)
    }

    /// An empty collection.
    pub fn new() -> (r: Store)
        ensures
            r.inv(),
            r@ == Seq::<Seq<Field>>::empty(),
    {
        let r = Store { rows: Vec::new() };
        proof {
            assert(r@ =~= Seq::<Seq<Field>>::empty());
        }
        r
    }

    /// The number of stored documents.
    pub fn len(&self) -> (n: usize)
        ensures
            n == self@.len(),
    {
        self.rows.len()
    }

    /// Inserts-or-replaces one valid document, keeping identifier order.
    fn insert_row(&mut self, d: Document)
        requires
            old(self).inv(),
            doc_valid(d@),
        ensures
            final(self).inv(),
            final(self)@ == upsert_one(old(self)@, d@),
    {
        let ghost rowsv = self@;
        let did = d.id();
        proof {
            assert forall|k: int| 0 <= k < self.rows@.len() implies doc_valid(
                #[trigger] self.rows@[k]@,
            ) by {
                assert(self@[k] == self.rows@[k]@);
            }
        }
        let mut j: usize = 0;
        while j < self.rows.len() && row_id_below(&self.rows[j], did.as_str())
            invariant
                j <= self.rows.len(),
                self == old(self),
                rowsv == self@,
                old(self).inv(),
                did@ == doc_id(d@),
                forall|k: int| 0 <= k < self.rows@.len() ==> doc_valid(#[trigger] self.rows@[k]@),
                forall|k: int| 0 <= k < j ==> lex_lt(doc_id(rowsv[k]), doc_id(d@)),
            decreases self.rows.len() - j,
        {
            j = j + 1;
        }
        proof {
            lemma_upsert_one_at(rowsv, d@, j as int);
            lemma_upsert_one_inv(rowsv, d@);
        }
        let mut replace = false;
        if j < self.rows.len() {
            let rid = self.rows[j].id();
            replace = crate::text::str_eq(rid.as_str(), did.as_str());
        }
        if replace {
            self.rows.set(j, d);
            proof {
                assert(self@ =~= rowsv.update(j as int, d@));
            }
        } else {
            self.rows.insert(j, d);
            proof {
                assert(self@ =~= rowsv.subrange(0, j as int) + seq![d@] + rowsv.skip(j as int));
            }
        }
    }

    /// Upserts a whole batch inside one transaction: every document is
    /// individually inserted-or-replaced by `sourcedId`, in batch order;
    /// if any document of the batch is malformed, nothing at all is
    /// persisted.  Re-submitting a document replaces the prior value
    /// without error.
    pub fn upsert(&mut self, batch: Vec<Document>) -> (r: Result<(), StorageError>)
        requires
            old(self).inv(),
        ensures
            final(self).inv(),
            match r {
                Ok(()) => batch_valid(batch@.map_values(|d: Document| d@)) && final(self)@
                    == upsert_all(old(self)@, batch@.map_values(|d: Document| d@)),
                Err(e) => {
                    &&& e == StorageError::MalformedDocument
                    &&& !batch_valid(batch@.map_values(|d: Document| d@))
                    &&& final(self)@ == old(self)@
                },
            },
    {
        let ghost bv = batch@.map_values(|d: Document| d@);
        let mut i: usize = 0;
        while i < batch.len()
            invariant
                i <= batch.len(),
                bv == batch@.map_values(|d: Document| d@),
                bv.len() == batch@.len(),
                self == old(self),
                old(self).inv(),
                forall|k: int| 0 <= k < i ==> doc_valid(#[trigger] bv[k]),
            decreases batch.len() - i,
        {
            if !batch[i].check_valid() {
                assert(!doc_valid(bv[i as int]));
                return Err(StorageError::MalformedDocument);
            }
            i = i + 1;
        }
        let mut i: usize = 0;
        proof {
            assert(bv.take(0) =~= Seq::<Seq<Field>>::empty());
        }
        while i < batch.len()
            invariant
                i <= batch.len(),
                bv == batch@.map_values(|d: Document| d@),
                bv.len() == batch@.len(),
                batch_valid(bv),
                old(self).inv(),
                self.inv(),
                self@ == upsert_all(old(self)@, bv.take(i as int)),
            decreases batch.len() - i,
        {
            let d = batch[i].clone();
            assert(d@ == bv[i as int]);
            self.insert_row(d);
            proof {
                assert(bv.take(i + 1).drop_last() =~= bv.take(i as int));
                assert(bv.take(i + 1).last() == bv[i as int]);
            }
            i = i + 1;
        }
        proof {
            assert(bv.take(bv.len() as int) =~= bv);
        }
        Ok(())
    }

    /// Retrieves the page of `limit` documents starting `offset` rows in,
    /// in ascending `sourcedId` order: the stable basis for pagination,
    /// applied before any in-memory filtering.
    pub fn fetch_page(&self, limit: usize, offset: usize) -> (r: Vec<Document>)
        ensures
            r@.map_values(|d: Document| d@) == page_spec(self@, limit as int, offset as int),
    {
        let mut r: Vec<Document> = Vec::new();
        if offset >= self.rows.len() {
            proof {
                assert(r@.map_values(|d: Document| d@) =~= page_spec(
                    self@,
                    limit as int,
                    offset as int,
                ));
            }
            return r;
        }
        let end = if limit < self.rows.len() - offset {
            offset + limit
        } else {
            self.rows.len()
        };
        let mut i: usize = offset;
        while i < end
            invariant
                offset <= i <= end <= self.rows.len(),
                end as int == if offset + limit < self.rows@.len() {
                    offset + limit
                } else {
                    self.rows@.len() as int
                },
                r@.map_values(|d: Document| d@) == self@.subrange(offset as int, i as int),
            decreases end - i,
        {
            let ghost r0 = r@;
            let d = self.rows[i].clone();
            r.push(d);
            proof {
                assert(d@ == self@[i as int]);
                assert(r@ =~= r0.push(d));
                assert(r@.map_values(|x: Document| x@) =~= r0.map_values(|x: Document| x@).push(
                    d@,
                ));
                assert(r@.map_values(|x: Document| x@) =~= self@.subrange(offset as int, i + 1));
            }
            i = i + 1;
        }
        proof {
            assert(r@.map_values(|d: Document| d@) =~= page_spec(
                self@,
                limit as int,
                offset as int,
            ));
        }
        r
    }
}

/// The window of `rows` a page request sees: `limit` rows from `offset`,
/// clipped to the collection's end.
pub open spec fn page_spec(rows: Seq<Seq<Field>>, limit: int, offset: int) -> Seq<Seq<Field>> {
    if offset >= rows.len() {
        Seq::empty()
    } else if offset + limit < rows.len() {
        rows.subrange(offset, offset + limit)
    } else {
        rows.subrange(offset, rows.len() as int)
    }
}

} // verus!
