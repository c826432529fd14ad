//! Resource documents: JSON-shaped records of named scalar fields.  A
//! document the store accepts carries a mandatory `sourcedId` string; every
//! other field is opaque to the engine beyond name-based projection and
//! filtering.
//!
//! A document's view is its field sequence, and every contract of the
//! engine speaks of that view.

use vstd::prelude::*;
use vstd::string::*;

use crate::value::{render, render_value, Value};

verus! {

/// One named field of a resource document.
#[derive(Debug)]
pub struct Field {
    pub name: String,
    pub value: Value,
}

impl Clone for Field {
    fn clone(&self) -> (r: Self)
        ensures
            r == *self,
    {
        Field { name: self.name.clone(), value: self.value.clone() }
    }
}

/// A JSON-shaped record: named scalar fields in a fixed order.  When a name
/// occurs twice, the first occurrence governs every lookup.
#[derive(Debug)]
pub struct Document {
    pub fields: Vec<Field>,
}

impl View for Document {
    type V = Seq<Field>;

    open spec fn view(&self) -> Seq<Field> {
        self.fields@
    }
}

/// The value of the first field named `name`, if any.
pub open spec fn doc_get(fields: Seq<Field>, name: Seq<char>) -> Option<Value>
    decreases fields.len(),
{
    if fields.len() == 0 {
        None
    } else if fields[0].name@ == name {
        Some(fields[0].value)
    } else {
        doc_get(fields.skip(1), name)
    }
}

/// The text the field named `name` is compared and sorted by: the rendering
/// of its value, or the empty sequence when the field is absent.
pub open spec fn doc_text(fields: Seq<Field>, name: Seq<char>) -> Seq<char> {
    match doc_get(fields, name) {
        Some(v) => render(v),
        None => Seq::empty(),
    }
}

/// A document the store accepts: its `sourcedId` field holds a non-empty
/// string.
pub open spec fn doc_valid(fields: Seq<Field>) -> bool {
    match doc_get(fields, "sourcedId"@) {
        Some(Value::Str(s)) => s@.len() > 0,
        _ => false,
    }
}

/// The stable identifier a valid document is stored under.
pub open spec fn doc_id(fields: Seq<Field>) -> Seq<char> {
    match doc_get(fields, "sourcedId"@) {
        Some(Value::Str(s)) => s@,
        _ => Seq::empty(),
    }
}

impl Document {
    /// Looks up the first field named `name`.
    pub fn get(&self, name: &str) -> (r: Option<&Value>)
        ensures
            match r {
                Some(v) => doc_get(self@, name@) == Some(*v),
                None => doc_get(self@, name@) is None,
            },
    {
        let mut i: usize = 0;
        proof {
            assert(self.fields@.skip(0) =~= self.fields@);
        }
        loop
            invariant
                i <= self.fields.len(),
                doc_get(self.fields@, name@) == doc_get(self.fields@.skip(i as int), name@),
            decreases self.fields.len() - i,
        {
            if i == self.fields.len() {
                assert(self.fields@.skip(i as int).len() == 0);
                return None;
            }
            assert(self.fields@.skip(i as int)[0] == self.fields@[i as int]);
            if crate::text::str_eq(self.fields[i].name.as_str(), name) {
                return Some(&self.fields[i].value);
            }
            assert(self.fields@.skip(i as int).skip(1) =~= self.fields@.skip(i + 1));
            i = i + 1;
        }
    }

    /// The text the field named `name` is compared and sorted by.
    pub fn field_text(&self, name: &str) -> (r: String)
        ensures
            r@ == doc_text(self@, name@),
    {
        match self.get(name) {
            Some(v) => render_value(v),
            None => String::new(),
        }
    }

    /// Whether the store accepts this document: `sourcedId` must hold a
    /// non-empty string.
    pub fn check_valid(&self) -> (r: bool)
        ensures
            r == doc_valid(self@),
    {
        match self.get("sourcedId") {
            Some(v) => match v {
                Value::Str(s) => s.as_str().unicode_len() > 0,
                _ => false,
            },
            None => false,
        }
    }

    /// The identifier of a valid document.
    pub fn id(&self) -> (r: String)
        requires
            doc_valid(self@),
        ensures
            r@ == doc_id(self@),
    {
        match self.get("sourcedId") {
            Some(v) => match v {
                Value::Str(s) => s.clone(),
                _ => String::new(),
            },
            None => String::new(),
        }
    }
}

impl Clone for Document {
    fn clone(&self) -> (r: Self)
        ensures
            r@ == self@,
    {
        let mut fields: Vec<Field> = Vec::new();
        let mut i: usize = 0;
        while i < self.fields.len()
            invariant
                i <= self.fields.len(),
                fields@ =~= self.fields@.take(i as int),
            decreases self.fields.len() - i,
        {
            fields.push(self.fields[i].clone());
            proof {
                assert(self.fields@.take(i as int).push(self.fields@[i as int]) =~= self.fields@.take(
                    i + 1,
                ));
            }
            i = i + 1;
        }
        proof {
            assert(self.fields@.take(self.fields@.len() as int) =~= self.fields@);
        }
        Document { fields }
    }
}

} // verus!
