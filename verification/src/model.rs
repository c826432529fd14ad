//! The typed roster entities the collections serve, and their conversion
//! into the engine's flat scalar documents.

use vstd::prelude::*;
use vstd::string::*;

use crate::document::{doc_get, doc_id, doc_text, doc_valid, Document, Field};
use crate::value::Value;

verus! {

/// Whether an optional list's first member is absent: the convention a
/// serializer uses to skip an effectively empty `children` list.
pub fn vec_is_none<T>(v: &Option<Vec<Option<T>>>) -> (r: bool)
    requires
        (match v {
            Some(i) => i@.len() > 0,
            None => true,
        }),
    ensures
        r == (match v {
            Some(i) => i@[0] is None,
            None => false,
        }),
{
    if let Some(i) = v {
        if i[0].is_none() {
            return true;
        }
    }
    false
}

/// A reference to another roster entity by identifier and type.
#[derive(Debug, Default)]
pub struct GUIDRef {
    pub sourced_id: String,
    pub _type: String,
}

/// An academic session: the representative collection the engine serves.
#[derive(Debug, Default)]
pub struct AcademicSession {
    pub sourced_id: String,
    pub status: String,
    pub year: Option<String>,
}

/// An organization.  Its `children` list is outside the engine's flat
/// scalar document model and is not carried into a document.
#[derive(Debug, Default)]
pub struct Org {
    pub sourced_id: String,
    pub name: String,
    pub parent: Option<String>,
    pub children: Option<Vec<Option<String>>>,
}

impl AcademicSession {
    /// The flat document this session is stored as: `sourcedId` and
    /// `status` always, `year` only when present.
    pub fn to_document(&self) -> (r: Document)
        ensures
            doc_id(r@) == self.sourced_id@,
            (doc_valid(r@) <==> self.sourced_id@.len() > 0),
            doc_text(r@, "status"@) == self.status@,
            r@.len() == if self.year is Some { 3int } else { 2int },
            match self.year {
                Some(y) => doc_text(r@, "year"@) == y@,
                None => doc_get(r@, "year"@) is None,
            },
    {
        let mut fields: Vec<Field> = Vec::new();
        fields.push(
            Field { name: String::from_str("sourcedId"), value: Value::Str(self.sourced_id.clone()) },
        );
        fields.push(Field { name: String::from_str("status"), value: Value::Str(self.status.clone()) });
        match &self.year {
            Some(y) => {
                fields.push(Field { name: String::from_str("year"), value: Value::Str(y.clone()) });
            },
            None => {},
        }
        let r = Document { fields };
        proof {
            reveal_strlit("sourcedId");
            reveal_strlit("status");
            reveal_strlit("year");
            assert("sourcedId"@.len() == 9);
            assert("status"@.len() == 6);
            assert("year"@.len() == 4);
            let v = r@;
            assert(v[0].name@ == "sourcedId"@);
            assert(v.skip(1)[0] == v[1]);
            assert("status"@ != "sourcedId"@);
            assert("year"@ != "sourcedId"@);
            assert("year"@ != "status"@);
            assert(doc_get(v, "sourcedId"@) == Some(v[0].value));
            assert(doc_get(v, "status"@) == doc_get(v.skip(1), "status"@));
            assert(doc_get(v.skip(1), "status"@) == Some(v[1].value));
            assert(doc_get(v, "year"@) == doc_get(v.skip(1), "year"@));
            assert(doc_get(v.skip(1), "year"@) == doc_get(v.skip(1).skip(1), "year"@));
            if self.year is Some {
                assert(v.skip(1).skip(1)[0] == v[2]);
                assert(doc_get(v.skip(1).skip(1), "year"@) == Some(v[2].value));
            } else {
                assert(v.skip(1).skip(1).len() == 0);
                assert(doc_get(v.skip(1).skip(1), "year"@) is None);
            }
        }
        r
    }
}

impl Org {
    /// The flat document this organization is stored as: `sourcedId` and
    /// `name` always, `parent` only when present; the `children` list is
    /// not representable as a scalar and is omitted.
    pub fn to_document(&self) -> (r: Document)
        ensures
            doc_id(r@) == self.sourced_id@,
            (doc_valid(r@) <==> self.sourced_id@.len() > 0),
            doc_text(r@, "name"@) == self.name@,
            r@.len() == if self.parent is Some { 3int } else { 2int },
            match self.parent {
                Some(p) => doc_text(r@, "parent"@) == p@,
                None => doc_get(r@, "parent"@) is None,
            },
    {
        let mut fields: Vec<Field> = Vec::new();
        fields.push(
            Field { name: String::from_str("sourcedId"), value: Value::Str(self.sourced_id.clone()) },
        );
        fields.push(Field { name: String::from_str("name"), value: Value::Str(self.name.clone()) });
        match &self.parent {
            Some(p) => {
                fields.push(Field { name: String::from_str("parent"), value: Value::Str(p.clone()) });
            },
            None => {},
        }
        let r = Document { fields };
        proof {
            reveal_strlit("sourcedId");
            reveal_strlit("name");
            reveal_strlit("parent");
            assert("sourcedId"@.len() == 9);
            assert("name"@.len() == 4);
            assert("parent"@.len() == 6);
            let v = r@;
            assert(v[0].name@ == "sourcedId"@);
            assert(v.skip(1)[0] == v[1]);
            assert("name"@ != "sourcedId"@);
            assert("parent"@ != "sourcedId"@);
            assert("parent"@ != "name"@);
            assert(doc_get(v, "sourcedId"@) == Some(v[0].value));
            assert(doc_get(v, "name"@) == doc_get(v.skip(1), "name"@));
            assert(doc_get(v.skip(1), "name"@) == Some(v[1].value));
            assert(doc_get(v, "parent"@) == doc_get(v.skip(1), "parent"@));
            assert(doc_get(v.skip(1), "parent"@) == doc_get(v.skip(1).skip(1), "parent"@));
            if self.parent is Some {
                assert(v.skip(1).skip(1)[0] == v[2]);
                assert(doc_get(v.skip(1).skip(1), "parent"@) == Some(v[2].value));
            } else {
                assert(v.skip(1).skip(1).len() == 0);
                assert(doc_get(v.skip(1).skip(1), "parent"@) is None);
            }
        }
        r
    }
}

} // verus!
