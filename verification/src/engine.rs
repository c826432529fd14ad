//! The engine's read path, end to end: compile the untrusted query
//! parameters, page the stored rows in identifier order, and apply the
//! compiled plan in memory.
//!
//! Malformed parameters are rejected before storage is touched.  Because
//! the page window is cut before the filter runs, a page may hold fewer
//! than `limit` documents after filtering.

use vstd::prelude::*;

use crate::document::Document;
use crate::error::ParseError;
use crate::exec::{execute, execute_spec};
use crate::query::{compile_query, parse_filter_spec, QueryPlan};
use crate::store::{page_spec, Store};
use crate::text::split_char;

verus! {

/// Serves one read request against a collection: compiles the parameters,
/// retrieves the page of rows in ascending `sourcedId` order, and applies
/// the plan.  Returns the compiled plan beside the documents, so the
/// result is pinned to it: filter, then projection, then stable sort.
pub fn get_all(
    store: &Store,
    fields: &str,
    filter: &str,
    sort: &str,
    limit: usize,
    offset: usize,
) -> (r: Result<(QueryPlan, Vec<Document>), ParseError>)
    ensures
        match r {
            Ok((plan, v)) => {
                &&& plan.wf()
                &&& plan.fields@.len() == split_char(fields@, ',').len()
                &&& forall|i: int|
                    0 <= i < plan.fields@.len() ==> plan.fields@[i]@ == split_char(fields@, ',')[i]
                &&& parse_filter_spec(filter@) == Some(
                    (plan.filter.term_views(), plan.filter.conns@),
                )
                &&& plan.sort@ == sort@
                &&& v@.map_values(|d: Document| d@) == execute_spec(
                    page_spec(store@, limit as int, offset as int),
                    plan,
                )
            },
            Err(e) => {
                ||| (e == ParseError::EmptyFieldList && exists|i: int|
                    0 <= i < split_char(fields@, ',').len() && (#[trigger] split_char(
                        fields@,
                        ',',
                    )[i]).len() == 0)
                ||| (e == ParseError::BadTerm && parse_filter_spec(filter@) is None)
                ||| (e == ParseError::EmptySort && sort@.len() == 0)
            },
        },
{
    let plan = match compile_query(fields, filter, sort) {
        Ok(p) => p,
        Err(e) => {
            return Err(e);
        },
    };
    let page = store.fetch_page(limit, offset);
    let out = execute(&page, &plan);
    proof {
        assert(page@.map_values(|d: Document| d@) == page_spec(
            store@,
            limit as int,
            offset as int,
        ));
    }
    Ok((plan, out))
}

} // verus!
