//! A roster-data query and storage engine.
//!
//! Resource documents are JSON-shaped records keyed by a stable `sourcedId`.
//! The engine persists them with transactional batch upsert, compiles REST
//! query parameters (field projection, filter expression, sort key,
//! limit/offset) into an executable plan, and applies that plan to a page of
//! stored documents.  A small credential store issues and revokes API
//! clients with scope grants.

pub mod creds;
pub mod document;
pub mod engine;
pub mod error;
pub mod exec;
pub mod model;
pub mod query;
pub mod store;
pub mod text;
pub mod value;
