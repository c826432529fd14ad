use vstd::prelude::*;

verus! {

/// Why a query-parameter string was rejected before any storage was touched.
#[derive(Clone, Copy, Debug, PartialEq, Eq, Structural)]
pub enum ParseError {
    /// The `fields` parameter was empty, or one of its comma-separated
    /// entries was empty.
    EmptyFieldList,
    /// A filter segment did not match the term pattern
    /// `<field><operator>'<literal>'`.
    BadTerm,
    /// The `sort` parameter was empty.
    EmptySort,
}

/// A failure of the document store.
#[derive(Clone, Copy, Debug, PartialEq, Eq, Structural)]
pub enum StorageError {
    /// A document in an upsert batch had no usable `sourcedId`; the whole
    /// batch was rolled back.
    MalformedDocument,
}

/// A failure of the credential store.
#[derive(Clone, Copy, Debug, PartialEq, Eq, Structural)]
pub enum CredentialError {
    /// No credential row matched the given `client_id`.
    NotFound,
    /// A credential with the given `client_id` already exists.
    DuplicateClientId,
}

} // verus!
