//! The unified error type.
//!
//! Every fallible operation of the database reports one [`Error`]: a
//! failure of the index / vocabulary layer ([`IndexError`]), of the
//! durable-storage layer (`iqdb_persist::PersistError`, carried through),
//! or a handle-level consistency check ([`Error::Config`]).

use vstd::prelude::*;

verus! {

/// Declares `iqdb_persist::PersistError`, which this crate carries through
/// unread.
#[verifier::external_type_specification]
#[verifier::external_body]
pub struct ExPersistError(iqdb_persist::PersistError);

/// A failure of the index / vocabulary layer: the causes that the index
/// family reports.
#[derive(Debug, Clone, Copy)]
pub enum IndexError {
    DimensionMismatch { expected: usize, found: usize },
    InvalidVector,
    InvalidConfig { reason: &'static str },
    NotFound,
    Duplicate,
    InvalidMetric,
    InvalidFilter,
    ResourceLimitExceeded { kind: &'static str, max: usize, found: usize },
}

/// An error from any database operation.
#[derive(Debug)]
pub enum Error {
    /// A failure of the index / vocabulary layer.
    Index(IndexError),
    /// A failure of the durable-storage layer.
    Persist(iqdb_persist::PersistError),
    /// A handle-level configuration or consistency check failed.
    Config(&'static str),
}

impl From<IndexError> for Error {
    fn from(value: IndexError) -> (r: Self) {
        Error::Index(value)
    }
}

impl vstd::std_specs::convert::FromSpecImpl<IndexError> for Error {
    open spec fn obeys_from_spec() -> bool {
        true
    }

    open spec fn from_spec(v: IndexError) -> Self {
        Error::Index(v)
    }
}

impl From<iqdb_persist::PersistError> for Error {
    fn from(value: iqdb_persist::PersistError) -> (r: Self) {
        Error::Persist(value)
    }
}

impl vstd::std_specs::convert::FromSpecImpl<iqdb_persist::PersistError> for Error {
    open spec fn obeys_from_spec() -> bool {
        true
    }

    open spec fn from_spec(v: iqdb_persist::PersistError) -> Self {
        Error::Persist(v)
    }
}

} // verus!
