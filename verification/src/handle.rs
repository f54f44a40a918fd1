//! The consistency checks of the database handle.
//!
//! A handle fixes `dim` and the metric when it opens. These are the gates
//! that every constructor, write and search passes through before the
//! engine is touched.

use vstd::prelude::*;

use crate::error::{Error, IndexError};
use crate::types::DistanceMetric;

verus! {

/// The single construction gate for `dim`: a database of zero-dimensional
/// vectors is refused.
pub fn require_nonzero_dim(dim: usize) -> (r: Result<(), Error>)
    ensures
        dim == 0 <==> r is Err,
        dim == 0 ==> r == Err::<(), Error>(Error::Config("dim must be non-zero")),
{
    if dim == 0 {
        Err(Error::Config("dim must be non-zero"))
    } else {
        Ok(())
    }
}

/// A vector (to store or to search with) must have exactly the database's
/// dimensionality.
pub fn check_dim(expected: usize, found: usize) -> (r: Result<(), Error>)
    ensures
        found == expected <==> r is Ok,
        r matches Err(e) ==> e matches Error::Index(IndexError::DimensionMismatch { expected: x, found: y }) && x == expected && y == found,
{
    if found == expected {
        Ok(())
    } else {
        Err(Error::Index(IndexError::DimensionMismatch { expected, found }))
    }
}

/// A reopened database must have been created with the `dim` and metric
/// that the caller asks for.
pub fn check_reopen(
    stored_dim: usize,
    stored_metric: DistanceMetric,
    dim: usize,
    metric: DistanceMetric,
) -> (r: Result<(), Error>)
    ensures
        (stored_dim == dim && stored_metric == metric) <==> r is Ok,
        r is Err ==> r == Err::<(), Error>(
            Error::Config("reopened database dim/metric does not match the requested values"),
        ),
{
    if stored_dim != dim || stored_metric != metric {
        Err(Error::Config("reopened database dim/metric does not match the requested values"))
    } else {
        Ok(())
    }
}

} // verus!
