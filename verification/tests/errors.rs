use iqdb::error::{Error, IndexError};
use iqdb::handle::{check_dim, check_reopen, require_nonzero_dim};
use iqdb::types::DistanceMetric;
use iqdb_persist::PersistError;

#[test]
fn from_iqdb_error_wraps_in_index_variant() {
    let err: Error = IndexError::NotFound.into();
    assert!(matches!(err, Error::Index(IndexError::NotFound)));
}

#[test]
fn from_persist_error_wraps_in_persist_variant() {
    let err: Error = PersistError::Unsupported {
        feature: "compression",
        available_in: "the `zstd` cargo feature",
    }
    .into();
    assert!(matches!(
        err,
        Error::Persist(PersistError::Unsupported { .. })
    ));
}

#[test]
fn zero_dim_is_a_config_error() {
    assert!(matches!(require_nonzero_dim(0), Err(Error::Config(_))));
    assert!(require_nonzero_dim(3).is_ok());
}

#[test]
fn wrong_dimension_is_an_index_error() {
    let err = check_dim(3, 2).unwrap_err();
    assert!(matches!(
        err,
        Error::Index(IndexError::DimensionMismatch { expected: 3, found: 2 })
    ));
    assert!(check_dim(3, 3).is_ok());
}

#[test]
fn reopen_with_other_dim_or_metric_is_a_config_error() {
    assert!(check_reopen(3, DistanceMetric::Cosine, 3, DistanceMetric::Cosine).is_ok());
    assert!(matches!(
        check_reopen(3, DistanceMetric::Cosine, 4, DistanceMetric::Cosine),
        Err(Error::Config(_))
    ));
    assert!(matches!(
        check_reopen(3, DistanceMetric::Cosine, 3, DistanceMetric::Euclidean),
        Err(Error::Config(_))
    ));
}
