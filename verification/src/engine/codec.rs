//! The on-disk payload codec.
//!
//! The durable-storage layer owns the snapshot framing (file header, CRC,
//! atomic replace, compression). This module owns the bytes inside that
//! frame: the index kind and its tuning, the database `dim` and `metric`,
//! and every authoritative row. Layout, all integers little-endian:
//!
//! ```text
//! magic "IQDC" (4) | version u32 | index-kind block | dim u64 | metric u8 | n_rows u64 | rows...
//! ```
//!
//! Each row is `VectorId | dim x u32 | metadata`. A `VectorId` is a tag
//! byte (`0` = `U64`, `1` = `Bytes`) and its body; metadata is a presence
//! byte, then an entry count and `key | Value` pairs; each `Value` is a tag
//! byte and its little-endian body.
//!
//! The `p_*` spec functions say what reading the bytes at a position
//! yields; the `e_*` spec functions say what bytes a value is written as.
//! [`decode`] and [`encode`] are proved against them, and
//! [`law_payload_roundtrip`] proves that reading back what was written
//! gives the same database.

use vstd::prelude::*;
use vstd::utf8::*;

use crate::bytes::{
    le_i64, le_u32, le_u64, lemma_i64_roundtrip, lemma_u32_at, lemma_u32_roundtrip, lemma_u64_at,
    lemma_u64_roundtrip, lemma_window_split,
    u32_at, u64_at, write_i64, write_raw, write_u32, write_u64, Cursor,
};
use crate::config::{HnswConfig, IndexKind, IvfConfig};
use crate::float::Double;
use crate::engine::store::{Row, RowView};
use crate::payload::{insert_all, lemma_insert_all_sorted, sorted_fields};
use crate::types::{
    entry_view, meta_view, pairs_view, DistanceMetric, EntryView, IdView, Metadata, Value,
    ValueView, VectorId,
};

verus! {

/// The payload format version.
pub const PAYLOAD_VERSION: u32 = 1;

/// The field whose value did not fit its on-disk or in-memory width.
#[derive(Debug, Clone, Copy, PartialEq, Eq, Structural)]
pub enum Field {
    Dim,
    RowCount,
    HnswParam,
    IvfParam,
    PqSubvectors,
    IdLength,
    EntryCount,
    StringLength,
}

/// Why a payload could not be encoded or decoded.
#[derive(Debug, Clone, Copy, PartialEq, Eq, Structural)]
pub enum PayloadError {
    /// The bytes ended inside a field.
    UnexpectedEof,
    /// The first four bytes are not `IQDC`.
    MagicMismatch,
    /// The version is not [`PAYLOAD_VERSION`].
    UnsupportedVersion,
    /// The index-kind tag is not `0`, `1` or `2`.
    UnknownKindTag,
    /// The IVF `pq_subvectors` option tag is not `0` or `1`.
    PqSubvectorsTag,
    /// The `VectorId` tag is not `0` or `1`.
    UnknownIdTag,
    /// A `Bytes` id of length zero.
    EmptyBytesId,
    /// The metadata presence tag is not `0` or `1`.
    UnknownMetadataTag,
    /// The metadata `Value` tag is not in `0..=4`.
    UnknownValueTag,
    /// A metadata string is not valid UTF-8.
    InvalidUtf8,
    /// The metric tag is not in `0..=4`.
    InvalidMetric { tag: u8 },
    /// A length or count does not fit its width.
    OutOfRange { field: Field },
}

/// The description that [`PayloadError::reason`] gives.
pub open spec fn payload_error_reason(e: PayloadError) -> Seq<char> {
    match e {
        PayloadError::UnexpectedEof => "unexpected end of payload"@,
        PayloadError::MagicMismatch => "iqdb core payload magic mismatch"@,
        PayloadError::UnsupportedVersion => "unsupported iqdb core payload version"@,
        PayloadError::UnknownKindTag => "unknown index-kind tag"@,
        PayloadError::PqSubvectorsTag => "ivf.pq_subvectors option tag"@,
        PayloadError::UnknownIdTag => "unknown VectorId tag"@,
        PayloadError::EmptyBytesId => "VectorId::Bytes key must not be empty"@,
        PayloadError::UnknownMetadataTag => "unknown metadata presence tag"@,
        PayloadError::UnknownValueTag => "unknown metadata Value tag"@,
        PayloadError::InvalidUtf8 => "metadata string is not valid UTF-8"@,
        PayloadError::InvalidMetric { .. } => "unknown metric tag"@,
        PayloadError::OutOfRange { field } => match field {
            Field::Dim => "dim"@,
            Field::RowCount => "n_rows"@,
            Field::HnswParam => "hnsw field"@,
            Field::IvfParam => "ivf field"@,
            Field::PqSubvectors => "ivf.pq_subvectors"@,
            Field::IdLength => "id bytes len"@,
            Field::EntryCount => "metadata entries"@,
            Field::StringLength => "string length"@,
        },
    }
}

impl PayloadError {
    /// A short static description of the error.
    pub fn reason(&self) -> (r: &'static str)
        ensures
            r@ == payload_error_reason(*self),
    {
        match self {
            PayloadError::UnexpectedEof => "unexpected end of payload",
            PayloadError::MagicMismatch => "iqdb core payload magic mismatch",
            PayloadError::UnsupportedVersion => "unsupported iqdb core payload version",
            PayloadError::UnknownKindTag => "unknown index-kind tag",
            PayloadError::PqSubvectorsTag => "ivf.pq_subvectors option tag",
            PayloadError::UnknownIdTag => "unknown VectorId tag",
            PayloadError::EmptyBytesId => "VectorId::Bytes key must not be empty",
            PayloadError::UnknownMetadataTag => "unknown metadata presence tag",
            PayloadError::UnknownValueTag => "unknown metadata Value tag",
            PayloadError::InvalidUtf8 => "metadata string is not valid UTF-8",
            PayloadError::InvalidMetric { .. } => "unknown metric tag",
            PayloadError::OutOfRange { field } => match field {
                Field::Dim => "dim",
                Field::RowCount => "n_rows",
                Field::HnswParam => "hnsw field",
                Field::IvfParam => "ivf field",
                Field::PqSubvectors => "ivf.pq_subvectors",
                Field::IdLength => "id bytes len",
                Field::EntryCount => "metadata entries",
                Field::StringLength => "string length",
            },
        }
    }
}

/// A parse step: the value read and the position after it, or an error.
pub type PRes<T> = Result<(T, int), PayloadError>;

// ---------------------------------------------------------------------
// What the bytes are read as.
// ---------------------------------------------------------------------

/// The magic prefix `IQDC`.
pub open spec fn magic() -> Seq<u8> {
    seq![0x49u8, 0x51u8, 0x44u8, 0x43u8]
}

pub open spec fn p_u8(b: Seq<u8>, p: int) -> PRes<u8> {
    if p + 1 > b.len() {
        Err(PayloadError::UnexpectedEof)
    } else {
        Ok((b[p], p + 1))
    }
}

pub open spec fn p_u32(b: Seq<u8>, p: int) -> PRes<u32> {
    if p + 4 > b.len() {
        Err(PayloadError::UnexpectedEof)
    } else {
        Ok((u32_at(b, p), p + 4))
    }
}

pub open spec fn p_u64(b: Seq<u8>, p: int) -> PRes<u64> {
    if p + 8 > b.len() {
        Err(PayloadError::UnexpectedEof)
    } else {
        Ok((u64_at(b, p), p + 8))
    }
}

/// A `u64` that must also fit a `usize`.
pub open spec fn p_usize(b: Seq<u8>, p: int, field: Field) -> PRes<usize> {
    match p_u64(b, p) {
        Err(e) => Err(e),
        Ok((v, q)) => if v > usize::MAX {
            Err(PayloadError::OutOfRange { field })
        } else {
            Ok((v as usize, q))
        },
    }
}

pub open spec fn p_bytes(b: Seq<u8>, p: int, n: int) -> PRes<Seq<u8>> {
    if p + n > b.len() {
        Err(PayloadError::UnexpectedEof)
    } else {
        Ok((b.subrange(p, p + n), p + n))
    }
}

pub open spec fn p_hnsw(b: Seq<u8>, p: int) -> PRes<HnswConfig> {
    match p_usize(b, p, Field::HnswParam) {
        Err(e) => Err(e),
        Ok((m, p1)) => match p_usize(b, p1, Field::HnswParam) {
            Err(e) => Err(e),
            Ok((ef_construction, p2)) => match p_usize(b, p2, Field::HnswParam) {
                Err(e) => Err(e),
                Ok((ef_search, p3)) => match p_usize(b, p3, Field::HnswParam) {
                    Err(e) => Err(e),
                    Ok((filter_widen, p4)) => match p_u64(b, p4) {
                        Err(e) => Err(e),
                        Ok((seed, p5)) => Ok(
                            (HnswConfig { m, ef_construction, ef_search, filter_widen, seed }, p5),
                        ),
                    },
                },
            },
        },
    }
}

pub open spec fn p_pq(b: Seq<u8>, p: int) -> PRes<Option<usize>> {
    match p_u8(b, p) {
        Err(e) => Err(e),
        Ok((t, q)) => if t == 0 {
            Ok((None, q))
        } else if t == 1 {
            match p_usize(b, q, Field::PqSubvectors) {
                Err(e) => Err(e),
                Ok((m, r)) => Ok((Some(m), r)),
            }
        } else {
            Err(PayloadError::PqSubvectorsTag)
        },
    }
}

pub open spec fn p_ivf(b: Seq<u8>, p: int) -> PRes<IvfConfig> {
    match p_usize(b, p, Field::IvfParam) {
        Err(e) => Err(e),
        Ok((n_clusters, p1)) => match p_usize(b, p1, Field::IvfParam) {
            Err(e) => Err(e),
            Ok((n_probes, p2)) => match p_usize(b, p2, Field::IvfParam) {
                Err(e) => Err(e),
                Ok((training_sample_size, p3)) => match p_u8(b, p3) {
                    Err(e) => Err(e),
                    Ok((pq_flag, p4)) => match p_pq(b, p4) {
                        Err(e) => Err(e),
                        Ok((pq_subvectors, p5)) => match p_u32(b, p5) {
                            Err(e) => Err(e),
                            Ok((pq_refine_factor, p6)) => match p_u64(b, p6) {
                                Err(e) => Err(e),
                                Ok((seed, p7)) => Ok(
                                    (
                                        IvfConfig {
                                            n_clusters,
                                            n_probes,
                                            training_sample_size,
                                            use_pq: pq_flag != 0,
                                            pq_subvectors,
                                            pq_refine_factor,
                                            seed,
                                        },
                                        p7,
                                    ),
                                ),
                            },
                        },
                    },
                },
            },
        },
    }
}

pub open spec fn p_kind(b: Seq<u8>, p: int) -> PRes<IndexKind> {
    match p_u8(b, p) {
        Err(e) => Err(e),
        Ok((t, q)) => if t == 0 {
            Ok((IndexKind::Flat, q))
        } else if t == 1 {
            match p_hnsw(b, q) {
                Err(e) => Err(e),
                Ok((c, r)) => Ok((IndexKind::Hnsw(c), r)),
            }
        } else if t == 2 {
            match p_ivf(b, q) {
                Err(e) => Err(e),
                Ok((c, r)) => Ok((IndexKind::Ivf(c), r)),
            }
        } else {
            Err(PayloadError::UnknownKindTag)
        },
    }
}

pub open spec fn p_id(b: Seq<u8>, p: int) -> PRes<IdView> {
    match p_u8(b, p) {
        Err(e) => Err(e),
        Ok((t, q)) => if t == 0 {
            match p_u64(b, q) {
                Err(e) => Err(e),
                Ok((n, r)) => Ok((IdView::U64(n), r)),
            }
        } else if t == 1 {
            match p_u32(b, q) {
                Err(e) => Err(e),
                Ok((len, r)) => if len == 0 {
                    Err(PayloadError::EmptyBytesId)
                } else {
                    match p_bytes(b, r, len as int) {
                        Err(e) => Err(e),
                        Ok((bs, s)) => Ok((IdView::Bytes(bs), s)),
                    }
                },
            }
        } else {
            Err(PayloadError::UnknownIdTag)
        },
    }
}

/// `n` little-endian `u32` components.
pub open spec fn p_vec(b: Seq<u8>, p: int, n: nat) -> PRes<Seq<u32>>
    decreases n,
{
    if n == 0 {
        Ok((Seq::empty(), p))
    } else {
        match p_vec(b, p, (n - 1) as nat) {
            Err(e) => Err(e),
            Ok((v, q)) => match p_u32(b, q) {
                Err(e) => Err(e),
                Ok((x, r)) => Ok((v.push(x), r)),
            },
        }
    }
}

/// A length-prefixed UTF-8 string.
pub open spec fn p_str(b: Seq<u8>, p: int) -> PRes<Seq<char>> {
    match p_u32(b, p) {
        Err(e) => Err(e),
        Ok((len, q)) => match p_bytes(b, q, len as int) {
            Err(e) => Err(e),
            Ok((bs, r)) => if valid_utf8(bs) {
                Ok((decode_utf8(bs), r))
            } else {
                Err(PayloadError::InvalidUtf8)
            },
        },
    }
}

pub open spec fn p_value(b: Seq<u8>, p: int) -> PRes<ValueView> {
    match p_u8(b, p) {
        Err(e) => Err(e),
        Ok((t, q)) => if t == 0 {
            match p_str(b, q) {
                Err(e) => Err(e),
                Ok((s, r)) => Ok((ValueView::String(s), r)),
            }
        } else if t == 1 {
            match p_u64(b, q) {
                Err(e) => Err(e),
                Ok((x, r)) => Ok((ValueView::Int(x as i64), r)),
            }
        } else if t == 2 {
            match p_u64(b, q) {
                Err(e) => Err(e),
                Ok((x, r)) => Ok((ValueView::Float(x), r)),
            }
        } else if t == 3 {
            match p_u8(b, q) {
                Err(e) => Err(e),
                Ok((x, r)) => Ok((ValueView::Bool(x != 0), r)),
            }
        } else if t == 4 {
            Ok((ValueView::Null, q))
        } else {
            Err(PayloadError::UnknownValueTag)
        },
    }
}

pub open spec fn p_entry(b: Seq<u8>, p: int) -> PRes<EntryView> {
    match p_str(b, p) {
        Err(e) => Err(e),
        Ok((k, q)) => match p_value(b, q) {
            Err(e) => Err(e),
            Ok((v, r)) => Ok(((k, v), r)),
        },
    }
}

/// `n` metadata entries.
pub open spec fn p_entries(b: Seq<u8>, p: int, n: nat) -> PRes<Seq<EntryView>>
    decreases n,
{
    if n == 0 {
        Ok((Seq::empty(), p))
    } else {
        match p_entries(b, p, (n - 1) as nat) {
            Err(e) => Err(e),
            Ok((es, q)) => match p_entry(b, q) {
                Err(e) => Err(e),
                Ok((x, r)) => Ok((es.push(x), r)),
            },
        }
    }
}

/// Optional metadata: a presence tag, then the entry count and the
/// entries, collected into a map in key order (a repeated key keeps its
/// last value).
pub open spec fn p_meta(b: Seq<u8>, p: int) -> PRes<Option<Seq<EntryView>>> {
    match p_u8(b, p) {
        Err(e) => Err(e),
        Ok((t, q)) => if t == 0 {
            Ok((None, q))
        } else if t == 1 {
            match p_u32(b, q) {
                Err(e) => Err(e),
                Ok((count, r)) => match p_entries(b, r, count as nat) {
                    Err(e) => Err(e),
                    Ok((es, s)) => Ok((Some(insert_all(es)), s)),
                },
            }
        } else {
            Err(PayloadError::UnknownMetadataTag)
        },
    }
}

pub open spec fn p_row(b: Seq<u8>, p: int, dim: nat) -> PRes<RowView> {
    match p_id(b, p) {
        Err(e) => Err(e),
        Ok((id, q)) => match p_vec(b, q, dim) {
            Err(e) => Err(e),
            Ok((vector, r)) => match p_meta(b, r) {
                Err(e) => Err(e),
                Ok((meta, s)) => Ok((RowView { id, vector, meta }, s)),
            },
        },
    }
}

/// `n` rows of `dim` components each.
pub open spec fn p_rows(b: Seq<u8>, p: int, n: nat, dim: nat) -> PRes<Seq<RowView>>
    decreases n,
{
    if n == 0 {
        Ok((Seq::empty(), p))
    } else {
        match p_rows(b, p, (n - 1) as nat, dim) {
            Err(e) => Err(e),
            Ok((rows, q)) => match p_row(b, q, dim) {
                Err(e) => Err(e),
                Ok((r, s)) => Ok((rows.push(r), s)),
            },
        }
    }
}

pub open spec fn metric_tag(m: DistanceMetric) -> u8 {
    match m {
        DistanceMetric::Cosine => 0,
        DistanceMetric::DotProduct => 1,
        DistanceMetric::Euclidean => 2,
        DistanceMetric::Manhattan => 3,
        DistanceMetric::Hamming => 4,
    }
}

pub open spec fn metric_of_tag(t: u8) -> Option<DistanceMetric> {
    if t == 0 {
        Some(DistanceMetric::Cosine)
    } else if t == 1 {
        Some(DistanceMetric::DotProduct)
    } else if t == 2 {
        Some(DistanceMetric::Euclidean)
    } else if t == 3 {
        Some(DistanceMetric::Manhattan)
    } else if t == 4 {
        Some(DistanceMetric::Hamming)
    } else {
        None
    }
}

/// A decoded payload, as a mathematical value.
pub struct DecodedView {
    pub kind: IndexKind,
    pub dim: usize,
    pub metric: DistanceMetric,
    pub rows: Seq<RowView>,
}

/// What a whole payload reads as.
pub open spec fn p_payload(b: Seq<u8>) -> Result<DecodedView, PayloadError> {
    if b.len() < 4 {
        Err(PayloadError::UnexpectedEof)
    } else if b.subrange(0, 4) != magic() {
        Err(PayloadError::MagicMismatch)
    } else {
        match p_u32(b, 4) {
            Err(e) => Err(e),
            Ok((version, p1)) => if version != PAYLOAD_VERSION {
                Err(PayloadError::UnsupportedVersion)
            } else {
                match p_kind(b, p1) {
                    Err(e) => Err(e),
                    Ok((kind, p2)) => match p_usize(b, p2, Field::Dim) {
                        Err(e) => Err(e),
                        Ok((dim, p3)) => match p_u8(b, p3) {
                            Err(e) => Err(e),
                            Ok((tag, p4)) => match metric_of_tag(tag) {
                                None => Err(PayloadError::InvalidMetric { tag }),
                                Some(metric) => match p_usize(b, p4, Field::RowCount) {
                                    Err(e) => Err(e),
                                    Ok((n, p5)) => match p_rows(b, p5, n as nat, dim as nat) {
                                        Err(e) => Err(e),
                                        Ok((rows, _)) => Ok(DecodedView { kind, dim, metric, rows }),
                                    },
                                },
                            },
                        },
                    },
                }
            },
        }
    }
}

// ---------------------------------------------------------------------
// What values are written as.
// ---------------------------------------------------------------------

pub open spec fn bool_byte(b: bool) -> u8 {
    if b {
        1
    } else {
        0
    }
}

pub open spec fn e_hnsw(c: HnswConfig) -> Seq<u8> {
    le_u64(c.m as u64) + le_u64(c.ef_construction as u64) + le_u64(c.ef_search as u64) + le_u64(
        c.filter_widen as u64,
    ) + le_u64(c.seed)
}

pub open spec fn e_pq(pq: Option<usize>) -> Seq<u8> {
    match pq {
        Some(m) => seq![1u8] + le_u64(m as u64),
        None => seq![0u8],
    }
}

pub open spec fn e_ivf(c: IvfConfig) -> Seq<u8> {
    le_u64(c.n_clusters as u64) + le_u64(c.n_probes as u64) + le_u64(c.training_sample_size as u64)
        + seq![bool_byte(c.use_pq)] + e_pq(c.pq_subvectors) + le_u32(c.pq_refine_factor) + le_u64(
        c.seed,
    )
}

pub open spec fn e_kind(k: IndexKind) -> Seq<u8> {
    match k {
        IndexKind::Flat => seq![0u8],
        IndexKind::Hnsw(c) => seq![1u8] + e_hnsw(c),
        IndexKind::Ivf(c) => seq![2u8] + e_ivf(c),
    }
}

pub open spec fn e_id(id: IdView) -> Seq<u8> {
    match id {
        IdView::U64(n) => seq![0u8] + le_u64(n),
        IdView::Bytes(bs) => seq![1u8] + le_u32(bs.len() as u32) + bs,
    }
}

pub open spec fn e_vec(v: Seq<u32>) -> Seq<u8>
    decreases v.len(),
{
    if v.len() == 0 {
        Seq::empty()
    } else {
        e_vec(v.drop_last()) + le_u32(v.last())
    }
}

pub open spec fn e_str(s: Seq<char>) -> Seq<u8> {
    le_u32(encode_utf8(s).len() as u32) + encode_utf8(s)
}

pub open spec fn e_value(v: ValueView) -> Seq<u8> {
    match v {
        ValueView::String(s) => seq![0u8] + e_str(s),
        ValueView::Int(i) => seq![1u8] + le_i64(i),
        ValueView::Float(x) => seq![2u8] + le_u64(x),
        ValueView::Bool(b) => seq![3u8, bool_byte(b)],
        ValueView::Null => seq![4u8],
    }
}

pub open spec fn e_entry(e: EntryView) -> Seq<u8> {
    e_str(e.0) + e_value(e.1)
}

pub open spec fn e_entries(es: Seq<EntryView>) -> Seq<u8>
    decreases es.len(),
{
    if es.len() == 0 {
        Seq::empty()
    } else {
        e_entries(es.drop_last()) + e_entry(es.last())
    }
}

pub open spec fn e_meta(m: Option<Seq<EntryView>>) -> Seq<u8> {
    match m {
        None => seq![0u8],
        Some(es) => seq![1u8] + le_u32(es.len() as u32) + e_entries(es),
    }
}

pub open spec fn e_row(r: RowView) -> Seq<u8> {
    e_id(r.id) + e_vec(r.vector) + e_meta(r.meta)
}

pub open spec fn e_rows(rows: Seq<RowView>) -> Seq<u8>
    decreases rows.len(),
{
    if rows.len() == 0 {
        Seq::empty()
    } else {
        e_rows(rows.drop_last()) + e_row(rows.last())
    }
}

/// The whole payload for a database.
pub open spec fn e_payload(
    kind: IndexKind,
    dim: usize,
    metric: DistanceMetric,
    rows: Seq<RowView>,
) -> Seq<u8> {
    magic() + le_u32(PAYLOAD_VERSION) + e_kind(kind) + le_u64(dim as u64) + seq![metric_tag(metric)]
        + le_u64(rows.len() as u64) + e_rows(rows)
}

// ---------------------------------------------------------------------
// Which values do not fit the format's 32-bit lengths.
// ---------------------------------------------------------------------

pub open spec fn str_fits(s: Seq<char>) -> bool {
    encode_utf8(s).len() <= u32::MAX
}

pub open spec fn entry_error(e: EntryView) -> Option<Field> {
    if !str_fits(e.0) {
        Some(Field::StringLength)
    } else {
        match e.1 {
            ValueView::String(s) => if !str_fits(s) {
                Some(Field::StringLength)
            } else {
                None
            },
            _ => None,
        }
    }
}

/// The first entry, in order, that does not fit.
pub open spec fn entries_error(es: Seq<EntryView>) -> Option<Field>
    decreases es.len(),
{
    if es.len() == 0 {
        None
    } else {
        match entries_error(es.drop_last()) {
            Some(f) => Some(f),
            None => entry_error(es.last()),
        }
    }
}

pub open spec fn meta_error(m: Option<Seq<EntryView>>) -> Option<Field> {
    match m {
        None => None,
        Some(es) => if es.len() > u32::MAX {
            Some(Field::EntryCount)
        } else {
            entries_error(es)
        },
    }
}

pub open spec fn row_error(r: RowView) -> Option<Field> {
    match r.id {
        IdView::Bytes(bs) => if bs.len() > u32::MAX {
            Some(Field::IdLength)
        } else {
            meta_error(r.meta)
        },
        IdView::U64(_) => meta_error(r.meta),
    }
}

/// The first row, in order, that does not fit.
pub open spec fn rows_error(rows: Seq<RowView>) -> Option<Field>
    decreases rows.len(),
{
    if rows.len() == 0 {
        None
    } else {
        match rows_error(rows.drop_last()) {
            Some(f) => Some(f),
            None => row_error(rows.last()),
        }
    }
}

pub open spec fn rows_view(rows: Seq<Row>) -> Seq<RowView> {
    rows.map_values(|r: Row| r@)
}

// ---------------------------------------------------------------------
// Writing.
// ---------------------------------------------------------------------

fn write_u8(buf: &mut Vec<u8>, x: u8)
    ensures
        final(buf)@ == old(buf)@ + seq![x],
{
    buf.push(x);
    assert(buf@ =~= old(buf)@ + seq![x]);
}

/// Appends the tagged encoding of an index kind and its tuning.
pub fn encode_kind(buf: &mut Vec<u8>, kind: IndexKind)
    ensures
        final(buf)@ == old(buf)@ + e_kind(kind),
{
    let ghost start = buf@;
    match kind {
        IndexKind::Flat => {
            write_u8(buf, 0);
        },
        IndexKind::Hnsw(c) => {
            write_u8(buf, 1);
            write_u64(buf, c.m as u64);
            write_u64(buf, c.ef_construction as u64);
            write_u64(buf, c.ef_search as u64);
            write_u64(buf, c.filter_widen as u64);
            write_u64(buf, c.seed);
            assert(buf@ =~= start + e_kind(kind));
        },
        IndexKind::Ivf(c) => {
            let ghost mid = buf@;
            write_u8(buf, 2);
            write_u64(buf, c.n_clusters as u64);
            write_u64(buf, c.n_probes as u64);
            write_u64(buf, c.training_sample_size as u64);
            write_u8(buf, if c.use_pq { 1 } else { 0 });
            let ghost before_pq = buf@;
            match c.pq_subvectors {
                Some(m) => {
                    write_u8(buf, 1);
                    write_u64(buf, m as u64);
                },
                None => {
                    write_u8(buf, 0);
                },
            }
            assert(buf@ =~= before_pq + e_pq(c.pq_subvectors));
            write_u32(buf, c.pq_refine_factor);
            write_u64(buf, c.seed);
            assert(buf@ =~= start + e_kind(kind));
        },
    }
}

fn write_id(buf: &mut Vec<u8>, id: &VectorId) -> (r: Result<(), PayloadError>)
    ensures
        match id@ {
            IdView::Bytes(bs) => bs.len() > u32::MAX,
            _ => false,
        } ==> r == Err::<(), PayloadError>(PayloadError::OutOfRange { field: Field::IdLength }),
        r is Ok ==> final(buf)@ == old(buf)@ + e_id(id@),
        r is Ok <==> !(match id@ {
            IdView::Bytes(bs) => bs.len() > u32::MAX,
            _ => false,
        }),
{
    let ghost start = buf@;
    match id {
        VectorId::U64(n) => {
            write_u8(buf, 0);
            write_u64(buf, *n);
            assert(buf@ =~= start + e_id(id@));
            Ok(())
        },
        VectorId::Bytes(bs) => {
            if (bs.len() as u64) > 0xFFFF_FFFFu64 {
                return Err(PayloadError::OutOfRange { field: Field::IdLength });
            }
            write_u8(buf, 1);
            write_u32(buf, bs.len() as u32);
            write_raw(buf, bs.as_slice());
            assert(buf@ =~= start + e_id(id@));
            Ok(())
        },
    }
}

fn write_vec(buf: &mut Vec<u8>, v: &Vec<u32>)
    ensures
        final(buf)@ == old(buf)@ + e_vec(v@),
{
    let ghost start = buf@;
    let mut i: usize = 0;
    while i < v.len()
        invariant
            i <= v.len(),
            buf@ == start + e_vec(v@.subrange(0, i as int)),
        decreases v.len() - i,
    {
        write_u32(buf, v[i]);
        proof {
            let s = v@.subrange(0, i + 1);
            assert(s.drop_last() =~= v@.subrange(0, i as int));
            assert(s.last() == v@[i as int]);
        }
        i = i + 1;
        assert(buf@ =~= start + e_vec(v@.subrange(0, i as int)));
    }
    assert(v@.subrange(0, v.len() as int) =~= v@);
}

fn write_str(buf: &mut Vec<u8>, s: &String) -> (r: Result<(), PayloadError>)
    ensures
        r is Ok <==> str_fits(s@),
        r is Err ==> r == Err::<(), PayloadError>(PayloadError::OutOfRange { field: Field::StringLength }),
        r is Ok ==> final(buf)@ == old(buf)@ + e_str(s@),
{
    let bs = s.as_str().as_bytes();
    if (bs.len() as u64) > 0xFFFF_FFFFu64 {
        return Err(PayloadError::OutOfRange { field: Field::StringLength });
    }
    let ghost start = buf@;
    write_u32(buf, bs.len() as u32);
    write_raw(buf, bs);
    assert(buf@ =~= start + e_str(s@));
    Ok(())
}

fn write_value(buf: &mut Vec<u8>, v: &Value) -> (r: Result<(), PayloadError>)
    ensures
        r is Ok <==> (match v@ {
            ValueView::String(s) => str_fits(s),
            _ => true,
        }),
        r is Err ==> r == Err::<(), PayloadError>(PayloadError::OutOfRange { field: Field::StringLength }),
        r is Ok ==> final(buf)@ == old(buf)@ + e_value(v@),
{
    let ghost start = buf@;
    match v {
        Value::String(s) => {
            write_u8(buf, 0);
            let r = write_str(buf, s);
            if r.is_err() {
                return r;
            }
            assert(buf@ =~= start + e_value(v@));
        },
        Value::Int(i) => {
            write_u8(buf, 1);
            write_i64(buf, *i);
            assert(buf@ =~= start + e_value(v@));
        },
        Value::Float(x) => {
            write_u8(buf, 2);
            write_u64(buf, x.0);
            assert(buf@ =~= start + e_value(v@));
        },
        Value::Bool(b) => {
            write_u8(buf, 3);
            write_u8(buf, if *b { 1 } else { 0 });
            assert(buf@ =~= start + e_value(v@));
        },
        Value::Null => {
            write_u8(buf, 4);
        },
    }
    Ok(())
}

fn write_meta(buf: &mut Vec<u8>, m: &Option<Metadata>) -> (r: Result<(), PayloadError>)
    ensures
        match meta_error(meta_view(*m)) {
            None => r is Ok && final(buf)@ == old(buf)@ + e_meta(meta_view(*m)),
            Some(f) => r == Err::<(), PayloadError>(PayloadError::OutOfRange { field: f }),
        },
{
    let ghost start = buf@;
    match m {
        None => {
            write_u8(buf, 0);
            Ok(())
        },
        Some(md) => {
            let es = md.entries();
            let n = es.len();
            if (n as u64) > 0xFFFF_FFFFu64 {
                return Err(PayloadError::OutOfRange { field: Field::EntryCount });
            }
            write_u8(buf, 1);
            write_u32(buf, n as u32);
            let ghost head = buf@;
            let mut i: usize = 0;
            while i < n
                invariant
                    n == es@.len(),
                    pairs_view(es@) == md@,
                    n == md@.len(),
                    n <= u32::MAX,
                    meta_view(*m) == Some(md@),
                    i <= n,
                    entries_error(md@.subrange(0, i as int)) is None,
                    buf@ == head + e_entries(md@.subrange(0, i as int)),
                decreases n - i,
            {
                let e = &es[i];
                let ghost ev = md@[i as int];
                assert(ev == entry_view(es@[i as int]));
                let ghost sub = md@.subrange(0, i + 1);
                assert(sub.drop_last() =~= md@.subrange(0, i as int));
                assert(sub.last() == ev);
                let r1 = write_str(buf, &e.0);
                if r1.is_err() {
                    proof {
                        assert(ev.0 == e.0@);
                        assert(entry_error(md@[i as int]) == Some(Field::StringLength));
                        lemma_entries_error_extends(md@, i as int);
                        assert(meta_error(meta_view(*m)) == Some(Field::StringLength));
                    }
                    return r1;
                }
                let r2 = write_value(buf, &e.1);
                if r2.is_err() {
                    proof {
                        assert(ev.1 == e.1@);
                        assert(entry_error(md@[i as int]) == Some(Field::StringLength));
                        lemma_entries_error_extends(md@, i as int);
                        assert(meta_error(meta_view(*m)) == Some(Field::StringLength));
                    }
                    return r2;
                }
                i = i + 1;
                assert(buf@ =~= head + e_entries(md@.subrange(0, i as int)));
            }
            assert(md@.subrange(0, n as int) =~= md@);
            assert(buf@ =~= start + e_meta(meta_view(*m)));
            Ok(())
        },
    }
}

/// Once an entry fails to fit, the first failure of the longer prefix is
/// that same failure.
proof fn lemma_entries_error_extends(es: Seq<EntryView>, i: int)
    requires
        0 <= i < es.len(),
        entries_error(es.subrange(0, i)) is None,
        entry_error(es[i]) is Some,
    ensures
        entries_error(es) == entry_error(es[i]),
    decreases es.len() - i,
{
    let sub = es.subrange(0, i + 1);
    assert(sub.drop_last() =~= es.subrange(0, i));
    assert(entries_error(sub) == entry_error(es[i]));
    lemma_entries_error_prefix(es, i + 1);
}

/// A failure in a prefix is the failure of the whole sequence.
proof fn lemma_entries_error_prefix(es: Seq<EntryView>, k: int)
    requires
        0 <= k <= es.len(),
        entries_error(es.subrange(0, k)) is Some,
    ensures
        entries_error(es) == entries_error(es.subrange(0, k)),
    decreases es.len() - k,
{
    if k == es.len() {
        assert(es.subrange(0, k) =~= es);
    } else {
        let sub = es.subrange(0, k + 1);
        assert(sub.drop_last() =~= es.subrange(0, k));
        lemma_entries_error_prefix(es, k + 1);
    }
}

/// A failure in a prefix is the failure of the whole sequence.
proof fn lemma_rows_error_prefix(rows: Seq<RowView>, k: int)
    requires
        0 <= k <= rows.len(),
        rows_error(rows.subrange(0, k)) is Some,
    ensures
        rows_error(rows) == rows_error(rows.subrange(0, k)),
    decreases rows.len() - k,
{
    if k == rows.len() {
        assert(rows.subrange(0, k) =~= rows);
    } else {
        let sub = rows.subrange(0, k + 1);
        assert(sub.drop_last() =~= rows.subrange(0, k));
        lemma_rows_error_prefix(rows, k + 1);
    }
}

fn write_row(buf: &mut Vec<u8>, row: &Row) -> (r: Result<(), PayloadError>)
    ensures
        match row_error(row@) {
            None => r is Ok && final(buf)@ == old(buf)@ + e_row(row@),
            Some(f) => r == Err::<(), PayloadError>(PayloadError::OutOfRange { field: f }),
        },
{
    let ghost start = buf@;
    let r1 = write_id(buf, &row.id);
    if r1.is_err() {
        return r1;
    }
    write_vec(buf, &row.vector);
    let r2 = write_meta(buf, &row.meta);
    if r2.is_err() {
        return r2;
    }
    assert(buf@ =~= start + e_row(row@));
    Ok(())
}

/// Serializes the index kind, `dim`, `metric` and every row.
///
/// Fails, with the field, exactly when a `Bytes` id, a metadata entry count
/// or a metadata string is longer than the format's 32-bit length allows;
/// the first such value, in write order, is the one reported.
pub fn encode(kind: IndexKind, dim: usize, metric: DistanceMetric, rows: &Vec<Row>) -> (r: Result<
    Vec<u8>,
    PayloadError,
>)
    ensures
        match rows_error(rows_view(rows@)) {
            None => r matches Ok(bytes) && bytes@ == e_payload(kind, dim, metric, rows_view(rows@)),
            Some(f) => r == Err::<Vec<u8>, PayloadError>(PayloadError::OutOfRange { field: f }),
        },
{
    let mut buf: Vec<u8> = Vec::new();
    write_u8(&mut buf, 0x49);
    write_u8(&mut buf, 0x51);
    write_u8(&mut buf, 0x44);
    write_u8(&mut buf, 0x43);
    write_u32(&mut buf, PAYLOAD_VERSION);
    encode_kind(&mut buf, kind);
    write_u64(&mut buf, dim as u64);
    write_u8(&mut buf, metric_byte(metric));
    write_u64(&mut buf, rows.len() as u64);
    let ghost head = buf@;
    let ghost all = rows_view(rows@);
    assert(head =~= magic() + le_u32(PAYLOAD_VERSION) + e_kind(kind) + le_u64(dim as u64) + seq![
        metric_tag(metric),
    ] + le_u64(rows.len() as u64));
    let mut i: usize = 0;
    while i < rows.len()
        invariant
            i <= rows.len(),
            all == rows_view(rows@),
            all.len() == rows@.len(),
            rows_error(all.subrange(0, i as int)) is None,
            buf@ == head + e_rows(all.subrange(0, i as int)),
        decreases rows.len() - i,
    {
        let ghost sub = all.subrange(0, i + 1);
        assert(sub.drop_last() =~= all.subrange(0, i as int));
        assert(sub.last() == rows@[i as int]@);
        let r = write_row(&mut buf, &rows[i]);
        if r.is_err() {
            proof {
                lemma_rows_error_prefix(all, i + 1);
            }
            return Err(r.unwrap_err());
        }
        i = i + 1;
        assert(buf@ =~= head + e_rows(all.subrange(0, i as int)));
    }
    assert(all.subrange(0, rows.len() as int) =~= all);
    assert(buf@ =~= e_payload(kind, dim, metric, all));
    Ok(buf)
}

/// The one-byte tag of a metric.
pub fn metric_byte(m: DistanceMetric) -> (t: u8)
    ensures
        t == metric_tag(m),
{
    match m {
        DistanceMetric::Cosine => 0,
        DistanceMetric::DotProduct => 1,
        DistanceMetric::Euclidean => 2,
        DistanceMetric::Manhattan => 3,
        DistanceMetric::Hamming => 4,
    }
}

/// The metric a tag stands for.
pub fn metric_from_byte(t: u8) -> (m: Option<DistanceMetric>)
    ensures
        m == metric_of_tag(t),
{
    if t == 0 {
        Some(DistanceMetric::Cosine)
    } else if t == 1 {
        Some(DistanceMetric::DotProduct)
    } else if t == 2 {
        Some(DistanceMetric::Euclidean)
    } else if t == 3 {
        Some(DistanceMetric::Manhattan)
    } else if t == 4 {
        Some(DistanceMetric::Hamming)
    } else {
        None
    }
}


// ---------------------------------------------------------------------
// Reading.
// ---------------------------------------------------------------------

/// `r` is what the spec step `s` reads, and the cursor stands at the
/// position after it.
pub open spec fn steps<T>(r: Result<T, PayloadError>, s: PRes<T>, pos: int) -> bool {
    match r {
        Ok(v) => s matches Ok((w, q)) && v == w && pos == q,
        Err(e) => s == Err::<(T, int), PayloadError>(e),
    }
}

/// As [`steps`], for a result compared by its view.
pub open spec fn steps_view<T: View>(r: Result<T, PayloadError>, s: PRes<T::V>, pos: int) -> bool {
    match r {
        Ok(v) => s matches Ok((w, q)) && v@ == w && pos == q,
        Err(e) => s == Err::<(T::V, int), PayloadError>(e),
    }
}

/// The cursor still reads the same bytes and is well formed.
pub open spec fn same_data(before: Cursor, after: Cursor) -> bool {
    after.wf() && after.data() == before.data()
}

/// `String::from_utf8`. std documents that it succeeds exactly when the
/// bytes are valid UTF-8, and that the string then consists of exactly
/// those bytes; the contract claims both, stated over vstd's UTF-8 model.
#[verifier::external_body]
pub(crate) fn string_from_utf8(bytes: Vec<u8>) -> (r: Option<String>)
    ensures
        r is Some <==> valid_utf8(bytes@),
        r matches Some(s) ==> encode_utf8(s@) == bytes@,
{
    String::from_utf8(bytes).ok()
}

fn take_u8(c: &mut Cursor) -> (r: Result<u8, PayloadError>)
    requires
        old(c).wf(),
    ensures
        same_data(*old(c), *final(c)),
        steps(r, p_u8(old(c).data(), old(c).position()), final(c).position()),
{
    match c.read_u8() {
        None => Err(PayloadError::UnexpectedEof),
        Some(v) => Ok(v),
    }
}

fn take_u32(c: &mut Cursor) -> (r: Result<u32, PayloadError>)
    requires
        old(c).wf(),
    ensures
        same_data(*old(c), *final(c)),
        steps(r, p_u32(old(c).data(), old(c).position()), final(c).position()),
{
    match c.read_u32() {
        None => Err(PayloadError::UnexpectedEof),
        Some(v) => Ok(v),
    }
}

fn take_u64(c: &mut Cursor) -> (r: Result<u64, PayloadError>)
    requires
        old(c).wf(),
    ensures
        same_data(*old(c), *final(c)),
        steps(r, p_u64(old(c).data(), old(c).position()), final(c).position()),
{
    match c.read_u64() {
        None => Err(PayloadError::UnexpectedEof),
        Some(v) => Ok(v),
    }
}

fn take_usize(c: &mut Cursor, field: Field) -> (r: Result<usize, PayloadError>)
    requires
        old(c).wf(),
    ensures
        same_data(*old(c), *final(c)),
        steps(r, p_usize(old(c).data(), old(c).position(), field), final(c).position()),
{
    let v = take_u64(c)?;
    if v > usize::MAX as u64 {
        Err(PayloadError::OutOfRange { field })
    } else {
        Ok(v as usize)
    }
}

fn take_bytes(c: &mut Cursor, n: usize) -> (r: Result<Vec<u8>, PayloadError>)
    requires
        old(c).wf(),
    ensures
        same_data(*old(c), *final(c)),
        steps_view(r, p_bytes(old(c).data(), old(c).position(), n as int), final(c).position()),
{
    match c.read_exact(n) {
        None => Err(PayloadError::UnexpectedEof),
        Some(v) => Ok(v),
    }
}

fn decode_hnsw(c: &mut Cursor) -> (r: Result<HnswConfig, PayloadError>)
    requires
        old(c).wf(),
    ensures
        same_data(*old(c), *final(c)),
        steps(r, p_hnsw(old(c).data(), old(c).position()), final(c).position()),
{
    let m = take_usize(c, Field::HnswParam)?;
    let ef_construction = take_usize(c, Field::HnswParam)?;
    let ef_search = take_usize(c, Field::HnswParam)?;
    let filter_widen = take_usize(c, Field::HnswParam)?;
    let seed = take_u64(c)?;
    Ok(HnswConfig { m, ef_construction, ef_search, filter_widen, seed })
}

fn decode_pq(c: &mut Cursor) -> (r: Result<Option<usize>, PayloadError>)
    requires
        old(c).wf(),
    ensures
        same_data(*old(c), *final(c)),
        steps(r, p_pq(old(c).data(), old(c).position()), final(c).position()),
{
    let t = take_u8(c)?;
    if t == 0 {
        Ok(None)
    } else if t == 1 {
        let m = take_usize(c, Field::PqSubvectors)?;
        Ok(Some(m))
    } else {
        Err(PayloadError::PqSubvectorsTag)
    }
}

fn decode_ivf(c: &mut Cursor) -> (r: Result<IvfConfig, PayloadError>)
    requires
        old(c).wf(),
    ensures
        same_data(*old(c), *final(c)),
        steps(r, p_ivf(old(c).data(), old(c).position()), final(c).position()),
{
    let n_clusters = take_usize(c, Field::IvfParam)?;
    let n_probes = take_usize(c, Field::IvfParam)?;
    let training_sample_size = take_usize(c, Field::IvfParam)?;
    let pq_flag = take_u8(c)?;
    let pq_subvectors = decode_pq(c)?;
    let pq_refine_factor = take_u32(c)?;
    let seed = take_u64(c)?;
    Ok(
        IvfConfig {
            n_clusters,
            n_probes,
            training_sample_size,
            use_pq: pq_flag != 0,
            pq_subvectors,
            pq_refine_factor,
            seed,
        },
    )
}

/// Reads an index kind and its tuning.
pub fn decode_kind(c: &mut Cursor) -> (r: Result<IndexKind, PayloadError>)
    requires
        old(c).wf(),
    ensures
        same_data(*old(c), *final(c)),
        steps(r, p_kind(old(c).data(), old(c).position()), final(c).position()),
{
    let t = take_u8(c)?;
    if t == 0 {
        Ok(IndexKind::Flat)
    } else if t == 1 {
        let cfg = decode_hnsw(c)?;
        Ok(IndexKind::Hnsw(cfg))
    } else if t == 2 {
        let cfg = decode_ivf(c)?;
        Ok(IndexKind::Ivf(cfg))
    } else {
        Err(PayloadError::UnknownKindTag)
    }
}

fn decode_id(c: &mut Cursor) -> (r: Result<VectorId, PayloadError>)
    requires
        old(c).wf(),
    ensures
        same_data(*old(c), *final(c)),
        steps_view(r, p_id(old(c).data(), old(c).position()), final(c).position()),
{
    let t = take_u8(c)?;
    if t == 0 {
        let n = take_u64(c)?;
        Ok(VectorId::U64(n))
    } else if t == 1 {
        let len = take_u32(c)?;
        if len == 0 {
            return Err(PayloadError::EmptyBytesId);
        }
        let bytes = take_bytes(c, len as usize)?;
        Ok(VectorId::Bytes(bytes))
    } else {
        Err(PayloadError::UnknownIdTag)
    }
}

/// Once reading the first `k` components fails, reading more fails the same way.
proof fn lemma_vec_err(b: Seq<u8>, p: int, k: nat, n: nat)
    requires
        k <= n,
        p_vec(b, p, k) is Err,
    ensures
        p_vec(b, p, n) == p_vec(b, p, k),
    decreases n,
{
    if n > k {
        lemma_vec_err(b, p, k, (n - 1) as nat);
    }
}

/// Once reading the first `k` entries fails, reading more fails the same way.
proof fn lemma_entries_err(b: Seq<u8>, p: int, k: nat, n: nat)
    requires
        k <= n,
        p_entries(b, p, k) is Err,
    ensures
        p_entries(b, p, n) == p_entries(b, p, k),
    decreases n,
{
    if n > k {
        lemma_entries_err(b, p, k, (n - 1) as nat);
    }
}

/// Once reading the first `k` rows fails, reading more fails the same way.
proof fn lemma_rows_err(b: Seq<u8>, p: int, k: nat, n: nat, dim: nat)
    requires
        k <= n,
        p_rows(b, p, k, dim) is Err,
    ensures
        p_rows(b, p, n, dim) == p_rows(b, p, k, dim),
    decreases n,
{
    if n > k {
        lemma_rows_err(b, p, k, (n - 1) as nat, dim);
    }
}

fn decode_vec(c: &mut Cursor, dim: usize) -> (r: Result<Vec<u32>, PayloadError>)
    requires
        old(c).wf(),
    ensures
        same_data(*old(c), *final(c)),
        steps_view(r, p_vec(old(c).data(), old(c).position(), dim as nat), final(c).position()),
{
    let ghost data = c.data();
    let ghost start = c.position();
    let mut out: Vec<u32> = Vec::new();
    let mut i: usize = 0;
    while i < dim
        invariant
            c.wf(),
            c.data() == data,
            data == old(c).data(),
            start == old(c).position(),
            i <= dim,
            p_vec(data, start, i as nat) == Ok::<(Seq<u32>, int), PayloadError>(
                (out@, c.position()),
            ),
        decreases dim - i,
    {
        match take_u32(c) {
            Err(e) => {
                proof {
                    lemma_vec_err(data, start, (i + 1) as nat, dim as nat);
                }
                return Err(e);
            },
            Ok(x) => {
                out.push(x);
            },
        }
        i = i + 1;
    }
    Ok(out)
}

fn decode_str(c: &mut Cursor) -> (r: Result<String, PayloadError>)
    requires
        old(c).wf(),
    ensures
        same_data(*old(c), *final(c)),
        steps_view(r, p_str(old(c).data(), old(c).position()), final(c).position()),
{
    let len = take_u32(c)?;
    let bytes = take_bytes(c, len as usize)?;
    let ghost bv = bytes@;
    match string_from_utf8(bytes) {
        None => Err(PayloadError::InvalidUtf8),
        Some(s) => {
            proof {
                encode_utf8_decode_utf8(s@);
            }
            Ok(s)
        },
    }
}

fn decode_value(c: &mut Cursor) -> (r: Result<Value, PayloadError>)
    requires
        old(c).wf(),
    ensures
        same_data(*old(c), *final(c)),
        steps_view(r, p_value(old(c).data(), old(c).position()), final(c).position()),
{
    let t = take_u8(c)?;
    if t == 0 {
        let s = decode_str(c)?;
        Ok(Value::String(s))
    } else if t == 1 {
        let x = take_u64(c)?;
        Ok(Value::Int(x as i64))
    } else if t == 2 {
        let x = take_u64(c)?;
        Ok(Value::Float(Double(x)))
    } else if t == 3 {
        let x = take_u8(c)?;
        Ok(Value::Bool(x != 0))
    } else if t == 4 {
        Ok(Value::Null)
    } else {
        Err(PayloadError::UnknownValueTag)
    }
}

fn decode_meta(c: &mut Cursor) -> (r: Result<Option<Metadata>, PayloadError>)
    requires
        old(c).wf(),
    ensures
        same_data(*old(c), *final(c)),
        match r {
            Ok(m) => p_meta(old(c).data(), old(c).position()) matches Ok((w, q)) && meta_view(m)
                == w && final(c).position() == q,
            Err(e) => p_meta(old(c).data(), old(c).position()) == Err::<
                (Option<Seq<EntryView>>, int),
                PayloadError,
            >(e),
        },
{
    let ghost p0 = c.position();
    let t = take_u8(c)?;
    if t == 0 {
        Ok(None)
    } else if t == 1 {
        let count = take_u32(c)?;
        let ghost data = c.data();
        let ghost start = c.position();
        let mut raw: Vec<(String, Value)> = Vec::new();
        assert(pairs_view(raw@) =~= Seq::<EntryView>::empty());
        let mut i: u32 = 0;
        while i < count
            invariant
                c.wf(),
                c.data() == data,
                data == old(c).data(),
                p0 == old(c).position(),
                p_u8(data, p0) == Ok::<(u8, int), PayloadError>((1u8, p0 + 1)),
                p_u32(data, p0 + 1) == Ok::<(u32, int), PayloadError>((count, start)),
                i <= count,
                p_entries(data, start, i as nat) == Ok::<(Seq<EntryView>, int), PayloadError>(
                    (pairs_view(raw@), c.position()),
                ),
            decreases count - i,
        {
            let key = match decode_str(c) {
                Err(e) => {
                    proof {
                        lemma_entries_err(data, start, (i + 1) as nat, count as nat);
                    }
                    return Err(e);
                },
                Ok(k) => k,
            };
            let value = match decode_value(c) {
                Err(e) => {
                    proof {
                        lemma_entries_err(data, start, (i + 1) as nat, count as nat);
                    }
                    return Err(e);
                },
                Ok(v) => v,
            };
            let ghost before = raw@;
            let ghost kv = (key@, value@);
            raw.push((key, value));
            assert(pairs_view(raw@) =~= pairs_view(before).push(kv));
            i = i + 1;
        }
        Ok(Some(Metadata::from_pairs(raw)))
    } else {
        Err(PayloadError::UnknownMetadataTag)
    }
}

fn decode_row(c: &mut Cursor, dim: usize) -> (r: Result<Row, PayloadError>)
    requires
        old(c).wf(),
    ensures
        same_data(*old(c), *final(c)),
        steps_view(r, p_row(old(c).data(), old(c).position(), dim as nat), final(c).position()),
{
    let id = decode_id(c)?;
    let vector = decode_vec(c, dim)?;
    let meta = decode_meta(c)?;
    Ok(Row { id, vector, meta })
}

/// A decoded payload: everything needed to rebuild the database.
#[derive(Debug, PartialEq)]
pub struct Decoded {
    pub kind: IndexKind,
    pub dim: usize,
    pub metric: DistanceMetric,
    pub rows: Vec<Row>,
}

impl View for Decoded {
    type V = DecodedView;

    open spec fn view(&self) -> DecodedView {
        DecodedView { kind: self.kind, dim: self.dim, metric: self.metric, rows: rows_view(self.rows@) }
    }
}

/// Reads a payload produced by [`encode`]. Bytes after the last row are
/// not read.
pub fn decode(bytes: &[u8]) -> (r: Result<Decoded, PayloadError>)
    ensures
        match r {
            Ok(d) => p_payload(bytes@) == Ok::<DecodedView, PayloadError>(d@) && decoded_ok(d@),
            Err(e) => p_payload(bytes@) == Err::<DecodedView, PayloadError>(e),
        },
{
    let mut c = Cursor::new(bytes);
    let head = take_bytes(&mut c, 4)?;
    if !(head[0] == 0x49 && head[1] == 0x51 && head[2] == 0x44 && head[3] == 0x43) {
        return Err(PayloadError::MagicMismatch);
    }
    assert(head@ =~= magic());
    assert(c.position() == 4);
    let version = take_u32(&mut c)?;
    if version != PAYLOAD_VERSION {
        return Err(PayloadError::UnsupportedVersion);
    }
    let kind = decode_kind(&mut c)?;
    let dim = take_usize(&mut c, Field::Dim)?;
    let tag = take_u8(&mut c)?;
    let metric = match metric_from_byte(tag) {
        None => {
            return Err(PayloadError::InvalidMetric { tag });
        },
        Some(m) => m,
    };
    let n = take_usize(&mut c, Field::RowCount)?;
    let ghost data = c.data();
    let ghost start = c.position();
    let mut rows: Vec<Row> = Vec::new();
    assert(rows_view(rows@) =~= Seq::<RowView>::empty());
    let mut i: usize = 0;
    while i < n
        invariant
            c.wf(),
            c.data() == data,
            data == bytes@,
            p_payload(bytes@) == match p_rows(data, start, n as nat, dim as nat) {
                Err(e) => Err(e),
                Ok((rows, _)) => Ok(DecodedView { kind, dim, metric, rows }),
            },
            i <= n,
            p_rows(data, start, i as nat, dim as nat) == Ok::<(Seq<RowView>, int), PayloadError>(
                (rows_view(rows@), c.position()),
            ),
        decreases n - i,
    {
        match decode_row(&mut c, dim) {
            Err(e) => {
                proof {
                    lemma_rows_err(data, start, (i + 1) as nat, n as nat, dim as nat);
                }
                return Err(e);
            },
            Ok(row) => {
                let ghost before = rows@;
                rows.push(row);
                assert(rows_view(rows@) =~= rows_view(before).push(row@));
            },
        }
        i = i + 1;
    }
    proof {
        lemma_payload_shape(bytes@);
    }
    Ok(Decoded { kind, dim, metric, rows })
}


// ---------------------------------------------------------------------
// Reading back what was written.
// ---------------------------------------------------------------------

/// `b` holds the bytes `x` starting at `p`.
pub open spec fn window(b: Seq<u8>, p: int, x: Seq<u8>) -> bool {
    0 <= p && p + x.len() <= b.len() && b.subrange(p, p + x.len()) == x
}

proof fn lemma_cat(b: Seq<u8>, p: int, x: Seq<u8>, y: Seq<u8>)
    requires
        window(b, p, x + y),
    ensures
        window(b, p, x),
        window(b, p + x.len(), y),
{
    lemma_window_split(b, p, x, y);
}

proof fn lemma_rt_u8(b: Seq<u8>, p: int, x: u8)
    requires
        window(b, p, seq![x]),
    ensures
        p_u8(b, p) == Ok::<(u8, int), PayloadError>((x, p + 1)),
{
    assert(b.subrange(p, p + 1)[0] == b[p]);
}

proof fn lemma_rt_u32(b: Seq<u8>, p: int, x: u32)
    requires
        window(b, p, le_u32(x)),
    ensures
        p_u32(b, p) == Ok::<(u32, int), PayloadError>((x, p + 4)),
{
    lemma_u32_at(b, p, x);
}

proof fn lemma_rt_u64(b: Seq<u8>, p: int, x: u64)
    requires
        window(b, p, le_u64(x)),
    ensures
        p_u64(b, p) == Ok::<(u64, int), PayloadError>((x, p + 8)),
{
    lemma_u64_at(b, p, x);
}

proof fn lemma_rt_usize(b: Seq<u8>, p: int, x: usize, field: Field)
    requires
        window(b, p, le_u64(x as u64)),
    ensures
        p_usize(b, p, field) == Ok::<(usize, int), PayloadError>((x, p + 8)),
{
    lemma_u64_at(b, p, x as u64);
}

proof fn lemma_rt_hnsw(b: Seq<u8>, p: int, c: HnswConfig)
    requires
        window(b, p, e_hnsw(c)),
    ensures
        p_hnsw(b, p) == Ok::<(HnswConfig, int), PayloadError>((c, p + 40)),
{
    let a = le_u64(c.m as u64);
    let bb = le_u64(c.ef_construction as u64);
    let cc = le_u64(c.ef_search as u64);
    let d = le_u64(c.filter_widen as u64);
    let e = le_u64(c.seed);
    lemma_cat(b, p, a + bb + cc + d, e);
    lemma_cat(b, p, a + bb + cc, d);
    lemma_cat(b, p, a + bb, cc);
    lemma_cat(b, p, a, bb);
    lemma_rt_usize(b, p, c.m, Field::HnswParam);
    lemma_rt_usize(b, p + 8, c.ef_construction, Field::HnswParam);
    lemma_rt_usize(b, p + 16, c.ef_search, Field::HnswParam);
    lemma_rt_usize(b, p + 24, c.filter_widen, Field::HnswParam);
    lemma_rt_u64(b, p + 32, c.seed);
}

proof fn lemma_rt_pq(b: Seq<u8>, p: int, pq: Option<usize>)
    requires
        window(b, p, e_pq(pq)),
    ensures
        p_pq(b, p) == Ok::<(Option<usize>, int), PayloadError>((pq, p + e_pq(pq).len())),
{
    match pq {
        Some(m) => {
            lemma_cat(b, p, seq![1u8], le_u64(m as u64));
            lemma_rt_u8(b, p, 1u8);
            lemma_rt_usize(b, p + 1, m, Field::PqSubvectors);
        },
        None => {
            lemma_rt_u8(b, p, 0u8);
        },
    }
}

proof fn lemma_rt_ivf(b: Seq<u8>, p: int, c: IvfConfig)
    requires
        window(b, p, e_ivf(c)),
    ensures
        p_ivf(b, p) == Ok::<(IvfConfig, int), PayloadError>((c, p + e_ivf(c).len())),
{
    let a = le_u64(c.n_clusters as u64);
    let bb = le_u64(c.n_probes as u64);
    let cc = le_u64(c.training_sample_size as u64);
    let d = seq![bool_byte(c.use_pq)];
    let pq = e_pq(c.pq_subvectors);
    let f = le_u32(c.pq_refine_factor);
    let g = le_u64(c.seed);
    lemma_cat(b, p, a + bb + cc + d + pq + f, g);
    lemma_cat(b, p, a + bb + cc + d + pq, f);
    lemma_cat(b, p, a + bb + cc + d, pq);
    lemma_cat(b, p, a + bb + cc, d);
    lemma_cat(b, p, a + bb, cc);
    lemma_cat(b, p, a, bb);
    lemma_rt_usize(b, p, c.n_clusters, Field::IvfParam);
    lemma_rt_usize(b, p + 8, c.n_probes, Field::IvfParam);
    lemma_rt_usize(b, p + 16, c.training_sample_size, Field::IvfParam);
    lemma_rt_u8(b, p + 24, bool_byte(c.use_pq));
    lemma_rt_pq(b, p + 25, c.pq_subvectors);
    lemma_rt_u32(b, p + 25 + pq.len(), c.pq_refine_factor);
    lemma_rt_u64(b, p + 29 + pq.len(), c.seed);
    assert((bool_byte(c.use_pq) != 0) == c.use_pq);
}

/// An index kind reads back as written, taking exactly its own bytes,
/// whatever follows it; a leading byte other than 0, 1 or 2 is refused.
pub proof fn law_kind_roundtrip(k: IndexKind, rest: Seq<u8>, t: u8)
    ensures
        p_kind(e_kind(k) + rest, 0) == Ok::<(IndexKind, int), PayloadError>(
            (k, e_kind(k).len() as int),
        ),
        t > 2 ==> p_kind(seq![t] + rest, 0) == Err::<(IndexKind, int), PayloadError>(
            PayloadError::UnknownKindTag,
        ),
{
    let b = e_kind(k) + rest;
    assert(b.subrange(0, e_kind(k).len() as int) =~= e_kind(k));
    lemma_rt_kind(b, 0, k);
    assert((seq![t] + rest)[0] == t);
}

proof fn lemma_rt_kind(b: Seq<u8>, p: int, k: IndexKind)
    requires
        window(b, p, e_kind(k)),
    ensures
        p_kind(b, p) == Ok::<(IndexKind, int), PayloadError>((k, p + e_kind(k).len())),
{
    match k {
        IndexKind::Flat => {
            lemma_rt_u8(b, p, 0u8);
        },
        IndexKind::Hnsw(c) => {
            lemma_cat(b, p, seq![1u8], e_hnsw(c));
            lemma_rt_u8(b, p, 1u8);
            lemma_rt_hnsw(b, p + 1, c);
        },
        IndexKind::Ivf(c) => {
            lemma_cat(b, p, seq![2u8], e_ivf(c));
            lemma_rt_u8(b, p, 2u8);
            lemma_rt_ivf(b, p + 1, c);
        },
    }
}

/// A well-formed id: a `Bytes` key is non-empty and fits a 32-bit length.
pub open spec fn id_ok(id: IdView) -> bool {
    match id {
        IdView::Bytes(bs) => 0 < bs.len() <= u32::MAX,
        IdView::U64(_) => true,
    }
}

proof fn lemma_rt_id(b: Seq<u8>, p: int, id: IdView)
    requires
        window(b, p, e_id(id)),
        id_ok(id),
    ensures
        p_id(b, p) == Ok::<(IdView, int), PayloadError>((id, p + e_id(id).len())),
{
    match id {
        IdView::U64(n) => {
            lemma_cat(b, p, seq![0u8], le_u64(n));
            lemma_rt_u8(b, p, 0u8);
            lemma_rt_u64(b, p + 1, n);
        },
        IdView::Bytes(bs) => {
            lemma_cat(b, p, seq![1u8] + le_u32(bs.len() as u32), bs);
            lemma_cat(b, p, seq![1u8], le_u32(bs.len() as u32));
            lemma_rt_u8(b, p, 1u8);
            lemma_rt_u32(b, p + 1, bs.len() as u32);
        },
    }
}

proof fn lemma_rt_vec(b: Seq<u8>, p: int, v: Seq<u32>)
    requires
        window(b, p, e_vec(v)),
    ensures
        p_vec(b, p, v.len()) == Ok::<(Seq<u32>, int), PayloadError>((v, p + e_vec(v).len())),
    decreases v.len(),
{
    if v.len() == 0 {
        assert(v =~= Seq::<u32>::empty());
    } else {
        let init = v.drop_last();
        lemma_cat(b, p, e_vec(init), le_u32(v.last()));
        lemma_rt_vec(b, p, init);
        lemma_rt_u32(b, p + e_vec(init).len(), v.last());
        assert(init.push(v.last()) =~= v);
    }
}

proof fn lemma_rt_str(b: Seq<u8>, p: int, s: Seq<char>)
    requires
        window(b, p, e_str(s)),
        str_fits(s),
    ensures
        p_str(b, p) == Ok::<(Seq<char>, int), PayloadError>((s, p + e_str(s).len())),
{
    let enc = encode_utf8(s);
    lemma_cat(b, p, le_u32(enc.len() as u32), enc);
    lemma_rt_u32(b, p, enc.len() as u32);
    encode_utf8_valid_utf8(s);
    encode_utf8_decode_utf8(s);
}

/// A value whose string, if any, fits a 32-bit length.
pub open spec fn value_ok(v: ValueView) -> bool {
    match v {
        ValueView::String(s) => str_fits(s),
        _ => true,
    }
}

proof fn lemma_rt_value(b: Seq<u8>, p: int, v: ValueView)
    requires
        window(b, p, e_value(v)),
        value_ok(v),
    ensures
        p_value(b, p) == Ok::<(ValueView, int), PayloadError>((v, p + e_value(v).len())),
{
    match v {
        ValueView::String(s) => {
            lemma_cat(b, p, seq![0u8], e_str(s));
            lemma_rt_u8(b, p, 0u8);
            lemma_rt_str(b, p + 1, s);
        },
        ValueView::Int(i) => {
            lemma_cat(b, p, seq![1u8], le_i64(i));
            lemma_rt_u8(b, p, 1u8);
            lemma_rt_u64(b, p + 1, i as u64);
            lemma_i64_roundtrip(i);
        },
        ValueView::Float(x) => {
            lemma_cat(b, p, seq![2u8], le_u64(x));
            lemma_rt_u8(b, p, 2u8);
            lemma_rt_u64(b, p + 1, x);
        },
        ValueView::Bool(x) => {
            assert(seq![3u8, bool_byte(x)] =~= seq![3u8] + seq![bool_byte(x)]);
            lemma_cat(b, p, seq![3u8], seq![bool_byte(x)]);
            lemma_rt_u8(b, p, 3u8);
            lemma_rt_u8(b, p + 1, bool_byte(x));
        },
        ValueView::Null => {
            lemma_rt_u8(b, p, 4u8);
        },
    }
}

proof fn lemma_rt_entries(b: Seq<u8>, p: int, es: Seq<EntryView>)
    requires
        window(b, p, e_entries(es)),
        forall|i: int| 0 <= i < es.len() ==> #[trigger] entry_error(es[i]) is None,
    ensures
        p_entries(b, p, es.len()) == Ok::<(Seq<EntryView>, int), PayloadError>(
            (es, p + e_entries(es).len()),
        ),
    decreases es.len(),
{
    if es.len() == 0 {
        assert(es =~= Seq::<EntryView>::empty());
    } else {
        let init = es.drop_last();
        let last = es.last();
        assert(entry_error(es[es.len() - 1]) is None);
        assert forall|i: int| 0 <= i < init.len() implies #[trigger] entry_error(init[i]) is None by {
            assert(init[i] == es[i]);
        }
        lemma_cat(b, p, e_entries(init), e_entry(last));
        lemma_rt_entries(b, p, init);
        let q = p + e_entries(init).len();
        lemma_cat(b, q, e_str(last.0), e_value(last.1));
        lemma_rt_str(b, q, last.0);
        lemma_rt_value(b, q + e_str(last.0).len(), last.1);
        assert(init.push(last) =~= es);
    }
}

proof fn lemma_entries_error_none(es: Seq<EntryView>)
    requires
        entries_error(es) is None,
    ensures
        forall|i: int| 0 <= i < es.len() ==> #[trigger] entry_error(es[i]) is None,
    decreases es.len(),
{
    if es.len() > 0 {
        let init = es.drop_last();
        lemma_entries_error_none(init);
        assert forall|i: int| 0 <= i < es.len() implies #[trigger] entry_error(es[i]) is None by {
            if i < es.len() - 1 {
                assert(init[i] == es[i]);
            }
        }
    }
}

proof fn lemma_rt_meta(b: Seq<u8>, p: int, m: Option<Seq<EntryView>>)
    requires
        window(b, p, e_meta(m)),
        meta_error(m) is None,
        meta_sorted(m),
    ensures
        p_meta(b, p) == Ok::<(Option<Seq<EntryView>>, int), PayloadError>((m, p + e_meta(m).len())),
{
    match m {
        None => {
            lemma_rt_u8(b, p, 0u8);
        },
        Some(es) => {
            lemma_cat(b, p, seq![1u8] + le_u32(es.len() as u32), e_entries(es));
            lemma_cat(b, p, seq![1u8], le_u32(es.len() as u32));
            lemma_rt_u8(b, p, 1u8);
            lemma_rt_u32(b, p + 1, es.len() as u32);
            lemma_entries_error_none(es);
            lemma_rt_entries(b, p + 5, es);
            lemma_insert_all_sorted(es);
        },
    }
}

/// Metadata, if any, keeps its keys in strictly increasing order, as every
/// [`Metadata`] does.
pub open spec fn meta_sorted(m: Option<Seq<EntryView>>) -> bool {
    m matches Some(es) ==> sorted_fields(es)
}

/// A row the payload reads back as itself: `dim` components, a well-formed
/// id, and every length within the format's 32-bit widths.
pub open spec fn row_ok(r: RowView, dim: nat) -> bool {
    &&& r.vector.len() == dim
    &&& id_ok(r.id)
    &&& row_error(r) is None
    &&& meta_sorted(r.meta)
}

proof fn lemma_rt_row(b: Seq<u8>, p: int, r: RowView, dim: nat)
    requires
        window(b, p, e_row(r)),
        row_ok(r, dim),
    ensures
        p_row(b, p, dim) == Ok::<(RowView, int), PayloadError>((r, p + e_row(r).len())),
{
    lemma_cat(b, p, e_id(r.id) + e_vec(r.vector), e_meta(r.meta));
    lemma_cat(b, p, e_id(r.id), e_vec(r.vector));
    lemma_rt_id(b, p, r.id);
    lemma_rt_vec(b, p + e_id(r.id).len(), r.vector);
    lemma_rt_meta(b, p + e_id(r.id).len() + e_vec(r.vector).len(), r.meta);
}

proof fn lemma_rt_rows(b: Seq<u8>, p: int, rows: Seq<RowView>, dim: nat)
    requires
        window(b, p, e_rows(rows)),
        forall|i: int| 0 <= i < rows.len() ==> #[trigger] row_ok(rows[i], dim),
    ensures
        p_rows(b, p, rows.len(), dim) == Ok::<(Seq<RowView>, int), PayloadError>(
            (rows, p + e_rows(rows).len()),
        ),
    decreases rows.len(),
{
    if rows.len() == 0 {
        assert(rows =~= Seq::<RowView>::empty());
    } else {
        let init = rows.drop_last();
        assert(row_ok(rows[rows.len() - 1], dim));
        assert forall|i: int| 0 <= i < init.len() implies #[trigger] row_ok(init[i], dim) by {
            assert(init[i] == rows[i]);
        }
        lemma_cat(b, p, e_rows(init), e_row(rows.last()));
        lemma_rt_rows(b, p, init, dim);
        lemma_rt_row(b, p + e_rows(init).len(), rows.last(), dim);
        assert(init.push(rows.last()) =~= rows);
    }
}

proof fn lemma_rows_error_none(rows: Seq<RowView>)
    requires
        rows_error(rows) is None,
    ensures
        forall|i: int| 0 <= i < rows.len() ==> #[trigger] row_error(rows[i]) is None,
    decreases rows.len(),
{
    if rows.len() > 0 {
        let init = rows.drop_last();
        lemma_rows_error_none(init);
        assert forall|i: int| 0 <= i < rows.len() implies #[trigger] row_error(rows[i]) is None by {
            if i < rows.len() - 1 {
                assert(init[i] == rows[i]);
            }
        }
    }
}

/// Where seven pieces are laid end to end, each sits right after the
/// ones before it.
proof fn lemma_split7(
    x0: Seq<u8>,
    x1: Seq<u8>,
    x2: Seq<u8>,
    x3: Seq<u8>,
    x4: Seq<u8>,
    x5: Seq<u8>,
    x6: Seq<u8>,
)
    ensures
        ({
            let b = x0 + x1 + x2 + x3 + x4 + x5 + x6;
            let o1 = x0.len() as int;
            let o2 = o1 + x1.len();
            let o3 = o2 + x2.len();
            let o4 = o3 + x3.len();
            let o5 = o4 + x4.len();
            let o6 = o5 + x5.len();
            &&& b.subrange(0, o1) == x0
            &&& window(b, 0, x0)
            &&& window(b, o1, x1)
            &&& window(b, o2, x2)
            &&& window(b, o3, x3)
            &&& window(b, o4, x4)
            &&& window(b, o5, x5)
            &&& window(b, o6, x6)
        }),
{
    let b = x0 + x1 + x2 + x3 + x4 + x5 + x6;
    assert(b.subrange(0, b.len() as int) =~= b);
    lemma_cat(b, 0, x0 + x1 + x2 + x3 + x4 + x5, x6);
    lemma_cat(b, 0, x0 + x1 + x2 + x3 + x4, x5);
    lemma_cat(b, 0, x0 + x1 + x2 + x3, x4);
    lemma_cat(b, 0, x0 + x1 + x2, x3);
    lemma_cat(b, 0, x0 + x1, x2);
    lemma_cat(b, 0, x0, x1);
}

/// The header fields of a written payload read back as written, and the
/// rows start right after them.
proof fn lemma_rt_header(
    kind: IndexKind,
    dim: usize,
    metric: DistanceMetric,
    n: usize,
    body: Seq<u8>,
) -> (p2: int)
    ensures
        ({
            let b = magic() + le_u32(PAYLOAD_VERSION) + e_kind(kind) + le_u64(dim as u64) + seq![
                metric_tag(metric),
            ] + le_u64(n as u64) + body;
            &&& b.len() >= 4
            &&& b.subrange(0, 4) == magic()
            &&& p_u32(b, 4) == Ok::<(u32, int), PayloadError>((PAYLOAD_VERSION, 8))
            &&& p_kind(b, 8) == Ok::<(IndexKind, int), PayloadError>((kind, p2))
            &&& p_usize(b, p2, Field::Dim) == Ok::<(usize, int), PayloadError>((dim, p2 + 8))
            &&& p_u8(b, p2 + 8) == Ok::<(u8, int), PayloadError>((metric_tag(metric), p2 + 9))
            &&& p_usize(b, p2 + 9, Field::RowCount) == Ok::<(usize, int), PayloadError>(
                (n, p2 + 17),
            )
            &&& window(b, p2 + 17, body)
        }),
{
    let h0 = magic();
    let h1 = le_u32(PAYLOAD_VERSION);
    let h2 = e_kind(kind);
    let h3 = le_u64(dim as u64);
    let h4 = seq![metric_tag(metric)];
    let h5 = le_u64(n as u64);
    let b = h0 + h1 + h2 + h3 + h4 + h5 + body;
    lemma_split7(h0, h1, h2, h3, h4, h5, body);
    lemma_u32_roundtrip(PAYLOAD_VERSION);
    lemma_u64_roundtrip(dim as u64);
    lemma_u64_roundtrip(n as u64);
    assert(h0.len() == 4);
    lemma_rt_u32(b, 4, PAYLOAD_VERSION);
    lemma_rt_kind(b, 8, kind);
    let p2: int = 8 + h2.len() as int;
    lemma_rt_usize(b, p2, dim, Field::Dim);
    lemma_rt_u8(b, p2 + 8, metric_tag(metric));
    lemma_rt_usize(b, p2 + 9, n, Field::RowCount);
    p2
}

/// Reading back a written payload gives the same database: the same index
/// kind and tuning, `dim`, metric, and rows in the same order, with the
/// same ids, components and metadata.
///
/// It holds for every database whose rows all have `dim` components, whose
/// `Bytes` ids are non-empty, whose metadata keys are in order (as every
/// [`Metadata`] keeps them), and whose lengths fit the format (exactly the
/// databases that [`encode`] accepts).
pub proof fn law_payload_roundtrip(
    kind: IndexKind,
    dim: usize,
    metric: DistanceMetric,
    rows: Seq<RowView>,
)
    requires
        rows.len() <= usize::MAX,
        rows_error(rows) is None,
        forall|i: int| 0 <= i < rows.len() ==> #[trigger] rows[i].vector.len() == dim,
        forall|i: int| 0 <= i < rows.len() ==> id_ok(#[trigger] rows[i].id),
        forall|i: int| 0 <= i < rows.len() ==> meta_sorted(#[trigger] rows[i].meta),
    ensures
        p_payload(e_payload(kind, dim, metric, rows)) == Ok::<DecodedView, PayloadError>(
            DecodedView { kind, dim, metric, rows },
        ),
{
    let b = e_payload(kind, dim, metric, rows);
    let p2 = lemma_rt_header(kind, dim, metric, rows.len() as usize, e_rows(rows));
    lemma_rows_error_none(rows);
    assert forall|i: int| 0 <= i < rows.len() implies #[trigger] row_ok(rows[i], dim as nat) by {
        assert(rows[i].vector.len() == dim);
        assert(id_ok(rows[i].id));
        assert(row_error(rows[i]) is None);
    }
    lemma_rt_rows(b, p2 + 17, rows, dim as nat);
    assert(rows.len() as usize as nat == rows.len());
    lemma_payload_parts(b, kind, dim, metric, rows.len() as usize, rows, p2);
}

/// A payload whose header fields and rows read as given reads as that
/// database.
proof fn lemma_payload_parts(
    b: Seq<u8>,
    kind: IndexKind,
    dim: usize,
    metric: DistanceMetric,
    n: usize,
    rows: Seq<RowView>,
    p2: int,
)
    requires
        b.len() >= 4,
        b.subrange(0, 4) == magic(),
        p_u32(b, 4) == Ok::<(u32, int), PayloadError>((PAYLOAD_VERSION, 8)),
        p_kind(b, 8) == Ok::<(IndexKind, int), PayloadError>((kind, p2)),
        p_usize(b, p2, Field::Dim) == Ok::<(usize, int), PayloadError>((dim, p2 + 8)),
        p_u8(b, p2 + 8) == Ok::<(u8, int), PayloadError>((metric_tag(metric), p2 + 9)),
        p_usize(b, p2 + 9, Field::RowCount) == Ok::<(usize, int), PayloadError>((n, p2 + 17)),
        p_rows(b, p2 + 17, n as nat, dim as nat) is Ok,
        p_rows(b, p2 + 17, n as nat, dim as nat)->Ok_0.0 == rows,
    ensures
        p_payload(b) == Ok::<DecodedView, PayloadError>(DecodedView { kind, dim, metric, rows }),
{
    assert(metric_of_tag(metric_tag(metric)) == Some(metric));
}


/// Every row read has exactly `dim` components and a well-formed id.
proof fn lemma_vec_len(b: Seq<u8>, p: int, n: nat)
    requires
        p_vec(b, p, n) is Ok,
    ensures
        p_vec(b, p, n)->Ok_0.0.len() == n,
    decreases n,
{
    if n > 0 {
        lemma_vec_len(b, p, (n - 1) as nat);
    }
}

/// Reading never moves backwards.
proof fn lemma_vec_mono(b: Seq<u8>, p: int, n: nat)
    requires
        p_vec(b, p, n) is Ok,
    ensures
        p_vec(b, p, n)->Ok_0.1 >= p,
    decreases n,
{
    if n > 0 {
        lemma_vec_mono(b, p, (n - 1) as nat);
    }
}

proof fn lemma_entries_mono(b: Seq<u8>, p: int, n: nat)
    requires
        p_entries(b, p, n) is Ok,
    ensures
        p_entries(b, p, n)->Ok_0.1 >= p,
    decreases n,
{
    if n > 0 {
        lemma_entries_mono(b, p, (n - 1) as nat);
    }
}

proof fn lemma_row_mono(b: Seq<u8>, p: int, dim: nat)
    requires
        p_row(b, p, dim) is Ok,
    ensures
        p_row(b, p, dim)->Ok_0.1 >= p,
{
    let (_, q) = p_id(b, p)->Ok_0;
    lemma_vec_mono(b, q, dim);
    let (_, r) = p_vec(b, q, dim)->Ok_0;
    let (t, r1) = p_u8(b, r)->Ok_0;
    if t == 1 {
        let (count, r2) = p_u32(b, r1)->Ok_0;
        lemma_entries_mono(b, r2, count as nat);
    }
}

proof fn lemma_id_ok(b: Seq<u8>, p: int)
    requires
        0 <= p,
        p_id(b, p) is Ok,
    ensures
        id_ok(p_id(b, p)->Ok_0.0),
{
    let (t, q) = p_u8(b, p)->Ok_0;
    if t == 1 {
        let (len, r) = p_u32(b, q)->Ok_0;
        let (bs, _) = p_bytes(b, r, len as int)->Ok_0;
        assert(bs.len() == len as int);
    }
}

proof fn lemma_rows_shape(b: Seq<u8>, p: int, n: nat, dim: nat)
    requires
        0 <= p,
        p_rows(b, p, n, dim) is Ok,
    ensures
        p_rows(b, p, n, dim)->Ok_0.1 >= p,
        ({
            let rows = p_rows(b, p, n, dim)->Ok_0.0;
            forall|i: int|
                0 <= i < rows.len() ==> #[trigger] rows[i].vector.len() == dim && id_ok(
                    rows[i].id,
                )
        }),
    decreases n,
{
    if n > 0 {
        lemma_rows_shape(b, p, (n - 1) as nat, dim);
        let (prev, q) = p_rows(b, p, (n - 1) as nat, dim)->Ok_0;
        let (id, q1) = p_id(b, q)->Ok_0;
        lemma_id_ok(b, q);
        lemma_vec_len(b, q1, dim);
        let (v, q2) = p_vec(b, q1, dim)->Ok_0;
        let (r, _) = p_row(b, q, dim)->Ok_0;
        assert(r.id == id && r.vector == v);
        let rows = p_rows(b, p, n, dim)->Ok_0.0;
        assert(rows == prev.push(r));
        lemma_row_mono(b, q, dim);
        assert forall|i: int| 0 <= i < rows.len() implies #[trigger] rows[i].vector.len() == dim
            && id_ok(rows[i].id) by {
            if i < prev.len() {
                assert(rows[i] == prev[i]);
            }
        }
    }
}

/// A decoded database's rows all have `dim` components and well-formed ids.
pub open spec fn decoded_ok(d: DecodedView) -> bool {
    forall|i: int|
        0 <= i < d.rows.len() ==> #[trigger] d.rows[i].vector.len() == d.dim && id_ok(d.rows[i].id)
}

/// Whatever a payload reads as has the shape [`decoded_ok`] describes.
pub proof fn lemma_payload_shape(b: Seq<u8>)
    requires
        p_payload(b) is Ok,
    ensures
        decoded_ok(p_payload(b)->Ok_0),
{
    let (kind, p2) = p_kind(b, 8)->Ok_0;
    let (dim, p3) = p_usize(b, p2, Field::Dim)->Ok_0;
    let (n, p5) = p_usize(b, p3 + 1, Field::RowCount)->Ok_0;
    lemma_rows_shape(b, p5, n as nat, dim as nat);
}

} // verus!
