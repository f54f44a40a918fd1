//! Construction-time configuration for a database.
//!
//! A database fixes its dimensionality and distance metric when it is
//! opened; [`IqdbConfig`] carries those two values plus the choice of index
//! ([`IndexKind`]), an optional result cache, and the durability knobs of
//! the file-backed path. It is fluent: start from [`IqdbConfig::new`] and
//! chain the overrides.

use vstd::prelude::*;

use crate::types::DistanceMetric;

verus! {

/// Declares `iqdb_cache::CacheConfig`, which this crate carries through
/// unread.
#[verifier::external_type_specification]
#[verifier::external_body]
pub struct ExCacheConfig(iqdb_cache::CacheConfig);

/// When the write-ahead log is synced to disk: after every write, no more
/// often than an interval, or never.
#[derive(Debug, Clone, Copy, PartialEq, Eq)]
pub enum FsyncPolicy {
    Always,
    Periodic(core::time::Duration),
    Never,
}

/// How snapshots are compressed: not at all (`iqdb_persist`'s `None`), with
/// Zstandard at a level, or with LZ4.
#[derive(Debug, Clone, Copy, PartialEq, Eq)]
pub enum Compression {
    Uncompressed,
    Zstd { level: i32 },
    Lz4,
}

/// Tuning of the HNSW graph index: graph degree, beam widths, the filter
/// widening factor and the level-assignment seed.
#[derive(Debug, Clone, Copy, PartialEq, Eq, Structural)]
pub struct HnswConfig {
    pub m: usize,
    pub ef_construction: usize,
    pub ef_search: usize,
    pub filter_widen: usize,
    pub seed: u64,
}

/// Tuning of the IVF clustered index: cluster and probe counts, training
/// sample size, optional product quantization, and the training seed.
#[derive(Debug, Clone, Copy, PartialEq, Eq)]
pub struct IvfConfig {
    pub n_clusters: usize,
    pub n_probes: usize,
    pub training_sample_size: usize,
    pub use_pq: bool,
    pub pq_subvectors: Option<usize>,
    pub pq_refine_factor: u32,
    pub seed: u64,
}

/// `iqdb_hnsw::HnswConfig::default()`, field by field. The crate's source
/// sets `m = 16`, `ef_construction = 200`, `ef_search = 64`,
/// `filter_widen = 4` and the seed `0xDEAD_BEEF_CAFE_F00D`; the contract
/// claims exactly these values.
#[verifier::external_body]
fn hnsw_defaults() -> (c: HnswConfig)
    ensures
        c.m == 16,
        c.ef_construction == 200,
        c.ef_search == 64,
        c.filter_widen == 4,
        c.seed == 0xDEAD_BEEF_CAFE_F00Du64,
{
    let d = iqdb_hnsw::HnswConfig::default();
    HnswConfig {
        m: d.m,
        ef_construction: d.ef_construction,
        ef_search: d.ef_search,
        filter_widen: d.filter_widen,
        seed: d.seed,
    }
}

/// `iqdb_ivf::IvfConfig::default()`, field by field. The crate's source
/// sets 256 clusters, 8 probes, a training sample of 65 536 vectors, no
/// product quantization, a refine factor of 4 and the seed
/// `0xDEAD_BEEF_CAFE_F00D`; the contract claims exactly these values.
#[verifier::external_body]
fn ivf_defaults() -> (c: IvfConfig)
    ensures
        c.n_clusters == 256,
        c.n_probes == 8,
        c.training_sample_size == 65_536,
        c.use_pq == false,
        c.pq_subvectors == Option::<usize>::None,
        c.pq_refine_factor == 4,
        c.seed == 0xDEAD_BEEF_CAFE_F00Du64,
{
    let d = iqdb_ivf::IvfConfig::default();
    IvfConfig {
        n_clusters: d.n_clusters,
        n_probes: d.n_probes,
        training_sample_size: d.training_sample_size,
        use_pq: d.use_pq,
        pq_subvectors: d.pq_subvectors,
        pq_refine_factor: d.pq_refine_factor,
        seed: d.seed,
    }
}

impl Default for HnswConfig {
    fn default() -> (c: Self)
        ensures
            c == (HnswConfig {
                m: 16,
                ef_construction: 200,
                ef_search: 64,
                filter_widen: 4,
                seed: 0xDEAD_BEEF_CAFE_F00Du64,
            }),
    {
        hnsw_defaults()
    }
}

impl Default for IvfConfig {
    fn default() -> (c: Self)
        ensures
            c == (IvfConfig {
                n_clusters: 256,
                n_probes: 8,
                training_sample_size: 65_536,
                use_pq: false,
                pq_subvectors: None,
                pq_refine_factor: 4,
                seed: 0xDEAD_BEEF_CAFE_F00Du64,
            }),
    {
        ivf_defaults()
    }
}

impl HnswConfig {
    /// Sets the graph degree.
    pub fn with_m(self, m: usize) -> (c: Self)
        ensures
            c == (HnswConfig { m, ..self }),
    {
        HnswConfig { m, ..self }
    }

    /// Sets the insert beam width.
    pub fn with_ef_construction(self, ef_construction: usize) -> (c: Self)
        ensures
            c == (HnswConfig { ef_construction, ..self }),
    {
        HnswConfig { ef_construction, ..self }
    }

    /// Sets the search beam width.
    pub fn with_ef_search(self, ef_search: usize) -> (c: Self)
        ensures
            c == (HnswConfig { ef_search, ..self }),
    {
        HnswConfig { ef_search, ..self }
    }

    /// Sets the filter widening factor.
    pub fn with_filter_widen(self, filter_widen: usize) -> (c: Self)
        ensures
            c == (HnswConfig { filter_widen, ..self }),
    {
        HnswConfig { filter_widen, ..self }
    }

    /// Sets the level-assignment seed.
    pub fn with_seed(self, seed: u64) -> (c: Self)
        ensures
            c == (HnswConfig { seed, ..self }),
    {
        HnswConfig { seed, ..self }
    }
}

impl IvfConfig {
    /// Sets the number of clusters.
    pub fn with_n_clusters(self, n_clusters: usize) -> (c: Self)
        ensures
            c == (IvfConfig { n_clusters, ..self }),
    {
        IvfConfig { n_clusters, ..self }
    }

    /// Sets the number of clusters probed per query.
    pub fn with_n_probes(self, n_probes: usize) -> (c: Self)
        ensures
            c == (IvfConfig { n_probes, ..self }),
    {
        IvfConfig { n_probes, ..self }
    }

    /// Sets the training sample size.
    pub fn with_training_sample_size(self, training_sample_size: usize) -> (c: Self)
        ensures
            c == (IvfConfig { training_sample_size, ..self }),
    {
        IvfConfig { training_sample_size, ..self }
    }

    /// Turns product quantization on or off.
    pub fn with_use_pq(self, use_pq: bool) -> (c: Self)
        ensures
            c == (IvfConfig { use_pq, ..self }),
    {
        IvfConfig { use_pq, ..self }
    }

    /// Sets the number of product-quantization sub-vectors.
    pub fn with_pq_subvectors(self, pq_subvectors: Option<usize>) -> (c: Self)
        ensures
            c == (IvfConfig { pq_subvectors, ..self }),
    {
        IvfConfig { pq_subvectors, ..self }
    }

    /// Sets the product-quantization refine factor.
    pub fn with_pq_refine_factor(self, pq_refine_factor: u32) -> (c: Self)
        ensures
            c == (IvfConfig { pq_refine_factor, ..self }),
    {
        IvfConfig { pq_refine_factor, ..self }
    }

    /// Sets the training seed.
    pub fn with_seed(self, seed: u64) -> (c: Self)
        ensures
            c == (IvfConfig { seed, ..self }),
    {
        IvfConfig { seed, ..self }
    }
}

/// Which index backs a database. `Flat` is exact brute force (the recall
/// ground truth, the default); `Hnsw` and `Ivf` are approximate and carry
/// their tuning.
#[derive(Debug, Clone, Copy, PartialEq, Eq)]
pub enum IndexKind {
    Flat,
    Hnsw(HnswConfig),
    Ivf(IvfConfig),
}

/// The stable one-byte identifier of each index kind.
pub open spec fn kind_tag(kind: IndexKind) -> u8 {
    match kind {
        IndexKind::Flat => 0,
        IndexKind::Hnsw(_) => 1,
        IndexKind::Ivf(_) => 2,
    }
}

impl Default for IndexKind {
    fn default() -> (k: Self)
        ensures
            k == IndexKind::Flat,
    {
        IndexKind::Flat
    }
}

impl IndexKind {
    /// A short, stable identifier for the variant, used in the on-disk
    /// payload: `0` flat, `1` HNSW, `2` IVF.
    pub fn tag(&self) -> (t: u8)
        ensures
            t == kind_tag(*self),
    {
        match self {
            IndexKind::Flat => 0,
            IndexKind::Hnsw(_) => 1,
            IndexKind::Ivf(_) => 2,
        }
    }

    /// `true` for the IVF kind, the one index that must be trained before
    /// it holds data.
    pub fn is_ivf(&self) -> (b: bool)
        ensures
            b <==> *self is Ivf,
    {
        matches!(self, IndexKind::Ivf(_))
    }
}

/// The index + cache half of an [`IqdbConfig`].
pub struct CoreConfig {
    pub index: IndexKind,
    pub cache: Option<iqdb_cache::CacheConfig>,
}

/// Durable-storage tuning for the file-backed path: the write-ahead-log
/// fsync cadence and the snapshot compression.
pub struct Durability {
    pub fsync: FsyncPolicy,
    pub compression: Compression,
}

impl Durability {
    /// The safest point: fsync every acknowledged write, no compression.
    pub fn safest() -> (d: Self)
        ensures
            d.fsync == FsyncPolicy::Always,
            d.compression == Compression::Uncompressed,
    {
        Durability { fsync: FsyncPolicy::Always, compression: Compression::Uncompressed }
    }
}

/// Construction-time configuration for a database.
pub struct IqdbConfig {
    dim: usize,
    metric: DistanceMetric,
    core: CoreConfig,
    durability: Durability,
}

impl IqdbConfig {
    pub closed spec fn spec_dim(&self) -> usize {
        self.dim
    }

    pub closed spec fn spec_metric(&self) -> DistanceMetric {
        self.metric
    }

    pub closed spec fn spec_index(&self) -> IndexKind {
        self.core.index
    }

    pub closed spec fn spec_cache(&self) -> Option<iqdb_cache::CacheConfig> {
        self.core.cache
    }

    pub closed spec fn spec_fsync(&self) -> FsyncPolicy {
        self.durability.fsync
    }

    pub closed spec fn spec_compression(&self) -> Compression {
        self.durability.compression
    }

    /// A config for a `dim`-dimensional database compared under `metric`:
    /// exact flat index, no cache, the safest durability.
    pub fn new(dim: usize, metric: DistanceMetric) -> (c: Self)
        ensures
            c.spec_dim() == dim,
            c.spec_metric() == metric,
            c.spec_index() == IndexKind::Flat,
            c.spec_cache() is None,
            c.spec_fsync() == FsyncPolicy::Always,
            c.spec_compression() == Compression::Uncompressed,
    {
        IqdbConfig {
            dim,
            metric,
            core: CoreConfig { index: IndexKind::Flat, cache: None },
            durability: Durability::safest(),
        }
    }

    /// Selects the index implementation (and its tuning).
    pub fn index(self, kind: IndexKind) -> (c: Self)
        ensures
            c.spec_index() == kind,
            c.spec_dim() == self.spec_dim(),
            c.spec_metric() == self.spec_metric(),
            c.spec_cache() == self.spec_cache(),
            c.spec_fsync() == self.spec_fsync(),
            c.spec_compression() == self.spec_compression(),
    {
        let IqdbConfig { dim, metric, core, durability } = self;
        IqdbConfig { dim, metric, core: CoreConfig { index: kind, cache: core.cache }, durability }
    }

    /// Wraps searches in a result cache with the given configuration.
    pub fn cache(self, cache: iqdb_cache::CacheConfig) -> (c: Self)
        ensures
            c.spec_cache() == Some(cache),
            c.spec_dim() == self.spec_dim(),
            c.spec_metric() == self.spec_metric(),
            c.spec_index() == self.spec_index(),
            c.spec_fsync() == self.spec_fsync(),
            c.spec_compression() == self.spec_compression(),
    {
        let IqdbConfig { dim, metric, core, durability } = self;
        IqdbConfig { dim, metric, core: CoreConfig { index: core.index, cache: Some(cache) }, durability }
    }

    /// Sets the write-ahead-log fsync cadence of the file-backed path.
    pub fn fsync(self, policy: FsyncPolicy) -> (c: Self)
        ensures
            c.spec_fsync() == policy,
            c.spec_dim() == self.spec_dim(),
            c.spec_metric() == self.spec_metric(),
            c.spec_index() == self.spec_index(),
            c.spec_cache() == self.spec_cache(),
            c.spec_compression() == self.spec_compression(),
    {
        let IqdbConfig { dim, metric, core, durability } = self;
        IqdbConfig {
            dim,
            metric,
            core,
            durability: Durability { fsync: policy, compression: durability.compression },
        }
    }

    /// Sets the snapshot compression of the file-backed path.
    pub fn compression(self, compression: Compression) -> (c: Self)
        ensures
            c.spec_compression() == compression,
            c.spec_dim() == self.spec_dim(),
            c.spec_metric() == self.spec_metric(),
            c.spec_index() == self.spec_index(),
            c.spec_cache() == self.spec_cache(),
            c.spec_fsync() == self.spec_fsync(),
    {
        let IqdbConfig { dim, metric, core, durability } = self;
        IqdbConfig { dim, metric, core, durability: Durability { fsync: durability.fsync, compression } }
    }

    /// The configured dimensionality.
    pub fn dim(&self) -> (d: usize)
        ensures
            d == self.spec_dim(),
    {
        self.dim
    }

    /// The configured distance metric.
    pub fn metric(&self) -> (m: DistanceMetric)
        ensures
            m == self.spec_metric(),
    {
        self.metric
    }

    /// The configured index kind.
    pub fn index_kind(&self) -> (k: IndexKind)
        ensures
            k == self.spec_index(),
    {
        self.core.index
    }

    /// `true` if a result cache is configured.
    pub fn is_cached(&self) -> (b: bool)
        ensures
            b <==> self.spec_cache() is Some,
    {
        self.core.cache.is_some()
    }

    /// Splits the config into the dimensionality, the metric, the index +
    /// cache half and the durability half.
    pub fn into_parts(self) -> (r: (usize, DistanceMetric, CoreConfig, Durability))
        ensures
            r.0 == self.spec_dim(),
            r.1 == self.spec_metric(),
            r.2.index == self.spec_index(),
            r.2.cache == self.spec_cache(),
            r.3.fsync == self.spec_fsync(),
            r.3.compression == self.spec_compression(),
    {
        (self.dim, self.metric, self.core, self.durability)
    }
}

} // verus!
