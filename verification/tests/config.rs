use iqdb::config::{HnswConfig, IndexKind, IqdbConfig, IvfConfig};
use iqdb::types::DistanceMetric;
use iqdb_cache::CacheConfig;
use iqdb::config::{Compression, FsyncPolicy};

#[test]
fn default_index_kind_is_flat() {
    assert_eq!(IndexKind::default(), IndexKind::Flat);
    assert_eq!(IndexKind::Flat.tag(), 0);
}

#[test]
fn index_kind_tags_are_stable() {
    assert_eq!(IndexKind::Hnsw(HnswConfig::default()).tag(), 1);
    assert_eq!(IndexKind::Ivf(IvfConfig::default()).tag(), 2);
}

#[test]
fn fluent_builder_threads_choices() {
    let cfg = IqdbConfig::new(8, DistanceMetric::Cosine)
        .index(IndexKind::Ivf(IvfConfig::default().with_n_probes(4)))
        .cache(CacheConfig::new().capacity(512));
    assert_eq!(cfg.dim(), 8);
    assert_eq!(cfg.metric(), DistanceMetric::Cosine);
    assert!(cfg.is_cached());
    assert!(matches!(cfg.index_kind(), IndexKind::Ivf(_)));
}

#[test]
fn defaults_are_flat_uncached_and_safely_durable() {
    let cfg = IqdbConfig::new(4, DistanceMetric::Euclidean);
    assert!(!cfg.is_cached());
    assert_eq!(cfg.index_kind(), IndexKind::Flat);
    let (dim, metric, core, durability) = cfg.into_parts();
    assert_eq!(dim, 4);
    assert_eq!(metric, DistanceMetric::Euclidean);
    assert!(core.cache.is_none());
    assert_eq!(durability.fsync, FsyncPolicy::Always);
    assert_eq!(durability.compression, Compression::Uncompressed);
}

#[test]
fn durability_knobs_thread_through() {
    let cfg = IqdbConfig::new(4, DistanceMetric::Cosine)
        .fsync(FsyncPolicy::Never)
        .compression(Compression::Lz4);
    let (_, _, _, durability) = cfg.into_parts();
    assert_eq!(durability.fsync, FsyncPolicy::Never);
    assert_eq!(durability.compression, Compression::Lz4);
}

#[test]
fn family_defaults_are_the_documented_operating_point() {
    let h = HnswConfig::default();
    assert_eq!((h.m, h.ef_construction, h.ef_search, h.filter_widen), (16, 200, 64, 4));
    assert_eq!(h.seed, 0xDEAD_BEEF_CAFE_F00D);
    let i = IvfConfig::default();
    assert_eq!((i.n_clusters, i.n_probes, i.training_sample_size), (256, 8, 65_536));
    assert!(!i.use_pq);
    assert_eq!(i.pq_subvectors, None);
    assert_eq!(i.pq_refine_factor, 4);
    let tuned = HnswConfig::default().with_m(8).with_ef_construction(100).with_filter_widen(2).with_seed(42);
    assert_eq!((tuned.m, tuned.ef_construction, tuned.filter_widen, tuned.seed), (8, 100, 2, 42));
}

#[test]
fn safest_durability_syncs_every_write_uncompressed() {
    let d = iqdb::config::Durability::safest();
    assert_eq!(d.fsync, FsyncPolicy::Always);
    assert_eq!(d.compression, Compression::Uncompressed);
    let cfg = IqdbConfig::new(2, DistanceMetric::Cosine)
        .fsync(FsyncPolicy::Periodic(std::time::Duration::from_millis(5)))
        .compression(Compression::Zstd { level: 3 });
    let (_, _, _, durability) = cfg.into_parts();
    assert_eq!(durability.fsync, FsyncPolicy::Periodic(std::time::Duration::from_millis(5)));
    assert_eq!(durability.compression, Compression::Zstd { level: 3 });
}
