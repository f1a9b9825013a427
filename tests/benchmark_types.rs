use build_an_index::benchmark::{BenchmarkConfig, MemoryStats};
use build_an_index::blob_size::BlobSize;

#[test]
fn memory_stats_from_snapshot() {
    let m = MemoryStats::from_snapshot(Some((10, 20)));
    assert_eq!((m.physical_mem, m.virtual_mem), (10, 20));
    let z = MemoryStats::from_snapshot(None);
    assert_eq!((z.physical_mem, z.virtual_mem), (0, 0));
    let d = MemoryStats::default();
    assert_eq!((d.physical_mem, d.virtual_mem), (0, 0));
}

#[test]
fn benchmark_config_default() {
    let c = BenchmarkConfig::default();
    assert_eq!(c.num_lookups, 10_000);
    assert_eq!(c.warmup_iterations, 1000);
    assert_eq!(c.seed, 42);
}

#[test]
fn blob_size_categories() {
    let all = BlobSize::all();
    assert_eq!(all.len(), 5);
    let sizes: Vec<usize> = all.iter().map(|s| s.byte_size()).collect();
    assert_eq!(sizes, vec![100, 1_024, 10_240, 102_400, 1_048_576]);
    let names: Vec<&str> = all.iter().map(|s| s.name()).collect();
    assert_eq!(names, vec!["100B", "1KB", "10KB", "100KB", "1MB"]);
}
