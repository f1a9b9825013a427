//! Plain data that the benchmark driver records and is configured with.
use vstd::prelude::*;

verus! {

/// Memory use of the process, in bytes.
#[derive(Debug, Clone, Copy)]
pub struct MemoryStats {
    /// Resident (physical) memory.
    pub physical_mem: usize,
    /// Virtual memory.
    pub virtual_mem: usize,
}

/// Relies on `memory_stats::memory_stats`: a snapshot of the current
/// process's physical and virtual memory use, or `None` where the platform
/// offers none. Nothing is promised of the numbers.
#[verifier::external_body]
fn process_memory() -> (r: Option<(usize, usize)>) {
    memory_stats::memory_stats().map(|u| (u.physical_mem, u.virtual_mem))
}

impl MemoryStats {
    /// Reads the process's memory use now; zeros where it cannot be read.
    pub fn capture() -> (r: MemoryStats) {
        MemoryStats::from_snapshot(process_memory())
    }

    /// Statistics from a snapshot of (physical, virtual) bytes; zeros for no snapshot.
    pub fn from_snapshot(snapshot: Option<(usize, usize)>) -> (r: MemoryStats)
        ensures
            match snapshot {
                Some(s) => r.physical_mem == s.0 && r.virtual_mem == s.1,
                None => r.physical_mem == 0 && r.virtual_mem == 0,
            },
    {
        match snapshot {
            Some((physical_mem, virtual_mem)) => MemoryStats { physical_mem, virtual_mem },
            None => MemoryStats::default(),
        }
    }
}

impl Default for MemoryStats {
    fn default() -> (r: MemoryStats)
        ensures
            r.physical_mem == 0 && r.virtual_mem == 0,
    {
        MemoryStats { physical_mem: 0, virtual_mem: 0 }
    }
}

/// How a benchmark run is shaped.
#[derive(Debug, Clone, Copy)]
pub struct BenchmarkConfig {
    /// Number of random lookups to time.
    pub num_lookups: usize,
    /// Number of untimed lookups first.
    pub warmup_iterations: usize,
    /// Seed for the random choice of keys.
    pub seed: u64,
}

impl Default for BenchmarkConfig {
    fn default() -> (r: BenchmarkConfig)
        ensures
            r.num_lookups == 10_000 && r.warmup_iterations == 1000 && r.seed == 42,
    {
        BenchmarkConfig { num_lookups: 10_000, warmup_iterations: 1000, seed: 42 }
    }
}

} // verus!
