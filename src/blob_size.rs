//! The blob size categories that benchmark corpora are generated in.
use vstd::prelude::*;

verus! {

/// Blob size categories for benchmarking.
#[derive(Debug, Clone, Copy, PartialEq, Eq, Hash, Structural)]
pub enum BlobSize {
    /// 100 bytes.
    Tiny,
    /// 1 KiB.
    Small,
    /// 10 KiB.
    Medium,
    /// 100 KiB.
    Large,
    /// 1 MiB.
    Huge,
}

impl BlobSize {
    /// The size in bytes of a blob of this category.
    pub open spec fn bytes_of(self) -> nat {
        match self {
            BlobSize::Tiny => 100,
            BlobSize::Small => 1_024,
            BlobSize::Medium => 10_240,
            BlobSize::Large => 102_400,
            BlobSize::Huge => 1_048_576,
        }
    }

    /// Every category, smallest first.
    pub fn all() -> (r: &'static [BlobSize])
        ensures
            r@ == seq![BlobSize::Tiny, BlobSize::Small, BlobSize::Medium, BlobSize::Large, BlobSize::Huge],
    {
        &[BlobSize::Tiny, BlobSize::Small, BlobSize::Medium, BlobSize::Large, BlobSize::Huge]
    }

    /// The size in bytes of a blob of this category.
    pub fn byte_size(&self) -> (r: usize)
        ensures
            r == self.bytes_of(),
    {
        match self {
            BlobSize::Tiny => 100,
            BlobSize::Small => 1_024,
            BlobSize::Medium => 10_240,
            BlobSize::Large => 102_400,
            BlobSize::Huge => 1_048_576,
        }
    }

    /// Short label used in reports and key names.
    pub fn name(&self) -> (r: &'static str)
        ensures
            r@ == match self {
                BlobSize::Tiny => "100B"@,
                BlobSize::Small => "1KB"@,
                BlobSize::Medium => "10KB"@,
                BlobSize::Large => "100KB"@,
                BlobSize::Huge => "1MB"@,
            },
    {
        proof {
            reveal_strlit("100B");
            reveal_strlit("1KB");
            reveal_strlit("10KB");
            reveal_strlit("100KB");
            reveal_strlit("1MB");
        }
        match self {
            BlobSize::Tiny => "100B",
            BlobSize::Small => "1KB",
            BlobSize::Medium => "10KB",
            BlobSize::Large => "100KB",
            BlobSize::Huge => "1MB",
        }
    }
}

} // verus!
