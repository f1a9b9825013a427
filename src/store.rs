//! The error type and the model shared by every store: a finite run of
//! (key, value) byte-string pairs.
use crate::codec::{bytes_lt, lemma_order_refl};
use vstd::prelude::*;

verus! {

/// Why a store could not be built, opened or read.
#[derive(Debug, Clone, Copy, PartialEq, Eq, Structural)]
pub enum StoreError {
    /// The file does not start with the engine's format tag.
    BadMagic,
    /// The header's offsets or counts do not agree with each other or with the file size.
    BadLayout,
    /// A read would go past the end of the file or of the region that holds it.
    Truncated,
    /// A key longer than its 4-byte length prefix can express.
    KeyTooLong,
    /// The sealed file would not fit in memory addresses.
    TooLarge,
}

impl StoreError {
    /// A short human-readable description.
    pub fn message(&self) -> (r: &'static str) {
        match self {
            StoreError::BadMagic => "invalid magic number",
            StoreError::BadLayout => "header offsets are inconsistent with the file",
            StoreError::Truncated => "read past the end of the file",
            StoreError::KeyTooLong => "key longer than 4 GiB",
            StoreError::TooLarge => "store too large for this machine",
        }
    }
}

/// The read contract that every store engine offers over a sealed file.
pub trait BlobStore<'a>: Sized {
    /// The bytes of the sealed file.
    spec fn source(&self) -> Seq<u8>;

    /// The store was opened on its source and agrees with it.
    spec fn valid(&self) -> bool;

    /// What a lookup of `key` gives.
    spec fn lookup_of(&self, key: Seq<u8>) -> Result<Option<Seq<u8>>, StoreError>;

    /// What listing the keys gives.
    spec fn listing(&self) -> Result<Seq<Seq<u8>>, StoreError>;

    /// The number of entries the store declares.
    spec fn count(&self) -> nat;

    /// Opens the sealed file `data`.
    fn open(data: &'a [u8]) -> (r: Result<Self, StoreError>)
        ensures
            r matches Ok(s) ==> s.valid() && s.source() == data@,
    ;

    /// The value stored under exactly `key`, or nothing.
    fn get(&self, key: &[u8]) -> (r: Result<Option<Vec<u8>>, StoreError>)
        requires
            self.valid(),
        ensures
            found_view(r) == self.lookup_of(key@),
    ;

    /// Every stored key.
    fn keys(&self) -> (r: Result<Vec<Vec<u8>>, StoreError>)
        requires
            self.valid(),
        ensures
            listed_view(r) == self.listing(),
    ;

    /// The number of entries.
    fn len(&self) -> (r: usize)
        requires
            self.valid(),
        ensures
            r == self.count(),
    ;

    /// The store holds no entries.
    fn is_empty(&self) -> (r: bool)
        requires
            self.valid(),
        ensures
            r == (self.count() == 0),
    {
        self.len() == 0
    }

    /// Name of the engine, for reports.
    fn backend_name() -> &'static str;
}

/// The write contract: accumulate pairs, then seal them into one file image.
pub trait BlobStoreBuilder: Sized {
    /// The pairs that `finish` will write, in file order.
    spec fn pending(&self) -> Seq<(Seq<u8>, Seq<u8>)>;

    /// The builder's own invariant.
    spec fn valid(&self) -> bool;

    /// The sealed file for pairs `e`.
    spec fn image_of(e: Seq<(Seq<u8>, Seq<u8>)>) -> Seq<u8>;

    /// The sealed file for `e` fits in memory addresses.
    spec fn fits(e: Seq<(Seq<u8>, Seq<u8>)>) -> bool;

    /// An empty builder.
    fn create() -> (r: Self)
        ensures
            r.valid(),
            r.pending() == Seq::<(Seq<u8>, Seq<u8>)>::empty(),
    ;

    /// Records one pair; a key longer than `u32::MAX` bytes is refused.
    fn insert(&mut self, key: &[u8], value: &[u8]) -> (r: Result<(), StoreError>)
        requires
            old(self).valid(),
        ensures
            final(self).valid(),
            key@.len() > u32::MAX ==> r == Err::<(), StoreError>(StoreError::KeyTooLong)
                && final(self).pending() == old(self).pending(),
            key@.len() <= u32::MAX ==> r == Ok::<(), StoreError>(()),
    ;

    /// Consumes the builder and lays out the sealed file.
    fn finish(self) -> (r: Result<Vec<u8>, StoreError>)
        requires
            self.valid(),
        ensures
            Self::fits(self.pending()) ==> (r matches Ok(img) && img@ == Self::image_of(
                self.pending(),
            )),
            !Self::fits(self.pending()) ==> r == Err::<Vec<u8>, StoreError>(StoreError::TooLarge),
    ;
}

/// Some pair of `e` has key `k`.
pub open spec fn has_key(e: Seq<(Seq<u8>, Seq<u8>)>, k: Seq<u8>) -> bool {
    exists|i: int| 0 <= i < e.len() && #[trigger] e[i].0 == k
}

/// The value paired with `k` in `e`, if any (the pair is unique where keys are).
pub open spec fn lookup(e: Seq<(Seq<u8>, Seq<u8>)>, k: Seq<u8>) -> Option<Seq<u8>> {
    if has_key(e, k) {
        Some(e[choose|i: int| 0 <= i < e.len() && #[trigger] e[i].0 == k].1)
    } else {
        None
    }
}

/// No two pairs of `e` share a key.
pub open spec fn unique_keys(e: Seq<(Seq<u8>, Seq<u8>)>) -> bool {
    forall|i: int, j: int| 0 <= i < e.len() && 0 <= j < e.len() && i != j ==> e[i].0 != e[j].0
}

/// The keys of `e` are in strictly ascending byte order.
pub open spec fn keys_ascending(e: Seq<(Seq<u8>, Seq<u8>)>) -> bool {
    forall|i: int, j: int| 0 <= i < j < e.len() ==> bytes_lt(#[trigger] e[i].0, #[trigger] e[j].0)
}

/// Every key of `e` has a length that a 4-byte prefix can hold.
pub open spec fn keys_fit(e: Seq<(Seq<u8>, Seq<u8>)>) -> bool {
    forall|i: int| 0 <= i < e.len() ==> (#[trigger] e[i]).0.len() <= u32::MAX
}

/// The keys of `e`, in order.
pub open spec fn keys_of(e: Seq<(Seq<u8>, Seq<u8>)>) -> Seq<Seq<u8>> {
    e.map_values(|p: (Seq<u8>, Seq<u8>)| p.0)
}

/// The value that a lookup handed back, as byte strings.
pub open spec fn found_view(r: Result<Option<Vec<u8>>, StoreError>) -> Result<
    Option<Seq<u8>>,
    StoreError,
> {
    match r {
        Ok(Some(v)) => Ok(Some(v@)),
        Ok(None) => Ok(None),
        Err(e) => Err(e),
    }
}

/// The keys that a listing handed back, as byte strings.
pub open spec fn listed_view(r: Result<Vec<Vec<u8>>, StoreError>) -> Result<
    Seq<Seq<u8>>,
    StoreError,
> {
    match r {
        Ok(v) => Ok(v@.map_values(|k: Vec<u8>| k@)),
        Err(e) => Err(e),
    }
}

pub proof fn lemma_ascending_unique(e: Seq<(Seq<u8>, Seq<u8>)>)
    requires
        keys_ascending(e),
    ensures
        unique_keys(e),
{
    assert forall|i: int, j: int| 0 <= i < e.len() && 0 <= j < e.len() && i != j implies e[i].0
        != e[j].0 by {
        lemma_order_refl(e[i].0);
        if i < j {
            assert(bytes_lt(e[i].0, e[j].0));
        } else {
            assert(bytes_lt(e[j].0, e[i].0));
        }
    }
}

/// With unique keys, the value looked up for the key at `i` is the value at `i`.
pub proof fn lemma_lookup_at(e: Seq<(Seq<u8>, Seq<u8>)>, i: int)
    requires
        unique_keys(e),
        0 <= i < e.len(),
    ensures
        has_key(e, e[i].0),
        lookup(e, e[i].0) == Some(e[i].1),
{
    assert(has_key(e, e[i].0));
    let j = choose|j: int| 0 <= j < e.len() && #[trigger] e[j].0 == e[i].0;
    assert(j == i);
}

} // verus!
