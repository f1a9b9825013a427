//! Sealed, write-once key/value blob files.
//!
//! Two on-disk index engines share one read contract and one write contract:
//! a flat file whose index is a byte-sorted run of variable-length entries,
//! and an open-addressing hash file whose bucket table is kept in memory while
//! payload records are read from the heap on demand.
pub mod base64;
pub mod benchmark;
pub mod blob_size;
pub mod codec;
pub mod dat_btree;
pub mod dat_hash;
pub mod hex;
pub mod layout;
pub mod store;
mod text;

pub use dat_btree::{BTreeDatStore, BTreeDatStoreBuilder};
pub use dat_hash::{HashDatStore, HashDatStoreBuilder, HashIndex};
pub use store::{BlobStore, BlobStoreBuilder, StoreError};
