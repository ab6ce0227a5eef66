//! A per-identity append-only feed store: strictly sequenced per-author
//! message logs, a peer high-water-mark index, a blob-status index and a
//! global-order index, all kept in one embedded ordered key-value database
//! whose key space is partitioned by single-byte prefixes.
//!
//! The store carries no secondary-index collaborator of its own: every
//! successful append is announced on the commit channel after the durable
//! flush, and an embedder that maintains secondary indexes subscribes
//! there.

pub mod bytes;
pub mod codec;
pub mod keys;
pub mod laws;
pub mod store;
pub mod trusted;
pub mod types;

pub use bytes::buffer_to_u64;
pub use store::KvStorage;
pub use types::{BlobStatus, MessageKvt, MessageValue, PubKeyAndSeqNum, StoreError, StoreKvEvent};
