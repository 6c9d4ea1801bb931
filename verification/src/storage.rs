//! What is kept: the write-ahead log, snapshots and the document store.

pub mod checksum;
pub mod error;
pub mod snapshot;
pub mod store;
pub mod wal;

pub use error::StorageError;
pub use snapshot::SnapshotManager;
pub use store::MemStore;
pub use wal::Wal;
