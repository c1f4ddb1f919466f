//! An embedded, ordered key-value storage engine: a write-ahead log, a sorted
//! memory table, immutable sorted segments, full compaction, and a store that
//! routes reads newest-to-oldest and writes through the log.
pub mod key;
pub mod run;
pub mod error;
pub mod memtable;
pub mod segment;
pub mod compaction;
pub mod wal;
pub mod state;
pub mod store;
pub mod codec;

pub use error::Error;
pub use store::{Batch, Config, Store, SyncMode};
