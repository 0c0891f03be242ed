//! An ordered, multi-version key-value storage engine core: an in-memory
//! write buffer per column family, a sorted-table block format with
//! compression and bloom filtering, a clock block cache, an append-only
//! manifest, leveled compaction, and an MVCC transaction manager with
//! savepoints and per-key expiration.

mod bloom;
mod cache;
mod clock;
mod comparator;
mod compress;
mod config;
mod db;
mod error;
mod manifest;
mod memtable;
mod record;
mod table;
mod txn;
mod visibility;
mod wire;

pub use bloom::BloomFilter;
pub use cache::ClockCache;
pub use comparator::Comparator;
pub use config::ColumnFamilyConfig;
pub use config::CompressionAlgorithm;
pub use config::Config;
pub use config::IsolationLevel;
pub use config::LogLevel;
pub use db::ColumnFamily;
pub use db::Database;
pub use error::Error;
pub use manifest::LiveFile;
pub use manifest::Manifest;
pub use manifest::ManifestEntry;
pub use record::Record;
pub use table::TableFile;
pub use txn::MAX_KEY_LEN;
pub use txn::MAX_VALUE_LEN;
pub use txn::Transaction;
