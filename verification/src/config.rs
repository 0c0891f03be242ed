//! Engine-wide and per-column-family configuration.

use vstd::prelude::*;
use vstd::string::StringExecFns;

use crate::error::Error;

verus! {

/// Verbosity threshold for the engine's diagnostic log.
#[derive(Debug, Clone, Copy, PartialEq, Eq, Structural)]
pub enum LogLevel {
    Debug,
    Info,
    Warn,
    Error,
    Fatal,
    /// Logging disabled.
    Off,
}

/// Transaction isolation level. The level fixes the read rule (which snapshot
/// a read uses) and the conflict checks run at commit.
#[derive(Debug, Clone, Copy, PartialEq, Eq, Structural)]
pub enum IsolationLevel {
    /// Reads see the latest committed value; no conflict check.
    ReadUncommitted,
    /// The snapshot is re-taken at every read; no conflict check.
    ReadCommitted,
    /// The snapshot is fixed when the transaction begins; no conflict check.
    RepeatableRead,
    /// Fixed snapshot; write-write conflicts abort the commit.
    Snapshot,
    /// Fixed snapshot; read-write and write-write conflicts abort the commit.
    Serializable,
}

/// Block compression codec applied to each table-file block independently.
#[derive(Debug, Clone, Copy, PartialEq, Eq, Structural)]
pub enum CompressionAlgorithm {
    NoCompression,
    Snappy,
    Zlib,
    Zstd,
    Lz4,
}

/// Database-wide configuration, supplied at every open.
#[derive(Debug, Clone)]
pub struct Config {
    pub db_path: String,
    pub num_flush_threads: i32,
    pub num_compaction_threads: i32,
    pub log_level: LogLevel,
    pub block_cache_size: usize,
    pub max_open_sstables: usize,
}

impl Config {
    /// A configuration rooted at the given directory, with the default
    /// thread counts, log level, cache size and open-table limit. Any path
    /// string is accepted and stored as given; encoding concerns of the
    /// directory layer are not the core's.
    pub fn new(db_path: &str) -> (r: Result<Config, Error>)
        ensures
            match r {
                Ok(c) => {
                    &&& c.db_path@ == db_path@
                    &&& c.num_flush_threads == 2
                    &&& c.num_compaction_threads == 2
                    &&& c.log_level == LogLevel::Info
                    &&& c.block_cache_size == 64 * 1024 * 1024
                    &&& c.max_open_sstables == 512
                },
                Err(_) => false,
            },
    {
        Ok(Config {
            db_path: String::from_str(db_path),
            num_flush_threads: 2,
            num_compaction_threads: 2,
            log_level: LogLevel::Info,
            block_cache_size: 64 * 1024 * 1024,
            max_open_sstables: 512,
        })
    }

    pub fn with_log_level(self, level: LogLevel) -> (r: Config)
        ensures
            r == (Config { log_level: level, ..self }),
    {
        Config { log_level: level, ..self }
    }

    pub fn with_flush_threads(self, count: i32) -> (r: Config)
        ensures
            r == (Config { num_flush_threads: count, ..self }),
    {
        Config { num_flush_threads: count, ..self }
    }

    pub fn with_compaction_threads(self, count: i32) -> (r: Config)
        ensures
            r == (Config { num_compaction_threads: count, ..self }),
    {
        Config { num_compaction_threads: count, ..self }
    }

    pub fn with_block_cache_size(self, size: usize) -> (r: Config)
        ensures
            r == (Config { block_cache_size: size, ..self }),
    {
        Config { block_cache_size: size, ..self }
    }

    pub fn with_max_open_sstables(self, count: usize) -> (r: Config)
        ensures
            r == (Config { max_open_sstables: count, ..self }),
    {
        Config { max_open_sstables: count, ..self }
    }
}

impl Default for Config {
    /// The default configuration, rooted at a directory named "tidesdb".
    fn default() -> (r: Config)
        ensures
            r.db_path@ == "tidesdb"@,
            r.num_flush_threads == 2,
            r.num_compaction_threads == 2,
            r.log_level == LogLevel::Info,
            r.block_cache_size == 64 * 1024 * 1024,
            r.max_open_sstables == 512,
    {
        Config {
            db_path: String::from_str("tidesdb"),
            num_flush_threads: 2,
            num_compaction_threads: 2,
            log_level: LogLevel::Info,
            block_cache_size: 64 * 1024 * 1024,
            max_open_sstables: 512,
        }
    }
}

/// Per-column-family configuration, immutable after the family is created.
#[derive(Debug, Clone)]
pub struct ColumnFamilyConfig {
    pub write_buffer_size: usize,
    pub level_size_ratio: usize,
    pub min_levels: usize,
    pub dividing_level_offset: i32,
    pub klog_value_threshold: usize,
    pub compression: CompressionAlgorithm,
    pub enable_bloom_filter: bool,
    /// Target bloom false-positive rate, in thousandths (10 = 1%).
    pub bloom_fpr_per_mille: u32,
    pub enable_block_indexes: bool,
    pub index_sample_ratio: u32,
    pub block_index_prefix_len: u32,
    pub sync_mode: i32,
    pub sync_interval_us: u64,
    /// Name of the key comparator, resolved against the registry when the
    /// family is created; the empty name means the default byte order.
    pub comparator_name: String,
    pub skip_list_max_level: u32,
    /// Skip-list level fan-out probability, in thousandths (250 = 0.25).
    pub skip_list_probability_per_mille: u32,
    pub default_isolation_level: IsolationLevel,
    pub min_disk_space: u64,
    pub l1_file_count_trigger: u32,
    pub l0_queue_stall_threshold: u32,
}

impl ColumnFamilyConfig {
    /// The default column-family configuration: a 64 MiB write buffer, no
    /// compression, a 1% bloom filter, and read-committed isolation.
    pub fn new() -> (r: ColumnFamilyConfig)
        ensures
            r.write_buffer_size == 64 * 1024 * 1024,
            r.level_size_ratio == 10,
            r.min_levels == 4,
            r.dividing_level_offset == 0,
            r.klog_value_threshold == 0,
            r.compression == CompressionAlgorithm::NoCompression,
            r.enable_bloom_filter,
            r.bloom_fpr_per_mille == 10,
            r.enable_block_indexes,
            r.index_sample_ratio == 16,
            r.block_index_prefix_len == 8,
            r.sync_mode == 0,
            r.sync_interval_us == 0,
            r.comparator_name@ == Seq::<char>::empty(),
            r.skip_list_max_level == 12,
            r.skip_list_probability_per_mille == 250,
            r.default_isolation_level == IsolationLevel::ReadCommitted,
            r.min_disk_space == 64 * 1024 * 1024,
            r.l1_file_count_trigger == 4,
            r.l0_queue_stall_threshold == 8,
    {
        ColumnFamilyConfig {
            write_buffer_size: 64 * 1024 * 1024,
            level_size_ratio: 10,
            min_levels: 4,
            dividing_level_offset: 0,
            klog_value_threshold: 0,
            compression: CompressionAlgorithm::NoCompression,
            enable_bloom_filter: true,
            bloom_fpr_per_mille: 10,
            enable_block_indexes: true,
            index_sample_ratio: 16,
            block_index_prefix_len: 8,
            sync_mode: 0,
            sync_interval_us: 0,
            comparator_name: String::new(),
            skip_list_max_level: 12,
            skip_list_probability_per_mille: 250,
            default_isolation_level: IsolationLevel::ReadCommitted,
            min_disk_space: 64 * 1024 * 1024,
            l1_file_count_trigger: 4,
            l0_queue_stall_threshold: 8,
        }
    }

    /// A field-for-field copy of this configuration.
    pub fn duplicate(&self) -> (r: ColumnFamilyConfig)
        ensures
            r == *self,
    {
        ColumnFamilyConfig {
            write_buffer_size: self.write_buffer_size,
            level_size_ratio: self.level_size_ratio,
            min_levels: self.min_levels,
            dividing_level_offset: self.dividing_level_offset,
            klog_value_threshold: self.klog_value_threshold,
            compression: self.compression,
            enable_bloom_filter: self.enable_bloom_filter,
            bloom_fpr_per_mille: self.bloom_fpr_per_mille,
            enable_block_indexes: self.enable_block_indexes,
            index_sample_ratio: self.index_sample_ratio,
            block_index_prefix_len: self.block_index_prefix_len,
            sync_mode: self.sync_mode,
            sync_interval_us: self.sync_interval_us,
            comparator_name: self.comparator_name.clone(),
            skip_list_max_level: self.skip_list_max_level,
            skip_list_probability_per_mille: self.skip_list_probability_per_mille,
            default_isolation_level: self.default_isolation_level,
            min_disk_space: self.min_disk_space,
            l1_file_count_trigger: self.l1_file_count_trigger,
            l0_queue_stall_threshold: self.l0_queue_stall_threshold,
        }
    }

    pub fn with_compression(self, algorithm: CompressionAlgorithm) -> (r: ColumnFamilyConfig)
        ensures
            r == (ColumnFamilyConfig { compression: algorithm, ..self }),
    {
        ColumnFamilyConfig { compression: algorithm, ..self }
    }

    /// Enables or disables the per-file bloom filter. The target false
    /// positive rate is given in thousandths: 10 means one expected false
    /// positive per hundred absent-key probes.
    pub fn with_bloom_filter(self, enabled: bool, false_positive_per_mille: u32) -> (r:
        ColumnFamilyConfig)
        ensures
            r == (ColumnFamilyConfig {
                enable_bloom_filter: enabled,
                bloom_fpr_per_mille: false_positive_per_mille,
                ..self
            }),
    {
        ColumnFamilyConfig {
            enable_bloom_filter: enabled,
            bloom_fpr_per_mille: false_positive_per_mille,
            ..self
        }
    }

    /// Records `ttl` in the key-log value threshold field — note the
    /// mismatch of the two names: nothing in the core reads this knob.
    /// Per-key expiration is stamped on each write by `put_with_ttl`.
    pub fn with_ttl(self, ttl: u64) -> (r: ColumnFamilyConfig)
        ensures
            r == (ColumnFamilyConfig { klog_value_threshold: ttl as usize, ..self }),
    {
        ColumnFamilyConfig { klog_value_threshold: ttl as usize, ..self }
    }
}

impl Default for ColumnFamilyConfig {
    fn default() -> (r: ColumnFamilyConfig)
        ensures
            r.write_buffer_size == 64 * 1024 * 1024,
            r.compression == CompressionAlgorithm::NoCompression,
            r.default_isolation_level == IsolationLevel::ReadCommitted,
    {
        ColumnFamilyConfig::new()
    }
}

} // verus!
