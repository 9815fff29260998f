//! Configuration types and constants.
//!
//! [`CoinStoreConfig`] holds every tunable parameter for opening a store, with defaults and
//! `with_*` builder methods. The enum [`StorageBackend`] selects which persistent engine to open.
use vstd::prelude::*;

verus! {

/// Default number of snapshots to retain before pruning.
pub const DEFAULT_MAX_SNAPSHOTS: usize = 10;

/// Maximum query results per batch.
pub const DEFAULT_MAX_QUERY_RESULTS: usize = 50_000;

/// Default LMDB environment map size (10 GiB).
pub const DEFAULT_LMDB_MAP_SIZE: u64 = 10_737_418_240;

/// Default RocksDB write buffer size (64 MiB).
pub const DEFAULT_ROCKSDB_WRITE_BUFFER_SIZE: usize = 67_108_864;

/// Default RocksDB `max_open_files`.
pub const DEFAULT_ROCKSDB_MAX_OPEN_FILES: i32 = 1000;

/// Bloom filter bits per key for RocksDB block-based tables.
pub const BLOOM_FILTER_BITS_PER_KEY: i32 = 10;

/// Default: bloom filters enabled.
pub const DEFAULT_BLOOM_FILTER_ENABLED: bool = true;

/// Which persistent storage engine a store should open.
#[derive(Debug, Clone, Copy, PartialEq, Eq, Structural)]
pub enum StorageBackend {
    /// LMDB — read-optimized, memory-mapped.
    Lmdb,
    /// RocksDB — write-optimized LSM.
    RocksDb,
}

/// The default engine for the crate's default feature set (RocksDB).
pub fn default_storage_backend_for_features() -> (r: StorageBackend)
    ensures
        r == StorageBackend::RocksDb,
{
    StorageBackend::RocksDb
}

/// Tunable parameters for constructing a store.
#[derive(Debug, Clone, PartialEq, Eq)]
pub struct CoinStoreConfig {
    /// Storage engine to open.
    pub backend: StorageBackend,
    /// Root directory for database files.
    pub storage_path: String,
    /// Retention cap for saved state snapshots.
    pub max_snapshots: usize,
    /// Upper bound for batch query result size.
    pub max_query_results: usize,
    /// LMDB map size in bytes.
    pub lmdb_map_size: u64,
    /// RocksDB `write_buffer_size` in bytes.
    pub rocksdb_write_buffer_size: usize,
    /// RocksDB `max_open_files`.
    pub rocksdb_max_open_files: i32,
    /// When true, RocksDB uses a block-based bloom filter.
    pub bloom_filter: bool,
}

/// The default configuration, with `path` as its storage path.
pub open spec fn spec_default_config(path: Seq<char>) -> (StorageBackend, Seq<char>, usize, usize, u64, usize, i32, bool) {
    (
        StorageBackend::RocksDb,
        path,
        DEFAULT_MAX_SNAPSHOTS,
        DEFAULT_MAX_QUERY_RESULTS,
        DEFAULT_LMDB_MAP_SIZE,
        DEFAULT_ROCKSDB_WRITE_BUFFER_SIZE,
        DEFAULT_ROCKSDB_MAX_OPEN_FILES,
        DEFAULT_BLOOM_FILTER_ENABLED,
    )
}

impl CoinStoreConfig {
    /// All fields as plain values.
    pub open spec fn fields(&self) -> (StorageBackend, Seq<char>, usize, usize, u64, usize, i32, bool) {
        (
            self.backend,
            self.storage_path@,
            self.max_snapshots,
            self.max_query_results,
            self.lmdb_map_size,
            self.rocksdb_write_buffer_size,
            self.rocksdb_max_open_files,
            self.bloom_filter,
        )
    }

    /// Defaults with a caller-supplied storage path.
    pub fn default_with_path(path: &str) -> (r: Self)
        ensures
            r.fields() == spec_default_config(path@),
    {
        CoinStoreConfig {
            backend: default_storage_backend_for_features(),
            storage_path: path.to_owned(),
            max_snapshots: DEFAULT_MAX_SNAPSHOTS,
            max_query_results: DEFAULT_MAX_QUERY_RESULTS,
            lmdb_map_size: DEFAULT_LMDB_MAP_SIZE,
            rocksdb_write_buffer_size: DEFAULT_ROCKSDB_WRITE_BUFFER_SIZE,
            rocksdb_max_open_files: DEFAULT_ROCKSDB_MAX_OPEN_FILES,
            bloom_filter: DEFAULT_BLOOM_FILTER_ENABLED,
        }
    }

    /// Builder: select LMDB vs RocksDB.
    pub fn with_backend(self, backend: StorageBackend) -> (r: Self)
        ensures
            r.fields() == (backend, self.fields().1, self.fields().2, self.fields().3, self.fields().4,
                self.fields().5, self.fields().6, self.fields().7),
    {
        CoinStoreConfig { backend, ..self }
    }

    /// Builder: filesystem directory for the database.
    pub fn with_storage_path(self, path: &str) -> (r: Self)
        ensures
            r.fields() == (self.fields().0, path@, self.fields().2, self.fields().3, self.fields().4,
                self.fields().5, self.fields().6, self.fields().7),
    {
        CoinStoreConfig { storage_path: path.to_owned(), ..self }
    }

    /// Builder: snapshot retention count.
    pub fn with_max_snapshots(self, count: usize) -> (r: Self)
        ensures
            r.fields() == (self.fields().0, self.fields().1, count, self.fields().3, self.fields().4,
                self.fields().5, self.fields().6, self.fields().7),
    {
        CoinStoreConfig { max_snapshots: count, ..self }
    }

    /// Builder: batch query result ceiling.
    pub fn with_max_query_results(self, count: usize) -> (r: Self)
        ensures
            r.fields() == (self.fields().0, self.fields().1, self.fields().2, count, self.fields().4,
                self.fields().5, self.fields().6, self.fields().7),
    {
        CoinStoreConfig { max_query_results: count, ..self }
    }

    /// Builder: LMDB environment map size in bytes.
    pub fn with_lmdb_map_size(self, size: u64) -> (r: Self)
        ensures
            r.fields() == (self.fields().0, self.fields().1, self.fields().2, self.fields().3, size,
                self.fields().5, self.fields().6, self.fields().7),
    {
        CoinStoreConfig { lmdb_map_size: size, ..self }
    }

    /// Builder: RocksDB write buffer size in bytes.
    pub fn with_rocksdb_write_buffer_size(self, size: usize) -> (r: Self)
        ensures
            r.fields() == (self.fields().0, self.fields().1, self.fields().2, self.fields().3,
                self.fields().4, size, self.fields().6, self.fields().7),
    {
        CoinStoreConfig { rocksdb_write_buffer_size: size, ..self }
    }

    /// Builder: RocksDB `max_open_files`.
    pub fn with_rocksdb_max_open_files(self, count: i32) -> (r: Self)
        ensures
            r.fields() == (self.fields().0, self.fields().1, self.fields().2, self.fields().3,
                self.fields().4, self.fields().5, count, self.fields().7),
    {
        CoinStoreConfig { rocksdb_max_open_files: count, ..self }
    }

    /// Builder: enable or disable RocksDB bloom filters.
    pub fn with_bloom_filter(self, enabled: bool) -> (r: Self)
        ensures
            r.fields() == (self.fields().0, self.fields().1, self.fields().2, self.fields().3,
                self.fields().4, self.fields().5, self.fields().6, enabled),
    {
        CoinStoreConfig { bloom_filter: enabled, ..self }
    }

    /// Copy of this configuration.
    pub fn duplicate(&self) -> (r: Self)
        ensures
            r.fields() == self.fields(),
    {
        CoinStoreConfig { storage_path: self.storage_path.clone(), ..*self }
    }
}

impl Default for CoinStoreConfig {
    /// The default configuration, with storage path `./coinstate`.
    fn default() -> (r: Self)
        ensures
            r.fields() == spec_default_config("./coinstate"@),
    {
        CoinStoreConfig::default_with_path("./coinstate")
    }
}

} // verus!
