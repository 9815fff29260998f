//! Global coin-state store for a coinset-model (UTXO-like) chain.
//!
//! The store holds every coin record of the chain (spent and unspent), applies validated blocks
//! atomically, rolls back to earlier heights, answers queries by coin id, puzzle hash, parent,
//! height and hint, commits to its coin set with a sparse Merkle tree, and exports and restores
//! snapshots.
//!
//! | Module | Responsibility |
//! |--------|----------------|
//! | [`coin_store`] | The [`CoinStore`] and its public methods |
//! | [`block_apply`] | Block checks and effects |
//! | [`rollback`] | Rollback effects |
//! | [`queries`] | Coin record queries |
//! | [`batch`] | Paginated coin state queries |
//! | [`hints`] | Hint validation and the hint entry list |
//! | [`snapshot`] | Snapshot export, checks and retention |
//! | [`merkle`] | Sparse Merkle tree and proofs |
//! | [`records`] | Stored row encoding and the sorted coin list |
//! | [`storage`] | Key layouts of the storage column families |
//! | [`types`], [`config`], [`error`], [`bytes`] | Domain types, configuration, errors, bytes |
pub mod batch;
pub mod block_apply;
pub mod bytes;
pub mod coin_store;
pub mod config;
pub mod error;
pub mod hints;
pub mod merkle;
pub mod queries;
pub mod records;
pub mod rollback;
pub mod select;
pub mod snapshot;
pub mod storage;
pub mod text;
pub mod types;

pub use bytes::Bytes32;
pub use coin_store::CoinStore;
pub use config::{
    default_storage_backend_for_features, CoinStoreConfig, StorageBackend,
    BLOOM_FILTER_BITS_PER_KEY, DEFAULT_LMDB_MAP_SIZE, DEFAULT_MAX_QUERY_RESULTS,
    DEFAULT_MAX_SNAPSHOTS, DEFAULT_ROCKSDB_MAX_OPEN_FILES, DEFAULT_ROCKSDB_WRITE_BUFFER_SIZE,
};
pub use error::CoinStoreError;
pub use types::{
    ApplyBlockResult, BlockData, ChiaCoinRecord, Coin, CoinAddition, CoinId, CoinRecord, CoinState,
    CoinStateFilters, CoinStoreSnapshot, CoinStoreStats, PuzzleHash, RollbackResult,
    UnspentLineageInfo,
};
