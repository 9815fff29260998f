# dig-coinstore

A global coin-state store for a coinset-model (UTXO-like) chain, verified with Verus.

The store keeps every coin record (spent and unspent), applies validated blocks atomically,
rolls back to earlier heights, answers queries by coin id, puzzle hash, parent, height and hint,
commits to its coin set with a 256-level sparse Merkle tree, and exports, saves and restores
snapshots.

## Layout

- `src/` — the verified library. Every public operation states its result over a mathematical
  model of the store: a map from coin id to record, a set of `(coin id, hint)` entries, the tip
  history and the saved snapshots. Laws that relate several operations (rolling back a block
  gives back the coin map it was applied to, a snapshot passes the checks of `restore`, a page of
  batch results never splits a block, a stored hint is found again, ...) are proof functions.
- `tests/` — executable tests of the library.
- `app/` — the runtime shell: bincode encodings of rows and snapshots, the store error as a
  `std::error::Error`, and an LMDB backend with persistence. `CoinStore::new` and
  `CoinStore::with_config` never read storage; a store is reopened by reading its tip, coin rows
  and hints back (`app::reopen_store`) and handing them to the verified
  `CoinStore::with_persisted_state`; the `*_and_persist` helpers of `app/` commit each genesis,
  block, rollback and hint to storage as it happens.

Outside crates: `chia-sha2` computes SHA-256 and `chia-protocol` computes coin ids, both called
from the library behind small trusted wrappers; `bincode`, `serde`, `thiserror` and `heed` are
used by `app/` only.
