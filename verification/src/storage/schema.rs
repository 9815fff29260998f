//! Column family names and key encoding/decoding helpers.
//!
//! All composite keys use fixed-width, big-endian encoding for heights so that lexicographic
//! byte comparison matches numeric order; prefix scans work on the first component.
use crate::bytes::{
    be_bytes, from_be, lemma_be_roundtrip, lemma_lex_lt_asymmetric, lemma_lex_lt_irreflexive, lex_lt,
    push_u64_be, read_u64_be, Bytes32,
};
use vstd::prelude::*;

verus! {

/// Primary coin record storage. Key: coin_id (32 bytes).
pub const CF_COIN_RECORDS: &'static str = "coin_records";

/// All coins indexed by puzzle hash. Key: puzzle_hash + coin_id (64 bytes).
pub const CF_COIN_BY_PUZZLE_HASH: &'static str = "coin_by_puzzle_hash";

/// Unspent-only coins by puzzle hash. Key: puzzle_hash + coin_id (64 bytes).
pub const CF_UNSPENT_BY_PUZZLE_HASH: &'static str = "unspent_by_puzzle_hash";

/// Coins indexed by parent coin info. Key: parent_id + coin_id (64 bytes).
pub const CF_COIN_BY_PARENT: &'static str = "coin_by_parent";

/// Coins indexed by confirmed height. Key: height_BE + coin_id (40 bytes).
pub const CF_COIN_BY_CONFIRMED_HEIGHT: &'static str = "coin_by_confirmed_height";

/// Coins indexed by spent height. Key: height_BE + coin_id (40 bytes).
pub const CF_COIN_BY_SPENT_HEIGHT: &'static str = "coin_by_spent_height";

/// Hints forward index. Key: coin_id + hint.
pub const CF_HINTS: &'static str = "hints";

/// Hints reverse index. Key: hint + coin_id.
pub const CF_HINTS_BY_VALUE: &'static str = "hints_by_value";

/// Persistent Merkle tree internal nodes. Key: level(1) + path(32).
pub const CF_MERKLE_NODES: &'static str = "merkle_nodes";

/// Archived spent coin records. Key: coin_id (32).
pub const CF_ARCHIVE_COIN_RECORDS: &'static str = "archive_coin_records";

/// State snapshots keyed by height. Key: height_BE (8 bytes).
pub const CF_STATE_SNAPSHOTS: &'static str = "state_snapshots";

/// Chain metadata. Key: string.
pub const CF_METADATA: &'static str = "metadata";

/// All column family names.
pub const ALL_COLUMN_FAMILIES: [&'static str; 12] = [
    CF_COIN_RECORDS,
    CF_COIN_BY_PUZZLE_HASH,
    CF_UNSPENT_BY_PUZZLE_HASH,
    CF_COIN_BY_PARENT,
    CF_COIN_BY_CONFIRMED_HEIGHT,
    CF_COIN_BY_SPENT_HEIGHT,
    CF_HINTS,
    CF_HINTS_BY_VALUE,
    CF_MERKLE_NODES,
    CF_ARCHIVE_COIN_RECORDS,
    CF_STATE_SNAPSHOTS,
    CF_METADATA,
];

/// Per-column-family RocksDB `write_buffer_size` (bytes); element `i` applies to
/// `ALL_COLUMN_FAMILIES[i]`.
pub const ROCKSDB_WRITE_BUFFER_BYTES_PER_CF: [usize; 12] = [
    67108864,
    33554432,
    33554432,
    16777216,
    16777216,
    16777216,
    16777216,
    16777216,
    67108864,
    16777216,
    8388608,
    4194304,
];

/// Encode a coin_id as a 32-byte key.
pub fn coin_key(coin_id: &Bytes32) -> (r: [u8; 32])
    ensures
        r@ == coin_id@,
{
    coin_id.bytes
}

/// Decode the coin id held in the first 32 bytes of `key`.
pub fn coin_id_from_key(key: &[u8]) -> (r: Bytes32)
    requires
        key@.len() >= 32,
    ensures
        r@ == key@.take(32),
{
    Bytes32::from_prefix(key)
}

fn concat_keys(a: &Bytes32, b: &Bytes32) -> (r: [u8; 64])
    ensures
        r@ == a@ + b@,
{
    let mut key = [0u8; 64];
    let mut i: usize = 0;
    while i < 32
        invariant
            i <= 32,
            forall|j: int| 0 <= j < i ==> key@[j] == a@[j],
        decreases 32 - i,
    {
        key[i] = a.bytes[i];
        i = i + 1;
    }
    while i < 64
        invariant
            32 <= i <= 64,
            forall|j: int| 0 <= j < 32 ==> key@[j] == a@[j],
            forall|j: int| 32 <= j < i ==> key@[j] == b@[j - 32],
        decreases 64 - i,
    {
        key[i] = b.bytes[i - 32];
        i = i + 1;
    }
    assert(key@ =~= a@ + b@);
    key
}

/// Encode puzzle_hash + coin_id as a 64-byte composite key.
pub fn puzzle_hash_coin_key(puzzle_hash: &Bytes32, coin_id: &Bytes32) -> (r: [u8; 64])
    ensures
        r@ == puzzle_hash@ + coin_id@,
{
    concat_keys(puzzle_hash, coin_id)
}

/// Extract the puzzle hash (first 32 bytes) from a composite key.
pub fn puzzle_hash_from_key(key: &[u8]) -> (r: Bytes32)
    requires
        key@.len() >= 32,
    ensures
        r@ == key@.take(32),
{
    Bytes32::from_prefix(key)
}

/// Encode parent_coin_info + coin_id as a 64-byte composite key.
pub fn parent_coin_key(parent_id: &Bytes32, coin_id: &Bytes32) -> (r: [u8; 64])
    ensures
        r@ == parent_id@ + coin_id@,
{
    concat_keys(parent_id, coin_id)
}

/// Encode height (big-endian) + coin_id as a 40-byte composite key.
pub fn height_coin_key(height: u64, coin_id: &Bytes32) -> (r: Vec<u8>)
    ensures
        r@ == be_bytes(height) + coin_id@,
{
    let mut key: Vec<u8> = Vec::new();
    push_u64_be(&mut key, height);
    crate::bytes::extend_from(&mut key, coin_id.as_slice());
    key
}

/// Decode a height + coin_id composite key.
pub fn height_coin_from_key(key: &[u8]) -> (r: (u64, Bytes32))
    requires
        key@.len() >= 40,
    ensures
        r.0 == from_be(key@.take(8)),
        r.1@ == key@.subrange(8, 40),
{
    assert(key@.subrange(0, 8) =~= key@.take(8));
    let height = read_u64_be(key, 0);
    (height, Bytes32::from_range(key, 8))
}

/// Encode a height as an 8-byte big-endian key.
pub fn snapshot_key(height: u64) -> (r: Vec<u8>)
    ensures
        r@ == be_bytes(height),
{
    let mut key: Vec<u8> = Vec::new();
    push_u64_be(&mut key, height);
    assert(key@ =~= be_bytes(height));
    key
}

/// Decode a snapshot key back to a height.
pub fn height_from_snapshot_key(key: &[u8]) -> (r: u64)
    requires
        key@.len() >= 8,
    ensures
        r == from_be(key@.take(8)),
{
    assert(key@.subrange(0, 8) =~= key@.take(8));
    read_u64_be(key, 0)
}

/// Decoding a snapshot key gives back the height it was made from; decoding a height/coin key
/// gives back both parts.
pub proof fn lemma_height_keys_roundtrip(height: u64, coin_id: Seq<u8>)
    requires
        coin_id.len() == 32,
    ensures
        from_be(be_bytes(height).take(8)) == height,
        from_be((be_bytes(height) + coin_id).take(8)) == height,
        (be_bytes(height) + coin_id).subrange(8, 40) == coin_id,
{
    lemma_be_roundtrip(height);
    assert(be_bytes(height).take(8) =~= be_bytes(height));
    assert((be_bytes(height) + coin_id).take(8) =~= be_bytes(height));
    assert((be_bytes(height) + coin_id).subrange(8, 40) =~= coin_id);
}

/// Decoding a 64-byte composite key gives back its leading 32-byte component.
pub proof fn lemma_composite_key_prefix(first: Seq<u8>, second: Seq<u8>)
    requires
        first.len() == 32,
        second.len() == 32,
    ensures
        (first + second).take(32) == first,
        (first + second).subrange(32, 64) == second,
{
    assert((first + second).take(32) =~= first);
    assert((first + second).subrange(32, 64) =~= second);
}

/// Of two numbers, the smaller one's big-endian bytes compare smaller at the first byte where
/// they differ.
proof fn lemma_be_bytes_lt_bits(a: u64, b: u64)
    by (bit_vector)
    requires
        a < b,
    ensures
        ((((a >> 56u64) & 0xff)) < (((b >> 56u64) & 0xff)))
            || ((((a >> 56u64) & 0xff)) == (((b >> 56u64) & 0xff)) && (((a >> 48u64) & 0xff)) < (((b >> 48u64) & 0xff)))
            || ((((a >> 56u64) & 0xff)) == (((b >> 56u64) & 0xff)) && (((a >> 48u64) & 0xff)) == (((b >> 48u64) & 0xff)) && (((a >> 40u64) & 0xff)) < (((b >> 40u64) & 0xff)))
            || ((((a >> 56u64) & 0xff)) == (((b >> 56u64) & 0xff)) && (((a >> 48u64) & 0xff)) == (((b >> 48u64) & 0xff)) && (((a >> 40u64) & 0xff)) == (((b >> 40u64) & 0xff)) && (((a >> 32u64) & 0xff)) < (((b >> 32u64) & 0xff)))
            || ((((a >> 56u64) & 0xff)) == (((b >> 56u64) & 0xff)) && (((a >> 48u64) & 0xff)) == (((b >> 48u64) & 0xff)) && (((a >> 40u64) & 0xff)) == (((b >> 40u64) & 0xff)) && (((a >> 32u64) & 0xff)) == (((b >> 32u64) & 0xff)) && (((a >> 24u64) & 0xff)) < (((b >> 24u64) & 0xff)))
            || ((((a >> 56u64) & 0xff)) == (((b >> 56u64) & 0xff)) && (((a >> 48u64) & 0xff)) == (((b >> 48u64) & 0xff)) && (((a >> 40u64) & 0xff)) == (((b >> 40u64) & 0xff)) && (((a >> 32u64) & 0xff)) == (((b >> 32u64) & 0xff)) && (((a >> 24u64) & 0xff)) == (((b >> 24u64) & 0xff)) && (((a >> 16u64) & 0xff)) < (((b >> 16u64) & 0xff)))
            || ((((a >> 56u64) & 0xff)) == (((b >> 56u64) & 0xff)) && (((a >> 48u64) & 0xff)) == (((b >> 48u64) & 0xff)) && (((a >> 40u64) & 0xff)) == (((b >> 40u64) & 0xff)) && (((a >> 32u64) & 0xff)) == (((b >> 32u64) & 0xff)) && (((a >> 24u64) & 0xff)) == (((b >> 24u64) & 0xff)) && (((a >> 16u64) & 0xff)) == (((b >> 16u64) & 0xff)) && (((a >> 8u64) & 0xff)) < (((b >> 8u64) & 0xff)))
            || ((((a >> 56u64) & 0xff)) == (((b >> 56u64) & 0xff)) && (((a >> 48u64) & 0xff)) == (((b >> 48u64) & 0xff)) && (((a >> 40u64) & 0xff)) == (((b >> 40u64) & 0xff)) && (((a >> 32u64) & 0xff)) == (((b >> 32u64) & 0xff)) && (((a >> 24u64) & 0xff)) == (((b >> 24u64) & 0xff)) && (((a >> 16u64) & 0xff)) == (((b >> 16u64) & 0xff)) && (((a >> 8u64) & 0xff)) == (((b >> 8u64) & 0xff)) && ((a & 0xff)) < ((b & 0xff))),
        (((a >> 56u64) & 0xff)) < 256,
        (((a >> 48u64) & 0xff)) < 256,
        (((a >> 40u64) & 0xff)) < 256,
        (((a >> 32u64) & 0xff)) < 256,
        (((a >> 24u64) & 0xff)) < 256,
        (((a >> 16u64) & 0xff)) < 256,
        (((a >> 8u64) & 0xff)) < 256,
        ((a & 0xff)) < 256,
        (((b >> 56u64) & 0xff)) < 256,
        (((b >> 48u64) & 0xff)) < 256,
        (((b >> 40u64) & 0xff)) < 256,
        (((b >> 32u64) & 0xff)) < 256,
        (((b >> 24u64) & 0xff)) < 256,
        (((b >> 16u64) & 0xff)) < 256,
        (((b >> 8u64) & 0xff)) < 256,
        ((b & 0xff)) < 256,
{
}

/// Snapshot keys sort in height order: the key of the smaller height is the smaller key.
pub proof fn lemma_snapshot_keys_ordered(a: u64, b: u64)
    ensures
        a < b <==> lex_lt(be_bytes(a), be_bytes(b)),
{
    if a < b {
        lemma_be_lt(a, b);
    } else if b < a {
        lemma_be_lt(b, a);
        lemma_lex_lt_asymmetric(be_bytes(b), be_bytes(a));
    } else {
        lemma_lex_lt_irreflexive(be_bytes(a));
    }
}

/// The smaller number has the smaller big-endian bytes.
proof fn lemma_be_lt(a: u64, b: u64)
    requires
        a < b,
    ensures
        lex_lt(be_bytes(a), be_bytes(b)),
{
    lemma_be_bytes_lt_bits(a, b);
    let x = be_bytes(a);
    let y = be_bytes(b);
    if x[0] != y[0] {
        assert(x[0] < y[0]);
        assert(x.take(0) =~= y.take(0));
    } else if x[1] != y[1] {
        assert(x[1] < y[1]);
        assert(x.take(1) =~= y.take(1));
    } else if x[2] != y[2] {
        assert(x[2] < y[2]);
        assert(x.take(2) =~= y.take(2));
    } else if x[3] != y[3] {
        assert(x[3] < y[3]);
        assert(x.take(3) =~= y.take(3));
    } else if x[4] != y[4] {
        assert(x[4] < y[4]);
        assert(x.take(4) =~= y.take(4));
    } else if x[5] != y[5] {
        assert(x[5] < y[5]);
        assert(x.take(5) =~= y.take(5));
    } else if x[6] != y[6] {
        assert(x[6] < y[6]);
        assert(x.take(6) =~= y.take(6));
    } else if x[7] != y[7] {
        assert(x[7] < y[7]);
        assert(x.take(7) =~= y.take(7));
    }
}

} // verus!
