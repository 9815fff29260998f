//! Sparse Merkle tree for state root computation.
//!
//! A 256-level sparse Merkle tree keyed by 32-byte coin ids. Bit `n` of a key (most significant
//! bit of byte 0 first) chooses the left (0) or right (1) child at depth `n`.
//!
//! - **Leaf hash:** `SHA256(0x00 || value)`.
//! - **Node hash:** `SHA256(0x01 || left || right)`.
//! - **Empty subtree of height `h`:** `empty(0) = leaf_hash([0; 32])`,
//!   `empty(h) = node_hash(empty(h - 1), empty(h - 1))`.
//!
//! The tree stores only its non-empty leaves. Mutations mark the cached root stale; the root is
//! recomputed on the next call to [`SparseMerkleTree::root`]. The value of the root is a function
//! of the leaf map alone ([`spec_root`]), so the insertion order never matters.
pub mod persistent;
pub mod proofs;

use crate::bytes::{extend_from, zero32, Bytes32};
use chia_sha2::Sha256;
use vstd::prelude::*;

verus! {

/// Height of the sparse Merkle tree: 256 levels for 256-bit keys.
pub const SMT_HEIGHT: usize = 256;

// ─────────────────────────────────────────────────────────────────────────────
// Hashing
// ─────────────────────────────────────────────────────────────────────────────

/// The SHA-256 digest of `data`, as computed by `chia_sha2::Sha256`.
pub uninterp spec fn spec_sha256(data: Seq<u8>) -> Seq<u8>;

/// Calls `chia_sha2::Sha256` (`new`, `update`, `finalize`) on `data`.
/// Claimed: the 32-byte result is the digest named [`spec_sha256`] of the input bytes.
#[verifier::external_body]
fn sha256(data: &[u8]) -> (r: Bytes32)
    ensures
        r@ == spec_sha256(data@),
{
    let mut hasher = Sha256::new();
    hasher.update(data);
    Bytes32 { bytes: hasher.finalize() }
}

/// Domain-separated leaf hash of `data`.
pub open spec fn spec_leaf_hash(data: Seq<u8>) -> Seq<u8> {
    spec_sha256(seq![0u8] + data)
}

/// The leaf value of a coin record: the SHA-256 digest of the record's stored encoding
/// `encoded_record` (no domain byte).
pub fn coin_record_hash(encoded_record: &[u8]) -> (r: Bytes32)
    ensures
        r@ == spec_sha256(encoded_record@),
{
    sha256(encoded_record)
}

/// Domain-separated internal node hash.
pub open spec fn spec_node_hash(left: Seq<u8>, right: Seq<u8>) -> Seq<u8> {
    spec_sha256(seq![1u8] + left + right)
}

/// Hash of an empty subtree of height `level`.
pub open spec fn spec_empty_hash(level: nat) -> Seq<u8>
    decreases level,
{
    if level == 0 {
        spec_leaf_hash(zero32())
    } else {
        spec_node_hash(spec_empty_hash((level - 1) as nat), spec_empty_hash((level - 1) as nat))
    }
}

/// Compute a leaf hash: `SHA256(0x00 || data)`.
pub fn merkle_leaf_hash(data: &[u8]) -> (r: Bytes32)
    ensures
        r@ == spec_leaf_hash(data@),
{
    let mut buf: Vec<u8> = Vec::new();
    buf.push(0u8);
    extend_from(&mut buf, data);
    assert(buf@ =~= seq![0u8] + data@);
    sha256(buf.as_slice())
}

/// Compute an internal node hash: `SHA256(0x01 || left || right)`.
pub fn merkle_node_hash(left: &Bytes32, right: &Bytes32) -> (r: Bytes32)
    ensures
        r@ == spec_node_hash(left@, right@),
{
    let mut buf: Vec<u8> = Vec::new();
    buf.push(1u8);
    extend_from(&mut buf, left.as_slice());
    extend_from(&mut buf, right.as_slice());
    assert(buf@ =~= seq![1u8] + left@ + right@);
    sha256(buf.as_slice())
}

/// The empty-subtree hashes for every level `0..=SMT_HEIGHT`.
pub fn empty_hash_table() -> (t: Vec<Bytes32>)
    ensures
        t@.len() == SMT_HEIGHT + 1,
        forall|i: int| 0 <= i <= SMT_HEIGHT ==> #[trigger] t@[i]@ == spec_empty_hash(i as nat),
{
    let zero = Bytes32::zero();
    let mut t: Vec<Bytes32> = Vec::new();
    t.push(merkle_leaf_hash(zero.as_slice()));
    let mut level: usize = 1;
    while level <= SMT_HEIGHT
        invariant
            1 <= level <= SMT_HEIGHT + 1,
            t@.len() == level,
            forall|i: int| 0 <= i < level ==> #[trigger] t@[i]@ == spec_empty_hash(i as nat),
        decreases SMT_HEIGHT + 1 - level,
    {
        let child = t[level - 1];
        let h = merkle_node_hash(&child, &child);
        t.push(h);
        level = level + 1;
    }
    t
}

/// Get the empty-subtree hash at the given tree level (0 = empty leaf, 256 = empty tree root).
pub fn empty_hash(level: usize) -> (r: Bytes32)
    requires
        level <= SMT_HEIGHT,
    ensures
        r@ == spec_empty_hash(level as nat),
{
    let t = empty_hash_table();
    t[level]
}

// ─────────────────────────────────────────────────────────────────────────────
// Key bits and the abstract tree
// ─────────────────────────────────────────────────────────────────────────────

/// Bit `n` of key `k`, most significant bit of byte 0 first.
pub open spec fn key_bit(k: Seq<u8>, n: int) -> bool {
    ((k[n / 8] >> ((7 - n % 8) as u8)) & 1u8) == 1u8
}

/// Key `k` lies below the node reached by following `path` from the root.
pub open spec fn matches_path(k: Seq<u8>, path: Seq<bool>) -> bool {
    forall|i: int| 0 <= i < path.len() ==> #[trigger] key_bit(k, i) == path[i]
}

/// `k` is a leaf of `m` below the node at `path`.
pub open spec fn in_subtree(m: Map<Seq<u8>, Seq<u8>>, path: Seq<bool>, k: Seq<u8>) -> bool {
    m.dom().contains(k) && matches_path(k, path)
}

/// The hash of the node at `path` in the tree whose leaves are `m`.
pub open spec fn subtree_hash(m: Map<Seq<u8>, Seq<u8>>, path: Seq<bool>) -> Seq<u8>
    decreases SMT_HEIGHT - path.len(),
{
    if !(exists|k: Seq<u8>| #[trigger] in_subtree(m, path, k)) {
        spec_empty_hash((SMT_HEIGHT - path.len()) as nat)
    } else if path.len() >= SMT_HEIGHT {
        m[choose|k: Seq<u8>| #[trigger] in_subtree(m, path, k)]
    } else {
        spec_node_hash(subtree_hash(m, path.push(false)), subtree_hash(m, path.push(true)))
    }
}

/// The root of the tree whose leaves are `m`.
pub open spec fn spec_root(m: Map<Seq<u8>, Seq<u8>>) -> Seq<u8> {
    subtree_hash(m, Seq::empty())
}

/// Every key of `m` is 32 bytes long.
pub open spec fn keys_are_32(m: Map<Seq<u8>, Seq<u8>>) -> bool {
    forall|k: Seq<u8>| #[trigger] m.dom().contains(k) ==> k.len() == 32
}

proof fn lemma_byte_bits(x: u8, y: u8)
    requires
        (x >> 7u8) & 1u8 == (y >> 7u8) & 1u8,
        (x >> 6u8) & 1u8 == (y >> 6u8) & 1u8,
        (x >> 5u8) & 1u8 == (y >> 5u8) & 1u8,
        (x >> 4u8) & 1u8 == (y >> 4u8) & 1u8,
        (x >> 3u8) & 1u8 == (y >> 3u8) & 1u8,
        (x >> 2u8) & 1u8 == (y >> 2u8) & 1u8,
        (x >> 1u8) & 1u8 == (y >> 1u8) & 1u8,
        (x >> 0u8) & 1u8 == (y >> 0u8) & 1u8,
    ensures
        x == y,
{
    assert(x == y) by (bit_vector)
        requires
            (x >> 7u8) & 1u8 == (y >> 7u8) & 1u8,
            (x >> 6u8) & 1u8 == (y >> 6u8) & 1u8,
            (x >> 5u8) & 1u8 == (y >> 5u8) & 1u8,
            (x >> 4u8) & 1u8 == (y >> 4u8) & 1u8,
            (x >> 3u8) & 1u8 == (y >> 3u8) & 1u8,
            (x >> 2u8) & 1u8 == (y >> 2u8) & 1u8,
            (x >> 1u8) & 1u8 == (y >> 1u8) & 1u8,
            (x >> 0u8) & 1u8 == (y >> 0u8) & 1u8,
    ;
}

proof fn lemma_bit_values(x: u8)
    ensures
        ((x >> 7u8) & 1u8 == 1u8) || ((x >> 7u8) & 1u8 == 0u8),
        ((x >> 6u8) & 1u8 == 1u8) || ((x >> 6u8) & 1u8 == 0u8),
        ((x >> 5u8) & 1u8 == 1u8) || ((x >> 5u8) & 1u8 == 0u8),
        ((x >> 4u8) & 1u8 == 1u8) || ((x >> 4u8) & 1u8 == 0u8),
        ((x >> 3u8) & 1u8 == 1u8) || ((x >> 3u8) & 1u8 == 0u8),
        ((x >> 2u8) & 1u8 == 1u8) || ((x >> 2u8) & 1u8 == 0u8),
        ((x >> 1u8) & 1u8 == 1u8) || ((x >> 1u8) & 1u8 == 0u8),
        ((x >> 0u8) & 1u8 == 1u8) || ((x >> 0u8) & 1u8 == 0u8),
{
    assert(((x >> 7u8) & 1u8 == 1u8) || ((x >> 7u8) & 1u8 == 0u8)) by (bit_vector);
    assert(((x >> 6u8) & 1u8 == 1u8) || ((x >> 6u8) & 1u8 == 0u8)) by (bit_vector);
    assert(((x >> 5u8) & 1u8 == 1u8) || ((x >> 5u8) & 1u8 == 0u8)) by (bit_vector);
    assert(((x >> 4u8) & 1u8 == 1u8) || ((x >> 4u8) & 1u8 == 0u8)) by (bit_vector);
    assert(((x >> 3u8) & 1u8 == 1u8) || ((x >> 3u8) & 1u8 == 0u8)) by (bit_vector);
    assert(((x >> 2u8) & 1u8 == 1u8) || ((x >> 2u8) & 1u8 == 0u8)) by (bit_vector);
    assert(((x >> 1u8) & 1u8 == 1u8) || ((x >> 1u8) & 1u8 == 0u8)) by (bit_vector);
    assert(((x >> 0u8) & 1u8 == 1u8) || ((x >> 0u8) & 1u8 == 0u8)) by (bit_vector);
}

/// Two 32-byte keys that agree on all 256 bits are equal.
pub proof fn lemma_bits_determine_key(a: Seq<u8>, b: Seq<u8>)
    requires
        a.len() == 32,
        b.len() == 32,
        forall|n: int| 0 <= n < 256 ==> #[trigger] key_bit(a, n) == key_bit(b, n),
    ensures
        a == b,
{
    assert forall|i: int| 0 <= i < 32 implies a[i] == b[i] by {
        let x = a[i];
        let y = b[i];
        lemma_bit_values(x);
        lemma_bit_values(y);
        assert(key_bit(a, 8 * i + 0) == key_bit(b, 8 * i + 0));
        assert(key_bit(a, 8 * i + 1) == key_bit(b, 8 * i + 1));
        assert(key_bit(a, 8 * i + 2) == key_bit(b, 8 * i + 2));
        assert(key_bit(a, 8 * i + 3) == key_bit(b, 8 * i + 3));
        assert(key_bit(a, 8 * i + 4) == key_bit(b, 8 * i + 4));
        assert(key_bit(a, 8 * i + 5) == key_bit(b, 8 * i + 5));
        assert(key_bit(a, 8 * i + 6) == key_bit(b, 8 * i + 6));
        assert(key_bit(a, 8 * i + 7) == key_bit(b, 8 * i + 7));
        assert((8 * i + 0) / 8 == i && (8 * i + 0) % 8 == 0);
        assert((8 * i + 1) / 8 == i && (8 * i + 1) % 8 == 1);
        assert((8 * i + 2) / 8 == i && (8 * i + 2) % 8 == 2);
        assert((8 * i + 3) / 8 == i && (8 * i + 3) % 8 == 3);
        assert((8 * i + 4) / 8 == i && (8 * i + 4) % 8 == 4);
        assert((8 * i + 5) / 8 == i && (8 * i + 5) % 8 == 5);
        assert((8 * i + 6) / 8 == i && (8 * i + 6) % 8 == 6);
        assert((8 * i + 7) / 8 == i && (8 * i + 7) % 8 == 7);
        lemma_byte_bits(x, y);
    }
    assert(a =~= b);
}

/// Bit `n` of `key`, most significant bit of byte 0 first.
pub fn get_bit(key: &Bytes32, n: usize) -> (r: bool)
    requires
        n < SMT_HEIGHT,
    ensures
        r == key_bit(key@, n as int),
{
    let byte = key.bytes[n / 8];
    let shift: u8 = (7 - n % 8) as u8;
    (byte >> shift) & 1u8 == 1u8
}

// ─────────────────────────────────────────────────────────────────────────────
// Leaf lists
// ─────────────────────────────────────────────────────────────────────────────

/// The map held by a list of `(key, leaf hash)` pairs.
pub open spec fn leaves_map(s: Seq<(Bytes32, Bytes32)>) -> Map<Seq<u8>, Seq<u8>> {
    Map::new(
        |k: Seq<u8>| exists|i: int| 0 <= i < s.len() && #[trigger] s[i].0@ == k,
        |k: Seq<u8>| s[choose|i: int| 0 <= i < s.len() && #[trigger] s[i].0@ == k].1@,
    )
}

/// No key occurs twice.
pub open spec fn distinct_keys(s: Seq<(Bytes32, Bytes32)>) -> bool {
    forall|i: int, j: int|
        0 <= i < s.len() && 0 <= j < s.len() && i != j ==> #[trigger] s[i].0@ != #[trigger] s[j].0@
}

/// In a list without repeated keys, the map holds each listed pair.
pub proof fn lemma_leaves_map_at(s: Seq<(Bytes32, Bytes32)>, i: int)
    requires
        distinct_keys(s),
        0 <= i < s.len(),
    ensures
        leaves_map(s).dom().contains(s[i].0@),
        leaves_map(s)[s[i].0@] == s[i].1@,
{
    let k = s[i].0@;
    assert(exists|j: int| 0 <= j < s.len() && #[trigger] s[j].0@ == k);
    let j = choose|j: int| 0 <= j < s.len() && #[trigger] s[j].0@ == k;
    assert(i == j);
}

/// Every key of a leaf list is 32 bytes long.
pub proof fn lemma_leaves_map_keys(s: Seq<(Bytes32, Bytes32)>)
    ensures
        keys_are_32(leaves_map(s)),
{
    assert forall|k: Seq<u8>| #[trigger] leaves_map(s).dom().contains(k) implies k.len() == 32 by {
        let j = choose|j: int| 0 <= j < s.len() && #[trigger] s[j].0@ == k;
    }
}

/// Every listed pair is a leaf of `m` below the node at `path`.
pub open spec fn sound_list(
    leaves: Seq<(Bytes32, Bytes32)>,
    m: Map<Seq<u8>, Seq<u8>>,
    path: Seq<bool>,
) -> bool {
    forall|i: int|
        0 <= i < leaves.len() ==> {
            &&& #[trigger] m.dom().contains(leaves[i].0@)
            &&& m[leaves[i].0@] == leaves[i].1@
            &&& matches_path(leaves[i].0@, path)
        }
}

/// A list of leaves that are exactly the leaves of `m` below the node at `path`.
pub open spec fn is_subtree_list(
    leaves: Seq<(Bytes32, Bytes32)>,
    m: Map<Seq<u8>, Seq<u8>>,
    path: Seq<bool>,
) -> bool {
    &&& forall|i: int|
        0 <= i < leaves.len() ==> {
            &&& #[trigger] m.dom().contains(leaves[i].0@)
            &&& m[leaves[i].0@] == leaves[i].1@
            &&& matches_path(leaves[i].0@, path)
        }
    &&& forall|k: Seq<u8>|
        #[trigger] in_subtree(m, path, k) ==> exists|i: int|
            0 <= i < leaves.len() && #[trigger] leaves[i].0@ == k
}

/// Splits `leaves` by bit `depth` of their keys.
fn partition_by_bit(
    leaves: &Vec<(Bytes32, Bytes32)>,
    depth: usize,
    Ghost(m): Ghost<Map<Seq<u8>, Seq<u8>>>,
    Ghost(path): Ghost<Seq<bool>>,
) -> (r: (Vec<(Bytes32, Bytes32)>, Vec<(Bytes32, Bytes32)>))
    requires
        depth < SMT_HEIGHT,
        path.len() == depth,
        is_subtree_list(leaves@, m, path),
    ensures
        is_subtree_list(r.0@, m, path.push(false)),
        is_subtree_list(r.1@, m, path.push(true)),
{
    let mut left: Vec<(Bytes32, Bytes32)> = Vec::new();
    let mut right: Vec<(Bytes32, Bytes32)> = Vec::new();
    let mut i: usize = 0;
    while i < leaves.len()
        invariant
            depth < SMT_HEIGHT,
            path.len() == depth,
            is_subtree_list(leaves@, m, path),
            i <= leaves@.len(),
            sound_list(left@, m, path.push(false)),
            sound_list(right@, m, path.push(true)),
            forall|j: int|
                0 <= j < i ==> (if key_bit(leaves@[j].0@, depth as int) {
                    exists|a: int| 0 <= a < right@.len() && #[trigger] right@[a].0@ == leaves@[j].0@
                } else {
                    exists|a: int| 0 <= a < left@.len() && #[trigger] left@[a].0@ == leaves@[j].0@
                }),
        decreases leaves.len() - i,
    {
        let entry = leaves[i];
        let b = get_bit(&entry.0, depth);
        let ghost prev_left = left@;
        let ghost prev_right = right@;
        proof {
            assert(m.dom().contains(leaves@[i as int].0@));
            assert(m[entry.0@] == entry.1@);
            assert(matches_path(entry.0@, path));
        }
        if b {
            right.push(entry);
            assert(matches_path(entry.0@, path.push(true)));
            assert(right@[right@.len() - 1].0@ == leaves@[i as int].0@);
            assert(sound_list(right@, m, path.push(true))) by {
                assert forall|a: int| 0 <= a < right@.len() implies {
                    &&& #[trigger] m.dom().contains(right@[a].0@)
                    &&& m[right@[a].0@] == right@[a].1@
                    &&& matches_path(right@[a].0@, path.push(true))
                } by {
                    if a < prev_right.len() {
                        assert(right@[a] == prev_right[a]);
                    }
                }
            }
        } else {
            left.push(entry);
            assert(matches_path(entry.0@, path.push(false)));
            assert(left@[left@.len() - 1].0@ == leaves@[i as int].0@);
            assert(sound_list(left@, m, path.push(false))) by {
                assert forall|a: int| 0 <= a < left@.len() implies {
                    &&& #[trigger] m.dom().contains(left@[a].0@)
                    &&& m[left@[a].0@] == left@[a].1@
                    &&& matches_path(left@[a].0@, path.push(false))
                } by {
                    if a < prev_left.len() {
                        assert(left@[a] == prev_left[a]);
                    }
                }
            }
        }
        proof {
            assert forall|j: int|
                0 <= j < i + 1 implies (if key_bit(leaves@[j].0@, depth as int) {
                exists|a: int| 0 <= a < right@.len() && #[trigger] right@[a].0@ == leaves@[j].0@
            } else {
                exists|a: int| 0 <= a < left@.len() && #[trigger] left@[a].0@ == leaves@[j].0@
            }) by {
                if j < i {
                    if key_bit(leaves@[j].0@, depth as int) {
                        let a = choose|a: int|
                            0 <= a < prev_right.len() && #[trigger] prev_right[a].0@
                                == leaves@[j].0@;
                        assert(right@[a] == prev_right[a]);
                    } else {
                        let a = choose|a: int|
                            0 <= a < prev_left.len() && #[trigger] prev_left[a].0@
                                == leaves@[j].0@;
                        assert(left@[a] == prev_left[a]);
                    }
                }
            }
        }
        i = i + 1;
    }
    proof {
        assert forall|k: Seq<u8>| #[trigger] in_subtree(m, path.push(false), k) implies exists|
            a: int,
        | 0 <= a < left@.len() && #[trigger] left@[a].0@ == k by {
            assert(key_bit(k, depth as int) == path.push(false)[depth as int]);
            assert(in_subtree(m, path, k));
            let j = choose|j: int| 0 <= j < leaves@.len() && #[trigger] leaves@[j].0@ == k;
            assert(!key_bit(leaves@[j].0@, depth as int));
        }
        assert forall|k: Seq<u8>| #[trigger] in_subtree(m, path.push(true), k) implies exists|
            a: int,
        | 0 <= a < right@.len() && #[trigger] right@[a].0@ == k by {
            assert(key_bit(k, depth as int) == path.push(true)[depth as int]);
            assert(in_subtree(m, path, k));
            let j = choose|j: int| 0 <= j < leaves@.len() && #[trigger] leaves@[j].0@ == k;
            assert(key_bit(leaves@[j].0@, depth as int));
        }
    }
    (left, right)
}

/// Hash of the node at `path` (of length `depth`), given exactly the leaves below it.
fn compute_subtree_hash(
    leaves: &Vec<(Bytes32, Bytes32)>,
    depth: usize,
    empties: &Vec<Bytes32>,
    Ghost(m): Ghost<Map<Seq<u8>, Seq<u8>>>,
    Ghost(path): Ghost<Seq<bool>>,
) -> (r: Bytes32)
    requires
        depth <= SMT_HEIGHT,
        path.len() == depth,
        keys_are_32(m),
        is_subtree_list(leaves@, m, path),
        empties@.len() == SMT_HEIGHT + 1,
        forall|i: int| 0 <= i <= SMT_HEIGHT ==> #[trigger] empties@[i]@ == spec_empty_hash(i as nat),
    ensures
        r@ == subtree_hash(m, path),
    decreases SMT_HEIGHT - depth,
{
    if leaves.len() == 0 {
        assert(!(exists|k: Seq<u8>| #[trigger] in_subtree(m, path, k))) by {
            if exists|k: Seq<u8>| #[trigger] in_subtree(m, path, k) {
                let k = choose|k: Seq<u8>| #[trigger] in_subtree(m, path, k);
                assert(exists|i: int| 0 <= i < leaves@.len() && #[trigger] leaves@[i].0@ == k);
            }
        }
        return empties[SMT_HEIGHT - depth];
    }
    assert(m.dom().contains(leaves@[0].0@));
    assert(in_subtree(m, path, leaves@[0].0@));
    if depth == SMT_HEIGHT {
        proof {
            let k = choose|k: Seq<u8>| #[trigger] in_subtree(m, path, k);
            let l = leaves@[0].0@;
            assert forall|n: int| 0 <= n < 256 implies #[trigger] key_bit(k, n) == key_bit(l, n) by {
                assert(key_bit(k, n) == path[n]);
                assert(key_bit(l, n) == path[n]);
            }
            lemma_bits_determine_key(k, l);
        }
        return leaves[0].1;
    }
    let (left, right) = partition_by_bit(leaves, depth, Ghost(m), Ghost(path));
    let lh = compute_subtree_hash(&left, depth + 1, empties, Ghost(m), Ghost(path.push(false)));
    let rh = compute_subtree_hash(&right, depth + 1, empties, Ghost(m), Ghost(path.push(true)));
    merkle_node_hash(&lh, &rh)
}

/// The root of the tree whose leaves are listed in `leaves`.
pub fn compute_root(leaves: &Vec<(Bytes32, Bytes32)>) -> (r: Bytes32)
    requires
        distinct_keys(leaves@),
    ensures
        r@ == spec_root(leaves_map(leaves@)),
{
    let ghost m = leaves_map(leaves@);
    proof {
        lemma_leaves_map_keys(leaves@);
        assert forall|i: int| 0 <= i < leaves@.len() implies {
            &&& #[trigger] m.dom().contains(leaves@[i].0@)
            &&& m[leaves@[i].0@] == leaves@[i].1@
            &&& matches_path(leaves@[i].0@, Seq::<bool>::empty())
        } by {
            lemma_leaves_map_at(leaves@, i);
        }
    }
    let empties = empty_hash_table();
    compute_subtree_hash(leaves, 0, &empties, Ghost(m), Ghost(Seq::empty()))
}


// ─────────────────────────────────────────────────────────────────────────────
// Leaf-list maintenance lemmas
// ─────────────────────────────────────────────────────────────────────────────

/// The keys of a leaf list, in order.
pub open spec fn leaf_keys(s: Seq<(Bytes32, Bytes32)>) -> Seq<Seq<u8>> {
    s.map_values(|e: (Bytes32, Bytes32)| e.0@)
}

proof fn lemma_leaves_map_update(s: Seq<(Bytes32, Bytes32)>, i: int, e: (Bytes32, Bytes32))
    requires
        distinct_keys(s),
        0 <= i < s.len(),
        s[i].0@ == e.0@,
    ensures
        distinct_keys(s.update(i, e)),
        leaves_map(s.update(i, e)) == leaves_map(s).insert(e.0@, e.1@),
{
    let t = s.update(i, e);
    assert(distinct_keys(t)) by {
        assert forall|a: int, b: int|
            0 <= a < t.len() && 0 <= b < t.len() && a != b implies #[trigger] t[a].0@
            != #[trigger] t[b].0@ by {
            assert(t[a].0@ == s[a].0@);
            assert(t[b].0@ == s[b].0@);
        }
    }
    let lhs = leaves_map(t);
    let rhs = leaves_map(s).insert(e.0@, e.1@);
    assert forall|k: Seq<u8>| #[trigger] lhs.dom().contains(k) <==> rhs.dom().contains(k) by {
        if lhs.dom().contains(k) {
            let j = choose|j: int| 0 <= j < t.len() && #[trigger] t[j].0@ == k;
            if j != i {
                assert(s[j].0@ == k);
            }
        }
        if rhs.dom().contains(k) && k != e.0@ {
            let j = choose|j: int| 0 <= j < s.len() && #[trigger] s[j].0@ == k;
            assert(t[j].0@ == k);
        }
        if k == e.0@ {
            assert(t[i].0@ == k);
        }
    }
    assert forall|k: Seq<u8>| #[trigger] lhs.dom().contains(k) implies lhs[k] == rhs[k] by {
        let j = choose|j: int| 0 <= j < t.len() && #[trigger] t[j].0@ == k;
        lemma_leaves_map_at(t, j);
        if j != i {
            lemma_leaves_map_at(s, j);
        }
    }
    assert(lhs =~= rhs);
}

proof fn lemma_leaves_map_push(s: Seq<(Bytes32, Bytes32)>, e: (Bytes32, Bytes32))
    requires
        distinct_keys(s),
        !leaves_map(s).dom().contains(e.0@),
    ensures
        distinct_keys(s.push(e)),
        leaves_map(s.push(e)) == leaves_map(s).insert(e.0@, e.1@),
{
    let t = s.push(e);
    assert(distinct_keys(t)) by {
        assert forall|a: int, b: int|
            0 <= a < t.len() && 0 <= b < t.len() && a != b implies #[trigger] t[a].0@
            != #[trigger] t[b].0@ by {
            if a == s.len() {
                assert(s[b].0@ == t[b].0@);
            } else if b == s.len() {
                assert(s[a].0@ == t[a].0@);
            }
        }
    }
    let lhs = leaves_map(t);
    let rhs = leaves_map(s).insert(e.0@, e.1@);
    assert forall|k: Seq<u8>| #[trigger] lhs.dom().contains(k) <==> rhs.dom().contains(k) by {
        if lhs.dom().contains(k) {
            let j = choose|j: int| 0 <= j < t.len() && #[trigger] t[j].0@ == k;
            if j < s.len() {
                assert(s[j].0@ == k);
            }
        }
        if rhs.dom().contains(k) && k != e.0@ {
            let j = choose|j: int| 0 <= j < s.len() && #[trigger] s[j].0@ == k;
            assert(t[j].0@ == k);
        }
        if k == e.0@ {
            assert(t[s.len() as int].0@ == k);
        }
    }
    assert forall|k: Seq<u8>| #[trigger] lhs.dom().contains(k) implies lhs[k] == rhs[k] by {
        let j = choose|j: int| 0 <= j < t.len() && #[trigger] t[j].0@ == k;
        lemma_leaves_map_at(t, j);
        if j < s.len() {
            lemma_leaves_map_at(s, j);
        }
    }
    assert(lhs =~= rhs);
}

proof fn lemma_leaves_map_remove(s: Seq<(Bytes32, Bytes32)>, i: int)
    requires
        distinct_keys(s),
        0 <= i < s.len(),
    ensures
        distinct_keys(s.remove(i)),
        leaves_map(s.remove(i)) == leaves_map(s).remove(s[i].0@),
{
    let t = s.remove(i);
    assert forall|a: int| 0 <= a < t.len() implies #[trigger] t[a] == (if a < i {
        s[a]
    } else {
        s[a + 1]
    }) by {}
    assert(distinct_keys(t)) by {
        assert forall|a: int, b: int|
            0 <= a < t.len() && 0 <= b < t.len() && a != b implies #[trigger] t[a].0@
            != #[trigger] t[b].0@ by {
            let sa = if a < i { a } else { a + 1 };
            let sb = if b < i { b } else { b + 1 };
            assert(t[a] == s[sa]);
            assert(t[b] == s[sb]);
        }
    }
    let lhs = leaves_map(t);
    let rhs = leaves_map(s).remove(s[i].0@);
    assert forall|k: Seq<u8>| #[trigger] lhs.dom().contains(k) <==> rhs.dom().contains(k) by {
        if lhs.dom().contains(k) {
            let j = choose|j: int| 0 <= j < t.len() && #[trigger] t[j].0@ == k;
            let sj = if j < i { j } else { j + 1 };
            assert(t[j] == s[sj]);
            assert(s[sj].0@ == k);
        }
        if rhs.dom().contains(k) {
            let j = choose|j: int| 0 <= j < s.len() && #[trigger] s[j].0@ == k;
            assert(j != i);
            let tj = if j < i { j } else { j - 1 };
            assert(t[tj] == s[j]);
            assert(t[tj].0@ == k);
        }
    }
    assert forall|k: Seq<u8>| #[trigger] lhs.dom().contains(k) implies lhs[k] == rhs[k] by {
        let j = choose|j: int| 0 <= j < t.len() && #[trigger] t[j].0@ == k;
        lemma_leaves_map_at(t, j);
        let sj = if j < i { j } else { j + 1 };
        assert(t[j] == s[sj]);
        lemma_leaves_map_at(s, sj);
    }
    assert(lhs =~= rhs);
}

proof fn lemma_leaves_map_len(s: Seq<(Bytes32, Bytes32)>)
    requires
        distinct_keys(s),
    ensures
        leaves_map(s).dom().finite(),
        leaves_map(s).dom().len() == s.len(),
{
    let ks = leaf_keys(s);
    assert(ks.no_duplicates()) by {
        assert forall|a: int, b: int|
            0 <= a < ks.len() && 0 <= b < ks.len() && a != b implies ks[a] != ks[b] by {
            assert(ks[a] == s[a].0@);
            assert(ks[b] == s[b].0@);
        }
    }
    assert(leaves_map(s).dom() =~= ks.to_set()) by {
        assert forall|k: Seq<u8>| #[trigger] leaves_map(s).dom().contains(k) <==> ks.to_set().contains(k) by {
            if leaves_map(s).dom().contains(k) {
                let j = choose|j: int| 0 <= j < s.len() && #[trigger] s[j].0@ == k;
                assert(ks[j] == k);
            }
            if ks.to_set().contains(k) {
                let j = choose|j: int| 0 <= j < ks.len() && ks[j] == k;
                assert(s[j].0@ == k);
            }
        }
    }
    ks.unique_seq_to_set();
}

/// The map after writing each `(key, value)` of `entries` in order (a later write of a key wins).
pub open spec fn apply_entries(m: Map<Seq<u8>, Seq<u8>>, entries: Seq<(Bytes32, Bytes32)>) -> Map<
    Seq<u8>,
    Seq<u8>,
>
    decreases entries.len(),
{
    if entries.len() == 0 {
        m
    } else {
        apply_entries(m, entries.drop_last()).insert(entries.last().0@, entries.last().1@)
    }
}

/// The map after removing each key of `keys`.
pub open spec fn remove_keys(m: Map<Seq<u8>, Seq<u8>>, keys: Seq<Bytes32>) -> Map<Seq<u8>, Seq<u8>>
    decreases keys.len(),
{
    if keys.len() == 0 {
        m
    } else {
        remove_keys(m, keys.drop_last()).remove(keys.last()@)
    }
}

/// The keys of a list of entries.
pub open spec fn entry_keys(entries: Seq<(Bytes32, Bytes32)>) -> Seq<Bytes32> {
    entries.map_values(|e: (Bytes32, Bytes32)| e.0)
}

/// Applying entries adds their keys and keeps every other key's value.
proof fn lemma_apply_entries_keeps(m: Map<Seq<u8>, Seq<u8>>, entries: Seq<(Bytes32, Bytes32)>)
    ensures
        forall|k: Seq<u8>|
            #[trigger] apply_entries(m, entries).dom().contains(k) <==> (m.dom().contains(k)
                || exists|i: int| 0 <= i < entries.len() && (#[trigger] entries[i]).0@ == k),
        forall|k: Seq<u8>|
            m.dom().contains(k) && (forall|i: int| 0 <= i < entries.len() ==> (#[trigger] entries[i]).0@ != k)
                ==> #[trigger] apply_entries(m, entries)[k] == m[k],
    decreases entries.len(),
{
    if entries.len() > 0 {
        let t = entries.drop_last();
        lemma_apply_entries_keeps(m, t);
        let last = entries.last();
        assert(entries[entries.len() - 1] == last);
        assert(apply_entries(m, entries) == apply_entries(m, t).insert(last.0@, last.1@));
        assert forall|k: Seq<u8>|
            #[trigger] apply_entries(m, entries).dom().contains(k) <==> (m.dom().contains(k)
                || exists|i: int| 0 <= i < entries.len() && (#[trigger] entries[i]).0@ == k) by {
            if exists|i: int| 0 <= i < entries.len() && (#[trigger] entries[i]).0@ == k {
                let i = choose|i: int| 0 <= i < entries.len() && (#[trigger] entries[i]).0@ == k;
                if i < t.len() {
                    assert(t[i] == entries[i]);
                }
            }
            if exists|i: int| 0 <= i < t.len() && (#[trigger] t[i]).0@ == k {
                let i = choose|i: int| 0 <= i < t.len() && (#[trigger] t[i]).0@ == k;
                assert(entries[i] == t[i]);
            }
        }
        assert forall|k: Seq<u8>|
            m.dom().contains(k) && (forall|i: int| 0 <= i < entries.len() ==> (#[trigger] entries[i]).0@ != k)
                implies #[trigger] apply_entries(m, entries)[k] == m[k] by {
            assert forall|i: int| 0 <= i < t.len() implies (#[trigger] t[i]).0@ != k by {
                assert(entries[i] == t[i]);
            }
            assert(entries[entries.len() - 1] == entries.last());
        }
    }
}

/// Removing keys drops them and keeps every other key's value.
proof fn lemma_remove_keys_keeps(m: Map<Seq<u8>, Seq<u8>>, keys: Seq<Bytes32>)
    ensures
        forall|k: Seq<u8>|
            #[trigger] remove_keys(m, keys).dom().contains(k) <==> (m.dom().contains(k)
                && forall|i: int| 0 <= i < keys.len() ==> (#[trigger] keys[i])@ != k),
        forall|k: Seq<u8>|
            #[trigger] remove_keys(m, keys).dom().contains(k) ==> remove_keys(m, keys)[k] == m[k],
    decreases keys.len(),
{
    if keys.len() > 0 {
        let t = keys.drop_last();
        lemma_remove_keys_keeps(m, t);
        let last = keys.last();
        assert(keys[keys.len() - 1] == last);
        assert(remove_keys(m, keys) == remove_keys(m, t).remove(last@));
        assert forall|k: Seq<u8>|
            #[trigger] remove_keys(m, keys).dom().contains(k) <==> (m.dom().contains(k)
                && forall|i: int| 0 <= i < keys.len() ==> (#[trigger] keys[i])@ != k) by {
            if remove_keys(m, keys).dom().contains(k) {
                assert(remove_keys(m, t).dom().contains(k) && k != last@);
                assert forall|i: int| 0 <= i < keys.len() implies (#[trigger] keys[i])@ != k by {
                    if i < t.len() {
                        assert(t[i] == keys[i]);
                    }
                }
            }
            if m.dom().contains(k) && forall|i: int| 0 <= i < keys.len() ==> (#[trigger] keys[i])@ != k {
                assert forall|i: int| 0 <= i < t.len() implies (#[trigger] t[i])@ != k by {
                    assert(keys[i] == t[i]);
                }
                assert(keys[keys.len() - 1] == keys.last());
            }
        }
    }
}

/// Inserting entries whose keys are not in the tree and then removing those keys gives the
/// tree's leaves back (and so its root).
pub proof fn lemma_insert_then_remove(m: Map<Seq<u8>, Seq<u8>>, entries: Seq<(Bytes32, Bytes32)>)
    requires
        forall|i: int| 0 <= i < entries.len() ==> !m.dom().contains(#[trigger] entries[i].0@),
    ensures
        remove_keys(apply_entries(m, entries), entry_keys(entries)) == m,
        spec_root(remove_keys(apply_entries(m, entries), entry_keys(entries))) == spec_root(m),
{
    let a = apply_entries(m, entries);
    let ks = entry_keys(entries);
    lemma_apply_entries_keeps(m, entries);
    lemma_remove_keys_keeps(a, ks);
    let r = remove_keys(a, ks);
    assert forall|k: Seq<u8>| #[trigger] r.dom().contains(k) <==> m.dom().contains(k) by {
        if m.dom().contains(k) {
            assert forall|i: int| 0 <= i < ks.len() implies (#[trigger] ks[i])@ != k by {
                assert(ks[i] == entries[i].0);
            }
        }
        if r.dom().contains(k) && !m.dom().contains(k) {
            let i = choose|i: int| 0 <= i < entries.len() && (#[trigger] entries[i]).0@ == k;
            assert(ks[i] == entries[i].0);
        }
    }
    assert forall|k: Seq<u8>| #[trigger] m.dom().contains(k) implies r[k] == m[k] by {
        assert forall|i: int| 0 <= i < entries.len() implies (#[trigger] entries[i]).0@ != k by {}
        assert(r.dom().contains(k));
        assert(a.dom().contains(k));
        assert(a[k] == m[k]);
    }
    assert(r =~= m);
}

/// A copy of a leaf list.
pub(crate) fn copy_leaves(v: &Vec<(Bytes32, Bytes32)>) -> (r: Vec<(Bytes32, Bytes32)>)
    ensures
        r@ == v@,
{
    let mut r: Vec<(Bytes32, Bytes32)> = Vec::new();
    let mut i: usize = 0;
    while i < v.len()
        invariant
            i <= v@.len(),
            r@ =~= v@.take(i as int),
        decreases v.len() - i,
    {
        r.push(v[i]);
        i = i + 1;
    }
    assert(v@.take(v@.len() as int) =~= v@);
    r
}

/// Index of the leaf with key `key`, if any.
fn find_leaf(leaves: &Vec<(Bytes32, Bytes32)>, key: &Bytes32) -> (r: Option<usize>)
    ensures
        r matches Some(i) ==> i < leaves@.len() && leaves@[i as int].0@ == key@,
        r is None ==> forall|i: int| 0 <= i < leaves@.len() ==> #[trigger] leaves@[i].0@ != key@,
{
    let mut i: usize = 0;
    while i < leaves.len()
        invariant
            i <= leaves@.len(),
            forall|j: int| 0 <= j < i ==> #[trigger] leaves@[j].0@ != key@,
        decreases leaves.len() - i,
    {
        if leaves[i].0.equals(key) {
            return Some(i);
        }
        i = i + 1;
    }
    None
}

/// Writes `value` at `key` in a leaf list without repeated keys.
fn upsert_leaf(leaves: &mut Vec<(Bytes32, Bytes32)>, key: Bytes32, value: Bytes32)
    requires
        distinct_keys(old(leaves)@),
    ensures
        distinct_keys(final(leaves)@),
        leaves_map(final(leaves)@) == leaves_map(old(leaves)@).insert(key@, value@),
{
    match find_leaf(leaves, &key) {
        Some(i) => {
            proof {
                lemma_leaves_map_update(leaves@, i as int, (key, value));
            }
            leaves.set(i, (key, value));
        },
        None => {
            proof {
                if leaves_map(leaves@).dom().contains(key@) {
                    let j = choose|j: int| 0 <= j < leaves@.len() && #[trigger] leaves@[j].0@ == key@;
                }
                lemma_leaves_map_push(leaves@, (key, value));
            }
            leaves.push((key, value));
        },
    }
}

// ─────────────────────────────────────────────────────────────────────────────
// SparseMerkleTree
// ─────────────────────────────────────────────────────────────────────────────

/// A 256-level sparse Merkle tree over `coin_id -> leaf hash`.
///
/// Only non-empty leaves are stored; the cached root is dropped on every mutation and recomputed
/// by [`SparseMerkleTree::root`].
#[derive(Debug, Clone)]
pub struct SparseMerkleTree {
    leaves: Vec<(Bytes32, Bytes32)>,
    root_hash: Option<Bytes32>,
}

impl View for SparseMerkleTree {
    type V = Map<Seq<u8>, Seq<u8>>;

    closed spec fn view(&self) -> Map<Seq<u8>, Seq<u8>> {
        leaves_map(self.leaves@)
    }
}

impl SparseMerkleTree {
    /// Well-formedness: no key twice, and a cached root is the root of the current leaves.
    pub closed spec fn wf(&self) -> bool {
        &&& distinct_keys(self.leaves@)
        &&& (self.root_hash matches Some(r) ==> r@ == spec_root(self@))
    }

    /// The cached root is stale.
    pub closed spec fn stale(&self) -> bool {
        self.root_hash is None
    }

    /// Every key of the tree is 32 bytes long.
    pub proof fn lemma_keys_are_32(&self)
        ensures
            keys_are_32(self@),
    {
        lemma_leaves_map_keys(self.leaves@);
    }

    /// Create a new empty tree; its root is the empty-tree hash.
    pub fn new() -> (t: Self)
        ensures
            t.wf(),
            t@ == Map::<Seq<u8>, Seq<u8>>::empty(),
            !t.stale(),
    {
        let t = SparseMerkleTree { leaves: Vec::new(), root_hash: Some(empty_hash(SMT_HEIGHT)) };
        assert(t@ =~= Map::<Seq<u8>, Seq<u8>>::empty());
        assert(!(exists|k: Seq<u8>| #[trigger] in_subtree(t@, Seq::empty(), k)));
        t
    }

    /// Insert new leaves. Fails with `KeyAlreadyExists` for the first entry whose key is already
    /// in the tree, leaving the tree unchanged. Does not recompute the root.
    pub fn batch_insert(&mut self, entries: &[(Bytes32, Bytes32)]) -> (r: Result<(), MerkleError>)
        requires
            old(self).wf(),
        ensures
            final(self).wf(),
            r is Ok <==> forall|i: int|
                0 <= i < entries@.len() ==> !old(self)@.dom().contains(#[trigger] entries@[i].0@),
            r is Ok ==> final(self)@ == apply_entries(old(self)@, entries@),
            r is Ok && entries@.len() > 0 ==> final(self).stale(),
            r is Ok && entries@.len() == 0 ==> *final(self) == *old(self),
            r matches Err(e) ==> *final(self) == *old(self) && exists|i: int|
                0 <= i < entries@.len() && old(self)@.dom().contains(#[trigger] entries@[i].0@)
                    && (forall|j: int|
                    0 <= j < i ==> !old(self)@.dom().contains(#[trigger] entries@[j].0@))
                    && e == MerkleError::KeyAlreadyExists(entries@[i].0),
    {
        let mut i: usize = 0;
        while i < entries.len()
            invariant
                self.wf(),
                *self == *old(self),
                i <= entries@.len(),
                forall|j: int| 0 <= j < i ==> !self@.dom().contains(#[trigger] entries@[j].0@),
            decreases entries.len() - i,
        {
            if self.contains_key(&entries[i].0) {
                return Err(MerkleError::KeyAlreadyExists(entries[i].0));
            }
            i = i + 1;
        }
        if entries.len() > 0 {
            self.write_entries(entries);
        }
        Ok(())
    }

    /// Update existing leaves. Fails with `KeyNotFound` for the first entry whose key is not in
    /// the tree, leaving the tree unchanged. Does not recompute the root.
    pub fn batch_update(&mut self, entries: &[(Bytes32, Bytes32)]) -> (r: Result<(), MerkleError>)
        requires
            old(self).wf(),
        ensures
            final(self).wf(),
            r is Ok <==> forall|i: int|
                0 <= i < entries@.len() ==> old(self)@.dom().contains(#[trigger] entries@[i].0@),
            r is Ok ==> final(self)@ == apply_entries(old(self)@, entries@),
            r is Ok && entries@.len() > 0 ==> final(self).stale(),
            r is Ok && entries@.len() == 0 ==> *final(self) == *old(self),
            r matches Err(e) ==> *final(self) == *old(self) && exists|i: int|
                0 <= i < entries@.len() && !old(self)@.dom().contains(#[trigger] entries@[i].0@)
                    && (forall|j: int|
                    0 <= j < i ==> old(self)@.dom().contains(#[trigger] entries@[j].0@))
                    && e == MerkleError::KeyNotFound(entries@[i].0),
    {
        let mut i: usize = 0;
        while i < entries.len()
            invariant
                self.wf(),
                *self == *old(self),
                i <= entries@.len(),
                forall|j: int| 0 <= j < i ==> self@.dom().contains(#[trigger] entries@[j].0@),
            decreases entries.len() - i,
        {
            if !self.contains_key(&entries[i].0) {
                return Err(MerkleError::KeyNotFound(entries[i].0));
            }
            i = i + 1;
        }
        if entries.len() > 0 {
            self.write_entries(entries);
        }
        Ok(())
    }

    /// Writes every entry (later writes of a key win) and marks the root stale.
    fn write_entries(&mut self, entries: &[(Bytes32, Bytes32)])
        requires
            old(self).wf(),
        ensures
            final(self).wf(),
            final(self)@ == apply_entries(old(self)@, entries@),
            final(self).stale(),
    {
        self.root_hash = None;
        let mut i: usize = 0;
        while i < entries.len()
            invariant
                i <= entries@.len(),
                distinct_keys(self.leaves@),
                self.root_hash is None,
                self@ == apply_entries(old(self)@, entries@.take(i as int)),
            decreases entries.len() - i,
        {
            let (k, v) = entries[i];
            upsert_leaf(&mut self.leaves, k, v);
            assert(entries@.take(i + 1).drop_last() =~= entries@.take(i as int));
            i = i + 1;
        }
        assert(entries@.take(entries@.len() as int) =~= entries@);
    }

    /// Remove leaves. Fails with `KeyNotFound` for the first key that is not in the tree,
    /// leaving the tree unchanged. Does not recompute the root.
    pub fn batch_remove(&mut self, keys: &[Bytes32]) -> (r: Result<(), MerkleError>)
        requires
            old(self).wf(),
        ensures
            final(self).wf(),
            r is Ok <==> forall|i: int|
                0 <= i < keys@.len() ==> old(self)@.dom().contains(#[trigger] keys@[i]@),
            r is Ok ==> final(self)@ == remove_keys(old(self)@, keys@),
            r is Ok && keys@.len() > 0 ==> final(self).stale(),
            r is Ok && keys@.len() == 0 ==> *final(self) == *old(self),
            r matches Err(e) ==> *final(self) == *old(self) && exists|i: int|
                0 <= i < keys@.len() && !old(self)@.dom().contains(#[trigger] keys@[i]@) && (
                forall|j: int| 0 <= j < i ==> old(self)@.dom().contains(#[trigger] keys@[j]@))
                    && e == MerkleError::KeyNotFound(keys@[i]),
    {
        let mut i: usize = 0;
        while i < keys.len()
            invariant
                self.wf(),
                *self == *old(self),
                i <= keys@.len(),
                forall|j: int| 0 <= j < i ==> self@.dom().contains(#[trigger] keys@[j]@),
            decreases keys.len() - i,
        {
            if !self.contains_key(&keys[i]) {
                return Err(MerkleError::KeyNotFound(keys[i]));
            }
            i = i + 1;
        }
        if keys.len() == 0 {
            return Ok(());
        }
        self.root_hash = None;
        let mut i: usize = 0;
        while i < keys.len()
            invariant
                i <= keys@.len(),
                distinct_keys(self.leaves@),
                self.root_hash is None,
                self@ == remove_keys(old(self)@, keys@.take(i as int)),
            decreases keys.len() - i,
        {
            match find_leaf(&self.leaves, &keys[i]) {
                Some(p) => {
                    proof {
                        lemma_leaves_map_remove(self.leaves@, p as int);
                    }
                    self.leaves.remove(p);
                },
                None => {
                    proof {
                        if self@.dom().contains(keys@[i as int]@) {
                            let j = choose|j: int|
                                0 <= j < self.leaves@.len() && #[trigger] self.leaves@[j].0@
                                    == keys@[i as int]@;
                        }
                        assert(self@.remove(keys@[i as int]@) =~= self@);
                    }
                },
            }
            assert(keys@.take(i + 1).drop_last() =~= keys@.take(i as int));
            i = i + 1;
        }
        assert(keys@.take(keys@.len() as int) =~= keys@);
        Ok(())
    }

    /// Return the current Merkle root, recomputing (and caching) it if stale.
    pub fn root(&mut self) -> (r: Bytes32)
        requires
            old(self).wf(),
        ensures
            final(self).wf(),
            final(self)@ == old(self)@,
            !final(self).stale(),
            r@ == spec_root(old(self)@),
    {
        match self.root_hash {
            Some(r) => r,
            None => {
                let r = compute_root(&self.leaves);
                self.root_hash = Some(r);
                r
            },
        }
    }

    /// The Merkle root, without updating the cache.
    pub fn root_readonly(&self) -> (r: Bytes32)
        requires
            self.wf(),
        ensures
            r@ == spec_root(self@),
    {
        match self.root_hash {
            Some(r) => r,
            None => compute_root(&self.leaves),
        }
    }

    /// The Merkle root, without updating the cache (the empty tree answers its empty-tree hash).
    pub fn root_observed(&self) -> (r: Bytes32)
        requires
            self.wf(),
        ensures
            r@ == spec_root(self@),
    {
        if self.leaves.len() == 0 {
            assert(!(exists|k: Seq<u8>| #[trigger] in_subtree(self@, Seq::empty(), k)));
            return empty_hash(SMT_HEIGHT);
        }
        self.root_readonly()
    }

    /// The cached root is stale and there is at least one leaf.
    pub fn is_dirty(&self) -> (r: bool)
        requires
            self.wf(),
        ensures
            r == (self.stale() && self@.dom().len() > 0),
    {
        proof {
            lemma_leaves_map_len(self.leaves@);
        }
        self.root_hash.is_none() && self.leaves.len() > 0
    }

    /// Number of non-empty leaves.
    pub fn len(&self) -> (r: usize)
        requires
            self.wf(),
        ensures
            r == self@.dom().len(),
    {
        proof {
            lemma_leaves_map_len(self.leaves@);
        }
        self.leaves.len()
    }

    /// Whether the tree has no leaves.
    pub fn is_empty(&self) -> (r: bool)
        requires
            self.wf(),
        ensures
            r == (self@.dom().len() == 0),
    {
        proof {
            lemma_leaves_map_len(self.leaves@);
        }
        self.leaves.len() == 0
    }

    /// Whether `key` is a leaf.
    pub fn contains_key(&self, key: &Bytes32) -> (r: bool)
        ensures
            r == self@.dom().contains(key@),
    {
        match find_leaf(&self.leaves, key) {
            Some(i) => true,
            None => {
                proof {
                    if self@.dom().contains(key@) {
                        let j = choose|j: int|
                            0 <= j < self.leaves@.len() && #[trigger] self.leaves@[j].0@ == key@;
                    }
                }
                false
            },
        }
    }

    /// The leaf hash stored for `key`, if any.
    pub fn get(&self, key: &Bytes32) -> (r: Option<&Bytes32>)
        requires
            self.wf(),
        ensures
            r matches Some(v) ==> self@.dom().contains(key@) && self@[key@] == v@,
            r is None ==> !self@.dom().contains(key@),
    {
        match find_leaf(&self.leaves, key) {
            Some(i) => {
                proof {
                    lemma_leaves_map_at(self.leaves@, i as int);
                }
                Some(&self.leaves[i].1)
            },
            None => {
                proof {
                    if self@.dom().contains(key@) {
                        let j = choose|j: int|
                            0 <= j < self.leaves@.len() && #[trigger] self.leaves@[j].0@ == key@;
                    }
                }
                None
            },
        }
    }

    /// Writes `value` at `key` (inserting or replacing) and marks the root stale.
    pub(crate) fn put_leaf(&mut self, key: Bytes32, value: Bytes32)
        requires
            old(self).wf(),
        ensures
            final(self).wf(),
            final(self)@ == old(self)@.insert(key@, value@),
            final(self).stale(),
    {
        self.root_hash = None;
        upsert_leaf(&mut self.leaves, key, value);
    }

    /// A copy of the tree (same leaves, same cached root).
    pub fn duplicate(&self) -> (r: Self)
        requires
            self.wf(),
        ensures
            r.wf(),
            r@ == self@,
            r.stale() == self.stale(),
    {
        SparseMerkleTree { leaves: copy_leaves(&self.leaves), root_hash: self.root_hash }
    }

    /// Copies of all leaves (used to generate proofs).
    pub(crate) fn leaf_list(&self) -> (r: &Vec<(Bytes32, Bytes32)>)
        requires
            self.wf(),
        ensures
            distinct_keys(r@),
            leaves_map(r@) == self@,
    {
        &self.leaves
    }
}

// ─────────────────────────────────────────────────────────────────────────────
// MerkleError
// ─────────────────────────────────────────────────────────────────────────────

/// Errors from sparse Merkle tree operations.
#[derive(Debug, Clone, PartialEq)]
pub enum MerkleError {
    /// Attempted to insert a key that already exists in the tree.
    KeyAlreadyExists(Bytes32),
    /// Attempted to update or remove a key that does not exist.
    KeyNotFound(Bytes32),
    /// A proof was requested while the cached root is stale.
    ProofRequiresCleanTree,
}

impl Default for SparseMerkleTree {
    /// An empty tree ([`SparseMerkleTree::new`]).
    fn default() -> (t: Self)
        ensures
            t.wf(),
            t@ == Map::<Seq<u8>, Seq<u8>>::empty(),
            !t.stale(),
    {
        SparseMerkleTree::new()
    }
}

} // verus!
