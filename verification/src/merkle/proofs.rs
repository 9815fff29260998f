//! Merkle proof generation and verification.
//!
//! [`SparseMerkleProof`] carries the 256 sibling hashes along the path of a key. It proves
//! inclusion (`value` is the leaf hash) or exclusion (`value` is `None`: the leaf is empty).
//! Verification needs no tree state: it folds the siblings from the leaf up to a root and
//! compares with a trusted root.
use super::{
    empty_hash, get_bit, in_subtree, is_subtree_list, keys_are_32, lemma_bits_determine_key,
    lemma_leaves_map_at, lemma_leaves_map_keys, matches_path, merkle_node_hash, key_bit,
    partition_by_bit, spec_empty_hash, spec_node_hash, spec_root, subtree_hash, compute_subtree_hash,
    empty_hash_table, copy_leaves, MerkleError, SparseMerkleTree, SMT_HEIGHT,
};
use crate::bytes::Bytes32;
use vstd::prelude::*;

verus! {

/// A proof of inclusion or exclusion in the sparse Merkle tree.
///
/// `siblings[d]` is the hash of the sibling of the node at depth `d + 1` on the key's path
/// (`siblings[0]` at the root level, `siblings[255]` at the leaf level).
#[derive(Debug, Clone, PartialEq, Eq)]
pub struct SparseMerkleProof {
    /// The key (coin id) this proof is for.
    pub key: Bytes32,
    /// The leaf hash if the key exists (inclusion proof), or `None` (exclusion proof).
    pub value: Option<Bytes32>,
    /// Sibling hashes along the path, root level first.
    pub siblings: Vec<Bytes32>,
}

/// The leaf at the bottom of the path: the claimed value, or the empty leaf hash.
pub open spec fn spec_leaf_value(value: Option<Bytes32>) -> Seq<u8> {
    match value {
        Some(v) => v@,
        None => spec_empty_hash(0),
    }
}

/// The hash of the node at `depth` on the path of `key`, folding `siblings` up from `leaf`.
pub open spec fn fold_path(key: Seq<u8>, leaf: Seq<u8>, siblings: Seq<Bytes32>, depth: int) -> Seq<
    u8,
>
    decreases SMT_HEIGHT - depth,
{
    if depth >= SMT_HEIGHT {
        leaf
    } else {
        let below = fold_path(key, leaf, siblings, depth + 1);
        if key_bit(key, depth) {
            spec_node_hash(siblings[depth]@, below)
        } else {
            spec_node_hash(below, siblings[depth]@)
        }
    }
}

/// The root that a proof commits to.
pub open spec fn proof_root(p: SparseMerkleProof) -> Seq<u8> {
    fold_path(p.key@, spec_leaf_value(p.value), p.siblings@, 0)
}

/// The first `n` bits of `key`.
pub open spec fn key_prefix(key: Seq<u8>, n: int) -> Seq<bool> {
    Seq::new(n as nat, |i: int| key_bit(key, i))
}

/// `p` is the proof for `key` in the tree whose leaves are `m`.
pub open spec fn is_proof_for(p: SparseMerkleProof, m: Map<Seq<u8>, Seq<u8>>, key: Seq<u8>) -> bool {
    &&& p.key@ == key
    &&& (if m.dom().contains(key) {
        p.value matches Some(v) && v@ == m[key]
    } else {
        p.value is None
    })
    &&& p.siblings@.len() == SMT_HEIGHT
    &&& forall|d: int|
        0 <= d < SMT_HEIGHT ==> #[trigger] p.siblings@[d]@ == subtree_hash(
            m,
            key_prefix(key, d).push(!key_bit(key, d)),
        )
}

proof fn lemma_fold_matches_subtree(
    m: Map<Seq<u8>, Seq<u8>>,
    key: Seq<u8>,
    leaf: Seq<u8>,
    siblings: Seq<Bytes32>,
    d: int,
)
    requires
        keys_are_32(m),
        key.len() == 32,
        0 <= d <= SMT_HEIGHT,
        leaf == (if m.dom().contains(key) {
            m[key]
        } else {
            spec_empty_hash(0)
        }),
        siblings.len() == SMT_HEIGHT,
        forall|j: int|
            0 <= j < SMT_HEIGHT ==> #[trigger] siblings[j]@ == subtree_hash(
                m,
                key_prefix(key, j).push(!key_bit(key, j)),
            ),
    ensures
        fold_path(key, leaf, siblings, d) == subtree_hash(m, key_prefix(key, d)),
    decreases SMT_HEIGHT - d,
{
    let p = key_prefix(key, d);
    if d == SMT_HEIGHT {
        if m.dom().contains(key) {
            assert(in_subtree(m, p, key));
            let k = choose|k: Seq<u8>| #[trigger] in_subtree(m, p, k);
            assert forall|n: int| 0 <= n < 256 implies #[trigger] key_bit(k, n) == key_bit(key, n) by {
                assert(key_bit(k, n) == p[n]);
            }
            lemma_bits_determine_key(k, key);
        } else {
            assert forall|k: Seq<u8>| !(#[trigger] in_subtree(m, p, k)) by {
                if in_subtree(m, p, k) {
                    assert forall|n: int| 0 <= n < 256 implies #[trigger] key_bit(k, n) == key_bit(
                        key,
                        n,
                    ) by {
                        assert(key_bit(k, n) == p[n]);
                    }
                    lemma_bits_determine_key(k, key);
                }
            }
        }
    } else {
        lemma_fold_matches_subtree(m, key, leaf, siblings, d + 1);
        let b = key_bit(key, d);
        assert(key_prefix(key, d + 1) =~= p.push(b));
        if exists|k: Seq<u8>| #[trigger] in_subtree(m, p, k) {
        } else {
            assert forall|k: Seq<u8>| !(#[trigger] in_subtree(m, p.push(false), k)) by {
                if in_subtree(m, p.push(false), k) {
                    assert(in_subtree(m, p, k));
                }
            }
            assert forall|k: Seq<u8>| !(#[trigger] in_subtree(m, p.push(true), k)) by {
                if in_subtree(m, p.push(true), k) {
                    assert(in_subtree(m, p, k));
                }
            }
            assert(subtree_hash(m, p.push(false)) == spec_empty_hash((SMT_HEIGHT - d - 1) as nat));
            assert(subtree_hash(m, p.push(true)) == spec_empty_hash((SMT_HEIGHT - d - 1) as nat));
        }
    }
}

/// A proof generated for `key` from the tree whose leaves are `m` folds up to the root of `m`:
/// whatever [`SparseMerkleTree::get_proof`] hands out verifies against [`SparseMerkleTree::root`].
pub proof fn lemma_generated_proof_verifies(
    p: SparseMerkleProof,
    m: Map<Seq<u8>, Seq<u8>>,
    key: Seq<u8>,
)
    requires
        keys_are_32(m),
        key.len() == 32,
        is_proof_for(p, m, key),
    ensures
        proof_root(p) == spec_root(m),
{
    lemma_fold_matches_subtree(m, key, spec_leaf_value(p.value), p.siblings@, 0);
    assert(key_prefix(key, 0) =~= Seq::<bool>::empty());
}

impl SparseMerkleProof {
    /// Verify this proof against an expected root hash: the siblings fold, from the claimed leaf
    /// (or the empty leaf hash), to `expected_root`.
    pub fn verify(&self, expected_root: &Bytes32) -> (r: bool)
        ensures
            r == (self.siblings@.len() == SMT_HEIGHT && proof_root(*self) == expected_root@),
    {
        if self.siblings.len() != SMT_HEIGHT {
            return false;
        }
        let mut current = self.leaf_value();
        let mut depth: usize = SMT_HEIGHT;
        while depth > 0
            invariant
                depth <= SMT_HEIGHT,
                self.siblings@.len() == SMT_HEIGHT,
                current@ == fold_path(
                    self.key@,
                    spec_leaf_value(self.value),
                    self.siblings@,
                    depth as int,
                ),
            decreases depth,
        {
            depth = depth - 1;
            let bit = get_bit(&self.key, depth);
            let sibling = &self.siblings[depth];
            current =
            if bit {
                merkle_node_hash(sibling, &current)
            } else {
                merkle_node_hash(&current, sibling)
            };
        }
        current.equals(expected_root)
    }

    /// The 32-byte leaf payload: the inclusion digest, or the empty leaf hash for exclusion.
    pub fn leaf_value(&self) -> (r: Bytes32)
        ensures
            r@ == spec_leaf_value(self.value),
    {
        match self.value {
            Some(h) => h,
            None => empty_hash(0),
        }
    }
}

/// Verify a coin Merkle proof against a trusted state root (same as [`SparseMerkleProof::verify`]).
pub fn verify_coin_proof(proof: &SparseMerkleProof, expected_root: &Bytes32) -> (r: bool)
    ensures
        r == (proof.siblings@.len() == SMT_HEIGHT && proof_root(*proof) == expected_root@),
{
    proof.verify(expected_root)
}

impl SparseMerkleTree {
    /// Bit `n` of `key` (bit 0 = most significant bit of byte 0).
    pub fn get_bit_public(key: &Bytes32, n: usize) -> (r: bool)
        requires
            n < SMT_HEIGHT,
        ensures
            r == key_bit(key@, n as int),
    {
        get_bit(key, n)
    }

    /// Build the path proof for `key` from the leaves of the tree.
    fn build_sparse_proof_for_key(&self, key: &Bytes32) -> (p: SparseMerkleProof)
        requires
            self.wf(),
        ensures
            is_proof_for(p, self@, key@),
    {
        let all = self.leaf_list();
        let ghost m = self@;
        proof {
            lemma_leaves_map_keys(all@);
            assert forall|i: int| 0 <= i < all@.len() implies {
                &&& #[trigger] m.dom().contains(all@[i].0@)
                &&& m[all@[i].0@] == all@[i].1@
                &&& matches_path(all@[i].0@, Seq::<bool>::empty())
            } by {
                lemma_leaves_map_at(all@, i);
            }
            assert(key_prefix(key@, 0) =~= Seq::<bool>::empty());
        }
        let empties = empty_hash_table();
        let mut siblings: Vec<Bytes32> = Vec::new();
        let mut current: Vec<(Bytes32, Bytes32)> = copy_leaves(all);
        let mut depth: usize = 0;
        while depth < SMT_HEIGHT
            invariant
                depth <= SMT_HEIGHT,
                keys_are_32(m),
                is_subtree_list(current@, m, key_prefix(key@, depth as int)),
                empties@.len() == SMT_HEIGHT + 1,
                forall|i: int|
                    0 <= i <= SMT_HEIGHT ==> #[trigger] empties@[i]@ == spec_empty_hash(i as nat),
                siblings@.len() == depth,
                forall|d: int|
                    0 <= d < depth ==> #[trigger] siblings@[d]@ == subtree_hash(
                        m,
                        key_prefix(key@, d).push(!key_bit(key@, d)),
                    ),
            decreases SMT_HEIGHT - depth,
        {
            let bit = get_bit(key, depth);
            let ghost path = key_prefix(key@, depth as int);
            let (left, right) = partition_by_bit(&current, depth, Ghost(m), Ghost(path));
            assert(key_prefix(key@, depth + 1) =~= path.push(bit));
            if bit {
                let h = compute_subtree_hash(&left, depth + 1, &empties, Ghost(m), Ghost(path.push(false)));
                siblings.push(h);
                current = right;
            } else {
                let h = compute_subtree_hash(&right, depth + 1, &empties, Ghost(m), Ghost(path.push(true)));
                siblings.push(h);
                current = left;
            }
            depth = depth + 1;
        }
        let value = match self.get(key) {
            Some(v) => Some(*v),
            None => None,
        };
        SparseMerkleProof { key: *key, value, siblings }
    }

    /// Generate a Merkle proof for `coin_id` against the current tree; fails with
    /// `ProofRequiresCleanTree` while the cached root is stale and the tree is not empty.
    pub fn get_coin_proof(&self, coin_id: &Bytes32) -> (r: Result<SparseMerkleProof, MerkleError>)
        requires
            self.wf(),
        ensures
            r is Err <==> (self.stale() && self@.dom().len() > 0),
            r matches Err(e) ==> e == MerkleError::ProofRequiresCleanTree,
            r matches Ok(p) ==> is_proof_for(p, self@, coin_id@),
    {
        if self.is_dirty() {
            return Err(MerkleError::ProofRequiresCleanTree);
        }
        Ok(self.build_sparse_proof_for_key(coin_id))
    }

    /// Generate a proof for a key (inclusion or exclusion) without requiring a fresh root.
    pub fn get_proof(&self, key: &Bytes32) -> (p: SparseMerkleProof)
        requires
            self.wf(),
        ensures
            is_proof_for(p, self@, key@),
    {
        self.build_sparse_proof_for_key(key)
    }
}

} // verus!
