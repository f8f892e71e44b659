//! Trusted boundary around the hash function and the Merkle tree that layers
//! are committed with.
//!
//! Digests cross this boundary as plain 32-byte arrays and batched
//! authentication proofs as their serialized bytes; the tree itself is held
//! opaquely inside [`LayerTree`]. The uninterpreted spec functions name what
//! the tree holds (its leaves) and what the deterministic tree operations
//! return, so that the prover's contracts can speak of committed data
//! exactly.

use vstd::prelude::*;
use winter_crypto::hashers::Blake3_256;
use winter_crypto::{Digest, ElementHasher, Hasher, MerkleTree};
use winter_math::fields::f64::BaseElement;
use winter_utils::{Deserializable, Serializable};

use crate::nums::spec_is_pow2;

verus! {

/// A Merkle tree over the hashed rows of one committed layer.
///
/// Holds `winter_crypto::MerkleTree` opaquely: the verifier sees the tree
/// only through the named spec functions below and the trusted operations
/// that apply them.
#[verifier::external_body]
pub struct LayerTree {
    inner: MerkleTree<Blake3_256<BaseElement>>,
}

/// The hash of a row of field elements, as 32 bytes.
pub uninterp spec fn hash_of(row: Seq<BaseElement>) -> [u8; 32];

/// The leaf digests a tree was built from, as 32-byte arrays.
pub uninterp spec fn tree_leaves(t: LayerTree) -> Seq<[u8; 32]>;

/// The root digest of a tree, as 32 bytes.
pub uninterp spec fn tree_root_of(t: LayerTree) -> [u8; 32];

/// The serialized batched authentication proof for a set of leaf indexes of
/// a tree.
pub uninterp spec fn batch_proof_of(t: LayerTree, positions: Seq<usize>) -> Seq<u8>;

impl LayerTree {
    /// How many leaves the tree holds.
    pub open spec fn leaf_count(self) -> nat {
        tree_leaves(self).len()
    }

    /// Relies on `MerkleTree::new`: builds a tree over the given leaves; its
    /// only error cases are fewer than two leaves and a leaf count that is
    /// not a power of two. Each 32-byte array converts to one leaf digest
    /// through the digest type's `Deserializable` impl, which reads the bytes
    /// back unchanged.
    #[verifier::external_body]
    pub fn new(leaves: &Vec<[u8; 32]>) -> (t: LayerTree)
        requires
            leaves@.len() >= 2,
            spec_is_pow2(leaves@.len()),
        ensures
            tree_leaves(t) == leaves@,
    {
        let digests = leaves
            .iter()
            .map(|b| {
                <Blake3_256<BaseElement> as Hasher>::Digest::read_from_bytes(b)
                    .expect("a digest is exactly 32 bytes")
            })
            .collect();
        LayerTree { inner: MerkleTree::new(digests).expect("leaf count is a power of two") }
    }

    /// Relies on `MerkleTree::root`: returns the root of the tree, a function
    /// of the tree alone; `Digest::as_bytes` serializes it into 32 bytes.
    #[verifier::external_body]
    pub fn root(&self) -> (r: [u8; 32])
        ensures
            r == tree_root_of(*self),
    {
        self.inner.root().as_bytes()
    }

    /// Relies on `MerkleTree::prove_batch`: computes one batched
    /// authentication proof covering the given leaf indexes, a function of
    /// the tree and the indexes alone; its only error cases are an empty
    /// index list, an index past the leaves, and a duplicate index. The proof
    /// is returned through its `Serializable` impl as bytes.
    #[verifier::external_body]
    pub fn prove_batch(&self, positions: &Vec<usize>) -> (p: Vec<u8>)
        requires
            positions@.len() > 0,
            forall|i: int, j: int| 0 <= i < j < positions@.len()
                ==> positions@[i] < positions@[j],
            forall|i: int| 0 <= i < positions@.len()
                ==> positions@[i] < self.leaf_count(),
        ensures
            p@ == batch_proof_of(*self, positions@),
    {
        let (_leaves, proof) =
            self.inner.prove_batch(positions).expect("indexes are distinct and in range");
        proof.to_bytes()
    }
}

/// Relies on `Blake3_256::hash_elements`: the digest depends on the hashed
/// elements alone; `Digest::as_bytes` returns it serialized into 32 bytes.
#[verifier::external_body]
pub fn hash_row(row: &Vec<BaseElement>) -> (r: [u8; 32])
    ensures
        r == hash_of(row@),
{
    Blake3_256::<BaseElement>::hash_elements(row.as_slice()).as_bytes()
}

/// The commitment over one layer's hashed rows.
///
/// A layer with two or more rows commits into a Merkle tree. The final
/// remainder layer can shrink to a single row, which the tree collaborator
/// refuses; its one leaf digest then stands as the committed root itself.
pub enum LayerCommitment {
    /// A single-row layer: the lone leaf digest is the root.
    Single([u8; 32]),
    /// A layer of at least two rows, committed into a Merkle tree.
    Tree(LayerTree),
}

impl LayerCommitment {
    /// The leaf digests this commitment covers.
    pub open spec fn leaves(self) -> Seq<[u8; 32]> {
        match self {
            LayerCommitment::Single(d) => seq![d],
            LayerCommitment::Tree(t) => tree_leaves(t),
        }
    }

    /// The committed root digest.
    pub open spec fn spec_root(self) -> [u8; 32] {
        match self {
            LayerCommitment::Single(d) => d,
            LayerCommitment::Tree(t) => tree_root_of(t),
        }
    }

    /// Commits to the given leaves: a Merkle tree over two or more of them,
    /// the lone digest itself over one.
    pub fn commit(leaves: &Vec<[u8; 32]>) -> (r: LayerCommitment)
        requires
            leaves@.len() >= 1,
            spec_is_pow2(leaves@.len()),
        ensures
            r.leaves() == leaves@,
            (r is Tree) <==> leaves@.len() >= 2,
    {
        if leaves.len() == 1 {
            let r = LayerCommitment::Single(leaves[0]);
            proof {
                assert(r.leaves() =~= leaves@);
            }
            r
        } else {
            LayerCommitment::Tree(LayerTree::new(leaves))
        }
    }

    /// Returns the committed root.
    pub fn root(&self) -> (r: [u8; 32])
        ensures
            r == self.spec_root(),
    {
        match self {
            LayerCommitment::Single(d) => *d,
            LayerCommitment::Tree(t) => t.root(),
        }
    }
}

} // verus!
