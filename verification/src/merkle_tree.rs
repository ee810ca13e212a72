//! The Merkle engine: a binary hash tree over an ordered list of blobs, its
//! root, and inclusion proofs for single leaves.
//!
//! A level of the tree is a sequence of hashes. A level of odd length is
//! padded by repeating its last hash; neighbours are then hashed pairwise,
//! left before right, into the level above. The root is the one hash of the
//! topmost level. A tree over a single leaf is that leaf's hash.

use crate::digest::{hash_leaf, hash_pair, pair_digest, sha256, DIGEST_LEN};
use vstd::prelude::*;

verus! {

/// The hashes of `leaves`, in the same order.
pub open spec fn leaf_hashes_of(leaves: Seq<Seq<u8>>) -> Seq<Seq<u8>> {
    Seq::new(leaves.len(), |i: int| sha256(leaves[i]))
}

/// `level` made even by repeating its last hash.
pub open spec fn pad_level(level: Seq<Seq<u8>>) -> Seq<Seq<u8>> {
    if level.len() % 2 == 1 {
        level.push(level.last())
    } else {
        level
    }
}

/// The level above `level`.
pub open spec fn parent_level(level: Seq<Seq<u8>>) -> Seq<Seq<u8>> {
    let padded = pad_level(level);
    Seq::new(padded.len() / 2, |i: int| pair_digest(padded[2 * i], padded[2 * i + 1]))
}

/// The root above `level`. Meaningful for a level that is not empty.
pub open spec fn root_of(level: Seq<Seq<u8>>) -> Seq<u8>
    decreases level.len(),
{
    if level.len() == 0 {
        Seq::empty()
    } else if level.len() == 1 {
        level[0]
    } else {
        root_of(parent_level(level))
    }
}

/// The root of the tree built over `leaves`.
pub open spec fn merkle_root(leaves: Seq<Seq<u8>>) -> Seq<u8> {
    root_of(leaf_hashes_of(leaves))
}

/// The number of levels below the root of a tree with `count` leaves: the
/// least `h` such that two to the power `h` is at least `count`.
pub open spec fn tree_height(count: nat) -> nat
    decreases count,
{
    if count <= 1 {
        0
    } else {
        1 + tree_height((count + 1) / 2)
    }
}

/// Every hash of `level`, and of each level above it, is `DIGEST_LEN` bytes
/// long.
pub open spec fn digest_sized(level: Seq<Seq<u8>>) -> bool
    decreases level.len(),
{
    &&& forall|i: int| 0 <= i < level.len() ==> (#[trigger] level[i]).len() == DIGEST_LEN
    &&& level.len() > 1 ==> digest_sized(parent_level(level))
}

/// What the proof records at one level for the node at `index`: the hash
/// beside it (its own where it is the last node and has no neighbour), and
/// whether that hash belongs on the left.
pub open spec fn sibling_entry(level: Seq<Seq<u8>>, index: int) -> (Seq<u8>, bool) {
    let pair_index = if index % 2 == 0 {
        index + 1
    } else {
        index - 1
    };
    if pair_index < level.len() {
        (level[pair_index], index % 2 == 1)
    } else {
        (level[index], index % 2 == 1)
    }
}

/// The inclusion proof for the node at `index` of `level`: one entry per
/// level, lowest first.
pub open spec fn proof_path(level: Seq<Seq<u8>>, index: int) -> Seq<(Seq<u8>, bool)>
    decreases level.len(),
{
    if level.len() <= 1 {
        Seq::empty()
    } else {
        seq![sibling_entry(level, index)] + proof_path(parent_level(level), index / 2)
    }
}

/// The hash one level up from `current`, given the proof entry for this
/// level.
pub open spec fn fold_step(current: Seq<u8>, entry: (Seq<u8>, bool)) -> Seq<u8> {
    if entry.1 {
        pair_digest(entry.0, current)
    } else {
        pair_digest(current, entry.0)
    }
}

/// The hash reached from `start` by following `proof` from its first entry
/// to its last.
pub open spec fn fold_proof(proof: Seq<(Seq<u8>, bool)>, start: Seq<u8>) -> Seq<u8>
    decreases proof.len(),
{
    if proof.len() == 0 {
        start
    } else {
        fold_step(fold_proof(proof.drop_last(), start), proof.last())
    }
}

/// Whether `proof` leads from the blob `leaf` to `root`.
pub open spec fn proof_verifies(proof: Seq<(Seq<u8>, bool)>, root: Seq<u8>, leaf: Seq<u8>) -> bool {
    fold_proof(proof, sha256(leaf)) == root
}

/// A list of byte strings as plain values.
pub open spec fn blobs_view(blobs: Seq<Vec<u8>>) -> Seq<Seq<u8>> {
    Seq::new(blobs.len(), |i: int| blobs[i]@)
}

/// A proof as plain values.
pub open spec fn proof_view(proof: Seq<(Vec<u8>, bool)>) -> Seq<(Seq<u8>, bool)> {
    Seq::new(proof.len(), |i: int| (proof[i].0@, proof[i].1))
}

/// What a tree holds: its root and the hashes of its leaves, in leaf order.
pub struct MerkleTreeView {
    pub root: Seq<u8>,
    pub leaf_hashes: Seq<Seq<u8>>,
}

impl MerkleTreeView {
    /// The tree over `leaves`.
    pub open spec fn of(leaves: Seq<Seq<u8>>) -> MerkleTreeView {
        MerkleTreeView { root: merkle_root(leaves), leaf_hashes: leaf_hashes_of(leaves) }
    }

    /// The tree has a leaf, its root is the one that its leaf hashes
    /// determine, and all its hashes are digests.
    pub open spec fn wf(self) -> bool {
        &&& self.leaf_hashes.len() >= 1
        &&& self.root == root_of(self.leaf_hashes)
        &&& digest_sized(self.leaf_hashes)
    }
}

/// A snapshot of the tree over a list of blobs. It does not change once
/// built.
#[derive(Debug)]
pub struct MerkleTree {
    root: Vec<u8>,
    leaf_hashes: Vec<Vec<u8>>,
}

impl View for MerkleTree {
    type V = MerkleTreeView;

    closed spec fn view(&self) -> MerkleTreeView {
        MerkleTreeView { root: self.root@, leaf_hashes: blobs_view(self.leaf_hashes@) }
    }
}

impl Clone for MerkleTree {
    fn clone(&self) -> (copy: Self)
        ensures
            copy@ == self@,
    {
        let copy = MerkleTree { root: self.root.clone(), leaf_hashes: self.leaf_hashes.clone() };
        assert(blobs_view(copy.leaf_hashes@) =~= blobs_view(self.leaf_hashes@));
        copy
    }
}

impl MerkleTree {
    /// Builds the tree over `data`: hashes each blob, then pairs the hashes
    /// up level by level until one is left.
    pub fn new(data: Vec<Vec<u8>>) -> (tree: Self)
        requires
            data.len() >= 1,
        ensures
            tree@ == MerkleTreeView::of(blobs_view(data@)),
            tree@.wf(),
    {
        let mut leaf_hashes: Vec<Vec<u8>> = Vec::new();
        let mut i: usize = 0;
        while i < data.len()
            invariant
                i <= data.len(),
                leaf_hashes.len() == i,
                forall|j: int|
                    0 <= j < i ==> {
                        &&& (#[trigger] leaf_hashes[j])@ == sha256(data[j]@)
                        &&& leaf_hashes[j]@.len() == DIGEST_LEN
                    },
            decreases data.len() - i,
        {
            leaf_hashes.push(hash_leaf(&data[i]));
            i += 1;
        }
        assert(blobs_view(leaf_hashes@) =~= leaf_hashes_of(blobs_view(data@)));
        let level = leaf_hashes.clone();
        assert(blobs_view(level@) =~= blobs_view(leaf_hashes@));
        let root = Self::build_tree(level);
        MerkleTree { root, leaf_hashes }
    }

    /// The root above the level `leaves`.
    fn build_tree(leaves: Vec<Vec<u8>>) -> (root: Vec<u8>)
        requires
            leaves.len() >= 1,
            forall|i: int|
                0 <= i < leaves.len() ==> (#[trigger] blobs_view(leaves@)[i]).len() == DIGEST_LEN,
        ensures
            root@ == root_of(blobs_view(leaves@)),
            digest_sized(blobs_view(leaves@)),
        decreases leaves.len(),
    {
        if leaves.len() == 1 {
            return leaves[0].clone();
        }
        let mut leaves = leaves;
        let ghost level = blobs_view(leaves@);
        let parents = Self::build_parent_level(&mut leaves);
        assert(blobs_view(parents@) == parent_level(level));
        Self::build_tree(parents)
    }

    /// The root of the tree.
    pub fn get_root_hash(&self) -> (root: Vec<u8>)
        ensures
            root@ == self@.root,
    {
        self.root.clone()
    }

    /// The inclusion proof for the leaf at `index`: one entry per level, the
    /// leaf level first. Each entry holds the hash beside the node on the
    /// way up, and whether that hash belongs on the left. An index past the
    /// last leaf gives the empty proof.
    pub fn get_proof_for(&self, index: usize) -> (proof: Vec<(Vec<u8>, bool)>)
        ensures
            index >= self@.leaf_hashes.len() ==> proof@.len() == 0,
            index < self@.leaf_hashes.len() ==> proof_view(proof@) == proof_path(
                self@.leaf_hashes,
                index as int,
            ),
            index < self@.leaf_hashes.len() ==> proof@.len() == tree_height(
                self@.leaf_hashes.len(),
            ),
    {
        if index >= self.leaf_hashes.len() {
            return Vec::new();
        }
        let mut proof: Vec<(Vec<u8>, bool)> = Vec::new();
        let mut index = index;
        let mut current_level = self.leaf_hashes.clone();
        let ghost first_index = index as int;
        assert(blobs_view(current_level@) =~= blobs_view(self.leaf_hashes@));

        while current_level.len() > 1
            invariant
                index < current_level.len(),
                proof_view(proof@) + proof_path(blobs_view(current_level@), index as int)
                    == proof_path(self@.leaf_hashes, first_index),
                proof@.len() + tree_height(current_level@.len()) == tree_height(
                    self@.leaf_hashes.len(),
                ),
            decreases current_level.len(),
        {
            let ghost level = blobs_view(current_level@);
            let ghost before = proof_view(proof@);
            let pair_index = if index % 2 == 0 {
                index + 1
            } else {
                index - 1
            };
            if pair_index < current_level.len() {
                proof.push((current_level[pair_index].clone(), index % 2 == 1));
            } else {
                proof.push((current_level[index].clone(), index % 2 == 1));
            }
            assert(proof_view(proof@) =~= before.push(sibling_entry(level, index as int)));
            assert(before.push(sibling_entry(level, index as int)) + proof_path(
                parent_level(level),
                index as int / 2,
            ) =~= before + proof_path(level, index as int));

            index /= 2;
            current_level = Self::build_parent_level(&mut current_level);
        }
        assert(proof_view(proof@) + Seq::<(Seq<u8>, bool)>::empty() =~= proof_view(proof@));
        proof
    }

    /// Pads `leaves` to an even length by repeating its last hash, and
    /// returns the level above it.
    fn build_parent_level(leaves: &mut Vec<Vec<u8>>) -> (parents: Vec<Vec<u8>>)
        ensures
            blobs_view(final(leaves)@) == pad_level(blobs_view(old(leaves)@)),
            blobs_view(parents@) == parent_level(blobs_view(old(leaves)@)),
            parents.len() == (old(leaves).len() + 1) / 2,
            forall|i: int|
                0 <= i < parents.len() ==> (#[trigger] blobs_view(parents@)[i]).len() == DIGEST_LEN,
    {
        if leaves.len() % 2 == 1 {
            let last = leaves[leaves.len() - 1].clone();
            leaves.push(last);
        }
        assert(blobs_view(leaves@) =~= pad_level(blobs_view(old(leaves)@)));

        let mut parents: Vec<Vec<u8>> = Vec::new();
        let mut i: usize = 0;
        while i < leaves.len()
            invariant
                i <= leaves.len(),
                i % 2 == 0,
                leaves.len() % 2 == 0,
                parents.len() == i / 2,
                forall|j: int|
                    0 <= j < parents.len() ==> {
                        &&& (#[trigger] parents[j])@ == pair_digest(
                            leaves[2 * j]@,
                            leaves[2 * j + 1]@,
                        )
                        &&& parents[j]@.len() == DIGEST_LEN
                    },
            decreases leaves.len() - i,
        {
            parents.push(hash_pair(&leaves[i], &leaves[i + 1]));
            i += 2;
        }
        assert(blobs_view(parents@) =~= parent_level(blobs_view(old(leaves)@)));
        parents
    }

    /// Recomputes the root from `leaf` and `proof`, and says whether it is
    /// `root`. Needs nothing but the digest: no tree, no server.
    pub fn verify_proof(proof: &[(Vec<u8>, bool)], root: &Vec<u8>, leaf: &Vec<u8>) -> (valid: bool)
        ensures
            valid == proof_verifies(proof_view(proof@), root@, leaf@),
    {
        let mut current_hash = hash_leaf(leaf);
        let mut i: usize = 0;
        while i < proof.len()
            invariant
                i <= proof.len(),
                current_hash@ == fold_proof(proof_view(proof@).take(i as int), sha256(leaf@)),
            decreases proof.len() - i,
        {
            let entry = &proof[i];
            let ghost taken = proof_view(proof@).take(i + 1);
            assert(taken.drop_last() =~= proof_view(proof@).take(i as int));
            assert(taken.last() == (entry.0@, entry.1));
            if entry.1 {
                current_hash = hash_pair(&entry.0, &current_hash);
            } else {
                current_hash = hash_pair(&current_hash, &entry.0);
            }
            i += 1;
        }
        assert(proof_view(proof@).take(proof.len() as int) =~= proof_view(proof@));
        let valid = current_hash == *root;
        assert(valid ==> current_hash@ =~= root@);
        valid
    }
}

} // verus!
