//! What holds of every tree and every proof.
//!
//! SHA-256 maps unboundedly many inputs to 32 bytes, so two inputs with the
//! same digest exist, though none is known. Where a statement below can only
//! fail through such a pair, it names the inputs that must not collide.

use crate::digest::{collide, pair_bytes, sha256, DIGEST_LEN};
use crate::merkle_tree::{
    digest_sized, fold_proof, fold_step, leaf_hashes_of, merkle_root, pad_level, parent_level,
    proof_path, proof_verifies, root_of, sibling_entry, tree_height, MerkleTreeView,
};
use vstd::arithmetic::power2::{lemma2_to64, lemma_pow2_unfold, pow2};
use vstd::prelude::*;

verus! {

/// The bytes hashed when `entry` is applied to `current`.
pub open spec fn step_bytes(current: Seq<u8>, entry: (Seq<u8>, bool)) -> Seq<u8> {
    if entry.1 {
        pair_bytes(entry.0, current)
    } else {
        pair_bytes(current, entry.0)
    }
}

/// The bytes hashed at step `k` when `proof` is followed from `start`.
pub open spec fn bytes_at_step(proof: Seq<(Seq<u8>, bool)>, start: Seq<u8>, k: int) -> Seq<u8> {
    step_bytes(fold_proof(proof.take(k), start), proof[k])
}

/// The bytes hashed for parent `i` of `level`.
pub open spec fn bytes_of_parent(level: Seq<Seq<u8>>, i: int) -> Seq<u8> {
    let padded = pad_level(level);
    pair_bytes(padded[2 * i], padded[2 * i + 1])
}

/// No parent of the tree above `first` is hashed from bytes that collide
/// with those of the parent at the same place above `second`.
pub open spec fn collision_free(first: Seq<Seq<u8>>, second: Seq<Seq<u8>>) -> bool
    decreases first.len(),
{
    first.len() > 1 ==> {
        &&& forall|i: int|
            0 <= i < parent_level(first).len() ==> !collide(
                #[trigger] bytes_of_parent(first, i),
                bytes_of_parent(second, i),
            )
        &&& collision_free(parent_level(first), parent_level(second))
    }
}

/// `leaves` with the blobs at `i` and `j` exchanged.
pub open spec fn swap_leaves(leaves: Seq<Seq<u8>>, i: int, j: int) -> Seq<Seq<u8>> {
    leaves.update(i, leaves[j]).update(j, leaves[i])
}

/// `bytes` with bit `bit` of the byte at `index` inverted.
pub open spec fn flip_bit(bytes: Seq<u8>, index: int, bit: u8) -> Seq<u8> {
    bytes.update(index, bytes[index] ^ (1u8 << bit))
}

/// `proof` with the sibling hash of entry `k` replaced by `hash`.
pub open spec fn with_sibling(proof: Seq<(Seq<u8>, bool)>, k: int, hash: Seq<u8>) -> Seq<
    (Seq<u8>, bool),
> {
    proof.update(k, (hash, proof[k].1))
}

/// Two trees built over the same leaves are the same tree, with the same
/// root.
pub proof fn lemma_build_deterministic(
    first: MerkleTreeView,
    second: MerkleTreeView,
    leaves: Seq<Seq<u8>>,
)
    requires
        first == MerkleTreeView::of(leaves),
        second == MerkleTreeView::of(leaves),
    ensures
        first == second,
        first.root == second.root,
{
}

/// The root of the tree over one blob is that blob's digest.
pub proof fn lemma_single_leaf_root(blob: Seq<u8>)
    ensures
        merkle_root(seq![blob]) == sha256(blob),
        MerkleTreeView::of(seq![blob]).root == sha256(blob),
{
    assert(leaf_hashes_of(seq![blob]).len() == 1);
    assert(leaf_hashes_of(seq![blob])[0] == sha256(seq![blob][0]));
}

/// The height of a tree is the least number of doublings that reach its
/// leaf count: the leaf count's binary logarithm, rounded up.
pub proof fn lemma_height_is_log2(count: nat)
    requires
        count >= 1,
    ensures
        pow2(tree_height(count)) >= count,
        count > 1 ==> pow2((tree_height(count) - 1) as nat) < count,
    decreases count,
{
    lemma2_to64();
    if count > 1 {
        let above = (count + 1) / 2;
        lemma_height_is_log2(above);
        lemma_pow2_unfold(tree_height(count));
        if above > 1 {
            lemma_pow2_unfold(tree_height(above));
        }
    }
}

/// The proof for a leaf of a tree has as many entries as the tree is high.
pub proof fn lemma_path_length(level: Seq<Seq<u8>>, index: int)
    ensures
        proof_path(level, index).len() == tree_height(level.len()),
    decreases level.len(),
{
    if level.len() > 1 {
        lemma_path_length(parent_level(level), index / 2);
    }
}

/// Two concatenations differ if a part differs and the parts line up.
proof fn lemma_joined_differ(a: Seq<u8>, b: Seq<u8>, c: Seq<u8>, d: Seq<u8>)
    requires
        a != c || b != d,
        a.len() == c.len() || b.len() == d.len(),
    ensures
        a + b != c + d,
{
    if a + b == c + d {
        assert((a + b).len() == (c + d).len());
        assert(a.len() == c.len() && b.len() == d.len());
        assert forall|i: int| 0 <= i < a.len() implies a[i] == c[i] by {
            assert((a + b)[i] == (c + d)[i]);
        }
        assert forall|i: int| 0 <= i < b.len() implies b[i] == d[i] by {
            assert((a + b)[a.len() + i] == (c + d)[a.len() + i]);
        }
        assert(a =~= c);
        assert(b =~= d);
    }
}

/// Following a proof is following its first entry, then the rest.
proof fn lemma_fold_first(entry: (Seq<u8>, bool), rest: Seq<(Seq<u8>, bool)>, start: Seq<u8>)
    ensures
        fold_proof(seq![entry] + rest, start) == fold_proof(rest, fold_step(start, entry)),
    decreases rest.len(),
{
    let whole = seq![entry] + rest;
    if rest.len() == 0 {
        assert(whole.drop_last() =~= Seq::<(Seq<u8>, bool)>::empty());
        assert(fold_proof(whole.drop_last(), start) == start);
    } else {
        assert(whole.drop_last() =~= seq![entry] + rest.drop_last());
        assert(whole.last() == rest.last());
        lemma_fold_first(entry, rest.drop_last(), start);
    }
}

/// A node and its proof entry hash to the node's parent.
proof fn lemma_step_reaches_parent(level: Seq<Seq<u8>>, index: int)
    requires
        level.len() > 1,
        0 <= index < level.len(),
    ensures
        0 <= index / 2 < parent_level(level).len(),
        fold_step(level[index], sibling_entry(level, index)) == parent_level(level)[index / 2],
{
    let padded = pad_level(level);
    assert(padded[index] == level[index]);
    if index % 2 == 0 {
        if index + 1 < level.len() {
            assert(padded[index + 1] == level[index + 1]);
        } else {
            assert(padded[index + 1] == level[index]);
        }
    } else {
        assert(padded[index - 1] == level[index - 1]);
    }
}

/// The proof for a node of a level leads from that node to the root.
proof fn lemma_path_reaches_root(level: Seq<Seq<u8>>, index: int)
    requires
        0 <= index < level.len(),
    ensures
        fold_proof(proof_path(level, index), level[index]) == root_of(level),
    decreases level.len(),
{
    if level.len() > 1 {
        lemma_step_reaches_parent(level, index);
        lemma_path_reaches_root(parent_level(level), index / 2);
        lemma_fold_first(
            sibling_entry(level, index),
            proof_path(parent_level(level), index / 2),
            level[index],
        );
    }
}

/// In a tree over at least one leaf, the proof for any leaf leads from that
/// leaf's blob to the tree's root.
pub proof fn lemma_proof_round_trip(leaves: Seq<Seq<u8>>, index: int)
    requires
        0 <= index < leaves.len(),
    ensures
        proof_verifies(
            proof_path(MerkleTreeView::of(leaves).leaf_hashes, index),
            MerkleTreeView::of(leaves).root,
            leaves[index],
        ),
{
    lemma_path_reaches_root(leaf_hashes_of(leaves), index);
}

/// Two steps on the same side hash different bytes if they differ in the
/// hash they start from or in the sibling, and in one of these only.
proof fn lemma_step_bytes_differ(
    current: Seq<u8>,
    entry: (Seq<u8>, bool),
    other_current: Seq<u8>,
    other_entry: (Seq<u8>, bool),
)
    requires
        entry.1 == other_entry.1,
        current == other_current || entry.0 == other_entry.0,
        current != other_current || entry.0 != other_entry.0,
    ensures
        step_bytes(current, entry) != step_bytes(other_current, other_entry),
{
    if entry.1 {
        lemma_joined_differ(entry.0, current, other_entry.0, other_current);
    } else {
        lemma_joined_differ(current, entry.0, other_current, other_entry.0);
    }
}

/// Once a sibling has been replaced at step `k`, the two proofs stand at
/// different hashes after every later step.
proof fn lemma_folds_diverge(
    proof: Seq<(Seq<u8>, bool)>,
    altered: Seq<(Seq<u8>, bool)>,
    start: Seq<u8>,
    k: int,
    m: int,
)
    requires
        0 <= k < m <= proof.len(),
        altered == with_sibling(proof, k, altered[k].0),
        altered[k].0 != proof[k].0,
        forall|s: int|
            k <= s < proof.len() ==> !collide(
                #[trigger] bytes_at_step(proof, start, s),
                bytes_at_step(altered, start, s),
            ),
    ensures
        fold_proof(proof.take(m), start) != fold_proof(altered.take(m), start),
    decreases m,
{
    let s = m - 1;
    assert(proof.take(m).drop_last() =~= proof.take(s));
    assert(altered.take(m).drop_last() =~= altered.take(s));
    assert(proof.take(m).last() == proof[s]);
    assert(altered.take(m).last() == altered[s]);
    let current = fold_proof(proof.take(s), start);
    let other_current = fold_proof(altered.take(s), start);
    if s == k {
        assert(proof.take(s) =~= altered.take(s));
    } else {
        lemma_folds_diverge(proof, altered, start, k, s);
    }
    lemma_step_bytes_differ(current, proof[s], other_current, altered[s]);
    assert(!collide(bytes_at_step(proof, start, s), bytes_at_step(altered, start, s)));
}

/// A proof that verifies stops verifying when one of its sibling hashes is
/// replaced by any other byte string, unless the replacement leads to a
/// collision at that step or a later one.
pub proof fn lemma_replaced_sibling_rejected(
    proof: Seq<(Seq<u8>, bool)>,
    root: Seq<u8>,
    leaf: Seq<u8>,
    k: int,
    hash: Seq<u8>,
)
    requires
        0 <= k < proof.len(),
        hash != proof[k].0,
        proof_verifies(proof, root, leaf),
        forall|s: int|
            k <= s < proof.len() ==> !collide(
                #[trigger] bytes_at_step(proof, sha256(leaf), s),
                bytes_at_step(with_sibling(proof, k, hash), sha256(leaf), s),
            ),
    ensures
        !proof_verifies(with_sibling(proof, k, hash), root, leaf),
{
    let altered = with_sibling(proof, k, hash);
    assert(altered =~= with_sibling(proof, k, altered[k].0));
    lemma_folds_diverge(proof, altered, sha256(leaf), k, proof.len() as int);
    assert(proof.take(proof.len() as int) =~= proof);
    assert(altered.take(proof.len() as int) =~= altered);
}

/// A proof that verifies stops verifying when a single bit of one of its
/// sibling hashes is inverted, unless the change leads to a collision at
/// that step or a later one.
pub proof fn lemma_flipped_bit_rejected(
    proof: Seq<(Seq<u8>, bool)>,
    root: Seq<u8>,
    leaf: Seq<u8>,
    k: int,
    index: int,
    bit: u8,
)
    requires
        0 <= k < proof.len(),
        0 <= index < proof[k].0.len(),
        bit < 8,
        proof_verifies(proof, root, leaf),
        forall|s: int|
            k <= s < proof.len() ==> !collide(
                #[trigger] bytes_at_step(proof, sha256(leaf), s),
                bytes_at_step(
                    with_sibling(proof, k, flip_bit(proof[k].0, index, bit)),
                    sha256(leaf),
                    s,
                ),
            ),
    ensures
        !proof_verifies(with_sibling(proof, k, flip_bit(proof[k].0, index, bit)), root, leaf),
{
    let byte = proof[k].0[index];
    assert(byte ^ (1u8 << bit) != byte) by (bit_vector)
        requires
            bit < 8,
    ;
    assert(flip_bit(proof[k].0, index, bit)[index] != proof[k].0[index]);
    lemma_replaced_sibling_rejected(proof, root, leaf, k, flip_bit(proof[k].0, index, bit));
}

/// Two levels of one length that differ, differ at some place.
proof fn lemma_levels_differ(first: Seq<Seq<u8>>, second: Seq<Seq<u8>>) -> (p: int)
    requires
        first.len() == second.len(),
        first != second,
    ensures
        0 <= p < first.len(),
        first[p] != second[p],
{
    if forall|i: int| 0 <= i < first.len() ==> first[i] == second[i] {
        assert(first =~= second);
    }
    choose|i: int| 0 <= i < first.len() && first[i] != second[i]
}

/// Two levels of one length that differ have different roots, unless a
/// collision occurs above them.
proof fn lemma_roots_differ(first: Seq<Seq<u8>>, second: Seq<Seq<u8>>)
    requires
        first.len() == second.len(),
        first.len() >= 1,
        first != second,
        digest_sized(first),
        digest_sized(second),
        collision_free(first, second),
    ensures
        root_of(first) != root_of(second),
    decreases first.len(),
{
    let p = lemma_levels_differ(first, second);
    if first.len() > 1 {
        let q = p / 2;
        let a = pad_level(first);
        let b = pad_level(second);
        assert(a[p] == first[p] && b[p] == second[p]);
        assert(forall|i: int| 0 <= i < a.len() ==> (#[trigger] a[i]).len() == DIGEST_LEN);
        assert(forall|i: int| 0 <= i < b.len() ==> (#[trigger] b[i]).len() == DIGEST_LEN);
        assert(2 * q == p || 2 * q + 1 == p);
        lemma_joined_differ(a[2 * q], a[2 * q + 1], b[2 * q], b[2 * q + 1]);
        assert(!collide(bytes_of_parent(first, q), bytes_of_parent(second, q)));
        assert(parent_level(first)[q] != parent_level(second)[q]);
        lemma_roots_differ(parent_level(first), parent_level(second));
    }
}

/// Exchanging two leaves that hold different blobs changes the root, unless
/// the two blobs collide or the exchange leads to a collision somewhere
/// above them.
pub proof fn lemma_swap_changes_root(
    first: MerkleTreeView,
    second: MerkleTreeView,
    leaves: Seq<Seq<u8>>,
    i: int,
    j: int,
)
    requires
        0 <= i < leaves.len(),
        0 <= j < leaves.len(),
        leaves[i] != leaves[j],
        first == MerkleTreeView::of(leaves),
        second == MerkleTreeView::of(swap_leaves(leaves, i, j)),
        first.wf(),
        second.wf(),
        !collide(leaves[i], leaves[j]),
        collision_free(first.leaf_hashes, second.leaf_hashes),
    ensures
        first.root != second.root,
{
    assert(first.leaf_hashes[i] == sha256(leaves[i]));
    assert(second.leaf_hashes[i] == sha256(swap_leaves(leaves, i, j)[i]));
    lemma_roots_differ(first.leaf_hashes, second.leaf_hashes);
}

} // verus!
