//! Laws of the commitment tree.

use crate::bytes::be_nat;
use crate::circuit::values;
use crate::encoding::fr_from_bytes;
use crate::field::{fr_modulus, Fr};
use crate::merkle::{
    ancestor, climb, compute_root, index_bits, lemma_ancestor, lemma_path_verifies,
    lemma_tree_in_order, node_of, root_of, siblings_of, MerklePath, MerkleTree,
};
use crate::note::{derive_nullifier, derive_pk, Note};
use crate::poseidon::{hash2, hash2_spec, permute};
use crate::transfer::NewNote;
use vstd::arithmetic::div_mod::lemma_fundamental_div_mod_converse;
use vstd::arithmetic::power2::{lemma2_to64, lemma_pow2_unfold, pow2};
use vstd::prelude::*;

verus! {

/// The hashes of a list's neighbours, two by two.
pub open spec fn paired(nodes: Seq<nat>) -> Seq<nat> {
    Seq::new(nodes.len() / 2, |i: int| hash2_spec(nodes[2 * i], nodes[2 * i + 1]))
}

/// What is left of a list after its neighbours were hashed some times over.
pub open spec fn folded(nodes: Seq<nat>, times: nat) -> Seq<nat>
    decreases times,
{
    if times == 0 {
        nodes
    } else {
        paired(folded(nodes, (times - 1) as nat))
    }
}

/// A list, with zeros behind it up to some length.
pub open spec fn filled(leaves: Seq<nat>, len: nat) -> Seq<nat> {
    Seq::new(
        len,
        |i: int|
            if i < leaves.len() {
                leaves[i]
            } else {
                0
            },
    )
}

/// The levels of the tree are the foldings of the filled list.
proof fn lemma_levels(leaves: Seq<nat>, depth: nat, level: nat)
    requires
        level <= depth,
    ensures
        folded(filled(leaves, pow2(depth)), level) == Seq::new(
            pow2((depth - level) as nat),
            |i: int| node_of(leaves, level, i as nat),
        ),
    decreases level,
{
    let all = filled(leaves, pow2(depth));
    let want = Seq::new(pow2((depth - level) as nat), |i: int| node_of(leaves, level, i as nat));
    if level == 0 {
        assert(all =~= want);
    } else {
        let k = (level - 1) as nat;
        lemma_levels(leaves, depth, k);
        lemma_pow2_unfold((depth - k) as nat);
        assert(paired(folded(all, k)) =~= want);
    }
}

/// **The root is the hash of all leaves.** The root over some leaves is what
/// comes of hashing neighbours, level by level, from the complete list: the
/// leaves in their order, and zeros behind them.
pub proof fn lemma_root_folds(leaves: Seq<nat>, depth: nat)
    ensures
        folded(filled(leaves, pow2(depth)), depth) == seq![root_of(leaves, depth)],
{
    lemma_levels(leaves, depth, depth);
    lemma2_to64();
    assert(folded(filled(leaves, pow2(depth)), depth) =~= seq![root_of(leaves, depth)]);
}

/// **Inserting.** A tree takes a leaf behind those it has, tells its place, and
/// has the root of the complete list from then on. Its height stays.
pub proof fn lemma_insert(
    tree: &mut MerkleTree,
    leaf: Fr,
    index: u64,
    root: Fr,
    size: usize,
)
    requires
        call_ensures(MerkleTree::insert, (tree, leaf), index),
        call_ensures(MerkleTree::root, (&*final(tree),), root),
        call_ensures(MerkleTree::size, (&*final(tree),), size),
    ensures
        index == old(tree).leaves().len(),
        size == old(tree).leaves().len() + 1,
        final(tree).height() == old(tree).height(),
        final(tree).leaves() == old(tree).leaves().push(leaf.value()),
        folded(
            filled(old(tree).leaves().push(leaf.value()), pow2(old(tree).height())),
            old(tree).height(),
        ) == seq![root.value()],
{
    lemma_root_folds(final(tree).leaves(), final(tree).height());
}

/// What hashing a node with a list of siblings leads to: at each step the
/// sibling stands to the right of a node with an even index and to the left of
/// one with an odd index, and the index is halved.
pub open spec fn led(node: nat, siblings: Seq<nat>, index: nat) -> nat
    decreases siblings.len(),
{
    if siblings.len() == 0 {
        node
    } else if index % 2 == 0 {
        led(hash2_spec(node, siblings[0]), siblings.drop_first(), index / 2)
    } else {
        led(hash2_spec(siblings[0], node), siblings.drop_first(), index / 2)
    }
}

/// The index next to another one, under the same parent.
pub open spec fn beside(index: nat) -> int {
    if index % 2 == 0 {
        index as int + 1
    } else {
        index - 1
    }
}

/// The siblings on the way from a leaf to the root: at each level the node
/// beside the one over the leaf.
pub open spec fn way_up(leaves: Seq<nat>, depth: nat, index: nat) -> Seq<nat> {
    Seq::new(
        depth,
        |l: int|
            folded(filled(leaves, pow2(depth)), l as nat)[beside(index / pow2(l as nat))],
    )
}

proof fn lemma_ancestor_halved(index: nat, level: nat)
    ensures
        ancestor(index, level + 1) == ancestor(index / 2, level),
    decreases level,
{
    if level > 0 {
        lemma_ancestor_halved(index, (level - 1) as nat);
    } else {
        reveal_with_fuel(ancestor, 2);
    }
}

proof fn lemma_ancestor_divides(index: nat, level: nat)
    ensures
        ancestor(index, level) == index / pow2(level),
{
    lemma_ancestor(index, level);
    let (a, p) = (ancestor(index, level) as int, pow2(level) as int);
    let r = index - a * p;
    assert((a + 1) * p == a * p + p) by (nonlinear_arith);
    lemma_fundamental_div_mod_converse(index as int, p, a, r);
}

/// Climbing `k + 1` levels is climbing `k` levels from the first parent.
proof fn lemma_climb_first(node: nat, siblings: Seq<nat>, index: nat, k: nat)
    requires
        k < siblings.len(),
    ensures
        climb(node, siblings, index_bits(index, siblings.len()), k + 1) == climb(
            if index % 2 == 0 {
                hash2_spec(node, siblings[0])
            } else {
                hash2_spec(siblings[0], node)
            },
            siblings.drop_first(),
            index_bits(index / 2, (siblings.len() - 1) as nat),
            k,
        ),
    decreases k,
{
    if k == 0 {
        reveal_with_fuel(climb, 2);
        assert(ancestor(index, 0) == index);
    } else {
        lemma_climb_first(node, siblings, index, (k - 1) as nat);
        lemma_ancestor_halved(index, (k - 1) as nat);
    }
}

pub(crate) proof fn lemma_led(node: nat, siblings: Seq<nat>, index: nat)
    ensures
        led(node, siblings, index) == climb(
            node,
            siblings,
            index_bits(index, siblings.len()),
            siblings.len(),
        ),
    decreases siblings.len(),
{
    if siblings.len() > 0 {
        lemma_climb_first(node, siblings, index, (siblings.len() - 1) as nat);
        if index % 2 == 0 {
            lemma_led(hash2_spec(node, siblings[0]), siblings.drop_first(), index / 2);
        } else {
            lemma_led(hash2_spec(siblings[0], node), siblings.drop_first(), index / 2);
        }
    }
}

proof fn lemma_way_up(leaves: Seq<nat>, depth: nat, index: nat)
    requires
        index < pow2(depth),
    ensures
        way_up(leaves, depth, index) == siblings_of(leaves, depth, index),
{
    let (up, want) = (way_up(leaves, depth, index), siblings_of(leaves, depth, index));
    assert forall|l: int| 0 <= l < depth implies up[l] == want[l] by {
        let level = l as nat;
        lemma_levels(leaves, depth, level);
        lemma_ancestor_divides(index, level);
        lemma_ancestor(index, level);
        lemma_halves(index, depth, level);
    }
    assert(up =~= want);
}

/// The node beside one over a leaf is a node of its level.
proof fn lemma_halves(index: nat, depth: nat, level: nat)
    requires
        index < pow2(depth),
        level < depth,
    ensures
        0 <= beside(ancestor(index, level)) < pow2((depth - level) as nat),
    decreases level,
{
    lemma_below(index, depth, level);
    lemma_pow2_unfold((depth - level) as nat);
}

proof fn lemma_below(index: nat, depth: nat, level: nat)
    requires
        index < pow2(depth),
        level <= depth,
    ensures
        ancestor(index, level) < pow2((depth - level) as nat),
    decreases level,
{
    if level > 0 {
        lemma_below(index, depth, (level - 1) as nat);
        lemma_pow2_unfold((depth - level + 1) as nat);
    }
}

/// The way up of a leaf, in the terms of the tree.
pub(crate) proof fn lemma_led_up(leaves: Seq<nat>, depth: nat, index: nat, node: nat)
    requires
        index < pow2(depth),
    ensures
        way_up(leaves, depth, index) == siblings_of(leaves, depth, index),
        led(node, way_up(leaves, depth, index), index) == climb(
            node,
            siblings_of(leaves, depth, index),
            index_bits(index, depth),
            depth,
        ),
{
    lemma_way_up(leaves, depth, index);
    lemma_led(node, way_up(leaves, depth, index), index);
}

/// **A path proves its leaf.** The path of any leaf of a tree has, for every
/// level, the node beside the one over the leaf, and leads from the leaf to the
/// root.
pub proof fn lemma_path_of_leaf(
    tree: &MerkleTree,
    index: u64,
    path: MerklePath,
    leaf: Fr,
    computed: Fr,
    root: Fr,
)
    requires
        tree.wf(),
        index < tree.leaves().len(),
        leaf.value() == tree.leaves()[index as int],
        call_ensures(MerkleTree::path, (tree, index), path),
        call_ensures(compute_root, (leaf, &path), computed),
        call_ensures(MerkleTree::root, (tree,), root),
    ensures
        path.leaf_index == index,
        path.siblings@.len() == tree.height(),
        values(path.siblings@) == way_up(tree.leaves(), tree.height(), index as nat),
        computed.value() == root.value(),
{
    lemma_tree_in_order(*tree);
    lemma_path_verifies(tree.leaves(), tree.height(), index as nat);
    lemma_way_up(tree.leaves(), tree.height(), index as nat);
    assert(values(path.siblings@).len() == path.siblings@.len());
}

/// **Computing a root.** The root that a path gives of a node is what hashing
/// the node with the path's siblings leads to.
pub proof fn lemma_root_computed(leaf: Fr, path: &MerklePath, computed: Fr)
    requires
        call_ensures(compute_root, (leaf, path), computed),
    ensures
        computed.value() == led(leaf.value(), values(path.siblings@), path.leaf_index as nat),
{
    lemma_led(leaf.value(), values(path.siblings@), path.leaf_index as nat);
}

/// **A tree begins empty**, with the root over zeros alone.
pub proof fn lemma_new_tree(depth: usize, tree: MerkleTree, root: Fr, size: usize)
    requires
        call_ensures(MerkleTree::new, (depth,), tree),
        call_ensures(MerkleTree::root, (&tree,), root),
        call_ensures(MerkleTree::size, (&tree,), size),
    ensures
        tree.wf(),
        tree.height() == depth,
        tree.leaves().len() == 0,
        size == 0,
        folded(filled(Seq::empty(), pow2(depth as nat)), depth as nat) == seq![root.value()],
{
    lemma_root_folds(tree.leaves(), tree.height());
}

/// **Notes.** A public key is the hash of one and the spending key; a
/// commitment is the hash of the hash of value and owner with the blinding; a
/// nullifier is the hash of the hash of two and the spending key with the leaf
/// index.
pub proof fn lemma_notes(sk: Fr, pk: Fr, note: &Note, commitment: Fr, index: u64, nullifier: Fr)
    requires
        call_ensures(derive_pk, (sk,), pk),
        call_ensures(Note::commitment, (note,), commitment),
        call_ensures(derive_nullifier, (sk, index), nullifier),
    ensures
        pk.value() == hash2_spec(1, sk.value()),
        commitment.value() == hash2_spec(
            hash2_spec(note.value as nat, note.owner_pk.value()),
            note.blinding.value(),
        ),
        nullifier.value() == hash2_spec(hash2_spec(2, sk.value()), index as nat),
{
}

/// **Created notes are committed to as any note is.**
pub proof fn lemma_created_note(new: &NewNote, commitment: Fr)
    requires
        call_ensures(NewNote::commitment, (new,), commitment),
    ensures
        commitment.value() == hash2_spec(
            hash2_spec(new.value as nat, new.owner_pk.value()),
            new.blinding.value(),
        ),
{
}

/// **The hash of bytes** is that of the numbers that they spell, reduced by the
/// order of the field; for canonical bytes it is that of the elements
/// themselves.
pub proof fn lemma_hash_of_bytes(
    left: &[u8; 32],
    right: &[u8; 32],
    hash: [u8; 32],
    a: Fr,
    b: Fr,
    same: Fr,
)
    requires
        call_ensures(crate::shielded_pool::poseidon::hash2, (left, right), hash),
        call_ensures(fr_from_bytes, (left,), a),
        call_ensures(fr_from_bytes, (right,), b),
        call_ensures(hash2, (a, b), same),
    ensures
        be_nat(hash@) == same.value(),
        be_nat(hash@) == hash2_spec(be_nat(left@) % fr_modulus(), be_nat(right@) % fr_modulus()),
        be_nat(hash@) < fr_modulus(),
{
}

/// **The hash is the permutation's first lane.**
pub proof fn lemma_hash(left: Fr, right: Fr, zero: Fr, hash: Fr, out: [Fr; 3])
    requires
        call_ensures(hash2, (left, right), hash),
        call_ensures(permute, ([zero, left, right],), out),
        zero.value() == 0,
    ensures
        hash.value() == out[0].value(),
{
    reveal(hash2_spec);
}

} // verus!
