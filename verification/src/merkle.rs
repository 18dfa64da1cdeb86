//! The commitment Merkle tree.
//!
//! An append-only binary tree of fixed depth with zero-valued empty leaves
//! and node hash [`crate::poseidon::hash2`]. The tree here is what a prover
//! uses to rebuild authentication paths from the public commitment log; the
//! pool maintains the same tree incrementally, and their roots agree.

use crate::circuit::{le_nat, le_prefix, values};
use crate::field::Fr;
use crate::poseidon::{hash2_spec, hash2_with, parameters, Parameters};
use vstd::arithmetic::power2::{lemma_pow2_pos, lemma_pow2_unfold, pow2};
use vstd::prelude::*;

pub mod gadget;

verus! {

/// The pool's tree depth.
pub const POOL_TREE_DEPTH: usize = 20;

/// The ancestor of a position, some levels up.
pub open spec fn ancestor(index: nat, level: nat) -> nat
    decreases level,
{
    if level == 0 {
        index
    } else {
        ancestor(index, (level - 1) as nat) / 2
    }
}

/// The root of an empty subtree of some height.
pub open spec fn zero_of(level: nat) -> nat
    decreases level,
{
    if level == 0 {
        0
    } else {
        hash2_spec(zero_of((level - 1) as nat), zero_of((level - 1) as nat))
    }
}

/// The node at a position of a level, over leaves that are zero past the end.
pub open spec fn node_of(leaves: Seq<nat>, level: nat, index: nat) -> nat
    decreases level,
{
    if level == 0 {
        if index < leaves.len() {
            leaves[index as int]
        } else {
            0
        }
    } else {
        hash2_spec(
            node_of(leaves, (level - 1) as nat, 2 * index),
            node_of(leaves, (level - 1) as nat, 2 * index + 1),
        )
    }
}

/// The root of the tree of some depth over some leaves.
pub open spec fn root_of(leaves: Seq<nat>, depth: nat) -> nat {
    node_of(leaves, depth, 0)
}

/// The bits that steer from a leaf to the root: bit `i` says that the node at
/// level `i` is a right child.
pub open spec fn index_bits(index: nat, n: nat) -> Seq<bool> {
    Seq::new(n, |i: int| ancestor(index, i as nat) % 2 == 1)
}

/// The node reached from a leaf after some levels of hashing with siblings.
pub open spec fn climb(leaf: nat, siblings: Seq<nat>, bits: Seq<bool>, levels: nat) -> nat
    decreases levels,
{
    if levels == 0 {
        leaf
    } else {
        let below = climb(leaf, siblings, bits, (levels - 1) as nat);
        if bits[levels - 1] {
            hash2_spec(siblings[levels - 1], below)
        } else {
            hash2_spec(below, siblings[levels - 1])
        }
    }
}

/// The position beside another one.
pub open spec fn sibling_of(index: nat) -> nat {
    if index % 2 == 0 {
        index + 1
    } else {
        (index - 1) as nat
    }
}

/// The siblings on the way from a leaf to the root.
pub open spec fn siblings_of(leaves: Seq<nat>, depth: nat, index: nat) -> Seq<nat> {
    Seq::new(
        depth,
        |l: int| node_of(leaves, l as nat, sibling_of(ancestor(index, l as nat))),
    )
}

/// How many nodes of a level lie over at least one of `n` leaves.
pub open spec fn width_of(n: nat, level: nat) -> nat
    decreases level,
{
    if level == 0 {
        n
    } else {
        (width_of(n, (level - 1) as nat) + 1) / 2
    }
}

/// Nodes over no leaf are roots of empty subtrees.
pub proof fn lemma_node_beyond(leaves: Seq<nat>, level: nat, index: nat)
    requires
        index >= width_of(leaves.len(), level),
    ensures
        node_of(leaves, level, index) == zero_of(level),
    decreases level,
{
    if level > 0 {
        let below = (level - 1) as nat;
        lemma_node_beyond(leaves, below, 2 * index);
        lemma_node_beyond(leaves, below, 2 * index + 1);
    }
}

/// Appending a leaf changes the new leaf and its ancestors alone.
pub proof fn lemma_node_append(leaves: Seq<nat>, leaf: nat, level: nat, index: nat)
    requires
        index != ancestor(leaves.len(), level),
    ensures
        node_of(leaves.push(leaf), level, index) == node_of(leaves, level, index),
    decreases level,
{
    if level > 0 {
        let below = (level - 1) as nat;
        lemma_node_append(leaves, leaf, below, 2 * index);
        lemma_node_append(leaves, leaf, below, 2 * index + 1);
    }
}

/// The widths of a level before and after a leaf is appended.
pub proof fn lemma_width(n: nat, level: nat)
    ensures
        ancestor(n, level) <= width_of(n, level) <= ancestor(n, level) + 1,
        width_of(n + 1, level) == ancestor(n, level) + 1,
    decreases level,
{
    if level > 0 {
        lemma_width(n, (level - 1) as nat);
    }
}

/// Going up `level` levels divides by `2^level`.
pub proof fn lemma_ancestor(index: nat, level: nat)
    ensures
        ancestor(index, level) * pow2(level) <= index < (ancestor(index, level) + 1) * pow2(level),
    decreases level,
{
    if level == 0 {
        vstd::arithmetic::power2::lemma2_to64();
    } else {
        let below = (level - 1) as nat;
        lemma_ancestor(index, below);
        lemma_pow2_unfold(level);
        let a = ancestor(index, below) as int;
        let p = pow2(below) as int;
        assert((a / 2) * (2 * p) <= a * p) by (nonlinear_arith)
            requires
                a >= 0,
                p >= 0,
        ;
        assert((a + 1) * p <= (a / 2 + 1) * (2 * p)) by (nonlinear_arith)
            requires
                a >= 0,
                p >= 0,
        ;
    }
}

/// A leaf of a tree of some depth lies under its root.
pub proof fn lemma_ancestor_root(index: nat, depth: nat)
    requires
        index < pow2(depth),
    ensures
        ancestor(index, depth) == 0,
{
    lemma_ancestor(index, depth);
    let a = ancestor(index, depth) as int;
    let p = pow2(depth) as int;
    if a >= 1 {
        assert(a * p >= p) by (nonlinear_arith)
            requires
                a >= 1,
                p >= 0,
        ;
    }
}

/// The steering bits of an index spell it, up to what lies above them.
pub proof fn lemma_index_bits(index: nat, n: nat, m: nat)
    requires
        m <= n,
    ensures
        le_prefix(index_bits(index, n), m) + ancestor(index, m) * pow2(m) == index,
    decreases m,
{
    if m == 0 {
        vstd::arithmetic::power2::lemma2_to64();
    } else {
        let below = (m - 1) as nat;
        lemma_index_bits(index, n, below);
        lemma_pow2_unfold(m);
        let a = ancestor(index, below) as int;
        let p = pow2(below) as int;
        assert(a * p == (a / 2) * (2 * p) + (a % 2) * p) by (nonlinear_arith)
            requires
                a >= 0,
                p >= 0,
        ;
        assert((a % 2) * p == if a % 2 == 1 {
            p
        } else {
            0
        }) by (nonlinear_arith)
            requires
                a >= 0,
        ;
    }
}

/// The path from a leaf reaches the leaf's ancestor at each level.
pub proof fn lemma_climb(leaves: Seq<nat>, depth: nat, index: nat, level: nat)
    requires
        index < leaves.len(),
        level <= depth,
    ensures
        climb(
            leaves[index as int],
            siblings_of(leaves, depth, index),
            index_bits(index, depth),
            level,
        ) == node_of(leaves, level, ancestor(index, level)),
    decreases level,
{
    if level > 0 {
        let below = (level - 1) as nat;
        lemma_climb(leaves, depth, index, below);
        let a = ancestor(index, below);
        if a % 2 == 1 {
            assert(2 * (a / 2) + 1 == a);
        } else {
            assert(2 * (a / 2) == a);
        }
    }
}

/// **A tree is not overfull.** A tree has at most as many leaves as its height
/// has room for.
pub proof fn lemma_tree_in_order(tree: MerkleTree)
    requires
        tree.wf(),
    ensures
        tree.leaves().len() <= pow2(tree.height()),
{
}

/// **A path verifies.** Hashing a leaf up its authentication path gives the
/// root of the tree.
pub proof fn lemma_path_verifies(leaves: Seq<nat>, depth: nat, index: nat)
    requires
        index < leaves.len(),
        index < pow2(depth),
    ensures
        climb(
            leaves[index as int],
            siblings_of(leaves, depth, index),
            index_bits(index, depth),
            depth,
        ) == root_of(leaves, depth),
{
    lemma_climb(leaves, depth, index, depth);
    lemma_ancestor_root(index, depth);
}

/// **The empty tree.** Its root is the end of the chain of zero hashes.
pub proof fn lemma_empty_root(depth: nat)
    ensures
        root_of(Seq::empty(), depth) == zero_of(depth),
{
    lemma_width_empty(depth);
    lemma_node_beyond(Seq::empty(), depth, 0);
}

proof fn lemma_width_empty(level: nat)
    ensures
        width_of(0, level) == 0,
    decreases level,
{
    if level > 0 {
        lemma_width_empty((level - 1) as nat);
    }
}

/// The position that the bits from some level up spell.
pub open spec fn position(bits: Seq<bool>, level: nat) -> nat
    decreases bits.len() - level,
{
    if level >= bits.len() {
        0
    } else {
        2 * position(bits, level + 1) + if bits[level as int] {
            1nat
        } else {
            0
        }
    }
}

/// The two nodes that a path hashes at a level, left and right.
pub open spec fn path_pair(
    leaf: nat,
    siblings: Seq<nat>,
    bits: Seq<bool>,
    level: nat,
) -> (nat, nat) {
    let node = climb(leaf, siblings, bits, level);
    if bits[level as int] {
        (siblings[level as int], node)
    } else {
        (node, siblings[level as int])
    }
}

/// The two nodes of a tree at the place where a path hashes at a level.
pub open spec fn tree_pair(leaves: Seq<nat>, bits: Seq<bool>, level: nat) -> (nat, nat) {
    let parent = position(bits, level + 1);
    (node_of(leaves, level, 2 * parent), node_of(leaves, level, 2 * parent + 1))
}

/// At some level the path and the tree hash different pairs of nodes to the
/// same node: a collision of the hash, written down by the path.
pub open spec fn path_collides(
    leaves: Seq<nat>,
    leaf: nat,
    siblings: Seq<nat>,
    bits: Seq<bool>,
) -> bool {
    exists|level: nat|
        {
            &&& level < bits.len()
            &&& #[trigger] path_pair(leaf, siblings, bits, level) != tree_pair(leaves, bits, level)
            &&& hash2_spec(
                path_pair(leaf, siblings, bits, level).0,
                path_pair(leaf, siblings, bits, level).1,
            ) == hash2_spec(
                tree_pair(leaves, bits, level).0,
                tree_pair(leaves, bits, level).1,
            )
        }
}

pub(crate) proof fn lemma_position(bits: Seq<bool>, level: nat)
    requires
        level <= bits.len(),
    ensures
        le_prefix(bits, level) + position(bits, level) * pow2(level) == le_prefix(
            bits,
            bits.len(),
        ),
    decreases bits.len() - level,
{
    if level < bits.len() {
        lemma_position(bits, level + 1);
        lemma_pow2_unfold(level + 1);
        let up = position(bits, level + 1) as int;
        let p = pow2(level) as int;
        assert(up * (2 * p) == 2 * up * p && (2 * up + 1) * p == 2 * up * p + p) by (
        nonlinear_arith);
    } else {
        assert(position(bits, level) * pow2(level) == 0) by (nonlinear_arith)
            requires
                position(bits, level) == 0,
        ;
    }
}

proof fn lemma_descend(
    leaves: Seq<nat>,
    leaf: nat,
    siblings: Seq<nat>,
    bits: Seq<bool>,
    level: nat,
)
    requires
        level <= bits.len(),
        climb(leaf, siblings, bits, bits.len()) == root_of(leaves, bits.len()),
        !path_collides(leaves, leaf, siblings, bits),
    ensures
        climb(leaf, siblings, bits, level) == node_of(leaves, level, position(bits, level)),
    decreases bits.len() - level,
{
    if level < bits.len() {
        lemma_descend(leaves, leaf, siblings, bits, level + 1);
        let pair = path_pair(leaf, siblings, bits, level);
        assert(hash2_spec(pair.0, pair.1) == climb(leaf, siblings, bits, level + 1));
        assert(pair == tree_pair(leaves, bits, level));
    }
}

/// **Membership is binding.** A path that leads to the root of a tree starts
/// at the leaf that its bits point to, or it exhibits a collision of the hash.
pub proof fn lemma_membership_binding(
    leaves: Seq<nat>,
    leaf: nat,
    siblings: Seq<nat>,
    bits: Seq<bool>,
)
    requires
        climb(leaf, siblings, bits, bits.len()) == root_of(leaves, bits.len()),
    ensures
        leaf == node_of(leaves, 0, le_nat(bits)) || path_collides(leaves, leaf, siblings, bits),
{
    if !path_collides(leaves, leaf, siblings, bits) {
        lemma_descend(leaves, leaf, siblings, bits, 0);
        lemma_position(bits, 0);
        vstd::arithmetic::power2::lemma2_to64();
    }
}

/// An authentication path: the sibling at each level, leaf to root, and the
/// leaf index whose bits steer left and right.
#[derive(Clone, Debug)]
pub struct MerklePath {
    /// Sibling nodes, the leaf's sibling first.
    pub siblings: Vec<Fr>,
    /// The leaf's index in the tree.
    pub leaf_index: u64,
}

/// A full in-memory Merkle tree over note commitments.
pub struct MerkleTree {
    params: Parameters,
    depth: usize,
    zeros: Vec<Fr>,
    nodes: Vec<Vec<Fr>>,
}

impl MerkleTree {
    /// The leaves, as integers.
    pub closed spec fn leaves(self) -> Seq<nat> {
        values(self.nodes@[0]@)
    }

    /// The depth.
    pub closed spec fn height(self) -> nat {
        self.depth as nat
    }

    spec fn level_wf(self, leaves: Seq<nat>, level: int) -> bool {
        &&& self.nodes@[level]@.len() == width_of(leaves.len(), level as nat)
        &&& forall|i: int|
            0 <= i < self.nodes@[level]@.len() ==> (#[trigger] self.nodes@[level]@[i]).value()
                == node_of(leaves, level as nat, i as nat)
    }

    spec fn frame_wf(self) -> bool {
        &&& self.params.is_protocol()
        &&& self.depth < usize::MAX
        &&& self.zeros@.len() == self.depth + 1
        &&& self.nodes@.len() == self.depth + 1
        &&& forall|l: int|
            0 <= l <= self.depth ==> (#[trigger] self.zeros@[l]).value() == zero_of(l as nat)
    }

    /// Every stored node is the one of the tree over the leaves.
    pub closed spec fn wf(self) -> bool {
        &&& self.frame_wf()
        &&& self.leaves().len() <= pow2(self.depth as nat)
        &&& forall|l: int| 0 <= l <= self.depth ==> #[trigger] self.level_wf(self.leaves(), l)
    }

    /// An empty tree of the given depth.
    pub fn new(depth: usize) -> (tree: MerkleTree)
        requires
            depth < usize::MAX,
        ensures
            tree.wf(),
            tree.leaves() == Seq::<nat>::empty(),
            tree.height() == depth,
    {
        let params = parameters();
        let mut zeros: Vec<Fr> = Vec::new();
        zeros.push(Fr::zero());
        let mut nodes: Vec<Vec<Fr>> = Vec::new();
        nodes.push(Vec::new());
        let mut i: usize = 0;
        while i < depth
            invariant
                i <= depth < usize::MAX,
                params.is_protocol(),
                zeros@.len() == i + 1,
                forall|l: int|
                    0 <= l < zeros@.len() ==> (#[trigger] zeros@[l]).value() == zero_of(l as nat),
                nodes@.len() == i + 1,
                forall|l: int| 0 <= l < nodes@.len() ==> (#[trigger] nodes@[l])@.len() == 0,
            decreases depth - i,
        {
            let z = zeros[i];
            let above = hash2_with(&params, z, z);
            zeros.push(above);
            nodes.push(Vec::new());
            i = i + 1;
        }
        proof {
            assert(values(nodes@[0]@) =~= Seq::<nat>::empty());
            lemma_pow2_pos(depth as nat);
            assert forall|l: int| 0 <= l <= depth implies width_of(0, #[trigger] (l as nat))
                == 0 by {
                lemma_width_empty(l as nat);
            }
        }
        MerkleTree { params, depth, zeros, nodes }
    }

    /// Number of leaves inserted.
    pub fn size(&self) -> (n: usize)
        requires
            self.wf(),
        ensures
            n == self.leaves().len(),
    {
        self.nodes[0].len()
    }

    /// The stored node, or the root of an empty subtree.
    fn node(&self, level: usize, index: usize) -> (node: Fr)
        requires
            self.wf(),
            level <= self.height(),
        ensures
            node.value() == node_of(self.leaves(), level as nat, index as nat),
    {
        proof {
            assert(self.level_wf(self.leaves(), level as int));
        }
        self.node_at(level, index, Ghost(self.leaves()))
    }

    /// The current root.
    pub fn root(&self) -> (root: Fr)
        requires
            self.wf(),
        ensures
            root.value() == root_of(self.leaves(), self.height()),
    {
        self.node(self.depth, 0)
    }

    /// The authentication path for the leaf at `index`.
    pub fn path(&self, index: u64) -> (path: MerklePath)
        requires
            self.wf(),
            index < self.leaves().len(),
        ensures
            values(path.siblings@) == siblings_of(self.leaves(), self.height(), index as nat),
            path.leaf_index == index,
    {
        let size: usize = self.size();
        assert(index < size);
        let mut siblings: Vec<Fr> = Vec::new();
        let mut idx: usize = index as usize;
        let mut level: usize = 0;
        while level < self.depth
            invariant
                level <= self.depth,
                self.wf(),
                self.height() == self.depth,
                idx == ancestor(index as nat, level as nat),
                siblings@.len() == level,
                forall|l: int|
                    0 <= l < level ==> (#[trigger] siblings@[l]).value() == siblings_of(
                        self.leaves(),
                        self.height(),
                        index as nat,
                    )[l],
            decreases self.depth - level,
        {
            let beside: usize = if idx % 2 == 0 {
                idx + 1
            } else {
                idx - 1
            };
            siblings.push(self.node(level, beside));
            idx = idx / 2;
            level = level + 1;
        }
        proof {
            assert(values(siblings@) =~= siblings_of(self.leaves(), self.height(), index as nat));
        }
        MerklePath { siblings, leaf_index: index }
    }

    /// Appends a leaf and returns its index.
    pub fn insert(&mut self, leaf: Fr) -> (index: u64)
        requires
            old(self).wf(),
            old(self).leaves().len() < pow2(old(self).height()),
        ensures
            final(self).wf(),
            index == old(self).leaves().len(),
            final(self).leaves() == old(self).leaves().push(leaf.value()),
            final(self).height() == old(self).height(),
    {
        let ghost leaves = self.leaves();
        let ghost grown = leaves.push(leaf.value());
        let depth: usize = self.depth;
        let index: usize = self.nodes[0].len();
        let ghost before = *self;
        proof {
            assert(self.level_wf(leaves, 0));
        }
        self.nodes[0].push(leaf);
        proof {
            assert(self.nodes@[0].len() == index + 1);
            assert(values(self.nodes@[0]@) =~= grown);
            assert(self.level_wf(grown, 0));
            assert forall|l: int| 0 < l <= depth implies #[trigger] self.level_wf(leaves, l) by {
                assert(before.level_wf(leaves, l));
            }
        }
        let mut idx: usize = index;
        let mut level: usize = 0;
        while level < depth
            invariant
                level <= depth,
                depth == self.depth,
                self.frame_wf(),
                leaves.len() == index,
                index < usize::MAX,
                grown == leaves.push(leaf.value()),
                self.leaves() == grown,
                idx == ancestor(index as nat, level as nat),
                idx <= index,
                forall|l: int| 0 <= l <= level ==> #[trigger] self.level_wf(grown, l),
                forall|l: int| level < l <= depth ==> #[trigger] self.level_wf(leaves, l),
            decreases depth - level,
        {
            let parent: usize = idx / 2;
            let left = self.node_at(level, parent * 2, Ghost(grown));
            let right = self.node_at(level, parent * 2 + 1, Ghost(grown));
            let h = hash2_with(&self.params, left, right);
            let ghost mid = *self;
            let ghost up = (level + 1) as int;
            proof {
                assert(self.level_wf(leaves, up));
                assert(self.level_wf(grown, level as int));
                lemma_width(index as nat, up as nat);
                assert forall|i: int|
                    0 <= i < self.nodes@[up]@.len() && i != parent implies (
                #[trigger] self.nodes@[up]@[i]).value() == node_of(grown, up as nat, i as nat) by {
                    lemma_node_append(leaves, leaf.value(), up as nat, i as nat);
                }
            }
            if parent < self.nodes[level + 1].len() {
                self.nodes[level + 1][parent] = h;
            } else {
                self.nodes[level + 1].push(h);
            }
            proof {
                assert(self.nodes@[0] == mid.nodes@[0]);
                assert(self.level_wf(grown, up));
                assert forall|l: int| 0 <= l <= level implies #[trigger] self.level_wf(
                    grown,
                    l,
                ) by {
                    assert(mid.level_wf(grown, l));
                }
                assert forall|l: int| up < l <= depth implies #[trigger] self.level_wf(
                    leaves,
                    l,
                ) by {
                    assert(mid.level_wf(leaves, l));
                }
            }
            idx = parent;
            level = level + 1;
        }
        index as u64
    }

    /// The node of a level that is up to date.
    fn node_at(&self, level: usize, index: usize, Ghost(leaves): Ghost<Seq<nat>>) -> (node: Fr)
        requires
            self.frame_wf(),
            level <= self.depth,
            self.level_wf(leaves, level as int),
        ensures
            node.value() == node_of(leaves, level as nat, index as nat),
    {
        if index < self.nodes[level].len() {
            self.nodes[level][index]
        } else {
            proof {
                lemma_node_beyond(leaves, level as nat, index as nat);
            }
            self.zeros[level]
        }
    }
}

/// Recomputes the root from a leaf and its path.
pub fn compute_root(leaf: Fr, path: &MerklePath) -> (root: Fr)
    ensures
        root.value() == climb(
            leaf.value(),
            values(path.siblings@),
            index_bits(path.leaf_index as nat, path.siblings@.len()),
            path.siblings@.len(),
        ),
{
    let params = parameters();
    let mut node: Fr = leaf;
    let mut idx: u64 = path.leaf_index;
    let mut level: usize = 0;
    while level < path.siblings.len()
        invariant
            level <= path.siblings@.len(),
            params.is_protocol(),
            idx == ancestor(path.leaf_index as nat, level as nat),
            node.value() == climb(
                leaf.value(),
                values(path.siblings@),
                index_bits(path.leaf_index as nat, path.siblings@.len()),
                level as nat,
            ),
        decreases path.siblings@.len() - level,
    {
        let sibling: Fr = path.siblings[level];
        node = if idx % 2 == 0 {
            hash2_with(&params, node, sibling)
        } else {
            hash2_with(&params, sibling, node)
        };
        idx = idx / 2;
        level = level + 1;
    }
    node
}

} // verus!
