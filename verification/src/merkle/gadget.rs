//! Membership in-circuit.

use super::climb;
use crate::circuit::{Assignment, Bit, Circuit, Var};
use crate::poseidon::gadget::hash2;
use vstd::prelude::*;

verus! {

/// The values of some variables under an assignment.
pub open spec fn var_vals(c: Circuit, asg: Assignment, vars: Seq<Var>) -> Seq<nat> {
    Seq::new(vars.len(), |i: int| c.val(asg, vars[i].wire as int))
}

/// Computes the root implied by `leaf`, sibling variables, and the leaf-index
/// bits (little-endian, one per level; a set bit says that the node is the
/// right child at that level).
pub fn compute_root(
    c: &mut Circuit,
    leaf: Var,
    siblings: &Vec<Var>,
    index_bits: &Vec<Bit>,
) -> (root: Var)
    requires
        old(c).wf(),
        leaf.wire < old(c).size(),
        siblings@.len() == index_bits@.len(),
        forall|i: int| 0 <= i < siblings@.len() ==> (#[trigger] siblings@[i]).wire < old(c).size(),
        forall|i: int|
            0 <= i < index_bits@.len() ==> (#[trigger] index_bits@[i]).wire < old(c).size(),
    ensures
        old(c).computes(*final(c)),
        root.wire < final(c).size(),
        forall|asg: Assignment| #[trigger]
            final(c).val(asg, root.wire as int) == climb(
                old(c).val(asg, leaf.wire as int),
                var_vals(*old(c), asg, siblings@),
                old(c).bit_vals(asg, index_bits@),
                siblings@.len(),
            ),
{
    let mut node: Var = leaf;
    let mut level: usize = 0;
    while level < siblings.len()
        invariant
            level <= siblings@.len(),
            siblings@.len() == index_bits@.len(),
            old(c).computes(*c),
            node.wire < c.size(),
            forall|i: int|
                0 <= i < siblings@.len() ==> (#[trigger] siblings@[i]).wire < old(c).size(),
            forall|i: int|
                0 <= i < index_bits@.len() ==> (#[trigger] index_bits@[i]).wire < old(c).size(),
            forall|asg: Assignment| #[trigger]
                c.val(asg, node.wire as int) == climb(
                    old(c).val(asg, leaf.wire as int),
                    var_vals(*old(c), asg, siblings@),
                    old(c).bit_vals(asg, index_bits@),
                    level as nat,
                ),
        decreases siblings@.len() - level,
    {
        let ghost before = *c;
        let sibling: Var = siblings[level];
        let bit: Bit = index_bits[level];
        let left = c.select(bit, sibling, node);
        let right = c.select(bit, node, sibling);
        let above = hash2(c, left, right);
        proof {
            assert forall|asg: Assignment| #[trigger]
                c.val(asg, above.wire as int) == climb(
                    old(c).val(asg, leaf.wire as int),
                    var_vals(*old(c), asg, siblings@),
                    old(c).bit_vals(asg, index_bits@),
                    (level + 1) as nat,
                ) by {
                assert(before.val(asg, bit.wire as int) == old(c).val(asg, bit.wire as int));
                assert(before.val(asg, sibling.wire as int) == old(c).val(
                    asg,
                    sibling.wire as int,
                ));
            }
        }
        node = above;
        level = level + 1;
    }
    node
}

} // verus!
