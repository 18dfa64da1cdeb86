//! The withdraw circuit.
//!
//! Proves ownership of a note of exactly the public `amount` under the public
//! `root`, with the correctly derived nullifier, bound to the public
//! recipient so that a relayer who submits the transaction cannot redirect
//! the exit.
//!
//! Public inputs, in order: `[root, nullifier, recipient_binding, amount]`.
//!
//! [`withdraw_relation`] states what an assignment has to meet, and
//! [`WithdrawCircuit::generate_constraints`] builds a circuit that is
//! satisfied by exactly the assignments that meet it.

use crate::circuit::{le_nat, Assignment, Bit, Circuit, Gate, Var};
use crate::field::{fr_modulus, Fr};
use crate::merkle::gadget::var_vals;
use crate::merkle::{
    climb, index_bits, lemma_membership_binding, node_of, path_collides, root_of, MerklePath,
};
use crate::note::{commitment_of, nullifier_of, pk_of};
use crate::util::{
    alloc_index_bits, alloc_siblings, bit_stream, bits_at, sibling_stream,
    values_at,
};
use vstd::arithmetic::div_mod::lemma_small_mod;
use vstd::prelude::*;

verus! {

/// The note that an assignment exits is a leaf under the root, at an index
/// that is a canonical integer, is worth the amount, and has the nullifier.
pub open spec fn exit_ok(
    root: nat,
    nullifier: nat,
    amount: nat,
    sk: nat,
    blinding: nat,
    index_bits: Seq<bool>,
    siblings: Seq<nat>,
) -> bool {
    &&& climb(
        commitment_of(amount, pk_of(sk), blinding),
        siblings,
        index_bits,
        siblings.len(),
    ) == root
    &&& le_nat(index_bits) < fr_modulus()
    &&& nullifier_of(sk, le_nat(index_bits)) == nullifier
}

/// The withdraw relation between public inputs and witnesses, for a tree
/// depth. The recipient binding, input 2, is free: it is part of the
/// statement and constrains no witness.
pub open spec fn withdraw_relation(asg: Assignment, depth: nat) -> bool {
    exit_ok(
        asg.inputs[0],
        asg.inputs[1],
        asg.inputs[3],
        asg.witnesses[0],
        asg.witnesses[1],
        bits_at(asg.bits, 0, depth),
        values_at(asg.witnesses, 2, depth),
    )
}

/// The withdraw relation, fixed at setup time to a tree depth. The protocol
/// instance uses [`crate::merkle::POOL_TREE_DEPTH`].
#[derive(Clone)]
pub struct WithdrawCircuit {
    /// Merkle tree depth this instance was set up for.
    pub depth: usize,
    /// Public: a known root of the commitment tree.
    pub root: Option<Fr>,
    /// Public: the spent note's nullifier.
    pub nullifier: Option<Fr>,
    /// Public: the recipient binding.
    pub recipient_binding: Option<Fr>,
    /// Public: the exact note value being withdrawn.
    pub amount: Option<Fr>,
    /// Witness: the note owner's spending key.
    pub sk: Option<Fr>,
    /// Witness: the note's commitment randomness.
    pub blinding: Option<Fr>,
    /// Witness: authentication path for the note's leaf.
    pub path: Option<MerklePath>,
}

impl WithdrawCircuit {
    /// The path has a sibling for each level of the tree, and its leaf index a
    /// bit.
    pub open spec fn wf(self) -> bool {
        self.path matches Some(p) ==> p.siblings@.len() >= self.depth && self.depth <= 64
    }

    /// No value is missing.
    pub open spec fn assigned(self) -> bool {
        &&& self.root is Some
        &&& self.nullifier is Some
        &&& self.recipient_binding is Some
        &&& self.amount is Some
        &&& self.sk is Some
        &&& self.blinding is Some
        &&& self.depth > 0 ==> self.path is Some
    }

    /// The withdraw relation of the values that this circuit holds.
    pub open spec fn statement(self) -> bool {
        exit_ok(
            self.root->0.value(),
            self.nullifier->0.value(),
            self.amount->0.value(),
            self.sk->0.value(),
            self.blinding->0.value(),
            index_bits(self.path->0.leaf_index as nat, self.depth as nat),
            Seq::new(self.depth as nat, |l: int| self.path->0.siblings@[l].value()),
        )
    }

    /// The path, by reference.
    pub open spec fn path_ref(&self) -> Option<&MerklePath> {
        match &self.path {
            Some(p) => Some(p),
            None => None,
        }
    }

    /// The leaf index.
    pub open spec fn given_index(self) -> Option<u64> {
        match self.path {
            Some(p) => Some(p.leaf_index),
            None => None,
        }
    }

    /// The inputs and witnesses of a built circuit.
    pub open spec fn built(self, c: Circuit) -> bool {
        &&& c.inputs@ == seq![self.root, self.nullifier, self.recipient_binding, self.amount]
        &&& c.witnesses@ == seq![self.sk, self.blinding] + sibling_stream(
            self.path_ref(),
            self.depth as nat,
        )
        &&& c.bits@ == bit_stream(self.given_index(), self.depth as nat)
    }

    /// An unassigned circuit of the given shape, for key generation.
    pub fn blank(depth: usize) -> (circuit: WithdrawCircuit)
        ensures
            circuit.depth == depth,
            circuit.root is None,
            circuit.nullifier is None,
            circuit.recipient_binding is None,
            circuit.amount is None,
            circuit.sk is None,
            circuit.blinding is None,
            circuit.path is None,
    {
        WithdrawCircuit {
            depth,
            root: None,
            nullifier: None,
            recipient_binding: None,
            amount: None,
            sk: None,
            blinding: None,
            path: None,
        }
    }

    /// Builds the circuit. Its public inputs are the root, the nullifier, the
    /// recipient binding and the amount, in this order; an assignment
    /// satisfies it if and only if it meets the withdraw relation; and the
    /// recipient binding is an operand of a product, so that it stands in the
    /// constraint system.
    #[verifier::rlimit(30)]
    pub fn generate_constraints(&self) -> (c: Circuit)
        requires
            self.wf(),
        ensures
            c.wf(),
            self.built(c),
            forall|asg: Assignment| #[trigger]
                c.sat(asg) == withdraw_relation(asg, self.depth as nat),
            exists|i: int, j: usize|
                0 <= i < c.gates@.len() && j < c.gates@.len() && c.gates@[i] == Gate::Product(j, j)
                    && c.gates@[j as int] == Gate::Input(2),
            self.assigned() == c.assigned(),
            self.assigned() ==> c.sat(c.assignment()) == self.statement(),
    {
        let ghost d = self.depth as nat;
        let mut c = Circuit::new();
        let root = c.new_input(self.root);
        let nullifier = c.new_input(self.nullifier);
        let recipient_binding = c.new_input(self.recipient_binding);
        let amount = c.new_input(self.amount);
        let sk = c.new_witness(self.sk);
        let blinding = c.new_witness(self.blinding);
        let (given_index, given_path): (Option<u64>, Option<&MerklePath>) = match &self.path {
            Some(p) => (Some(p.leaf_index), Some(p)),
            None => (None, None),
        };
        let index_bits: Vec<Bit> = alloc_index_bits(&mut c, given_index, self.depth);
        let ghost c2 = c;
        let siblings: Vec<Var> = alloc_siblings(&mut c, given_path, self.depth);
        let ghost c3 = c;

        // Ownership: the commitment is over the prover's own key and the
        // public amount.
        let pk = crate::note::gadget::derive_pk(&mut c, sk);
        let cm = crate::note::gadget::commitment(&mut c, amount, pk, blinding);
        let ghost c4 = c;

        // Membership under the public root.
        let computed_root = crate::merkle::gadget::compute_root(
            &mut c,
            cm,
            &siblings,
            &index_bits,
        );
        let ghost c5 = c;
        c.enforce_equal(computed_root, root);
        let ghost c6 = c;

        // Nullifier, bound to the same leaf index as the membership path.
        let leaf_index = c.from_bits(&index_bits);
        let nf = crate::note::gadget::nullifier(&mut c, sk, leaf_index);
        let ghost c7 = c;
        c.enforce_equal(nf, nullifier);

        // A public input that appears in no constraint is malleable, so the
        // recipient binding is pinned with one multiplication.
        let pinned = c.product(recipient_binding, recipient_binding);
        proof {
            assert forall|asg: Assignment| #[trigger] c.sat(asg) == withdraw_relation(asg, d) by {
                let bits = bits_at(asg.bits, 0, d);
                let sibs = values_at(asg.witnesses, 2, d);
                assert(c3.val(asg, root.wire as int) == asg.inputs[0]);
                assert(c3.val(asg, nullifier.wire as int) == asg.inputs[1]);
                assert(c3.val(asg, amount.wire as int) == asg.inputs[3]);
                assert(c3.val(asg, sk.wire as int) == asg.witnesses[0]);
                assert(c3.val(asg, blinding.wire as int) == asg.witnesses[1]);
                assert(c2.bit_vals(asg, index_bits@) == bits);
                assert(c4.bit_vals(asg, index_bits@) =~= bits) by {
                    assert forall|i: int| 0 <= i < d implies c4.bit_vals(asg, index_bits@)[i]
                        == bits[i] by {
                        let wire = index_bits@[i].wire as int;
                        assert(c4.val(asg, wire) == c2.val(asg, wire));
                        assert(c2.bit_vals(asg, index_bits@)[i] == (c2.val(asg, wire) != 0));
                    }
                }
                assert(c6.bit_vals(asg, index_bits@) =~= bits) by {
                    assert forall|i: int| 0 <= i < d implies c6.bit_vals(asg, index_bits@)[i]
                        == bits[i] by {
                        let wire = index_bits@[i].wire as int;
                        assert(c6.val(asg, wire) == c4.val(asg, wire));
                        assert(c4.bit_vals(asg, index_bits@)[i] == (c4.val(asg, wire) != 0));
                    }
                }
                assert(var_vals(c3, asg, siblings@) == sibs);
                assert(var_vals(c4, asg, siblings@) =~= sibs) by {
                    assert forall|i: int| 0 <= i < d implies var_vals(c4, asg, siblings@)[i]
                        == sibs[i] by {
                        let wire = siblings@[i].wire as int;
                        assert(c4.val(asg, wire) == c3.val(asg, wire));
                        assert(var_vals(c3, asg, siblings@)[i] == c3.val(asg, wire));
                    }
                }
                let committed = commitment_of(
                    asg.inputs[3],
                    pk_of(asg.witnesses[0]),
                    asg.witnesses[1],
                );
                assert(c4.val(asg, cm.wire as int) == committed);
                assert(c5.val(asg, computed_root.wire as int) == climb(committed, sibs, bits, d));
                if le_nat(bits) < fr_modulus() {
                    lemma_small_mod(le_nat(bits), fr_modulus());
                }
                assert(le_nat(bits) < fr_modulus() ==> c7.val(asg, nf.wire as int) == nullifier_of(
                    asg.witnesses[0],
                    le_nat(bits),
                ));
            }
            assert(c.inputs@ =~= seq![
                self.root,
                self.nullifier,
                self.recipient_binding,
                self.amount,
            ]);
            assert(c.witnesses@ =~= seq![self.sk, self.blinding] + sibling_stream(
                self.path_ref(),
                d,
            ));
            assert(c.bits@ =~= bit_stream(self.given_index(), d));
            assert(c.gates@[pinned.wire as int] == Gate::Product(
                recipient_binding.wire,
                recipient_binding.wire,
            ) && c.gates@[recipient_binding.wire as int] == Gate::Input(2));
            lemma_assigned(*self, c);
            if self.assigned() {
                lemma_statement(*self, c);
            }
        }
        c
    }
}

/// The built circuit misses a value where the description does.
proof fn lemma_assigned(t: WithdrawCircuit, c: Circuit)
    requires
        t.built(c),
    ensures
        t.assigned() == c.assigned(),
{
    if c.assigned() {
        assert(c.inputs@[0] is Some && c.inputs@[1] is Some && c.inputs@[2] is Some
            && c.inputs@[3] is Some);
        assert(c.witnesses@[0] is Some && c.witnesses@[1] is Some);
        if t.depth > 0 {
            assert(c.bits@[0] is Some);
        }
    }
}

/// The values that the built circuit holds satisfy it if and only if they
/// meet the withdraw relation.
proof fn lemma_statement(t: WithdrawCircuit, c: Circuit)
    requires
        t.wf(),
        t.built(c),
        t.assigned(),
    ensures
        withdraw_relation(c.assignment(), t.depth as nat) == t.statement(),
{
    let d = t.depth as nat;
    let asg = c.assignment();
    let p = t.path->0;
    assert(c.inputs@[0] == t.root && c.inputs@[1] == t.nullifier && c.inputs@[3] == t.amount);
    assert(c.witnesses@[0] == t.sk && c.witnesses@[1] == t.blinding);
    assert(bits_at(asg.bits, 0, d) =~= index_bits(p.leaf_index as nat, d)) by {
        assert forall|i: int| 0 <= i < d implies bits_at(asg.bits, 0, d)[i] == index_bits(
            p.leaf_index as nat,
            d,
        )[i] by {
            assert(c.bits@[i] == Some(index_bits(p.leaf_index as nat, d)[i]));
        }
    }
    assert(values_at(asg.witnesses, 2, d) =~= Seq::new(d, |l: int| p.siblings@[l].value())) by {
        assert forall|i: int| 0 <= i < d implies values_at(asg.witnesses, 2, d)[i]
            == p.siblings@[i].value() by {
            assert(c.witnesses@[2 + i] == Some(p.siblings@[i]));
        }
    }
}

/// **Every public input is constrained.** Two satisfying assignments with the
/// same witnesses have the same nullifier, and the same root if the amounts
/// are the same.
pub proof fn lemma_withdraw_inputs_pinned(a: Assignment, b: Assignment, depth: nat)
    requires
        withdraw_relation(a, depth),
        withdraw_relation(b, depth),
        a.witnesses == b.witnesses,
        a.bits == b.bits,
    ensures
        a.inputs[1] == b.inputs[1],
        a.inputs[3] == b.inputs[3] ==> a.inputs[0] == b.inputs[0],
{
}

/// **The amount is the note's value, and the nullifier is its leaf's.** An
/// assignment that meets the withdraw relation under the root of a tree names
/// a leaf that is the commitment to a note of exactly the public amount under
/// the prover's key, and the public nullifier is the one of that key and
/// leaf; or its path exhibits two different pairs of nodes with one hash.
pub proof fn lemma_withdraw_sound(asg: Assignment, leaves: Seq<nat>, depth: nat)
    requires
        withdraw_relation(asg, depth),
        asg.inputs[0] == root_of(leaves, depth),
    ensures
        ({
            let bits = bits_at(asg.bits, 0, depth);
            let siblings = values_at(asg.witnesses, 2, depth);
            let cm = commitment_of(asg.inputs[3], pk_of(asg.witnesses[0]), asg.witnesses[1]);
            &&& node_of(leaves, 0, le_nat(bits)) == cm || path_collides(leaves, cm, siblings, bits)
            &&& asg.inputs[1] == nullifier_of(asg.witnesses[0], le_nat(bits))
        }),
{
    let bits = bits_at(asg.bits, 0, depth);
    let siblings = values_at(asg.witnesses, 2, depth);
    let cm = commitment_of(asg.inputs[3], pk_of(asg.witnesses[0]), asg.witnesses[1]);
    lemma_membership_binding(leaves, cm, siblings, bits);
}

} // verus!
