//! The shielded transfer circuit.
//!
//! Proves, without revealing any amount: the spent notes are members of the
//! commitment tree under the public root (or are explicit zero-value
//! dummies), the prover holds their spending keys, the published nullifiers
//! are derived from those keys and leaf positions, and total input value
//! equals total output value with every value range-checked to 64 bits.
//!
//! Public inputs, in order: `[root, nullifiers.., new_commitments..]`.
//!
//! [`transfer_relation`] states what an assignment has to meet, and
//! [`TransferCircuit::generate_constraints`] builds a circuit that is
//! satisfied by exactly the assignments that meet it.

use crate::circuit::{le_nat, Assignment, Bit, Circuit, Var};
use crate::field::{fr_add, fr_modulus, Fr};
use crate::merkle::{
    climb, index_bits, lemma_membership_binding, node_of, path_collides, root_of, MerklePath,
};
use crate::note::{commitment_of, nullifier_of, pk_of, Note};
use crate::util::{
    alloc_index_bits, alloc_siblings, alloc_u64, bit_stream, bits_at, lemma_le_small,
    sibling_stream, values_at,
};
use vstd::arithmetic::div_mod::lemma_small_mod;
use vstd::prelude::*;

verus! {

/// Witness data for one spent note.
#[derive(Clone, Debug)]
pub struct SpentNote {
    /// Note value; a zero value marks a dummy input whose membership check is
    /// disabled (its nullifier is still published and must be derived from a
    /// fresh random `sk` to stay unique).
    pub value: u64,
    /// The owner's spending key.
    pub sk: Fr,
    /// Commitment randomness.
    pub blinding: Fr,
    /// Authentication path to the public root (arbitrary for dummies).
    pub path: MerklePath,
}

/// Witness data for one created note.
#[derive(Clone, Copy, Debug, PartialEq, Eq, Structural)]
pub struct NewNote {
    /// Note value.
    pub value: u64,
    /// Recipient public key.
    pub owner_pk: Fr,
    /// Commitment randomness.
    pub blinding: Fr,
}

impl NewNote {
    /// The commitment to this note, as an integer.
    pub open spec fn committed(self) -> nat {
        commitment_of(self.value as nat, self.owner_pk.value(), self.blinding.value())
    }

    /// The commitment this note produces (a public input).
    pub fn commitment(&self) -> (cm: Fr)
        ensures
            cm.value() == self.committed(),
    {
        Note { value: self.value, owner_pk: self.owner_pk, blinding: self.blinding }.commitment()
    }
}

/// What a prover knows of a spent note.
#[verifier::ext_equal]
pub struct SpentSecret {
    pub value: nat,
    pub sk: nat,
    pub blinding: nat,
    pub index_bits: Seq<bool>,
    pub siblings: Seq<nat>,
}

/// What a prover knows of a created note.
pub struct CreatedSecret {
    pub value: nat,
    pub owner_pk: nat,
    pub blinding: nat,
}

impl SpentNote {
    /// What the prover knows of this note, in a tree of some depth.
    pub open spec fn secret(self, depth: nat) -> SpentSecret {
        SpentSecret {
            value: self.value as nat,
            sk: self.sk.value(),
            blinding: self.blinding.value(),
            index_bits: index_bits(self.path.leaf_index as nat, depth),
            siblings: Seq::new(depth, |l: int| self.path.siblings@[l].value()),
        }
    }
}

impl NewNote {
    /// What the prover knows of this note.
    pub open spec fn secret(self) -> CreatedSecret {
        CreatedSecret {
            value: self.value as nat,
            owner_pk: self.owner_pk.value(),
            blinding: self.blinding.value(),
        }
    }
}

/// The spent note whose field witnesses start at `w` and whose boolean
/// witnesses start at `b`.
pub open spec fn spent_at(asg: Assignment, depth: nat, w: nat, b: nat) -> SpentSecret {
    SpentSecret {
        value: le_nat(bits_at(asg.bits, b, 64)),
        sk: asg.witnesses[w as int],
        blinding: asg.witnesses[w as int + 1],
        index_bits: bits_at(asg.bits, b + 64, depth),
        siblings: values_at(asg.witnesses, w + 2, depth),
    }
}

/// The created note whose field witnesses start at `w` and whose boolean
/// witnesses start at `b`.
pub open spec fn created_at(asg: Assignment, w: nat, b: nat) -> CreatedSecret {
    CreatedSecret {
        value: le_nat(bits_at(asg.bits, b, 64)),
        owner_pk: asg.witnesses[w as int],
        blinding: asg.witnesses[w as int + 1],
    }
}

/// The spent note with number `i`: each one takes `2 + depth` field witnesses
/// and `64 + depth` boolean ones.
pub open spec fn nth_spent(asg: Assignment, depth: nat, i: nat) -> SpentSecret {
    spent_at(asg, depth, i * (depth + 2), i * (depth + 64))
}

/// The created note with number `j`, behind `n_in` spent ones: each one takes
/// 2 field witnesses and 64 boolean ones.
pub open spec fn nth_created(asg: Assignment, depth: nat, n_in: nat, j: nat) -> CreatedSecret {
    created_at(asg, n_in * (depth + 2) + 2 * j, n_in * (depth + 64) + 64 * j)
}

/// A spent note is a leaf under the root, unless it is worth nothing, and the
/// nullifier is the one of its key and leaf index, a canonical integer.
pub open spec fn spent_ok(s: SpentSecret, depth: nat, root: nat, nullifier: nat) -> bool {
    &&& s.value != 0 ==> climb(
        commitment_of(s.value, pk_of(s.sk), s.blinding),
        s.siblings,
        s.index_bits,
        depth,
    ) == root
    &&& le_nat(s.index_bits) < fr_modulus()
    &&& nullifier_of(s.sk, le_nat(s.index_bits)) == nullifier
}

/// The commitment is the one to the created note.
pub open spec fn created_ok(s: CreatedSecret, commitment: nat) -> bool {
    commitment_of(s.value, s.owner_pk, s.blinding) == commitment
}

/// The first `n` spent notes are in order.
pub open spec fn all_spent_ok(asg: Assignment, depth: nat, n: nat) -> bool {
    forall|i: nat|
        i < n ==> spent_ok(
            #[trigger] nth_spent(asg, depth, i),
            depth,
            asg.inputs[0],
            asg.inputs[1 + i as int],
        )
}

/// The first `n` created notes are in order.
pub open spec fn all_created_ok(
    asg: Assignment,
    depth: nat,
    nullifiers: nat,
    n_in: nat,
    n: nat,
) -> bool {
    forall|j: nat|
        j < n ==> created_ok(
            #[trigger] nth_created(asg, depth, n_in, j),
            asg.inputs[1 + nullifiers + j as int],
        )
}

/// The total value of the first `n` spent notes.
pub open spec fn spent_total(asg: Assignment, depth: nat, n: nat) -> nat
    decreases n,
{
    if n == 0 {
        0
    } else {
        spent_total(asg, depth, (n - 1) as nat) + nth_spent(asg, depth, (n - 1) as nat).value
    }
}

/// The total value of the first `n` created notes.
pub open spec fn created_total(asg: Assignment, depth: nat, n_in: nat, n: nat) -> nat
    decreases n,
{
    if n == 0 {
        0
    } else {
        created_total(asg, depth, n_in, (n - 1) as nat) + nth_created(
            asg,
            depth,
            n_in,
            (n - 1) as nat,
        ).value
    }
}

/// The transfer relation between public inputs and witnesses, for a tree
/// depth, `n_in` spent notes under `nullifiers` nullifiers and `n_out`
/// created notes.
pub open spec fn transfer_relation(
    asg: Assignment,
    depth: nat,
    nullifiers: nat,
    n_in: nat,
    n_out: nat,
) -> bool {
    &&& all_spent_ok(asg, depth, n_in)
    &&& all_created_ok(asg, depth, nullifiers, n_in, n_out)
    &&& spent_total(asg, depth, n_in) == created_total(asg, depth, n_in, n_out)
}

/// The field witnesses of a spent note.
pub open spec fn spent_witnesses(spent: Option<SpentNote>, depth: nat) -> Seq<Option<Fr>> {
    match spent {
        Some(s) => seq![Some(s.sk), Some(s.blinding)] + sibling_stream(Some(&s.path), depth),
        None => seq![None, None] + sibling_stream(None, depth),
    }
}

/// The boolean witnesses of a spent note.
pub open spec fn spent_bits(spent: Option<SpentNote>, depth: nat) -> Seq<Option<bool>> {
    match spent {
        Some(s) => bit_stream(Some(s.value), 64) + bit_stream(Some(s.path.leaf_index), depth),
        None => bit_stream(None, 64) + bit_stream(None, depth),
    }
}

/// The field witnesses of a created note.
pub open spec fn created_witnesses(created: Option<NewNote>) -> Seq<Option<Fr>> {
    match created {
        Some(n) => seq![Some(n.owner_pk), Some(n.blinding)],
        None => seq![None, None],
    }
}

/// The boolean witnesses of a created note.
pub open spec fn created_bits(created: Option<NewNote>) -> Seq<Option<bool>> {
    match created {
        Some(n) => bit_stream(Some(n.value), 64),
        None => bit_stream(None, 64),
    }
}

/// The field witnesses of the first `n` spent notes.
pub open spec fn all_spent_witnesses(
    spent: Seq<Option<SpentNote>>,
    depth: nat,
    n: nat,
) -> Seq<Option<Fr>>
    decreases n,
{
    if n == 0 {
        Seq::empty()
    } else {
        all_spent_witnesses(spent, depth, (n - 1) as nat) + spent_witnesses(spent[n - 1], depth)
    }
}

/// The boolean witnesses of the first `n` spent notes.
pub open spec fn all_spent_bits(
    spent: Seq<Option<SpentNote>>,
    depth: nat,
    n: nat,
) -> Seq<Option<bool>>
    decreases n,
{
    if n == 0 {
        Seq::empty()
    } else {
        all_spent_bits(spent, depth, (n - 1) as nat) + spent_bits(spent[n - 1], depth)
    }
}

/// The field witnesses of the first `n` created notes.
pub open spec fn all_created_witnesses(created: Seq<Option<NewNote>>, n: nat) -> Seq<Option<Fr>>
    decreases n,
{
    if n == 0 {
        Seq::empty()
    } else {
        all_created_witnesses(created, (n - 1) as nat) + created_witnesses(created[n - 1])
    }
}

/// The boolean witnesses of the first `n` created notes.
pub open spec fn all_created_bits(created: Seq<Option<NewNote>>, n: nat) -> Seq<Option<bool>>
    decreases n,
{
    if n == 0 {
        Seq::empty()
    } else {
        all_created_bits(created, (n - 1) as nat) + created_bits(created[n - 1])
    }
}

/// The constraints on one spent note; returns its value.
#[verifier::rlimit(30)]
fn spend_note(
    c: &mut Circuit,
    depth: usize,
    root: Var,
    nullifier: Var,
    spent: &Option<SpentNote>,
) -> (value: Var)
    requires
        old(c).wf(),
        root.wire < old(c).size(),
        nullifier.wire < old(c).size(),
        *spent matches Some(s) ==> s.path.siblings@.len() >= depth,
    ensures
        old(c).extended(*final(c)),
        final(c).inputs@ == old(c).inputs@,
        final(c).witnesses@ == old(c).witnesses@ + spent_witnesses(*spent, depth as nat),
        final(c).bits@ == old(c).bits@ + spent_bits(*spent, depth as nat),
        value.wire < final(c).size(),
        forall|asg: Assignment| #[trigger]
            final(c).sat(asg) == (old(c).sat(asg) && spent_ok(
                spent_at(asg, depth as nat, old(c).witnesses@.len(), old(c).bits@.len()),
                depth as nat,
                old(c).val(asg, root.wire as int),
                old(c).val(asg, nullifier.wire as int),
            )),
        forall|asg: Assignment| #[trigger]
            final(c).val(asg, value.wire as int) == spent_at(
                asg,
                depth as nat,
                old(c).witnesses@.len(),
                old(c).bits@.len(),
            ).value,
{
    let ghost d = depth as nat;
    let ghost w = c.witnesses@.len();
    let ghost b = c.bits@.len();
    let (given_value, given_sk, given_blinding, given_index, given_path): (
        Option<u64>,
        Option<Fr>,
        Option<Fr>,
        Option<u64>,
        Option<&MerklePath>,
    ) = match spent {
        Some(s) => (
            Some(s.value),
            Some(s.sk),
            Some(s.blinding),
            Some(s.path.leaf_index),
            Some(&s.path),
        ),
        None => (None, None, None, None, None),
    };
    let value = alloc_u64(c, given_value);
    let sk = c.new_witness(given_sk);
    let blinding = c.new_witness(given_blinding);
    let ghost c1 = *c;
    let index_bits: Vec<Bit> = alloc_index_bits(c, given_index, depth);
    let ghost c2 = *c;
    let siblings: Vec<Var> = alloc_siblings(c, given_path, depth);
    let ghost c3 = *c;
    proof {
        assert(c.witnesses@ =~= old(c).witnesses@ + spent_witnesses(*spent, d));
        assert(c.bits@ =~= old(c).bits@ + spent_bits(*spent, d));
    }

    // Ownership: the commitment is over the prover's own key.
    let pk = crate::note::gadget::derive_pk(c, sk);
    let cm = crate::note::gadget::commitment(c, value, pk, blinding);
    let ghost c4 = *c;

    // Membership under the public root, skipped for zero-value dummies only.
    let zero = c.constant(Fr::zero());
    let is_real = c.is_neq(value, zero);
    let ghost c5 = *c;
    let computed_root = crate::merkle::gadget::compute_root(c, cm, &siblings, &index_bits);
    let ghost c6 = *c;
    c.conditional_enforce_equal(is_real, computed_root, root);
    let ghost c7 = *c;

    // Nullifier: bound to the same leaf index as the membership path.
    let leaf_index = c.from_bits(&index_bits);
    let nf = crate::note::gadget::nullifier(c, sk, leaf_index);
    let ghost c8 = *c;
    c.enforce_equal(nf, nullifier);
    proof {
        assert forall|asg: Assignment|
            #![trigger c.sat(asg)]
            #![trigger c.val(asg, value.wire as int)]
            {
                let s = spent_at(asg, d, w, b);
                &&& c.val(asg, value.wire as int) == s.value
                &&& c.sat(asg) == (old(c).sat(asg) && spent_ok(
                    s,
                    d,
                    old(c).val(asg, root.wire as int),
                    old(c).val(asg, nullifier.wire as int),
                ))
            } by {
            let s = spent_at(asg, d, w, b);
            // What the allocated variables hold.
            assert(c3.val(asg, value.wire as int) == s.value);
            assert(c3.val(asg, sk.wire as int) == s.sk);
            assert(c3.val(asg, blinding.wire as int) == s.blinding);
            assert(c2.bit_vals(asg, index_bits@) == bits_at(asg.bits, b + 64, d));
            assert(c5.bit_vals(asg, index_bits@) =~= s.index_bits) by {
                assert forall|i: int| 0 <= i < d implies c5.bit_vals(asg, index_bits@)[i]
                    == s.index_bits[i] by {
                    let wire = index_bits@[i].wire as int;
                    assert(c5.val(asg, wire) == c2.val(asg, wire));
                    assert(c2.bit_vals(asg, index_bits@)[i] == (c2.val(asg, wire) != 0));
                }
            }
            assert(c7.bit_vals(asg, index_bits@) =~= s.index_bits) by {
                assert forall|i: int| 0 <= i < d implies c7.bit_vals(asg, index_bits@)[i]
                    == s.index_bits[i] by {
                    let wire = index_bits@[i].wire as int;
                    assert(c7.val(asg, wire) == c5.val(asg, wire));
                    assert(c5.bit_vals(asg, index_bits@)[i] == (c5.val(asg, wire) != 0));
                }
            }
            assert(crate::merkle::gadget::var_vals(c3, asg, siblings@) == s.siblings);
            assert(crate::merkle::gadget::var_vals(c5, asg, siblings@) =~= s.siblings) by {
                assert forall|i: int| 0 <= i < d implies crate::merkle::gadget::var_vals(
                    c5,
                    asg,
                    siblings@,
                )[i] == s.siblings[i] by {
                    let wire = siblings@[i].wire as int;
                    assert(c5.val(asg, wire) == c3.val(asg, wire));
                    assert(crate::merkle::gadget::var_vals(c3, asg, siblings@)[i] == c3.val(
                        asg,
                        wire,
                    ));
                }
            }
            // What the gadgets computed.
            let committed = commitment_of(s.value, pk_of(s.sk), s.blinding);
            assert(c4.val(asg, cm.wire as int) == committed);
            assert(c6.val(asg, computed_root.wire as int) == climb(
                committed,
                s.siblings,
                s.index_bits,
                d,
            ));
            assert((c6.val(asg, is_real.wire as int) != 0) == (s.value != 0));
            if le_nat(s.index_bits) < fr_modulus() {
                lemma_small_mod(le_nat(s.index_bits), fr_modulus());
            }
            assert(le_nat(s.index_bits) < fr_modulus() ==> c8.val(asg, nf.wire as int) == nullifier_of(s.sk, le_nat(s.index_bits)));
        }
    }
    value
}

/// The constraints on one created note; returns its value.
fn create_note(c: &mut Circuit, commitment: Var, created: &Option<NewNote>) -> (value: Var)
    requires
        old(c).wf(),
        commitment.wire < old(c).size(),
    ensures
        old(c).extended(*final(c)),
        final(c).inputs@ == old(c).inputs@,
        final(c).witnesses@ == old(c).witnesses@ + created_witnesses(*created),
        final(c).bits@ == old(c).bits@ + created_bits(*created),
        value.wire < final(c).size(),
        forall|asg: Assignment| #[trigger]
            final(c).sat(asg) == (old(c).sat(asg) && created_ok(
                created_at(asg, old(c).witnesses@.len(), old(c).bits@.len()),
                old(c).val(asg, commitment.wire as int),
            )),
        forall|asg: Assignment| #[trigger]
            final(c).val(asg, value.wire as int) == created_at(
                asg,
                old(c).witnesses@.len(),
                old(c).bits@.len(),
            ).value,
{
    let (given_value, given_pk, given_blinding): (Option<u64>, Option<Fr>, Option<Fr>) =
        match created {
        Some(n) => (Some(n.value), Some(n.owner_pk), Some(n.blinding)),
        None => (None, None, None),
    };
    let value = alloc_u64(c, given_value);
    let owner_pk = c.new_witness(given_pk);
    let blinding = c.new_witness(given_blinding);
    proof {
        assert(c.witnesses@ =~= old(c).witnesses@ + created_witnesses(*created));
    }
    let cm = crate::note::gadget::commitment(c, value, owner_pk, blinding);
    c.enforce_equal(cm, commitment);
    value
}

/// Allocates public inputs.
fn alloc_inputs(c: &mut Circuit, given: &Vec<Option<Fr>>) -> (vars: Vec<Var>)
    requires
        old(c).wf(),
    ensures
        old(c).extended(*final(c)),
        final(c).inputs@ == old(c).inputs@ + given@,
        final(c).witnesses@ == old(c).witnesses@,
        final(c).bits@ == old(c).bits@,
        vars@.len() == given@.len(),
        forall|i: int| 0 <= i < vars@.len() ==> (#[trigger] vars@[i]).wire < final(c).size(),
        forall|asg: Assignment| #[trigger] final(c).sat(asg) == old(c).sat(asg),
        forall|asg: Assignment, i: int|
            0 <= i < vars@.len() ==> #[trigger] final(c).val(asg, vars@[i].wire as int)
                == asg.inputs[old(c).inputs@.len() + i],
{
    let mut vars: Vec<Var> = Vec::new();
    let ghost at: nat = c.inputs@.len();
    let mut i: usize = 0;
    while i < given.len()
        invariant
            i <= given@.len(),
            at == old(c).inputs@.len(),
            old(c).extended(*c),
            c.inputs@ == old(c).inputs@ + given@.take(i as int),
            c.witnesses@ == old(c).witnesses@,
            c.bits@ == old(c).bits@,
            vars@.len() == i,
            forall|k: int| 0 <= k < i ==> (#[trigger] vars@[k]).wire < c.size(),
            forall|asg: Assignment| #[trigger] c.sat(asg) == old(c).sat(asg),
            forall|asg: Assignment, k: int|
                0 <= k < i ==> #[trigger] c.val(asg, vars@[k].wire as int) == asg.inputs[at + k],
        decreases given@.len() - i,
    {
        let ghost before = *c;
        let ghost kept = vars@;
        let var: Var = c.new_input(given[i]);
        vars.push(var);
        proof {
            assert(c.inputs@ =~= old(c).inputs@ + given@.take(i + 1));
            assert forall|asg: Assignment, k: int|
                0 <= k < i + 1 implies #[trigger] c.val(asg, vars@[k].wire as int)
                == asg.inputs[at + k] by {
                if k < i {
                    assert(vars@[k] == kept[k]);
                    assert(c.val(asg, kept[k].wire as int) == before.val(
                        asg,
                        kept[k].wire as int,
                    ));
                }
            }
        }
        i = i + 1;
    }
    proof {
        assert(given@.take(given@.len() as int) =~= given@);
    }
    vars
}

/// The smaller of two numbers.
pub open spec fn at_most(a: nat, b: nat) -> nat {
    if a <= b {
        a
    } else {
        b
    }
}

/// The transfer relation, fixed at setup time to a tree depth and a note
/// arity (`n_in` spent, `n_out` created). The protocol instance is 2-in/2-out
/// at [`crate::merkle::POOL_TREE_DEPTH`].
#[derive(Clone)]
pub struct TransferCircuit {
    /// Merkle tree depth this instance was set up for.
    pub depth: usize,
    /// Public: a known root of the commitment tree.
    pub root: Option<Fr>,
    /// Public: one nullifier per spent note.
    pub nullifiers: Vec<Option<Fr>>,
    /// Public: one commitment per created note.
    pub new_commitments: Vec<Option<Fr>>,
    /// Witness: the spent notes.
    pub spent: Vec<Option<SpentNote>>,
    /// Witness: the created notes.
    pub created: Vec<Option<NewNote>>,
}

impl TransferCircuit {
    /// Every spent note has a sibling for each level of the tree, and its leaf
    /// index a bit.
    pub open spec fn wf(self) -> bool {
        forall|i: int|
            0 <= i < self.spent@.len() ==> (#[trigger] self.spent@[i] matches Some(s)
                ==> s.path.siblings@.len() >= self.depth && self.depth <= 64)
    }

    /// The number of spent notes that have a nullifier.
    pub open spec fn n_in(self) -> nat {
        at_most(self.spent@.len(), self.nullifiers@.len())
    }

    /// The number of created notes that have a commitment.
    pub open spec fn n_out(self) -> nat {
        at_most(self.created@.len(), self.new_commitments@.len())
    }

    /// What an assignment has to meet.
    pub open spec fn relation(self, asg: Assignment) -> bool {
        transfer_relation(
            asg,
            self.depth as nat,
            self.nullifiers@.len(),
            self.n_in(),
            self.n_out(),
        )
    }

    /// No value is missing.
    pub open spec fn assigned(self) -> bool {
        &&& self.root is Some
        &&& forall|i: int|
            0 <= i < self.nullifiers@.len() ==> (#[trigger] self.nullifiers@[i]) is Some
        &&& forall|i: int|
            0 <= i < self.new_commitments@.len() ==> (#[trigger] self.new_commitments@[i]) is Some
        &&& forall|i: int| 0 <= i < self.n_in() ==> (#[trigger] self.spent@[i]) is Some
        &&& forall|i: int| 0 <= i < self.n_out() ==> (#[trigger] self.created@[i]) is Some
    }

    /// The total value of the first `n` spent notes.
    pub open spec fn spending(self, n: nat) -> nat
        decreases n,
    {
        if n == 0 {
            0
        } else {
            self.spending((n - 1) as nat) + self.spent@[n - 1]->0.value as nat
        }
    }

    /// The total value of the first `n` created notes.
    pub open spec fn creating(self, n: nat) -> nat
        decreases n,
    {
        if n == 0 {
            0
        } else {
            self.creating((n - 1) as nat) + self.created@[n - 1]->0.value as nat
        }
    }

    /// The transfer relation of the notes that this circuit holds.
    pub open spec fn statement(self) -> bool {
        &&& forall|i: int|
            0 <= i < self.n_in() ==> spent_ok(
                (#[trigger] self.spent@[i])->0.secret(self.depth as nat),
                self.depth as nat,
                self.root->0.value(),
                self.nullifiers@[i]->0.value(),
            )
        &&& forall|j: int|
            0 <= j < self.n_out() ==> (#[trigger] self.created@[j])->0.committed()
                == self.new_commitments@[j]->0.value()
        &&& self.spending(self.n_in()) == self.creating(self.n_out())
    }

    /// The inputs and witnesses of a built circuit.
    pub open spec fn built(self, c: Circuit) -> bool {
        &&& c.inputs@ == seq![self.root] + self.nullifiers@ + self.new_commitments@
        &&& c.witnesses@ == all_spent_witnesses(self.spent@, self.depth as nat, self.n_in())
            + all_created_witnesses(self.created@, self.n_out())
        &&& c.bits@ == all_spent_bits(self.spent@, self.depth as nat, self.n_in())
            + all_created_bits(self.created@, self.n_out())
    }

    /// An unassigned circuit of the given shape, for key generation.
    pub fn blank(depth: usize, n_in: usize, n_out: usize) -> (circuit: TransferCircuit)
        ensures
            circuit.depth == depth,
            circuit.root is None,
            circuit.nullifiers@ == Seq::new(n_in as nat, |i: int| None::<Fr>),
            circuit.new_commitments@ == Seq::new(n_out as nat, |i: int| None::<Fr>),
            circuit.spent@ == Seq::new(n_in as nat, |i: int| None::<SpentNote>),
            circuit.created@ == Seq::new(n_out as nat, |i: int| None::<NewNote>),
    {
        TransferCircuit {
            depth,
            root: None,
            nullifiers: missing(n_in),
            new_commitments: missing(n_out),
            spent: missing(n_in),
            created: missing(n_out),
        }
    }

    /// Builds the circuit. Its public inputs are the root, the nullifiers and
    /// the commitments, in this order, and an assignment satisfies it if and
    /// only if it meets the transfer relation.
    pub fn generate_constraints(&self) -> (c: Circuit)
        requires
            self.wf(),
        ensures
            c.wf(),
            self.built(c),
            forall|asg: Assignment| #[trigger] c.sat(asg) == self.relation(asg),
            self.assigned() == c.assigned(),
            self.assigned() ==> c.sat(c.assignment()) == self.statement(),
    {
        let ghost d = self.depth as nat;
        let ghost n_in = self.n_in();
        let ghost n_out = self.n_out();
        let ghost n_nf = self.nullifiers@.len();
        let mut c = Circuit::new();
        let root = c.new_input(self.root);
        let ghost c0 = c;
        let nullifiers: Vec<Var> = alloc_inputs(&mut c, &self.nullifiers);
        let ghost c1 = c;
        let new_commitments: Vec<Var> = alloc_inputs(&mut c, &self.new_commitments);
        let ghost c2 = c;
        proof {
            assert(c.inputs@ =~= seq![self.root] + self.nullifiers@ + self.new_commitments@);
            assert forall|asg: Assignment| #[trigger]
                c2.val(asg, root.wire as int) == asg.inputs[0] by {
                assert(c1.val(asg, root.wire as int) == c0.val(asg, root.wire as int));
            }
            assert forall|asg: Assignment, i: int|
                0 <= i < n_nf implies #[trigger] c2.val(asg, nullifiers@[i].wire as int)
                == asg.inputs[1 + i] by {
                assert(c1.val(asg, nullifiers@[i].wire as int) == asg.inputs[1 + i]);
            }
        }

        // Spent notes.
        let mut input_sum: Var = c.constant(Fr::zero());
        let mut i: usize = 0;
        while i < self.spent.len() && i < nullifiers.len()
            invariant
                self.wf(),
                d == self.depth,
                n_in == self.n_in(),
                n_nf == self.nullifiers@.len() == nullifiers@.len(),
                i <= n_in,
                n_in <= self.spent@.len(),
                c2.extended(c),
                c.inputs@ == c2.inputs@,
                c.witnesses@ == all_spent_witnesses(self.spent@, d, i as nat),
                c.bits@ == all_spent_bits(self.spent@, d, i as nat),
                c.witnesses@.len() == i * (d + 2),
                c.bits@.len() == i * (d + 64),
                root.wire < c2.size(),
                forall|k: int| 0 <= k < n_nf ==> (#[trigger] nullifiers@[k]).wire < c2.size(),
                input_sum.wire < c.size(),
                forall|asg: Assignment| #[trigger]
                    c2.val(asg, root.wire as int) == asg.inputs[0],
                forall|asg: Assignment, k: int|
                    0 <= k < n_nf ==> #[trigger] c2.val(asg, nullifiers@[k].wire as int)
                        == asg.inputs[1 + k],
                forall|asg: Assignment| #[trigger]
                    c.sat(asg) == all_spent_ok(asg, d, i as nat),
                forall|asg: Assignment| #[trigger]
                    c.val(asg, input_sum.wire as int) == spent_total(asg, d, i as nat)
                        % fr_modulus(),
            decreases n_in - i,
        {
            let ghost before = c;
            proof {
                assert(self.spent@[i as int] matches Some(s) ==> s.path.siblings@.len()
                    >= self.depth);
                lemma_next(i as nat, d + 2);
                lemma_next(i as nat, d + 64);
            }
            let value = spend_note(&mut c, self.depth, root, nullifiers[i], &self.spent[i]);
            let ghost mid = c;
            let sum = c.sum(input_sum, value);
            proof {
                assert forall|asg: Assignment| #[trigger]
                    c.sat(asg) == all_spent_ok(asg, d, (i + 1) as nat) by {
                    assert(before.val(asg, root.wire as int) == asg.inputs[0]);
                    assert(before.val(asg, nullifiers@[i as int].wire as int) == asg.inputs[1 + i]);
                    assert(mid.sat(asg) == (before.sat(asg) && spent_ok(
                        nth_spent(asg, d, i as nat),
                        d,
                        asg.inputs[0],
                        asg.inputs[1 + i],
                    )));
                    lemma_all_spent_next(asg, d, i as nat);
                }
                assert forall|asg: Assignment| #[trigger]
                    c.val(asg, sum.wire as int) == spent_total(asg, d, (i + 1) as nat)
                        % fr_modulus() by {
                    assert(mid.val(asg, input_sum.wire as int) == before.val(
                        asg,
                        input_sum.wire as int,
                    ));
                    assert(mid.val(asg, value.wire as int) == nth_spent(asg, d, i as nat).value);
                    lemma_le_small(bits_at(asg.bits, i as nat * (d + 64), 64));
                    lemma_running_sum(
                        spent_total(asg, d, i as nat),
                        nth_spent(asg, d, i as nat).value,
                    );
                }
            }
            input_sum = sum;
            i = i + 1;
        }
        let ghost c3 = c;

        // Created notes.
        let mut output_sum: Var = c.constant(Fr::zero());
        proof {
            assert forall|asg: Assignment, k: int|
                0 <= k < self.new_commitments@.len() implies #[trigger] c2.val(
                asg,
                new_commitments@[k].wire as int,
            ) == asg.inputs[1 + n_nf + k] by {}
            assert(all_created_witnesses(self.created@, 0).len() == 0);
            assert(c.witnesses@ =~= all_spent_witnesses(self.spent@, d, n_in)
                + all_created_witnesses(self.created@, 0));
            assert(c.bits@ =~= all_spent_bits(self.spent@, d, n_in) + all_created_bits(
                self.created@,
                0,
            ));
        }
        let mut j: usize = 0;
        while j < self.created.len() && j < new_commitments.len()
            invariant
                d == self.depth,
                n_in == self.n_in(),
                n_out == self.n_out(),
                n_nf == self.nullifiers@.len(),
                self.new_commitments@.len() == new_commitments@.len(),
                j <= n_out,
                c2.extended(c),
                c3.extended(c),
                c.inputs@ == c2.inputs@,
                c.witnesses@ == all_spent_witnesses(self.spent@, d, n_in) + all_created_witnesses(
                    self.created@,
                    j as nat,
                ),
                c.bits@ == all_spent_bits(self.spent@, d, n_in) + all_created_bits(
                    self.created@,
                    j as nat,
                ),
                c.witnesses@.len() == n_in * (d + 2) + 2 * j,
                c.bits@.len() == n_in * (d + 64) + 64 * j,
                forall|k: int|
                    0 <= k < new_commitments@.len() ==> (#[trigger] new_commitments@[k]).wire
                        < c2.size(),
                output_sum.wire < c.size(),
                forall|asg: Assignment, k: int|
                    0 <= k < new_commitments@.len() ==> #[trigger] c2.val(
                        asg,
                        new_commitments@[k].wire as int,
                    ) == asg.inputs[1 + n_nf + k],
                forall|asg: Assignment| #[trigger]
                    c.sat(asg) == (c3.sat(asg) && all_created_ok(asg, d, n_nf, n_in, j as nat)),
                forall|asg: Assignment| #[trigger]
                    c.val(asg, output_sum.wire as int) == created_total(asg, d, n_in, j as nat)
                        % fr_modulus(),
            decreases n_out - j,
        {
            let ghost before = c;
            let value = create_note(&mut c, new_commitments[j], &self.created[j]);
            let ghost mid = c;
            let sum = c.sum(output_sum, value);
            proof {
                assert(c.witnesses@ =~= all_spent_witnesses(self.spent@, d, n_in)
                    + all_created_witnesses(self.created@, (j + 1) as nat));
                assert(c.bits@ =~= all_spent_bits(self.spent@, d, n_in) + all_created_bits(
                    self.created@,
                    (j + 1) as nat,
                ));
                assert forall|asg: Assignment| #[trigger]
                    c.sat(asg) == (c3.sat(asg) && all_created_ok(
                    asg,
                    d,
                    n_nf,
                    n_in,
                    (j + 1) as nat,
                )) by {
                    assert(before.val(asg, new_commitments@[j as int].wire as int)
                        == asg.inputs[1 + n_nf + j]);
                    assert(mid.sat(asg) == (before.sat(asg) && created_ok(
                        nth_created(asg, d, n_in, j as nat),
                        asg.inputs[1 + n_nf + j],
                    )));
                    lemma_all_created_next(asg, d, n_nf, n_in, j as nat);
                }
                assert forall|asg: Assignment| #[trigger]
                    c.val(asg, sum.wire as int) == created_total(asg, d, n_in, (j + 1) as nat)
                        % fr_modulus() by {
                    assert(mid.val(asg, output_sum.wire as int) == before.val(
                        asg,
                        output_sum.wire as int,
                    ));
                    assert(mid.val(asg, value.wire as int) == nth_created(
                        asg,
                        d,
                        n_in,
                        j as nat,
                    ).value);
                    lemma_le_small(bits_at(asg.bits, n_in * (d + 64) + 64 * j as nat, 64));
                    lemma_running_sum(
                        created_total(asg, d, n_in, j as nat),
                        nth_created(asg, d, n_in, j as nat).value,
                    );
                }
            }
            output_sum = sum;
            j = j + 1;
        }
        let ghost c4 = c;

        // No inflation.
        c.enforce_equal(input_sum, output_sum);
        proof {
            assert(n_in <= usize::MAX && n_out <= usize::MAX) by {
                assert(self.spent.len() == self.spent@.len());
                assert(self.created.len() == self.created@.len());
            }
            assert forall|asg: Assignment| #[trigger] c.sat(asg) == self.relation(asg) by {
                lemma_spent_total_bound(asg, d, n_in);
                lemma_created_total_bound(asg, d, n_in, n_out);
                assert(c4.val(asg, input_sum.wire as int) == c3.val(asg, input_sum.wire as int));
                assert(c4.sat(asg) == (c3.sat(asg) && all_created_ok(asg, d, n_nf, n_in, n_out)));
                let a = spent_total(asg, d, n_in);
                let b = created_total(asg, d, n_in, n_out);
                assert(a < fr_modulus() && b < fr_modulus());
                vstd::arithmetic::div_mod::lemma_small_mod(a, fr_modulus());
                vstd::arithmetic::div_mod::lemma_small_mod(b, fr_modulus());
            }
            lemma_assigned(*self, c);
            if self.assigned() {
                lemma_statement(*self, c);
            }
        }
        c
    }
}

/// A list of missing values.
fn missing<T>(n: usize) -> (list: Vec<Option<T>>)
    ensures
        list@ == Seq::new(n as nat, |i: int| None::<T>),
{
    let mut list: Vec<Option<T>> = Vec::new();
    let mut i: usize = 0;
    while i < n
        invariant
            i <= n,
            list@ == Seq::new(i as nat, |k: int| None::<T>),
        decreases n - i,
    {
        list.push(None);
        i = i + 1;
        proof {
            assert(list@ =~= Seq::new(i as nat, |k: int| None::<T>));
        }
    }
    list
}

proof fn lemma_all_spent_next(asg: Assignment, depth: nat, n: nat)
    ensures
        all_spent_ok(asg, depth, n + 1) == (all_spent_ok(asg, depth, n) && spent_ok(
            nth_spent(asg, depth, n),
            depth,
            asg.inputs[0],
            asg.inputs[1 + n as int],
        )),
{
}

proof fn lemma_all_created_next(asg: Assignment, depth: nat, nullifiers: nat, n_in: nat, n: nat)
    ensures
        all_created_ok(asg, depth, nullifiers, n_in, n + 1) == (all_created_ok(
            asg,
            depth,
            nullifiers,
            n_in,
            n,
        ) && created_ok(nth_created(asg, depth, n_in, n), asg.inputs[1 + nullifiers + n as int])),
{
}

proof fn lemma_next(i: nat, step: nat)
    ensures
        (i + 1) * step == i * step + step,
{
    assert((i + 1) * step == i * step + step) by (nonlinear_arith);
}

/// A sum kept in the field grows by a value.
proof fn lemma_running_sum(total: nat, value: nat)
    requires
        value < fr_modulus(),
    ensures
        fr_add(total % fr_modulus(), value) == (total + value) % fr_modulus(),
{
    let r = fr_modulus() as int;
    vstd::arithmetic::div_mod::lemma_add_mod_noop(total as int, value as int, r);
    vstd::arithmetic::div_mod::lemma_small_mod(value, fr_modulus());
}

/// Values of 64 bits do not add up to the order of the field.
pub proof fn lemma_spent_total_bound(asg: Assignment, depth: nat, n: nat)
    requires
        n <= usize::MAX,
    ensures
        spent_total(asg, depth, n) <= n * 0xffff_ffff_ffff_ffff,
        spent_total(asg, depth, n) < fr_modulus(),
    decreases n,
{
    if n > 0 {
        lemma_spent_total_bound(asg, depth, (n - 1) as nat);
        lemma_le_small(bits_at(asg.bits, (n - 1) as nat * (depth + 64), 64));
    }
}

/// Values of 64 bits do not add up to the order of the field.
pub proof fn lemma_created_total_bound(asg: Assignment, depth: nat, n_in: nat, n: nat)
    requires
        n <= usize::MAX,
    ensures
        created_total(asg, depth, n_in, n) <= n * 0xffff_ffff_ffff_ffff,
        created_total(asg, depth, n_in, n) < fr_modulus(),
    decreases n,
{
    if n > 0 {
        lemma_created_total_bound(asg, depth, n_in, (n - 1) as nat);
        lemma_le_small(bits_at(asg.bits, n_in * (depth + 64) + 64 * (n - 1) as nat, 64));
    }
}

/// Where the field witnesses of a spent note stand.
proof fn lemma_spent_witnesses(spent: Seq<Option<SpentNote>>, depth: nat, n: nat)
    ensures
        all_spent_witnesses(spent, depth, n).len() == n * (depth + 2),
        all_spent_bits(spent, depth, n).len() == n * (depth + 64),
        forall|k: nat, t: int|
            k < n && 0 <= t < depth + 2 ==> #[trigger] all_spent_witnesses(spent, depth, n)[k * (
            depth + 2) + t] == spent_witnesses(spent[k as int], depth)[t],
        forall|k: nat, t: int|
            k < n && 0 <= t < depth + 64 ==> #[trigger] all_spent_bits(spent, depth, n)[k * (depth
                + 64) + t] == spent_bits(spent[k as int], depth)[t],
    decreases n,
{
    if n == 0 {
        assert(n * (depth + 2) == 0 && n * (depth + 64) == 0) by (nonlinear_arith)
            requires
                n == 0,
        ;
    } else {
        let m = (n - 1) as nat;
        lemma_spent_witnesses(spent, depth, m);
        lemma_next(m, depth + 2);
        lemma_next(m, depth + 64);
        assert forall|k: nat, t: int| k < n && 0 <= t < depth + 2 implies #[trigger]
        all_spent_witnesses(spent, depth, n)[k * (depth + 2) + t] == spent_witnesses(
            spent[k as int],
            depth,
        )[t] by {
            if k < m {
                lemma_before(k, m, depth + 2);
                assert(all_spent_witnesses(spent, depth, m)[k * (depth + 2) + t]
                    == spent_witnesses(spent[k as int], depth)[t]);
            }
        }
        assert forall|k: nat, t: int| k < n && 0 <= t < depth + 64 implies #[trigger]
        all_spent_bits(spent, depth, n)[k * (depth + 64) + t] == spent_bits(
            spent[k as int],
            depth,
        )[t] by {
            if k < m {
                lemma_before(k, m, depth + 64);
                assert(all_spent_bits(spent, depth, m)[k * (depth + 64) + t] == spent_bits(
                    spent[k as int],
                    depth,
                )[t]);
            }
        }
    }
}

proof fn lemma_before(k: nat, m: nat, step: nat)
    requires
        k < m,
    ensures
        k * step + step <= m * step,
{
    assert(k * step + step <= m * step) by (nonlinear_arith)
        requires
            k < m,
    ;
}

/// Where the witnesses of a created note stand.
proof fn lemma_created_witnesses(created: Seq<Option<NewNote>>, n: nat)
    ensures
        all_created_witnesses(created, n).len() == 2 * n,
        all_created_bits(created, n).len() == 64 * n,
        forall|k: nat, t: int|
            k < n && 0 <= t < 2 ==> #[trigger] all_created_witnesses(created, n)[2 * k + t]
                == created_witnesses(created[k as int])[t],
        forall|k: nat, t: int|
            k < n && 0 <= t < 64 ==> #[trigger] all_created_bits(created, n)[64 * k + t]
                == created_bits(created[k as int])[t],
    decreases n,
{
    if n > 0 {
        let m = (n - 1) as nat;
        lemma_created_witnesses(created, m);
        assert forall|k: nat, t: int| k < n && 0 <= t < 2 implies #[trigger]
        all_created_witnesses(created, n)[2 * k + t] == created_witnesses(
            created[k as int],
        )[t] by {
            if k < m {
                assert(all_created_witnesses(created, m)[2 * k + t] == created_witnesses(
                    created[k as int],
                )[t]);
            }
        }
        assert forall|k: nat, t: int| k < n && 0 <= t < 64 implies #[trigger]
        all_created_bits(created, n)[64 * k + t] == created_bits(created[k as int])[t] by {
            if k < m {
                assert(all_created_bits(created, m)[64 * k + t] == created_bits(
                    created[k as int],
                )[t]);
            }
        }
    }
}

spec fn all_some<T>(xs: Seq<Option<T>>) -> bool {
    forall|i: int| 0 <= i < xs.len() ==> (#[trigger] xs[i]) is Some
}

proof fn lemma_all_some_concat<T>(xs: Seq<Option<T>>, ys: Seq<Option<T>>)
    ensures
        all_some(xs + ys) == (all_some(xs) && all_some(ys)),
{
    if all_some(xs + ys) {
        assert forall|i: int| 0 <= i < xs.len() implies (#[trigger] xs[i]) is Some by {
            assert((xs + ys)[i] is Some);
        }
        assert forall|i: int| 0 <= i < ys.len() implies (#[trigger] ys[i]) is Some by {
            assert((xs + ys)[xs.len() + i] is Some);
        }
    }
}

proof fn lemma_spent_given(spent: Seq<Option<SpentNote>>, depth: nat, n: nat)
    ensures
        all_some(all_spent_witnesses(spent, depth, n)) == (forall|i: int|
            0 <= i < n ==> (#[trigger] spent[i]) is Some),
        all_some(all_spent_bits(spent, depth, n)) == (forall|i: int|
            0 <= i < n ==> (#[trigger] spent[i]) is Some),
    decreases n,
{
    if n > 0 {
        let m = (n - 1) as nat;
        lemma_spent_given(spent, depth, m);
        let w = spent_witnesses(spent[m as int], depth);
        let b = spent_bits(spent[m as int], depth);
        lemma_all_some_concat(all_spent_witnesses(spent, depth, m), w);
        lemma_all_some_concat(all_spent_bits(spent, depth, m), b);
        assert(all_some(w) == (spent[m as int] is Some)) by {
            assert(w[0] is Some == (spent[m as int] is Some));
        }
        assert(all_some(b) == (spent[m as int] is Some)) by {
            assert(b[0] is Some == (spent[m as int] is Some));
        }
    }
}

proof fn lemma_created_given(created: Seq<Option<NewNote>>, n: nat)
    ensures
        all_some(all_created_witnesses(created, n)) == (forall|i: int|
            0 <= i < n ==> (#[trigger] created[i]) is Some),
        all_some(all_created_bits(created, n)) == (forall|i: int|
            0 <= i < n ==> (#[trigger] created[i]) is Some),
    decreases n,
{
    if n > 0 {
        let m = (n - 1) as nat;
        lemma_created_given(created, m);
        let w = created_witnesses(created[m as int]);
        let b = created_bits(created[m as int]);
        lemma_all_some_concat(all_created_witnesses(created, m), w);
        lemma_all_some_concat(all_created_bits(created, m), b);
        assert(all_some(w) == (created[m as int] is Some)) by {
            assert(w[0] is Some == (created[m as int] is Some));
        }
        assert(all_some(b) == (created[m as int] is Some)) by {
            assert(b[0] is Some == (created[m as int] is Some));
        }
    }
}

/// The built circuit misses a value where the description does.
proof fn lemma_assigned(t: TransferCircuit, c: Circuit)
    requires
        t.built(c),
    ensures
        t.assigned() == c.assigned(),
{
    let d = t.depth as nat;
    lemma_spent_given(t.spent@, d, t.n_in());
    lemma_created_given(t.created@, t.n_out());
    lemma_all_some_concat(
        all_spent_witnesses(t.spent@, d, t.n_in()),
        all_created_witnesses(t.created@, t.n_out()),
    );
    lemma_all_some_concat(
        all_spent_bits(t.spent@, d, t.n_in()),
        all_created_bits(t.created@, t.n_out()),
    );
    lemma_all_some_concat(seq![t.root], t.nullifiers@);
    lemma_all_some_concat(seq![t.root] + t.nullifiers@, t.new_commitments@);
    assert(all_some(seq![t.root]) == (t.root is Some)) by {
        assert(seq![t.root][0] == t.root);
    }
    assert(c.assigned() == (all_some(c.inputs@) && all_some(c.witnesses@) && all_some(c.bits@)));
}

/// The low 64 bits of a machine word spell it.
pub proof fn lemma_word_bits(v: u64)
    ensures
        le_nat(index_bits(v as nat, 64)) == v,
{
    crate::merkle::lemma_index_bits(v as nat, 64, 64);
    vstd::arithmetic::power2::lemma2_to64();
    crate::merkle::lemma_ancestor_root(v as nat, 64);
}

proof fn lemma_decode_spent(t: TransferCircuit, c: Circuit, k: nat)
    requires
        t.wf(),
        t.built(c),
        t.assigned(),
        k < t.n_in(),
    ensures
        nth_spent(c.assignment(), t.depth as nat, k) == t.spent@[k as int]->0.secret(
            t.depth as nat,
        ),
{
    let d = t.depth as nat;
    let asg = c.assignment();
    let s = t.spent@[k as int]->0;
    let ws = all_spent_witnesses(t.spent@, d, t.n_in());
    let bs = all_spent_bits(t.spent@, d, t.n_in());
    lemma_spent_witnesses(t.spent@, d, t.n_in());
    lemma_before(k, t.n_in(), d + 2);
    lemma_before(k, t.n_in(), d + 64);
    assert(t.spent@[k as int] is Some);
    let w = k * (d + 2);
    let b = k * (d + 64);
    assert forall|x: int| 0 <= x < d + 2 implies asg.witnesses[w + x] == (
    #[trigger] spent_witnesses(t.spent@[k as int], d)[x])->0.value() by {
        assert(ws[w + x] == spent_witnesses(t.spent@[k as int], d)[x]);
        assert(c.witnesses@[w + x] == ws[w + x]);
    }
    assert forall|x: int| 0 <= x < d + 64 implies asg.bits[b + x] == (
    #[trigger] spent_bits(t.spent@[k as int], d)[x])->0 by {
        assert(bs[b + x] == spent_bits(t.spent@[k as int], d)[x]);
        assert(c.bits@[b + x] == bs[b + x]);
    }
    let got = nth_spent(asg, d, k);
    let want = s.secret(d);
    assert(got.sk == want.sk) by {
        assert(spent_witnesses(t.spent@[k as int], d)[0] == Some(s.sk));
    }
    assert(got.blinding == want.blinding) by {
        assert(spent_witnesses(t.spent@[k as int], d)[1] == Some(s.blinding));
    }
    assert(got.siblings =~= want.siblings) by {
        assert forall|l: int| 0 <= l < d implies got.siblings[l] == want.siblings[l] by {
            assert(spent_witnesses(t.spent@[k as int], d)[2 + l] == Some(s.path.siblings@[l]));
        }
    }
    assert(bits_at(asg.bits, b, 64) =~= index_bits(s.value as nat, 64)) by {
        assert forall|x: int| 0 <= x < 64 implies bits_at(asg.bits, b, 64)[x] == index_bits(
            s.value as nat,
            64,
        )[x] by {
            assert(spent_bits(t.spent@[k as int], d)[x] == bit_stream(Some(s.value), 64)[x]);
        }
    }
    lemma_word_bits(s.value);
    assert(got.index_bits =~= want.index_bits) by {
        assert forall|x: int| 0 <= x < d implies got.index_bits[x] == want.index_bits[x] by {
            assert(spent_bits(t.spent@[k as int], d)[64 + x] == bit_stream(
                Some(s.path.leaf_index),
                d,
            )[x]);
        }
    }
}

proof fn lemma_decode_created(t: TransferCircuit, c: Circuit, k: nat)
    requires
        t.wf(),
        t.built(c),
        t.assigned(),
        k < t.n_out(),
    ensures
        nth_created(c.assignment(), t.depth as nat, t.n_in(), k)
            == t.created@[k as int]->0.secret(),
{
    let d = t.depth as nat;
    let asg = c.assignment();
    let n = t.created@[k as int]->0;
    let ws = all_created_witnesses(t.created@, t.n_out());
    let bs = all_created_bits(t.created@, t.n_out());
    lemma_spent_witnesses(t.spent@, d, t.n_in());
    lemma_created_witnesses(t.created@, t.n_out());
    assert(t.created@[k as int] is Some);
    let w = t.n_in() * (d + 2);
    let b = t.n_in() * (d + 64);
    assert forall|x: int| 0 <= x < 2 implies asg.witnesses[w + 2 * k + x] == (
    #[trigger] created_witnesses(t.created@[k as int])[x])->0.value() by {
        assert(ws[2 * k + x] == created_witnesses(t.created@[k as int])[x]);
        assert(c.witnesses@[w + (2 * k + x)] == ws[2 * k + x]);
    }
    let got = nth_created(asg, d, t.n_in(), k);
    assert(got.owner_pk == n.owner_pk.value()) by {
        assert(created_witnesses(t.created@[k as int])[0] == Some(n.owner_pk));
    }
    assert(got.blinding == n.blinding.value()) by {
        assert(created_witnesses(t.created@[k as int])[1] == Some(n.blinding));
    }
    assert(bits_at(asg.bits, b + 64 * k, 64) =~= index_bits(n.value as nat, 64)) by {
        assert forall|x: int| 0 <= x < 64 implies bits_at(asg.bits, b + 64 * k, 64)[x]
            == index_bits(n.value as nat, 64)[x] by {
            assert(bs[64 * k + x] == created_bits(t.created@[k as int])[x]);
            assert(c.bits@[b + (64 * k + x)] == bs[64 * k + x]);
        }
    }
    lemma_word_bits(n.value);
}

proof fn lemma_totals(t: TransferCircuit, c: Circuit, n: nat)
    requires
        t.wf(),
        t.built(c),
        t.assigned(),
    ensures
        n <= t.n_in() ==> spent_total(c.assignment(), t.depth as nat, n) == t.spending(n),
        n <= t.n_out() ==> created_total(c.assignment(), t.depth as nat, t.n_in(), n)
            == t.creating(n),
    decreases n,
{
    if n > 0 {
        let m = (n - 1) as nat;
        lemma_totals(t, c, m);
        if n <= t.n_in() {
            lemma_decode_spent(t, c, m);
        }
        if n <= t.n_out() {
            lemma_decode_created(t, c, m);
        }
    }
}

/// The values that the built circuit holds satisfy it if and only if the
/// notes of the description meet the transfer relation.
proof fn lemma_statement(t: TransferCircuit, c: Circuit)
    requires
        t.wf(),
        t.built(c),
        t.assigned(),
    ensures
        t.relation(c.assignment()) == t.statement(),
{
    let d = t.depth as nat;
    let asg = c.assignment();
    lemma_totals(t, c, t.n_in());
    lemma_totals(t, c, t.n_out());
    assert(asg.inputs[0] == t.root->0.value()) by {
        assert(c.inputs@[0] == t.root);
    }
    assert forall|i: int| 0 <= i < t.n_in() implies asg.inputs[1 + i] == (
    #[trigger] t.nullifiers@[i])->0.value() by {
        assert(c.inputs@[1 + i] == t.nullifiers@[i]);
    }
    assert forall|j: int| 0 <= j < t.n_out() implies asg.inputs[1 + t.nullifiers@.len() + j] == (
    #[trigger] t.new_commitments@[j])->0.value() by {
        assert(c.inputs@[1 + t.nullifiers@.len() + j] == t.new_commitments@[j]);
    }
    if t.relation(asg) {
        assert forall|i: int| 0 <= i < t.n_in() implies spent_ok(
            (#[trigger] t.spent@[i])->0.secret(d),
            d,
            t.root->0.value(),
            t.nullifiers@[i]->0.value(),
        ) by {
            lemma_decode_spent(t, c, i as nat);
            assert(asg.inputs[1 + i] == t.nullifiers@[i]->0.value());
        }
        assert forall|j: int| 0 <= j < t.n_out() implies (
        #[trigger] t.created@[j])->0.committed() == t.new_commitments@[j]->0.value() by {
            lemma_decode_created(t, c, j as nat);
            assert(asg.inputs[1 + t.nullifiers@.len() + j] == t.new_commitments@[j]->0.value());
        }
    }
    if t.statement() {
        assert forall|i: nat| i < t.n_in() implies spent_ok(
            #[trigger] nth_spent(asg, d, i),
            d,
            asg.inputs[0],
            asg.inputs[1 + i as int],
        ) by {
            lemma_decode_spent(t, c, i);
            assert(asg.inputs[1 + i as int] == t.nullifiers@[i as int]->0.value());
            assert(t.spent@[i as int] is Some);
        }
        assert forall|j: nat| j < t.n_out() implies created_ok(
            #[trigger] nth_created(asg, d, t.n_in(), j),
            asg.inputs[1 + t.nullifiers@.len() + j as int],
        ) by {
            lemma_decode_created(t, c, j);
            assert(asg.inputs[1 + t.nullifiers@.len() + j as int]
                == t.new_commitments@[j as int]->0.value());
            assert(t.created@[j as int] is Some);
        }
    }
}

/// **No inflation.** Whatever a prover puts in, an assignment that meets the
/// transfer relation spends exactly as much as it creates, as integers, and
/// every note's value is below `2^64`.
pub proof fn lemma_no_inflation(
    asg: Assignment,
    depth: nat,
    nullifiers: nat,
    n_in: nat,
    n_out: nat,
)
    requires
        transfer_relation(asg, depth, nullifiers, n_in, n_out),
    ensures
        spent_total(asg, depth, n_in) == created_total(asg, depth, n_in, n_out),
        forall|i: nat|
            i < n_in ==> (#[trigger] nth_spent(asg, depth, i)).value < 0x1_0000_0000_0000_0000,
        forall|j: nat|
            j < n_out ==> (#[trigger] nth_created(asg, depth, n_in, j)).value
                < 0x1_0000_0000_0000_0000,
{
    assert forall|i: nat| i < n_in implies (#[trigger] nth_spent(asg, depth, i)).value
        < 0x1_0000_0000_0000_0000 by {
        lemma_le_small(bits_at(asg.bits, i * (depth + 64), 64));
    }
    assert forall|j: nat| j < n_out implies (#[trigger] nth_created(asg, depth, n_in, j)).value
        < 0x1_0000_0000_0000_0000 by {
        lemma_le_small(bits_at(asg.bits, n_in * (depth + 64) + 64 * j, 64));
    }
}

/// **Membership is skipped for dummies only.** A spent note whose path does
/// not lead to the public root is worth nothing.
pub proof fn lemma_foreign_notes_are_worthless(
    asg: Assignment,
    depth: nat,
    nullifiers: nat,
    n_in: nat,
    n_out: nat,
    i: nat,
)
    requires
        transfer_relation(asg, depth, nullifiers, n_in, n_out),
        i < n_in,
    ensures
        ({
            let s = nth_spent(asg, depth, i);
            climb(
                commitment_of(s.value, pk_of(s.sk), s.blinding),
                s.siblings,
                s.index_bits,
                depth,
            ) != asg.inputs[0] ==> s.value == 0
        }),
{
    assert(spent_ok(
        nth_spent(asg, depth, i),
        depth,
        asg.inputs[0],
        asg.inputs[1 + i as int],
    ));
}

/// **Every public input is constrained.** Two satisfying assignments with the
/// same witnesses have the same nullifiers and commitments, and the same root
/// if some spent note is worth something.
pub proof fn lemma_transfer_inputs_pinned(
    a: Assignment,
    b: Assignment,
    depth: nat,
    nullifiers: nat,
    n_in: nat,
    n_out: nat,
)
    requires
        transfer_relation(a, depth, nullifiers, n_in, n_out),
        transfer_relation(b, depth, nullifiers, n_in, n_out),
        a.witnesses == b.witnesses,
        a.bits == b.bits,
    ensures
        forall|i: int| 0 <= i < n_in ==> #[trigger] a.inputs[1 + i] == b.inputs[1 + i],
        forall|j: int|
            0 <= j < n_out ==> #[trigger] a.inputs[1 + nullifiers + j] == b.inputs[1 + nullifiers
                + j],
        (exists|i: nat| i < n_in && (#[trigger] nth_spent(a, depth, i)).value != 0)
            ==> a.inputs[0] == b.inputs[0],
{
    assert forall|i: nat| #[trigger] nth_spent(a, depth, i) == nth_spent(b, depth, i) by {}
    assert forall|i: int| 0 <= i < n_in implies #[trigger] a.inputs[1 + i] == b.inputs[1 + i] by {
        assert(nth_spent(a, depth, i as nat) == nth_spent(b, depth, i as nat));
    }
    assert forall|j: int| 0 <= j < n_out implies #[trigger] a.inputs[1 + nullifiers + j]
        == b.inputs[1 + nullifiers + j] by {
        assert(nth_created(a, depth, n_in, j as nat) == nth_created(b, depth, n_in, j as nat));
    }
    if exists|i: nat| i < n_in && (#[trigger] nth_spent(a, depth, i)).value != 0 {
        let i = choose|i: nat| i < n_in && (#[trigger] nth_spent(a, depth, i)).value != 0;
        assert(nth_spent(a, depth, i) == nth_spent(b, depth, i));
    }
}

/// **Spent notes are leaves, and nullifiers are theirs.** An assignment that
/// meets the transfer relation under the root of a tree names, for each spent
/// note that is worth something, a leaf that is the commitment to it under the
/// prover's key, and the note's public nullifier is the one of that key and
/// leaf; or the note's path exhibits two different pairs of nodes with one
/// hash.
pub proof fn lemma_transfer_sound(
    asg: Assignment,
    leaves: Seq<nat>,
    depth: nat,
    nullifiers: nat,
    n_in: nat,
    n_out: nat,
    i: nat,
)
    requires
        transfer_relation(asg, depth, nullifiers, n_in, n_out),
        asg.inputs[0] == root_of(leaves, depth),
        i < n_in,
    ensures
        ({
            let s = nth_spent(asg, depth, i);
            let cm = commitment_of(s.value, pk_of(s.sk), s.blinding);
            &&& s.value != 0 ==> node_of(leaves, 0, le_nat(s.index_bits)) == cm || path_collides(
                leaves,
                cm,
                s.siblings,
                s.index_bits,
            )
            &&& asg.inputs[1 + i as int] == nullifier_of(s.sk, le_nat(s.index_bits))
        }),
{
    let s = nth_spent(asg, depth, i);
    assert(spent_ok(s, depth, asg.inputs[0], asg.inputs[1 + i as int]));
    if s.value != 0 {
        let cm = commitment_of(s.value, pk_of(s.sk), s.blinding);
        lemma_membership_binding(leaves, cm, s.siblings, s.index_bits);
    }
}

} // verus!
