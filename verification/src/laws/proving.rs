//! Laws of the proving pipeline.

use crate::bytes::{be_nat, lemma_be_bytes, lemma_pow256_sizes};
use crate::circuit::values;
use crate::encoding::{fr_encoding, Proof};
use crate::field::{lemma_fr_fits, Fr};
use crate::laws::tree::{filled, folded, led, lemma_led_up, lemma_root_folds, way_up};
use crate::merkle::{
    index_bits, lemma_path_verifies, path_collides, root_of, siblings_of, MerkleTree,
};
use crate::note::{collides, commitment_of, Note};
use crate::poseidon::hash2_spec;
use crate::prover::{
    bundle_of_transfer, bundle_of_withdraw, check_spend, circuit_of_transfer, circuit_of_withdraw,
    finish_transfer, finish_withdraw, lemma_passing_spend, no_siblings, prepare_transfer,
    prepare_withdraw, proven_transfer, proven_withdraw, prove_transfer, prove_withdraw, rebuild_tree,
    transfer_mismatch, withdraw_mismatch, Output, ProveError, Spend, TransferBundle,
    WithdrawBundle,
};
use crate::transfer::TransferCircuit;
use crate::withdraw::WithdrawCircuit;
use vstd::arithmetic::power2::lemma2_to64;
use vstd::prelude::*;

verus! {

/// The commitment to a note: the hash of the hash of value and owner, with the
/// blinding.
pub open spec fn sealed(value: u64, owner_pk: nat, blinding: nat) -> nat {
    hash2_spec(hash2_spec(value as nat, owner_pk), blinding)
}

/// The commitment to the note that the holder of a key spends.
pub open spec fn own_note(s: Spend) -> nat {
    sealed(s.value, hash2_spec(1, s.sk.value()), s.blinding.value())
}

/// Hashing a spend's note up from its leaf, beside the other nodes of the tree
/// with `2^20` leaves, leads to the root.
pub open spec fn fits(leaves: Seq<nat>, s: Spend) -> bool {
    folded(filled(leaves, 0x10_0000), 20) == seq![
        led(own_note(s), way_up(leaves, 20, s.leaf_index as nat), s.leaf_index as nat),
    ]
}

proof fn lemma_fits(leaves: Seq<nat>, s: Spend)
    requires
        leaves.len() <= 0x10_0000,
        s.leaf_index < leaves.len(),
    ensures
        fits(leaves, s) <==> s.mismatch(leaves, 20) is None,
{
    lemma2_to64();
    lemma_root_folds(leaves, 20);
    lemma_led_up(leaves, 20, s.leaf_index as nat, own_note(s));
    let got = led(own_note(s), way_up(leaves, 20, s.leaf_index as nat), s.leaf_index as nat);
    assert(seq![got][0] == got);
    assert(seq![root_of(leaves, 20)][0] == root_of(leaves, 20));
}

/// **The note at its leaf fits.** A spend of the note whose commitment stands
/// at the leaf it names leads to the root, wherever the leaf is.
pub proof fn lemma_note_fits(leaves: Seq<nat>, s: Spend)
    requires
        leaves.len() <= 0x10_0000,
        s.leaf_index < leaves.len(),
        leaves[s.leaf_index as int] == own_note(s),
    ensures
        fits(leaves, s),
        s.mismatch(leaves, 20) is None,
        withdraw_mismatch(leaves, s) is None,
{
    lemma2_to64();
    lemma_path_verifies(leaves, 20, s.leaf_index as nat);
    lemma_fits(leaves, s);
}

/// **Only the note at its leaf fits.** A spend that leads to the root opens the
/// commitment at its leaf, or its path exhibits a collision of the hash.
pub proof fn lemma_fitting_note(leaves: Seq<nat>, s: Spend)
    requires
        leaves.len() <= 0x10_0000,
        s.leaf_index < leaves.len(),
        fits(leaves, s),
    ensures
        leaves[s.leaf_index as int] == own_note(s) || path_collides(
            leaves,
            own_note(s),
            siblings_of(leaves, 20, s.leaf_index as nat),
            index_bits(s.leaf_index as nat, 20),
        ),
{
    lemma_fits(leaves, s);
    lemma_passing_spend(s, leaves);
}

/// **Rebuilding the tree.** A log of at most `2^20` commitments is rebuilt, in
/// order; a longer one is refused, and its length told.
pub proof fn lemma_rebuilt(
    commitments: &[Fr],
    rebuilt: Result<MerkleTree, ProveError>,
)
    requires
        call_ensures(rebuild_tree, (commitments,), rebuilt),
    ensures
        commitments@.len() > 0x10_0000 ==> rebuilt == Err::<MerkleTree, ProveError>(
            ProveError::LogTooLong { size: commitments@.len() as usize },
        ),
        commitments@.len() <= 0x10_0000 ==> rebuilt is Ok,
        rebuilt matches Ok(tree) ==> {
            &&& tree.wf()
            &&& tree.height() == 20
            &&& tree.leaves().len() == commitments@.len()
            &&& forall|i: int|
                0 <= i < commitments@.len() ==> tree.leaves()[i] == (#[trigger] commitments@[i])
                    .value()
        },
{
}

/// **Checking a spend.** A leaf that the tree does not have is reported, with
/// the tree's size; a note that does not lead from its leaf to the root is
/// reported as a mismatch; any other passes, and is handed back as the note of
/// the key's holder.
pub proof fn lemma_spend_checked(tree: &MerkleTree, s: &Spend, checked: Result<Note, ProveError>)
    requires
        call_ensures(check_spend, (tree, s), checked),
        tree.height() == 20,
        tree.leaves().len() <= 0x10_0000,
    ensures
        s.leaf_index >= tree.leaves().len() ==> checked == Err::<Note, ProveError>(
            ProveError::LeafOutOfRange {
                index: s.leaf_index,
                size: tree.leaves().len() as usize,
            },
        ),
        s.leaf_index < tree.leaves().len() && !fits(tree.leaves(), *s) ==> checked == Err::<
            Note,
            ProveError,
        >(ProveError::NoteMismatch { leaf: s.leaf_index }),
        s.leaf_index < tree.leaves().len() && fits(tree.leaves(), *s) ==> checked is Ok,
        checked matches Ok(note) ==> {
            &&& note.value == s.value
            &&& note.owner_pk.value() == hash2_spec(1, s.sk.value())
            &&& note.blinding == s.blinding
        },
{
    if s.leaf_index < tree.leaves().len() {
        lemma_fits(tree.leaves(), *s);
    }
}

/// A circuit holds exactly what a transfer says: the root over the whole log; a
/// nullifier and a witness for each spend, at its leaf, or at leaf zero for a
/// dummy; and a commitment and a note for each output, of its own owner, value
/// and blinding.
pub open spec fn describes_transfer(
    c: TransferCircuit,
    leaves: Seq<nat>,
    spends: [Spend; 2],
    outputs: [Output; 2],
) -> bool {
    &&& c.depth == 20
    &&& c.root matches Some(root) && folded(filled(leaves, 0x10_0000), 20) == seq![root.value()]
    &&& c.nullifiers@.len() == 2
    &&& c.spent@.len() == 2
    &&& c.new_commitments@.len() == 2
    &&& c.created@.len() == 2
    &&& forall|i: int|
        0 <= i < 2 ==> {
            let s = #[trigger] spends[i];
            let at = if s.value > 0 {
                s.leaf_index as nat
            } else {
                0
            };
            &&& c.nullifiers@[i] matches Some(nf) && nf.value() == hash2_spec(
                hash2_spec(2, s.sk.value()),
                at,
            )
            &&& c.spent@[i] matches Some(note) && {
                &&& note.value == s.value
                &&& note.sk == s.sk
                &&& note.blinding == s.blinding
                &&& note.path.leaf_index == at
                &&& note.path.siblings@.len() == 20
                &&& s.value > 0 ==> values(note.path.siblings@) == way_up(leaves, 20, at)
                &&& s.value == 0 ==> forall|l: int|
                    0 <= l < 20 ==> (#[trigger] note.path.siblings@[l]).value() == 0
            }
        }
    &&& forall|i: int|
        0 <= i < 2 ==> {
            let o = #[trigger] outputs[i];
            &&& c.new_commitments@[i] matches Some(cm) && cm.value() == sealed(
                o.value,
                o.owner_pk.value(),
                o.blinding.value(),
            )
            &&& c.created@[i] matches Some(note) && note.value == o.value && note.owner_pk
                == o.owner_pk && note.blinding == o.blinding
        }
}

/// Why a spend of a transfer is refused, if it is.
pub open spec fn refused_spend(leaves: Seq<nat>, s: Spend, e: ProveError) -> bool {
    &&& s.value > 0
    &&& s.leaf_index >= leaves.len() ==> e == (ProveError::LeafOutOfRange {
        index: s.leaf_index,
        size: leaves.len() as usize,
    })
    &&& s.leaf_index < leaves.len() ==> !fits(leaves, s) && e == (ProveError::NoteMismatch {
        leaf: s.leaf_index,
    })
}

/// A spend that a transfer takes: a dummy, or a note that fits.
pub open spec fn taken(leaves: Seq<nat>, s: Spend) -> bool {
    s.value > 0 ==> s.leaf_index < leaves.len() && fits(leaves, s)
}

/// Why a transfer is refused, if it is: the totals differ, the log is too long,
/// or the first or the second spend is refused, in this order.
pub open spec fn refused_transfer(
    leaves: Seq<nat>,
    spends: [Spend; 2],
    outputs: [Output; 2],
    e: ProveError,
) -> bool {
    let spending = spends[0].value + spends[1].value;
    let creating = outputs[0].value + outputs[1].value;
    if spending != creating {
        e == (ProveError::ValueMismatch { spending: spending as u128, creating: creating as u128 })
    } else if leaves.len() > 0x10_0000 {
        e == (ProveError::LogTooLong { size: leaves.len() as usize })
    } else if !taken(leaves, spends[0]) {
        refused_spend(leaves, spends[0], e)
    } else {
        !taken(leaves, spends[1]) && refused_spend(leaves, spends[1], e)
    }
}

/// A transfer that nothing speaks against: the totals are the same, the log has
/// at most `2^20` commitments, and both spends are taken.
pub open spec fn allowed_transfer(
    leaves: Seq<nat>,
    spends: [Spend; 2],
    outputs: [Output; 2],
) -> bool {
    &&& spends[0].value + spends[1].value == outputs[0].value + outputs[1].value
    &&& leaves.len() <= 0x10_0000
    &&& taken(leaves, spends[0])
    &&& taken(leaves, spends[1])
}

proof fn lemma_allowed(leaves: Seq<nat>, spends: [Spend; 2], outputs: [Output; 2])
    ensures
        allowed_transfer(leaves, spends, outputs) <==> transfer_mismatch(
            leaves,
            spends,
            outputs,
        ) is None,
        transfer_mismatch(leaves, spends, outputs) matches Some(e) ==> refused_transfer(
            leaves,
            spends,
            outputs,
            e,
        ),
{
    if leaves.len() <= 0x10_0000 {
        if spends[0].leaf_index < leaves.len() {
            lemma_fits(leaves, spends[0]);
        }
        if spends[1].leaf_index < leaves.len() {
            lemma_fits(leaves, spends[1]);
        }
    }
}

proof fn lemma_describes_transfer(
    c: TransferCircuit,
    leaves: Seq<nat>,
    spends: [Spend; 2],
    outputs: [Output; 2],
)
    requires
        allowed_transfer(leaves, spends, outputs),
        circuit_of_transfer(c, leaves, spends, outputs),
    ensures
        describes_transfer(c, leaves, spends, outputs),
{
    lemma2_to64();
    lemma_root_folds(leaves, 20);
    if spends[0].value > 0 {
        lemma_led_up(leaves, 20, spends[0].leaf_index as nat, 0);
    }
    if spends[1].value > 0 {
        lemma_led_up(leaves, 20, spends[1].leaf_index as nat, 0);
    }
    lemma_zero_siblings(c, 0);
    lemma_zero_siblings(c, 1);
}

proof fn lemma_zero_siblings(c: TransferCircuit, i: int)
    ensures
        values(c.spent@[i]->0.path.siblings@) == no_siblings() ==> forall|l: int|
            0 <= l < 20 ==> (#[trigger] c.spent@[i]->0.path.siblings@[l]).value() == 0,
{
    let siblings = c.spent@[i]->0.path.siblings@;
    if values(siblings) == no_siblings() {
        assert forall|l: int| 0 <= l < 20 implies (#[trigger] siblings[l]).value() == 0 by {
            assert(values(siblings).len() == siblings.len());
            assert(values(siblings)[l] == no_siblings()[l]);
        }
    }
}

/// **Preparing a transfer.** It is prepared if and only if the totals are the
/// same, the log fits the tree, and each spend that is worth something leads
/// from its leaf to the root; the circuit then holds exactly what was asked
/// for, and is satisfied by what it holds. Otherwise the first fault is told.
pub proof fn lemma_transfer_prepared(
    commitments: &[Fr],
    spends: &[Spend; 2],
    outputs: &[Output; 2],
    prepared: Result<TransferCircuit, ProveError>,
)
    requires
        call_ensures(prepare_transfer, (commitments, spends, outputs), prepared),
    ensures
        prepared is Ok <==> allowed_transfer(values(commitments@), *spends, *outputs),
        prepared matches Err(e) ==> refused_transfer(values(commitments@), *spends, *outputs, e),
        prepared matches Ok(c) ==> {
            &&& describes_transfer(c, values(commitments@), *spends, *outputs)
            &&& c.wf()
            &&& c.assigned()
            &&& c.statement()
        },
{
    lemma_allowed(values(commitments@), *spends, *outputs);
    if let Ok(c) = prepared {
        lemma_describes_transfer(c, values(commitments@), *spends, *outputs);
    }
}

/// **Matching notes can be transferred.** Where the commitments of the notes
/// that are worth something stand at the leaves that the spends name, and the
/// totals are the same, nothing speaks against the transfer.
pub proof fn lemma_matching_transfer(
    commitments: &[Fr],
    spends: &[Spend; 2],
    outputs: &[Output; 2],
    prepared: Result<TransferCircuit, ProveError>,
)
    requires
        call_ensures(prepare_transfer, (commitments, spends, outputs), prepared),
        commitments@.len() <= 0x10_0000,
        spends[0].value + spends[1].value == outputs[0].value + outputs[1].value,
        forall|i: int|
            0 <= i < 2 && (#[trigger] spends[i]).value > 0 ==> {
                &&& spends[i].leaf_index < commitments@.len()
                &&& commitments@[spends[i].leaf_index as int].value() == own_note(spends[i])
            },
    ensures
        prepared is Ok,
        transfer_mismatch(values(commitments@), *spends, *outputs) is None,
{
    let leaves = values(commitments@);
    if spends[0].value > 0 {
        lemma_note_fits(leaves, spends[0]);
    }
    if spends[1].value > 0 {
        lemma_note_fits(leaves, spends[1]);
    }
    lemma_allowed(leaves, *spends, *outputs);
}

/// The bundle spells what a circuit makes public and the proof.
pub open spec fn spells_transfer(b: TransferBundle, c: TransferCircuit, proof: Proof) -> bool {
    &&& b.proof.encodes(proof)
    &&& c.root matches Some(root) && be_nat(b.root@) == root.value()
    &&& b.nullifiers@.len() == c.nullifiers@.len()
    &&& forall|i: int|
        0 <= i < b.nullifiers@.len() ==> be_nat((#[trigger] b.nullifiers@[i])@)
            == c.nullifiers@[i]->0.value()
    &&& b.new_commitments@.len() == c.new_commitments@.len()
    &&& forall|i: int|
        0 <= i < b.new_commitments@.len() ==> be_nat((#[trigger] b.new_commitments@[i])@)
            == c.new_commitments@[i]->0.value()
}

proof fn lemma_scalar_spelled(x: Fr)
    ensures
        be_nat(fr_encoding(x.value())) == x.value(),
{
    lemma_fr_fits(x);
    lemma_pow256_sizes();
    lemma_be_bytes(x.value(), 32);
}

/// **Finishing a transfer.** The bundle spells the circuit's public inputs, in
/// their places, and the proof.
pub proof fn lemma_transfer_finished(circuit: &TransferCircuit, proof: &Proof, b: TransferBundle)
    requires
        call_ensures(finish_transfer, (circuit, proof), b),
        circuit.assigned(),
    ensures
        spells_transfer(b, *circuit, *proof),
{
    lemma_scalar_spelled(circuit.root->0);
    assert forall|i: int| 0 <= i < b.nullifiers@.len() implies be_nat(
        (#[trigger] b.nullifiers@[i])@,
    ) == circuit.nullifiers@[i]->0.value() by {
        lemma_scalar_spelled(circuit.nullifiers@[i]->0);
    }
    assert forall|i: int| 0 <= i < b.new_commitments@.len() implies be_nat(
        (#[trigger] b.new_commitments@[i])@,
    ) == circuit.new_commitments@[i]->0.value() by {
        lemma_scalar_spelled(circuit.new_commitments@[i]->0);
    }
}

/// **Proving a transfer.** A transfer that is not allowed is refused for its
/// first fault. Of one that is, the prover is handed the circuit that says what
/// was asked for; where it fails, that failure is told, and where it gives a
/// proof, the bundle carries it, with the root of the whole log, the nullifiers
/// of the spends and, for each output, the commitment to its value, under its
/// owner and with its blinding.
pub proof fn lemma_transfer_proven<P: FnOnce(&TransferCircuit) -> Result<Proof, String>>(
    prove: P,
    commitments: &[Fr],
    spends: &[Spend; 2],
    outputs: &[Output; 2],
    proven: Result<TransferBundle, ProveError>,
)
    requires
        call_ensures(prove_transfer::<P>, (prove, commitments, spends, outputs), proven),
    ensures
        !allowed_transfer(values(commitments@), *spends, *outputs) ==> (proven matches Err(e)
            && refused_transfer(values(commitments@), *spends, *outputs, e)),
        allowed_transfer(values(commitments@), *spends, *outputs) ==> exists|
            c: TransferCircuit,
            r: Result<Proof, String>,
        |
            {
                &&& describes_transfer(c, values(commitments@), *spends, *outputs)
                &&& #[trigger] call_ensures(prove, (&c,), r)
                &&& r is Err ==> proven == Err::<TransferBundle, ProveError>(
                    ProveError::Prover(r->Err_0),
                )
                &&& r is Ok ==> (proven matches Ok(b) && spells_transfer(b, c, r->Ok_0))
            },
        proven matches Ok(b) ==> {
            &&& folded(filled(values(commitments@), 0x10_0000), 20) == seq![be_nat(b.root@)]
            &&& b.nullifiers@.len() == 2
            &&& forall|i: int|
                0 <= i < 2 ==> be_nat((#[trigger] b.nullifiers@[i])@) == hash2_spec(
                    hash2_spec(2, spends[i].sk.value()),
                    if spends[i].value > 0 {
                        spends[i].leaf_index as nat
                    } else {
                        0
                    },
                )
            &&& b.new_commitments@.len() == 2
            &&& forall|i: int|
                0 <= i < 2 ==> be_nat((#[trigger] b.new_commitments@[i])@) == sealed(
                    outputs[i].value,
                    outputs[i].owner_pk.value(),
                    outputs[i].blinding.value(),
                )
        },
{
    let leaves = values(commitments@);
    lemma_allowed(leaves, *spends, *outputs);
    assert(proven_transfer(prove, leaves, *spends, *outputs, proven));
    if allowed_transfer(leaves, *spends, *outputs) {
        let (c, r) = choose|c: TransferCircuit, r: Result<Proof, String>|
            {
                &&& circuit_of_transfer(c, leaves, *spends, *outputs)
                &&& #[trigger] call_ensures(prove, (&c,), r)
                &&& match r {
                    Ok(proof) => proven matches Ok(bundle) && bundle_of_transfer(
                        bundle,
                        leaves,
                        *spends,
                        *outputs,
                        proof,
                    ),
                    Err(why) => proven == Err::<TransferBundle, ProveError>(
                        ProveError::Prover(why),
                    ),
                }
            };
        lemma_describes_transfer(c, leaves, *spends, *outputs);
        lemma_scalar_spelled(c.root->0);
        lemma_scalar_spelled(c.nullifiers@[0]->0);
        lemma_scalar_spelled(c.nullifiers@[1]->0);
        lemma_scalar_spelled(c.new_commitments@[0]->0);
        lemma_scalar_spelled(c.new_commitments@[1]->0);
        assert(spends[0] == spends@[0] && spends[1] == spends@[1]);
        assert(outputs[0] == outputs@[0] && outputs[1] == outputs@[1]);
    }
}

/// **Every output gets its own note.** Where a transfer is proven, the i-th new
/// commitment spells the commitment to the i-th output's value, under the i-th
/// output's owner, with the i-th output's blinding.
pub proof fn lemma_commitments_proven<P: FnOnce(&TransferCircuit) -> Result<Proof, String>>(
    prove: P,
    leaves: Seq<nat>,
    spends: [Spend; 2],
    outputs: [Output; 2],
    bundle: TransferBundle,
)
    requires
        proven_transfer(prove, leaves, spends, outputs, Ok::<TransferBundle, ProveError>(bundle)),
    ensures
        bundle.new_commitments@.len() == 2,
        forall|i: int|
            0 <= i < 2 ==> (#[trigger] bundle.new_commitments@[i])@ == fr_encoding(
                commitment_of(
                    outputs[i].value as nat,
                    outputs[i].owner_pk.value(),
                    outputs[i].blinding.value(),
                ),
            ),
{
}

/// A circuit holds exactly what a withdrawal says: the root over the whole log,
/// the nullifier of the spend at its leaf, the recipient, the note's value, and
/// the witness of the spend.
pub open spec fn describes_withdrawal(
    c: WithdrawCircuit,
    leaves: Seq<nat>,
    s: Spend,
    binding: Fr,
) -> bool {
    &&& c.depth == 20
    &&& c.root matches Some(root) && folded(filled(leaves, 0x10_0000), 20) == seq![root.value()]
    &&& c.nullifier matches Some(nf) && nf.value() == hash2_spec(
        hash2_spec(2, s.sk.value()),
        s.leaf_index as nat,
    )
    &&& c.recipient_binding == Some(binding)
    &&& c.amount matches Some(amount) && amount.value() == s.value
    &&& c.sk == Some(s.sk)
    &&& c.blinding == Some(s.blinding)
    &&& c.path matches Some(path) && path.leaf_index == s.leaf_index && values(path.siblings@)
        == way_up(leaves, 20, s.leaf_index as nat)
}

/// Why a withdrawal is refused: the log is too long, the leaf does not exist,
/// or the note does not lead from it to the root, in this order.
pub open spec fn refused_withdrawal(leaves: Seq<nat>, s: Spend, e: ProveError) -> bool {
    if leaves.len() > 0x10_0000 {
        e == (ProveError::LogTooLong { size: leaves.len() as usize })
    } else if s.leaf_index >= leaves.len() {
        e == (ProveError::LeafOutOfRange { index: s.leaf_index, size: leaves.len() as usize })
    } else {
        !fits(leaves, s) && e == (ProveError::NoteMismatch { leaf: s.leaf_index })
    }
}

/// A withdrawal that nothing speaks against: the log has at most `2^20`
/// commitments, and the note leads from its leaf to the root.
pub open spec fn allowed_withdrawal(leaves: Seq<nat>, s: Spend) -> bool {
    &&& leaves.len() <= 0x10_0000
    &&& s.leaf_index < leaves.len()
    &&& fits(leaves, s)
}

proof fn lemma_allowed_withdrawal(leaves: Seq<nat>, s: Spend)
    ensures
        allowed_withdrawal(leaves, s) <==> withdraw_mismatch(leaves, s) is None,
        withdraw_mismatch(leaves, s) matches Some(e) ==> refused_withdrawal(leaves, s, e),
{
    if leaves.len() <= 0x10_0000 && s.leaf_index < leaves.len() {
        lemma_fits(leaves, s);
    }
}

proof fn lemma_describes_withdrawal(c: WithdrawCircuit, leaves: Seq<nat>, s: Spend, binding: Fr)
    requires
        allowed_withdrawal(leaves, s),
        circuit_of_withdraw(c, leaves, s, binding),
    ensures
        describes_withdrawal(c, leaves, s, binding),
{
    lemma2_to64();
    lemma_root_folds(leaves, 20);
    lemma_led_up(leaves, 20, s.leaf_index as nat, 0);
}

/// **Preparing a withdrawal.** It is prepared if and only if the log fits the
/// tree and the note leads from its leaf to the root; the circuit then holds
/// exactly what was asked for, and is satisfied by what it holds. Otherwise the
/// first fault is told.
pub proof fn lemma_withdrawal_prepared(
    commitments: &[Fr],
    s: &Spend,
    binding: Fr,
    prepared: Result<WithdrawCircuit, ProveError>,
)
    requires
        call_ensures(prepare_withdraw, (commitments, s, binding), prepared),
    ensures
        prepared is Ok <==> allowed_withdrawal(values(commitments@), *s),
        prepared matches Err(e) ==> refused_withdrawal(values(commitments@), *s, e),
        prepared matches Ok(c) ==> {
            &&& describes_withdrawal(c, values(commitments@), *s, binding)
            &&& c.wf()
            &&& c.assigned()
            &&& c.statement()
        },
{
    lemma_allowed_withdrawal(values(commitments@), *s);
    if let Ok(c) = prepared {
        lemma_describes_withdrawal(c, values(commitments@), *s, binding);
    }
}

/// **Every note can be withdrawn.** Where the commitment of the note stands at
/// the leaf that the spend names, the last one included, the withdrawal is
/// prepared.
pub proof fn lemma_matching_withdrawal(
    commitments: &[Fr],
    s: &Spend,
    binding: Fr,
    prepared: Result<WithdrawCircuit, ProveError>,
)
    requires
        call_ensures(prepare_withdraw, (commitments, s, binding), prepared),
        commitments@.len() <= 0x10_0000,
        s.leaf_index < commitments@.len(),
        commitments@[s.leaf_index as int].value() == own_note(*s),
    ensures
        prepared is Ok,
{
    lemma_note_fits(values(commitments@), *s);
    lemma_allowed_withdrawal(values(commitments@), *s);
}

/// The bundle spells what a circuit makes public, the proof and the amount.
pub open spec fn spells_withdrawal(
    b: WithdrawBundle,
    c: WithdrawCircuit,
    proof: Proof,
    amount: u64,
) -> bool {
    &&& b.proof.encodes(proof)
    &&& c.root matches Some(root) && be_nat(b.root@) == root.value()
    &&& c.nullifier matches Some(nf) && be_nat(b.nullifier@) == nf.value()
    &&& c.recipient_binding matches Some(to) && be_nat(b.recipient_binding@) == to.value()
    &&& b.amount == amount
}

/// **Finishing a withdrawal.** The bundle spells the circuit's public inputs,
/// the proof and the amount.
pub proof fn lemma_withdrawal_finished(
    circuit: &WithdrawCircuit,
    proof: &Proof,
    amount: u64,
    b: WithdrawBundle,
)
    requires
        call_ensures(finish_withdraw, (circuit, proof, amount), b),
        circuit.assigned(),
    ensures
        spells_withdrawal(b, *circuit, *proof, amount),
{
    lemma_scalar_spelled(circuit.root->0);
    lemma_scalar_spelled(circuit.nullifier->0);
    lemma_scalar_spelled(circuit.recipient_binding->0);
}

/// **Proving a withdrawal.** A withdrawal that is not allowed is refused for
/// its first fault. Of one that is, the prover is handed the circuit that says
/// what was asked for; where it fails, that failure is told, and where it gives
/// a proof, the bundle carries it, with the root of the whole log, the note's
/// nullifier, the recipient and the note's exact value.
pub proof fn lemma_withdrawal_proven<P: FnOnce(&WithdrawCircuit) -> Result<Proof, String>>(
    prove: P,
    commitments: &[Fr],
    s: &Spend,
    binding: Fr,
    proven: Result<WithdrawBundle, ProveError>,
)
    requires
        call_ensures(prove_withdraw::<P>, (prove, commitments, s, binding), proven),
    ensures
        !allowed_withdrawal(values(commitments@), *s) ==> (proven matches Err(e)
            && refused_withdrawal(values(commitments@), *s, e)),
        allowed_withdrawal(values(commitments@), *s) ==> exists|
            c: WithdrawCircuit,
            r: Result<Proof, String>,
        |
            {
                &&& describes_withdrawal(c, values(commitments@), *s, binding)
                &&& #[trigger] call_ensures(prove, (&c,), r)
                &&& r is Err ==> proven == Err::<WithdrawBundle, ProveError>(
                    ProveError::Prover(r->Err_0),
                )
                &&& r is Ok ==> (proven matches Ok(b) && spells_withdrawal(
                    b,
                    c,
                    r->Ok_0,
                    s.value,
                ))
            },
        proven matches Ok(b) ==> {
            &&& folded(filled(values(commitments@), 0x10_0000), 20) == seq![be_nat(b.root@)]
            &&& be_nat(b.nullifier@) == hash2_spec(
                hash2_spec(2, s.sk.value()),
                s.leaf_index as nat,
            )
            &&& be_nat(b.recipient_binding@) == binding.value()
            &&& b.amount == s.value
        },
{
    let leaves = values(commitments@);
    lemma_allowed_withdrawal(leaves, *s);
    assert(proven_withdraw(prove, leaves, *s, binding, proven));
    if allowed_withdrawal(leaves, *s) {
        let (c, r) = choose|c: WithdrawCircuit, r: Result<Proof, String>|
            {
                &&& circuit_of_withdraw(c, leaves, *s, binding)
                &&& #[trigger] call_ensures(prove, (&c,), r)
                &&& match r {
                    Ok(proof) => proven matches Ok(bundle) && bundle_of_withdraw(
                        bundle,
                        leaves,
                        *s,
                        binding,
                        proof,
                    ),
                    Err(why) => proven == Err::<WithdrawBundle, ProveError>(
                        ProveError::Prover(why),
                    ),
                }
            };
        lemma_describes_withdrawal(c, leaves, *s, binding);
        lemma_scalar_spelled(c.root->0);
        lemma_scalar_spelled(c.nullifier->0);
        lemma_scalar_spelled(binding);
    }
}

/// **A created note belongs to its owner.** Once the commitment of the i-th
/// created note stands in the log, the holder of the key behind the i-th
/// requested owner can withdraw it; and whoever can withdraw it opens it by its
/// value, the i-th owner's key and its blinding, or exhibits a collision of the
/// hash.
pub proof fn lemma_created_note_spendable<
    P: FnOnce(&TransferCircuit) -> Result<Proof, String>,
>(
    prove: P,
    commitments: &[Fr],
    spends: &[Spend; 2],
    outputs: &[Output; 2],
    bundle: TransferBundle,
    i: int,
    later: &[Fr],
    s: &Spend,
    binding: Fr,
    prepared: Result<WithdrawCircuit, ProveError>,
)
    requires
        call_ensures(
            prove_transfer::<P>,
            (prove, commitments, spends, outputs),
            Ok::<TransferBundle, ProveError>(bundle),
        ),
        0 <= i < 2,
        later@.len() <= 0x10_0000,
        s.leaf_index < later@.len(),
        later@[s.leaf_index as int].value() == be_nat(bundle.new_commitments@[i]@),
        call_ensures(prepare_withdraw, (later, s, binding), prepared),
    ensures
        hash2_spec(1, s.sk.value()) == outputs[i].owner_pk.value() && s.value == outputs[i].value
            && s.blinding == outputs[i].blinding ==> prepared is Ok,
        prepared is Ok ==> {
            ||| {
                &&& hash2_spec(1, s.sk.value()) == outputs[i].owner_pk.value()
                &&& s.value == outputs[i].value
                &&& s.blinding.value() == outputs[i].blinding.value()
            }
            ||| collides(
                (s.value as nat, hash2_spec(1, s.sk.value())),
                (outputs[i].value as nat, outputs[i].owner_pk.value()),
            )
            ||| collides(
                (
                    hash2_spec(s.value as nat, hash2_spec(1, s.sk.value())),
                    s.blinding.value(),
                ),
                (
                    hash2_spec(outputs[i].value as nat, outputs[i].owner_pk.value()),
                    outputs[i].blinding.value(),
                ),
            )
            ||| path_collides(
                values(later@),
                own_note(*s),
                siblings_of(values(later@), 20, s.leaf_index as nat),
                index_bits(s.leaf_index as nat, 20),
            )
        },
{
    let leaves = values(later@);
    lemma_transfer_proven(
        prove,
        commitments,
        spends,
        outputs,
        Ok::<TransferBundle, ProveError>(bundle),
    );
    let made = bundle.new_commitments@[i];
    assert(be_nat(made@) == sealed(
        outputs[i].value,
        outputs[i].owner_pk.value(),
        outputs[i].blinding.value(),
    ));
    lemma_allowed_withdrawal(leaves, *s);
    if leaves[s.leaf_index as int] == own_note(*s) {
        lemma_note_fits(leaves, *s);
    }
    if prepared is Ok {
        lemma_fitting_note(leaves, *s);
    }
}

} // verus!
