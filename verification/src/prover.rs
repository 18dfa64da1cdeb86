//! The client-side proving pipeline: from a spend description and the public
//! commitment log to the exact byte bundle that a `shielded_pool` call takes.
//!
//! Everything here runs on the user's device: spending keys, values and
//! blindings never leave the process, and the outputs (proof bytes,
//! nullifiers, commitments) are precisely the public arguments of `transfer`
//! and `withdraw`.
//!
//! The Groth16 prover itself is handed in by the caller: it takes a circuit
//! description and gives a proof.

use crate::bytes::{be_nat, lemma_be_bytes, lemma_pow256_sizes};
use crate::circuit::{le_nat, values};
use crate::curve::{g1_valid, g2_valid};
use crate::encoding::{
    fr_encoding, fr_to_bytes, g1_encoding, g1_proper, g2_encoding, g2_proper, lemma_g1_roundtrip,
    lemma_g2_roundtrip, proof_to_bytes, Proof, ProofBytes,
};
use crate::field::{fr_modulus, lemma_fr_ext, Fr};
use crate::host::binding_of;
use crate::interfaces::fr::canonical_scalar;
use crate::interfaces::{byte_views, Groth16Proof, VerificationKey, VerifierTrap};
use crate::merkle::{
    climb, compute_root, index_bits, lemma_ancestor_root, lemma_index_bits,
    lemma_membership_binding, lemma_path_verifies, node_of, path_collides, root_of, siblings_of,
    MerklePath, MerkleTree, POOL_TREE_DEPTH,
};
use crate::note::{commitment_of, derive_nullifier, derive_pk, nullifier_of, pk_of, Note};
use crate::poseidon::{hash2_spec, lemma_hash2_canonical};
use crate::shielded_pool::{transfer_inputs, withdraw_inputs, TREE_CAPACITY};
use crate::text::{append_str, append_text, chars_of, decimal, string_of, to_decimal};
use crate::transfer::{NewNote, SpentNote, TransferCircuit};
use crate::withdraw::WithdrawCircuit;
use crate::zk_verifier::{
    groth16_equation, key_parts, key_points_ok, scalar_values, verdict_under,
};
use vstd::arithmetic::power2::{lemma2_to64, pow2};
use vstd::prelude::*;

verus! {

/// A note the prover intends to spend, located in the pool's tree.
#[derive(Clone, Copy, Debug, PartialEq, Eq, Structural)]
pub struct Spend {
    /// The owner's spending key.
    pub sk: Fr,
    /// Note value; zero marks a dummy, whose blinding and leaf index are
    /// ignored.
    pub value: u64,
    /// Commitment randomness.
    pub blinding: Fr,
    /// The note's leaf index in the pool (from the deposit or transfer event
    /// that created it).
    pub leaf_index: u64,
}

/// A note the transfer creates.
#[derive(Clone, Copy, Debug, PartialEq, Eq, Structural)]
pub struct Output {
    /// Recipient public key.
    pub owner_pk: Fr,
    /// Note value.
    pub value: u64,
    /// Fresh commitment randomness.
    pub blinding: Fr,
}

/// Everything `shielded_pool::transfer` takes, in host encoding.
#[derive(Debug)]
pub struct TransferBundle {
    /// The Groth16 proof.
    pub proof: ProofBytes,
    /// The root the proof was generated against.
    pub root: [u8; 32],
    /// Nullifiers of the spent notes (dummies included).
    pub nullifiers: Vec<[u8; 32]>,
    /// Commitments of the created notes.
    pub new_commitments: Vec<[u8; 32]>,
}

/// Everything `shielded_pool::withdraw` takes, in host encoding.
#[derive(Debug)]
pub struct WithdrawBundle {
    /// The Groth16 proof.
    pub proof: ProofBytes,
    /// The root the proof was generated against.
    pub root: [u8; 32],
    /// The exited note's nullifier.
    pub nullifier: [u8; 32],
    /// The recipient binding the proof commits to.
    pub recipient_binding: [u8; 32],
    /// The exact note value being withdrawn.
    pub amount: u64,
}

/// Why no bundle is produced.
#[derive(Debug)]
pub enum ProveError {
    /// The spent notes are not worth as much as the created ones.
    ValueMismatch { spending: u128, creating: u128 },
    /// The log has more commitments than the tree has leaves.
    LogTooLong { size: usize },
    /// A spend names a leaf that the log does not have.
    LeafOutOfRange { index: u64, size: usize },
    /// A spend does not open the commitment at the leaf it names.
    NoteMismatch { leaf: u64 },
    /// The Groth16 prover failed.
    Prover(String),
}

/// What is said of a failure.
pub open spec fn failure_text(e: ProveError) -> Seq<char> {
    match e {
        ProveError::ValueMismatch { spending, creating } => "value mismatch: spending "@ + decimal(
            spending as nat,
        ) + " but creating "@ + decimal(creating as nat),
        ProveError::LogTooLong { size } => "commitment log has "@ + decimal(size as nat)
            + " leaves, more than the tree holds"@,
        ProveError::LeafOutOfRange { index, size } => "leaf index "@ + decimal(index as nat)
            + " out of range (tree has "@ + decimal(size as nat) + " leaves)"@,
        ProveError::NoteMismatch { leaf } => "note does not match the commitment at leaf "@
            + decimal(leaf as nat) + " — wrong sk, value, blinding, or index"@,
        ProveError::Prover(why) => why@,
    }
}

impl ProveError {
    /// What is said of this failure.
    pub fn message(&self) -> (text: String)
        ensures
            text@ == failure_text(*self),
    {
        match self {
            ProveError::ValueMismatch { spending, creating } => {
                let mut out: Vec<char> = chars_of("value mismatch: spending ");
                append_text(&mut out, &to_decimal(*spending));
                append_str(&mut out, " but creating ");
                append_text(&mut out, &to_decimal(*creating));
                string_of(&out)
            },
            ProveError::LogTooLong { size } => {
                let mut out: Vec<char> = chars_of("commitment log has ");
                append_text(&mut out, &to_decimal(*size as u128));
                append_str(&mut out, " leaves, more than the tree holds");
                string_of(&out)
            },
            ProveError::LeafOutOfRange { index, size } => {
                let mut out: Vec<char> = chars_of("leaf index ");
                append_text(&mut out, &to_decimal(*index as u128));
                append_str(&mut out, " out of range (tree has ");
                append_text(&mut out, &to_decimal(*size as u128));
                append_str(&mut out, " leaves)");
                string_of(&out)
            },
            ProveError::NoteMismatch { leaf } => {
                let mut out: Vec<char> = chars_of("note does not match the commitment at leaf ");
                append_text(&mut out, &to_decimal(*leaf as u128));
                append_str(&mut out, " — wrong sk, value, blinding, or index");
                string_of(&out)
            },
            ProveError::Prover(why) => why.clone(),
        }
    }
}

impl Spend {
    /// The commitment to the note that this spend describes.
    pub open spec fn committed(self) -> nat {
        commitment_of(self.value as nat, pk_of(self.sk.value()), self.blinding.value())
    }

    /// The leaf index that the circuit takes: zero for a dummy.
    pub open spec fn position(self) -> nat {
        if self.value > 0 {
            self.leaf_index as nat
        } else {
            0
        }
    }

    /// Why this spend does not match a tree of some height, if it does not: the
    /// leaf that it names does not exist, or hashing its note up the leaf's
    /// path does not give the root.
    pub open spec fn mismatch(self, leaves: Seq<nat>, height: nat) -> Option<ProveError> {
        if self.leaf_index >= leaves.len() {
            Some(ProveError::LeafOutOfRange { index: self.leaf_index, size: leaves.len() as usize })
        } else if climb(
            self.committed(),
            siblings_of(leaves, height, self.leaf_index as nat),
            index_bits(self.leaf_index as nat, height),
            height,
        ) != root_of(leaves, height) {
            Some(ProveError::NoteMismatch { leaf: self.leaf_index })
        } else {
            None
        }
    }
}

/// **A matching note passes.** A spend of the note at its leaf does match the
/// log.
pub proof fn lemma_matching_spend(spend: Spend, leaves: Seq<nat>, height: nat)
    requires
        leaves.len() <= pow2(height),
        spend.leaf_index < leaves.len(),
        leaves[spend.leaf_index as int] == spend.committed(),
    ensures
        spend.mismatch(leaves, height) is None,
{
    lemma_path_verifies(leaves, height, spend.leaf_index as nat);
}

/// **A passing note matches.** A spend that matches the log opens the
/// commitment at its leaf, or its path exhibits a collision of the hash.
pub proof fn lemma_passing_spend(spend: Spend, leaves: Seq<nat>)
    requires
        leaves.len() <= 0x10_0000,
        spend.mismatch(leaves, 20) is None,
    ensures
        leaves[spend.leaf_index as int] == spend.committed() || path_collides(
            leaves,
            spend.committed(),
            siblings_of(leaves, 20, spend.leaf_index as nat),
            index_bits(spend.leaf_index as nat, 20),
        ),
{
    let idx = spend.leaf_index as nat;
    lemma_membership_binding(
        leaves,
        spend.committed(),
        siblings_of(leaves, 20, idx),
        index_bits(idx, 20),
    );
    lemma_position_bits(idx);
}

/// The steering bits of a leaf index spell it.
proof fn lemma_position_bits(index: nat)
    requires
        index < 0x10_0000,
    ensures
        le_nat(index_bits(index, 20)) == index,
{
    lemma2_to64();
    lemma_index_bits(index, 20, 20);
    lemma_ancestor_root(index, 20);
}

/// Why a log is no log of the pool, if it is none: it has more commitments than
/// the tree has leaves.
pub open spec fn log_fault(leaves: Seq<nat>) -> Option<ProveError> {
    if leaves.len() > 0x10_0000 {
        Some(ProveError::LogTooLong { size: leaves.len() as usize })
    } else {
        None
    }
}

/// Rebuilds the pool tree from the indexed commitment log (deposit and
/// transfer events, in leaf order).
pub fn rebuild_tree(commitments: &[Fr]) -> (rebuilt: Result<MerkleTree, ProveError>)
    ensures
        match log_fault(values(commitments@)) {
            Some(e) => rebuilt == Err::<MerkleTree, ProveError>(e),
            None => {
                &&& rebuilt matches Ok(tree)
                &&& tree.wf()
                &&& tree.leaves() == values(commitments@)
                &&& tree.height() == 20
            },
        },
{
    if commitments.len() > TREE_CAPACITY as usize {
        return Err(ProveError::LogTooLong { size: commitments.len() });
    }
    let mut tree = MerkleTree::new(POOL_TREE_DEPTH);
    let mut i: usize = 0;
    proof {
        assert(values(commitments@.take(0)) =~= Seq::<nat>::empty());
    }
    while i < commitments.len()
        invariant
            i <= commitments@.len() <= 0x10_0000,
            tree.wf(),
            tree.height() == 20,
            tree.leaves() == values(commitments@.take(i as int)),
        decreases commitments@.len() - i,
    {
        proof {
            lemma2_to64();
            assert(values(commitments@.take(i + 1)) =~= values(commitments@.take(i as int)).push(
                commitments@[i as int].value(),
            ));
        }
        tree.insert(commitments[i]);
        i = i + 1;
    }
    proof {
        assert(commitments@.take(commitments@.len() as int) =~= commitments@);
    }
    Ok(tree)
}

/// Checks a spend against the log, with a diagnosable error in place of an
/// unsatisfiable witness: the commitment at the claimed leaf must be exactly
/// this note's.
pub fn check_spend(tree: &MerkleTree, spend: &Spend) -> (checked: Result<Note, ProveError>)
    requires
        tree.wf(),
    ensures
        match spend.mismatch(tree.leaves(), tree.height()) {
            Some(e) => checked == Err::<Note, ProveError>(e),
            None => checked matches Ok(note) && note.value == spend.value && note.owner_pk.value()
                == pk_of(spend.sk.value()) && note.blinding == spend.blinding,
        },
{
    let note = Note { value: spend.value, owner_pk: derive_pk(spend.sk), blinding: spend.blinding };
    let size: usize = tree.size();
    if spend.leaf_index >= size as u64 {
        return Err(ProveError::LeafOutOfRange { index: spend.leaf_index, size });
    }
    let path: MerklePath = tree.path(spend.leaf_index);
    let expected: Fr = compute_root(note.commitment(), &path);
    let root: Fr = tree.root();
    proof {
        assert(values(path.siblings@).len() == tree.height());
        if expected.value() == root.value() {
            lemma_fr_ext(expected, root);
        }
    }
    if expected != root {
        return Err(ProveError::NoteMismatch { leaf: spend.leaf_index });
    }
    Ok(note)
}

/// The total value of two spends.
pub open spec fn spending_total(spends: [Spend; 2]) -> int {
    spends[0].value + spends[1].value
}

/// The total value of two outputs.
pub open spec fn creating_total(outputs: [Output; 2]) -> int {
    outputs[0].value + outputs[1].value
}

/// Why a transfer cannot be proven, if it cannot: the values differ, the log is
/// too long, or a spend that is worth something does not match the log.
pub open spec fn transfer_mismatch(
    leaves: Seq<nat>,
    spends: [Spend; 2],
    outputs: [Output; 2],
) -> Option<ProveError> {
    if spending_total(spends) != creating_total(outputs) {
        Some(
            ProveError::ValueMismatch {
                spending: spending_total(spends) as u128,
                creating: creating_total(outputs) as u128,
            },
        )
    } else if log_fault(leaves) is Some {
        log_fault(leaves)
    } else if spends[0].value > 0 && spends[0].mismatch(leaves, 20) is Some {
        spends[0].mismatch(leaves, 20)
    } else if spends[1].value > 0 && spends[1].mismatch(leaves, 20) is Some {
        spends[1].mismatch(leaves, 20)
    } else {
        None
    }
}

/// Why a withdrawal cannot be proven, if it cannot: the log is too long, or
/// the spend does not match it.
pub open spec fn withdraw_mismatch(leaves: Seq<nat>, spend: Spend) -> Option<ProveError> {
    if log_fault(leaves) is Some {
        log_fault(leaves)
    } else {
        spend.mismatch(leaves, 20)
    }
}

/// One zero for each level of the pool's tree.
pub open spec fn no_siblings() -> Seq<nat> {
    Seq::new(20, |l: int| 0nat)
}

/// The circuit's slot holds the spend.
pub open spec fn slot_spends(circuit: TransferCircuit, i: int, leaves: Seq<nat>, s: Spend) -> bool {
    &&& circuit.nullifiers@[i] matches Some(nf) && nf.value() == nullifier_of(
        s.sk.value(),
        s.position(),
    )
    &&& circuit.spent@[i] matches Some(note) && {
        &&& note.value == s.value
        &&& note.sk == s.sk
        &&& note.blinding == s.blinding
        &&& note.path.leaf_index == s.position()
        &&& note.path.siblings@.len() == 20
        &&& s.value > 0 ==> values(note.path.siblings@) == siblings_of(leaves, 20, s.position())
        &&& s.value == 0 ==> values(note.path.siblings@) == no_siblings()
    }
}

/// The circuit's slot holds the output.
pub open spec fn slot_creates(circuit: TransferCircuit, i: int, o: Output) -> bool {
    &&& circuit.new_commitments@[i] matches Some(cm) && cm.value() == commitment_of(
        o.value as nat,
        o.owner_pk.value(),
        o.blinding.value(),
    )
    &&& circuit.created@[i] == Some(
        NewNote { value: o.value, owner_pk: o.owner_pk, blinding: o.blinding },
    )
}

/// The circuit is the one for a transfer.
pub open spec fn circuit_of_transfer(
    circuit: TransferCircuit,
    leaves: Seq<nat>,
    spends: [Spend; 2],
    outputs: [Output; 2],
) -> bool {
    &&& circuit.depth == 20
    &&& circuit.root matches Some(root) && root.value() == root_of(leaves, 20)
    &&& circuit.nullifiers@.len() == 2
    &&& circuit.new_commitments@.len() == 2
    &&& circuit.spent@.len() == 2
    &&& circuit.created@.len() == 2
    &&& slot_spends(circuit, 0, leaves, spends[0])
    &&& slot_spends(circuit, 1, leaves, spends[1])
    &&& slot_creates(circuit, 0, outputs[0])
    &&& slot_creates(circuit, 1, outputs[1])
}

/// **Honest transfers are provable.** The circuit for a transfer that passes
/// the checks is fully assigned and satisfied by what it holds.
pub proof fn lemma_transfer_provable(
    circuit: TransferCircuit,
    leaves: Seq<nat>,
    spends: [Spend; 2],
    outputs: [Output; 2],
)
    requires
        transfer_mismatch(leaves, spends, outputs) is None,
        circuit_of_transfer(circuit, leaves, spends, outputs),
    ensures
        circuit.wf(),
        circuit.assigned(),
        circuit.statement(),
{
    assert(circuit.n_in() == 2 && circuit.n_out() == 2);
    lemma_slot(circuit, 0, leaves, spends[0]);
    lemma_slot(circuit, 1, leaves, spends[1]);
    reveal_with_fuel(TransferCircuit::spending, 3);
    reveal_with_fuel(TransferCircuit::creating, 3);
    assert(circuit.spending(2) == spending_total(spends));
    assert(circuit.creating(2) == creating_total(outputs));
}

proof fn lemma_slot(circuit: TransferCircuit, i: int, leaves: Seq<nat>, s: Spend)
    requires
        leaves.len() <= 0x10_0000,
        circuit.depth == 20,
        circuit.root matches Some(root) && root.value() == root_of(leaves, 20),
        slot_spends(circuit, i, leaves, s),
        s.value > 0 ==> s.mismatch(leaves, 20) is None,
    ensures
        crate::transfer::spent_ok(
            circuit.spent@[i]->0.secret(20),
            20,
            circuit.root->0.value(),
            circuit.nullifiers@[i]->0.value(),
        ),
{
    let note = circuit.spent@[i]->0;
    let secret = note.secret(20);
    lemma_position_bits(s.position());
    if s.value > 0 {
        assert(secret.siblings =~= values(note.path.siblings@));
    }
}

/// Checks a 2-in/2-out transfer against the log and describes the circuit to
/// prove. `commitments` is the full pool commitment log; spends with fewer
/// than two real notes should pass a zero-value dummy with a fresh random
/// `sk`.
pub fn prepare_transfer(commitments: &[Fr], spends: &[Spend; 2], outputs: &[Output; 2]) -> (
    prepared: Result<TransferCircuit, ProveError>)
    ensures
        match transfer_mismatch(values(commitments@), *spends, *outputs) {
            Some(e) => prepared == Err::<TransferCircuit, ProveError>(e),
            None => {
                &&& prepared matches Ok(circuit)
                &&& circuit_of_transfer(circuit, values(commitments@), *spends, *outputs)
                &&& circuit.wf()
                &&& circuit.assigned()
                &&& circuit.statement()
            },
        },
{
    let spending: u128 = spends[0].value as u128 + spends[1].value as u128;
    let creating: u128 = outputs[0].value as u128 + outputs[1].value as u128;
    if spending != creating {
        return Err(ProveError::ValueMismatch { spending, creating });
    }
    let tree: MerkleTree = match rebuild_tree(commitments) {
        Ok(tree) => tree,
        Err(e) => {
            return Err(e);
        },
    };
    let (nf0, spent0): (Fr, SpentNote) = match spend_slot(&tree, &spends[0]) {
        Ok(slot) => slot,
        Err(e) => {
            return Err(e);
        },
    };
    let (nf1, spent1): (Fr, SpentNote) = match spend_slot(&tree, &spends[1]) {
        Ok(slot) => slot,
        Err(e) => {
            return Err(e);
        },
    };
    let new0 = NewNote {
        value: outputs[0].value,
        owner_pk: outputs[0].owner_pk,
        blinding: outputs[0].blinding,
    };
    let new1 = NewNote {
        value: outputs[1].value,
        owner_pk: outputs[1].owner_pk,
        blinding: outputs[1].blinding,
    };
    let circuit = TransferCircuit {
        depth: POOL_TREE_DEPTH,
        root: Some(tree.root()),
        nullifiers: vec![Some(nf0), Some(nf1)],
        new_commitments: vec![Some(new0.commitment()), Some(new1.commitment())],
        spent: vec![Some(spent0), Some(spent1)],
        created: vec![Some(new0), Some(new1)],
    };
    proof {
        lemma_transfer_provable(circuit, values(commitments@), *spends, *outputs);
    }
    Ok(circuit)
}

/// The nullifier and the witness data of one spend.
fn spend_slot(tree: &MerkleTree, spend: &Spend) -> (slot: Result<(Fr, SpentNote), ProveError>)
    requires
        tree.wf(),
        tree.height() == 20,
    ensures
        match slot {
            Ok((nf, note)) => {
                &&& spend.value > 0 ==> spend.mismatch(tree.leaves(), 20) is None
                &&& nf.value() == nullifier_of(spend.sk.value(), spend.position())
                &&& note.value == spend.value
                &&& note.sk == spend.sk
                &&& note.blinding == spend.blinding
                &&& note.path.leaf_index == spend.position()
                &&& note.path.siblings@.len() == 20
                &&& spend.value > 0 ==> values(note.path.siblings@) == siblings_of(
                    tree.leaves(),
                    20,
                    spend.position(),
                )
                &&& spend.value == 0 ==> values(note.path.siblings@) == no_siblings()
            },
            Err(e) => spend.value > 0 && spend.mismatch(tree.leaves(), 20) == Some(e),
        },
{
    let path: MerklePath = if spend.value > 0 {
        match check_spend(tree, spend) {
            Ok(_) => {},
            Err(e) => {
                return Err(e);
            },
        }
        let path = tree.path(spend.leaf_index);
        proof {
            assert(values(path.siblings@).len() == 20);
        }
        path
    } else {
        // Dummy input: membership is disabled in-circuit; any well-formed
        // path works.
        MerklePath { siblings: zero_siblings(), leaf_index: 0 }
    };
    let nf = derive_nullifier(spend.sk, path.leaf_index);
    Ok(
        (
            nf,
            SpentNote { value: spend.value, sk: spend.sk, blinding: spend.blinding, path },
        ),
    )
}

/// One zero for each level of the pool's tree.
fn zero_siblings() -> (siblings: Vec<Fr>)
    ensures
        siblings@.len() == 20,
        values(siblings@) == no_siblings(),
{
    let mut siblings: Vec<Fr> = Vec::new();
    let mut i: usize = 0;
    while i < POOL_TREE_DEPTH
        invariant
            i <= 20,
            siblings@.len() == i,
            forall|l: int| 0 <= l < i ==> (#[trigger] siblings@[l]).value() == 0,
        decreases 20 - i,
    {
        siblings.push(Fr::zero());
        i = i + 1;
    }
    proof {
        assert(values(siblings@) =~= no_siblings());
    }
    siblings
}

/// The bundle holds what a transfer's circuit makes public, and the proof.
pub open spec fn bundle_of_transfer(
    bundle: TransferBundle,
    leaves: Seq<nat>,
    spends: [Spend; 2],
    outputs: [Output; 2],
    proof: Proof,
) -> bool {
    &&& bundle.proof.encodes(proof)
    &&& bundle.root@ == fr_encoding(root_of(leaves, 20))
    &&& bundle.nullifiers@.len() == 2
    &&& bundle.nullifiers@[0]@ == fr_encoding(
        nullifier_of(spends[0].sk.value(), spends[0].position()),
    )
    &&& bundle.nullifiers@[1]@ == fr_encoding(
        nullifier_of(spends[1].sk.value(), spends[1].position()),
    )
    &&& bundle.new_commitments@.len() == 2
    &&& bundle.new_commitments@[0]@ == fr_encoding(
        commitment_of(
            outputs[0].value as nat,
            outputs[0].owner_pk.value(),
            outputs[0].blinding.value(),
        ),
    )
    &&& bundle.new_commitments@[1]@ == fr_encoding(
        commitment_of(
            outputs[1].value as nat,
            outputs[1].owner_pk.value(),
            outputs[1].blinding.value(),
        ),
    )
}

/// Encodes the public inputs of an assigned circuit together with its proof.
pub fn finish_transfer(circuit: &TransferCircuit, proof: &Proof) -> (bundle: TransferBundle)
    requires
        circuit.assigned(),
    ensures
        bundle.proof.encodes(*proof),
        bundle.root@ == fr_encoding(circuit.root->0.value()),
        encodes_all(bundle.nullifiers@, circuit.nullifiers@),
        encodes_all(bundle.new_commitments@, circuit.new_commitments@),
{
    TransferBundle {
        proof: proof_to_bytes(proof),
        root: fr_to_bytes(circuit.root.unwrap()),
        nullifiers: encode_all(&circuit.nullifiers),
        new_commitments: encode_all(&circuit.new_commitments),
    }
}

/// The byte strings are the encodings of the scalars.
pub open spec fn encodes_all(encoded: Seq<[u8; 32]>, scalars: Seq<Option<Fr>>) -> bool {
    &&& encoded.len() == scalars.len()
    &&& forall|i: int|
        0 <= i < encoded.len() ==> (#[trigger] encoded[i])@ == fr_encoding(scalars[i]->0.value())
}

fn encode_all(scalars: &Vec<Option<Fr>>) -> (encoded: Vec<[u8; 32]>)
    requires
        forall|i: int| 0 <= i < scalars@.len() ==> (#[trigger] scalars@[i]) is Some,
    ensures
        encodes_all(encoded@, scalars@),
{
    let mut encoded: Vec<[u8; 32]> = Vec::new();
    let mut i: usize = 0;
    while i < scalars.len()
        invariant
            i <= scalars@.len(),
            forall|k: int| 0 <= k < scalars@.len() ==> (#[trigger] scalars@[k]) is Some,
            encoded@.len() == i,
            forall|k: int|
                0 <= k < i ==> (#[trigger] encoded@[k])@ == fr_encoding(scalars@[k]->0.value()),
        decreases scalars@.len() - i,
    {
        assert(scalars@[i as int] is Some);
        encoded.push(fr_to_bytes(scalars[i].unwrap()));
        i = i + 1;
    }
    encoded
}

/// What comes of proving a transfer: the reason why it cannot be proven, or
/// what the prover makes of its circuit.
pub open spec fn proven_transfer<P: FnOnce(&TransferCircuit) -> Result<Proof, String>>(
    prove: P,
    leaves: Seq<nat>,
    spends: [Spend; 2],
    outputs: [Output; 2],
    proven: Result<TransferBundle, ProveError>,
) -> bool {
    match transfer_mismatch(leaves, spends, outputs) {
        Some(e) => proven == Err::<TransferBundle, ProveError>(e),
        None => exists|c: TransferCircuit, r: Result<Proof, String>|
            {
                &&& circuit_of_transfer(c, leaves, spends, outputs)
                &&& #[trigger] call_ensures(prove, (&c,), r)
                &&& match r {
                    Ok(proof) => proven matches Ok(bundle) && bundle_of_transfer(
                        bundle,
                        leaves,
                        spends,
                        outputs,
                        proof,
                    ),
                    Err(why) => proven == Err::<TransferBundle, ProveError>(
                        ProveError::Prover(why),
                    ),
                }
            },
    }
}

/// Proves a 2-in/2-out shielded transfer. `commitments` is the full pool
/// commitment log; spends with fewer than two real notes should pass a
/// zero-value dummy with a fresh random `sk`. `prove` is the Groth16 prover.
pub fn prove_transfer<P: FnOnce(&TransferCircuit) -> Result<Proof, String>>(
    prove: P,
    commitments: &[Fr],
    spends: &[Spend; 2],
    outputs: &[Output; 2],
) -> (proven: Result<TransferBundle, ProveError>)
    requires
        forall|c: TransferCircuit|
            c.wf() && c.assigned() && c.statement() ==> #[trigger] call_requires(prove, (&c,)),
    ensures
        proven_transfer(prove, values(commitments@), *spends, *outputs, proven),
{
    let circuit: TransferCircuit = match prepare_transfer(commitments, spends, outputs) {
        Ok(circuit) => circuit,
        Err(e) => {
            return Err(e);
        },
    };
    match prove(&circuit) {
        Ok(proof) => {
            let bundle = finish_transfer(&circuit, &proof);
            proof {
                assert(bundle_of_transfer(
                    bundle,
                    values(commitments@),
                    *spends,
                    *outputs,
                    proof,
                ));
            }
            Ok(bundle)
        },
        Err(why) => Err(ProveError::Prover(why)),
    }
}

/// The circuit is the one for a withdrawal.
pub open spec fn circuit_of_withdraw(
    circuit: WithdrawCircuit,
    leaves: Seq<nat>,
    s: Spend,
    recipient_binding: Fr,
) -> bool {
    &&& circuit.depth == 20
    &&& circuit.root matches Some(root) && root.value() == root_of(leaves, 20)
    &&& circuit.nullifier matches Some(nf) && nf.value() == nullifier_of(
        s.sk.value(),
        s.leaf_index as nat,
    )
    &&& circuit.recipient_binding == Some(recipient_binding)
    &&& circuit.amount matches Some(amount) && amount.value() == s.value
    &&& circuit.sk == Some(s.sk)
    &&& circuit.blinding == Some(s.blinding)
    &&& circuit.path matches Some(path) && path.leaf_index == s.leaf_index && values(
        path.siblings@,
    ) == siblings_of(leaves, 20, s.leaf_index as nat)
}

/// **Honest withdrawals are provable.** The circuit for a spend that matches
/// the log is fully assigned and satisfied by what it holds.
pub proof fn lemma_withdraw_provable(
    circuit: WithdrawCircuit,
    leaves: Seq<nat>,
    s: Spend,
    recipient_binding: Fr,
)
    requires
        withdraw_mismatch(leaves, s) is None,
        circuit_of_withdraw(circuit, leaves, s, recipient_binding),
    ensures
        circuit.wf(),
        circuit.assigned(),
        circuit.statement(),
{
    let path = circuit.path->0;
    assert(values(path.siblings@).len() == 20);
    assert(Seq::new(20, |l: int| path.siblings@[l].value()) =~= values(path.siblings@));
    lemma_position_bits(s.leaf_index as nat);
}

/// Checks a withdrawal against the log and describes the circuit to prove.
pub fn prepare_withdraw(commitments: &[Fr], spend: &Spend, recipient_binding: Fr) -> (prepared:
    Result<WithdrawCircuit, ProveError>)
    ensures
        match withdraw_mismatch(values(commitments@), *spend) {
            Some(e) => prepared == Err::<WithdrawCircuit, ProveError>(e),
            None => {
                &&& prepared matches Ok(circuit)
                &&& circuit_of_withdraw(circuit, values(commitments@), *spend, recipient_binding)
                &&& circuit.wf()
                &&& circuit.assigned()
                &&& circuit.statement()
            },
        },
{
    let tree: MerkleTree = match rebuild_tree(commitments) {
        Ok(tree) => tree,
        Err(e) => {
            return Err(e);
        },
    };
    if let Err(e) = check_spend(&tree, spend) {
        return Err(e);
    }
    let nullifier = derive_nullifier(spend.sk, spend.leaf_index);
    let circuit = WithdrawCircuit {
        depth: POOL_TREE_DEPTH,
        root: Some(tree.root()),
        nullifier: Some(nullifier),
        recipient_binding: Some(recipient_binding),
        amount: Some(Fr::from_u64(spend.value)),
        sk: Some(spend.sk),
        blinding: Some(spend.blinding),
        path: Some(tree.path(spend.leaf_index)),
    };
    proof {
        lemma_withdraw_provable(circuit, values(commitments@), *spend, recipient_binding);
    }
    Ok(circuit)
}

/// Encodes the public inputs of an assigned circuit together with its proof
/// and the note value.
pub fn finish_withdraw(circuit: &WithdrawCircuit, proof: &Proof, amount: u64) -> (bundle:
    WithdrawBundle)
    requires
        circuit.assigned(),
    ensures
        bundle.proof.encodes(*proof),
        bundle.root@ == fr_encoding(circuit.root->0.value()),
        bundle.nullifier@ == fr_encoding(circuit.nullifier->0.value()),
        bundle.recipient_binding@ == fr_encoding(circuit.recipient_binding->0.value()),
        bundle.amount == amount,
{
    WithdrawBundle {
        proof: proof_to_bytes(proof),
        root: fr_to_bytes(circuit.root.unwrap()),
        nullifier: fr_to_bytes(circuit.nullifier.unwrap()),
        recipient_binding: fr_to_bytes(circuit.recipient_binding.unwrap()),
        amount,
    }
}

/// The bundle holds what a withdrawal's circuit makes public, and the proof.
pub open spec fn bundle_of_withdraw(
    bundle: WithdrawBundle,
    leaves: Seq<nat>,
    s: Spend,
    recipient_binding: Fr,
    proof: Proof,
) -> bool {
    &&& bundle.proof.encodes(proof)
    &&& bundle.root@ == fr_encoding(root_of(leaves, 20))
    &&& bundle.nullifier@ == fr_encoding(nullifier_of(s.sk.value(), s.leaf_index as nat))
    &&& bundle.recipient_binding@ == fr_encoding(recipient_binding.value())
    &&& bundle.amount == s.value
}

/// What comes of proving a withdrawal: the reason why it cannot be proven, or
/// what the prover makes of its circuit.
pub open spec fn proven_withdraw<P: FnOnce(&WithdrawCircuit) -> Result<Proof, String>>(
    prove: P,
    leaves: Seq<nat>,
    spend: Spend,
    recipient_binding: Fr,
    proven: Result<WithdrawBundle, ProveError>,
) -> bool {
    match withdraw_mismatch(leaves, spend) {
        Some(e) => proven == Err::<WithdrawBundle, ProveError>(e),
        None => exists|c: WithdrawCircuit, r: Result<Proof, String>|
            {
                &&& circuit_of_withdraw(c, leaves, spend, recipient_binding)
                &&& #[trigger] call_ensures(prove, (&c,), r)
                &&& match r {
                    Ok(proof) => proven matches Ok(bundle) && bundle_of_withdraw(
                        bundle,
                        leaves,
                        spend,
                        recipient_binding,
                        proof,
                    ),
                    Err(why) => proven == Err::<WithdrawBundle, ProveError>(
                        ProveError::Prover(why),
                    ),
                }
            },
    }
}

/// Proves a withdrawal of the exact value of one note, bound to the recipient.
/// `recipient_binding` is the contract's `address_binding` of the payout
/// address. `prove` is the Groth16 prover.
pub fn prove_withdraw<P: FnOnce(&WithdrawCircuit) -> Result<Proof, String>>(
    prove: P,
    commitments: &[Fr],
    spend: &Spend,
    recipient_binding: Fr,
) -> (proven: Result<WithdrawBundle, ProveError>)
    requires
        forall|c: WithdrawCircuit|
            c.wf() && c.assigned() && c.statement() ==> #[trigger] call_requires(prove, (&c,)),
    ensures
        proven_withdraw(prove, values(commitments@), *spend, recipient_binding, proven),
{
    let circuit: WithdrawCircuit = match prepare_withdraw(commitments, spend, recipient_binding) {
        Ok(circuit) => circuit,
        Err(e) => {
            return Err(e);
        },
    };
    match prove(&circuit) {
        Ok(proof) => Ok(finish_withdraw(&circuit, &proof, spend.value)),
        Err(why) => Err(ProveError::Prover(why)),
    }
}

/// The proof is one of valid points, and the Groth16 equation holds of it under
/// a key for some public inputs.
pub open spec fn proves(key: VerificationKey, proof: Proof, inputs: Seq<nat>) -> bool {
    &&& g1_proper(proof.a@) && g1_valid(proof.a@)
    &&& g2_proper(proof.b@) && g2_valid(proof.b@)
    &&& g1_proper(proof.c@) && g1_valid(proof.c@)
    &&& groth16_equation(
        key_parts(key),
        g1_encoding(proof.a@),
        g2_encoding(proof.b@),
        g1_encoding(proof.c@),
        inputs,
    )
}

/// The public inputs of a 2-in/2-out transfer circuit, in order.
pub open spec fn transfer_public(c: TransferCircuit) -> Seq<nat> {
    seq![
        c.root->0.value(),
        c.nullifiers@[0]->0.value(),
        c.nullifiers@[1]->0.value(),
        c.new_commitments@[0]->0.value(),
        c.new_commitments@[1]->0.value(),
    ]
}

/// The public inputs of a withdraw circuit, in order.
pub open spec fn withdraw_public(c: WithdrawCircuit) -> Seq<nat> {
    seq![
        c.root->0.value(),
        c.nullifier->0.value(),
        c.recipient_binding->0.value(),
        c.amount->0.value(),
    ]
}

/// The prover proves every true statement of a 2-in/2-out transfer circuit
/// under a key.
pub open spec fn proves_transfers<P: FnOnce(&TransferCircuit) -> Result<Proof, String>>(
    prove: P,
    key: VerificationKey,
) -> bool {
    forall|c: TransferCircuit, r: Result<Proof, String>|
        {
            &&& c.depth == 20 && c.n_in() == 2 && c.n_out() == 2
            &&& c.wf() && c.assigned() && c.statement()
            &&& #[trigger] call_ensures(prove, (&c,), r)
        } ==> (r matches Ok(proof) && proves(key, proof, transfer_public(c)))
}

/// The prover proves every true statement of a withdraw circuit under a key.
pub open spec fn proves_withdrawals<P: FnOnce(&WithdrawCircuit) -> Result<Proof, String>>(
    prove: P,
    key: VerificationKey,
) -> bool {
    forall|c: WithdrawCircuit, r: Result<Proof, String>|
        {
            &&& c.depth == 20
            &&& c.wf() && c.assigned() && c.statement()
            &&& #[trigger] call_ensures(prove, (&c,), r)
        } ==> (r matches Ok(proof) && proves(key, proof, withdraw_public(c)))
}

/// A proof in the form that a verifier instance takes.
pub open spec fn submitted(proof: ProofBytes) -> Groth16Proof {
    Groth16Proof { a: proof.a, b: proof.b, c: proof.c }
}

/// A verifier instance with the key accepts the encoded proof of encoded
/// inputs.
proof fn lemma_accepted(
    key: VerificationKey,
    proof: Proof,
    encoded: ProofBytes,
    inputs: Seq<nat>,
    bytes: Seq<Seq<u8>>,
)
    requires
        key_points_ok(key),
        key.ic@.len() == inputs.len() + 1,
        proves(key, proof, inputs),
        encoded.encodes(proof),
        bytes.len() == inputs.len(),
        forall|i: int| 0 <= i < inputs.len() ==> inputs[i] < fr_modulus(),
        forall|i: int| 0 <= i < inputs.len() ==> #[trigger] bytes[i] == fr_encoding(inputs[i]),
    ensures
        verdict_under(key, submitted(encoded), bytes) == Ok::<bool, VerifierTrap>(true),
{
    lemma_g1_roundtrip(proof.a@);
    lemma_g2_roundtrip(proof.b@);
    lemma_g1_roundtrip(proof.c@);
    lemma_pow256_sizes();
    assert forall|i: int| 0 <= i < bytes.len() implies canonical_scalar(#[trigger] bytes[i])
        && be_nat(bytes[i]) == inputs[i] by {
        lemma_be_bytes(inputs[i], 32);
    }
    assert(scalar_values(bytes) =~= inputs);
}

/// The public inputs of a transfer circuit are canonical, and a transfer with
/// the bundle hands over their encodings.
proof fn lemma_transfer_bytes(
    c: TransferCircuit,
    leaves: Seq<nat>,
    spends: [Spend; 2],
    outputs: [Output; 2],
    bundle: TransferBundle,
    proof: Proof,
)
    requires
        circuit_of_transfer(c, leaves, spends, outputs),
        bundle_of_transfer(bundle, leaves, spends, outputs, proof),
    ensures
        transfer_inputs(
            bundle.root@,
            byte_views(bundle.nullifiers@),
            byte_views(bundle.new_commitments@),
        ).len() == 5,
        forall|i: int| 0 <= i < 5 ==> (#[trigger] transfer_public(c)[i]) < fr_modulus(),
        forall|i: int|
            0 <= i < 5 ==> #[trigger] transfer_inputs(
                bundle.root@,
                byte_views(bundle.nullifiers@),
                byte_views(bundle.new_commitments@),
            )[i] == fr_encoding(transfer_public(c)[i]),
{
    let inputs = transfer_public(c);
    let bytes = transfer_inputs(
        bundle.root@,
        byte_views(bundle.nullifiers@),
        byte_views(bundle.new_commitments@),
    );
    lemma_root_canonical(leaves);
    lemma_note_canonical(spends[0], outputs[0]);
    lemma_note_canonical(spends[1], outputs[1]);
    assert(bytes[0] == bundle.root@ && inputs[0] < fr_modulus());
    assert(bytes[1] == bundle.nullifiers@[0]@ && inputs[1] < fr_modulus());
    assert(bytes[2] == bundle.nullifiers@[1]@ && inputs[2] < fr_modulus());
    assert(bytes[3] == bundle.new_commitments@[0]@ && inputs[3] < fr_modulus());
    assert(bytes[4] == bundle.new_commitments@[1]@ && inputs[4] < fr_modulus());
}

/// A verifier instance with the key accepts a transfer bundle whose proof proves
/// the circuit.
proof fn lemma_transfer_bundle_accepted(
    key: VerificationKey,
    c: TransferCircuit,
    proof: Proof,
    leaves: Seq<nat>,
    spends: [Spend; 2],
    outputs: [Output; 2],
    bundle: TransferBundle,
)
    requires
        key_points_ok(key),
        key.ic@.len() == 6,
        circuit_of_transfer(c, leaves, spends, outputs),
        bundle_of_transfer(bundle, leaves, spends, outputs, proof),
        proves(key, proof, transfer_public(c)),
    ensures
        verdict_under(
            key,
            submitted(bundle.proof),
            transfer_inputs(
                bundle.root@,
                byte_views(bundle.nullifiers@),
                byte_views(bundle.new_commitments@),
            ),
        ) == Ok::<bool, VerifierTrap>(true),
{
    let inputs = transfer_public(c);
    let bytes = transfer_inputs(
        bundle.root@,
        byte_views(bundle.nullifiers@),
        byte_views(bundle.new_commitments@),
    );
    lemma_transfer_bytes(c, leaves, spends, outputs, bundle, proof);
    assert(inputs.len() == 5);
    lemma_accepted(key, proof, bundle.proof, inputs, bytes);
}

/// **Proven transfers are accepted.** If the prover proves every true statement
/// under a key, proving a transfer that passes the checks gives a bundle, and
/// a verifier instance with the key accepts the bundle's proof for the bundle's
/// root, nullifiers and commitments.
pub proof fn lemma_transfer_accepted<P: FnOnce(&TransferCircuit) -> Result<Proof, String>>(
    prove: P,
    key: VerificationKey,
    leaves: Seq<nat>,
    spends: [Spend; 2],
    outputs: [Output; 2],
    proven: Result<TransferBundle, ProveError>,
)
    requires
        key_points_ok(key),
        key.ic@.len() == 6,
        proves_transfers(prove, key),
        transfer_mismatch(leaves, spends, outputs) is None,
        proven_transfer(prove, leaves, spends, outputs, proven),
    ensures
        proven matches Ok(bundle) && verdict_under(
            key,
            submitted(bundle.proof),
            transfer_inputs(
                bundle.root@,
                byte_views(bundle.nullifiers@),
                byte_views(bundle.new_commitments@),
            ),
        ) == Ok::<bool, VerifierTrap>(true),
{
    let (c, r) = choose|c: TransferCircuit, r: Result<Proof, String>|
        {
            &&& circuit_of_transfer(c, leaves, spends, outputs)
            &&& #[trigger] call_ensures(prove, (&c,), r)
            &&& match r {
                Ok(proof) => proven matches Ok(bundle) && bundle_of_transfer(
                    bundle,
                    leaves,
                    spends,
                    outputs,
                    proof,
                ),
                Err(why) => proven == Err::<TransferBundle, ProveError>(ProveError::Prover(why)),
            }
        };
    lemma_transfer_provable(c, leaves, spends, outputs);
    lemma_transfer_bundle_accepted(key, c, r->Ok_0, leaves, spends, outputs, proven->Ok_0);
}

/// A root is a canonical integer.
proof fn lemma_root_canonical(leaves: Seq<nat>)
    ensures
        root_of(leaves, 20) < fr_modulus(),
{
    lemma_hash2_canonical(node_of(leaves, 19, 0), node_of(leaves, 19, 1));
}

/// The nullifier of a spend and the commitment of an output are canonical
/// integers.
proof fn lemma_note_canonical(s: Spend, o: Output)
    ensures
        nullifier_of(s.sk.value(), s.position()) < fr_modulus(),
        nullifier_of(s.sk.value(), s.leaf_index as nat) < fr_modulus(),
        commitment_of(o.value as nat, o.owner_pk.value(), o.blinding.value()) < fr_modulus(),
{
    lemma_hash2_canonical(hash2_spec(2, s.sk.value()), s.position());
    lemma_hash2_canonical(hash2_spec(2, s.sk.value()), s.leaf_index as nat);
    lemma_hash2_canonical(hash2_spec(o.value as nat, o.owner_pk.value()), o.blinding.value());
}

/// The public inputs of a withdraw circuit are canonical, and a withdrawal with
/// the bundle hands over their encodings.
proof fn lemma_withdraw_bytes(
    c: WithdrawCircuit,
    leaves: Seq<nat>,
    spend: Spend,
    recipient_binding: Fr,
    to: Seq<u8>,
    bundle: WithdrawBundle,
    proof: Proof,
)
    requires
        recipient_binding.value() < fr_modulus(),
        fr_encoding(recipient_binding.value()) == binding_of(to),
        circuit_of_withdraw(c, leaves, spend, recipient_binding),
        bundle_of_withdraw(bundle, leaves, spend, recipient_binding, proof),
    ensures
        forall|i: int| 0 <= i < 4 ==> (#[trigger] withdraw_public(c)[i]) < fr_modulus(),
        forall|i: int|
            0 <= i < 4 ==> #[trigger] withdraw_inputs(
                bundle.root@,
                bundle.nullifier@,
                to,
                bundle.amount as nat,
            )[i] == fr_encoding(withdraw_public(c)[i]),
{
    let inputs = withdraw_public(c);
    let bytes = withdraw_inputs(bundle.root@, bundle.nullifier@, to, bundle.amount as nat);
    lemma_root_canonical(leaves);
    lemma_note_canonical(spend, Output { owner_pk: spend.sk, value: 0, blinding: spend.sk });
    assert(bytes[0] == fr_encoding(inputs[0]) && inputs[0] < fr_modulus());
    assert(bytes[1] == fr_encoding(inputs[1]) && inputs[1] < fr_modulus());
    assert(bytes[2] == fr_encoding(inputs[2]) && inputs[2] < fr_modulus());
    assert(bytes[3] == fr_encoding(inputs[3]) && inputs[3] < fr_modulus());
}

/// A verifier instance with the key accepts a withdraw bundle whose proof proves
/// the circuit.
proof fn lemma_withdraw_bundle_accepted(
    key: VerificationKey,
    c: WithdrawCircuit,
    proof: Proof,
    leaves: Seq<nat>,
    spend: Spend,
    recipient_binding: Fr,
    to: Seq<u8>,
    bundle: WithdrawBundle,
)
    requires
        key_points_ok(key),
        key.ic@.len() == 5,
        recipient_binding.value() < fr_modulus(),
        fr_encoding(recipient_binding.value()) == binding_of(to),
        circuit_of_withdraw(c, leaves, spend, recipient_binding),
        bundle_of_withdraw(bundle, leaves, spend, recipient_binding, proof),
        proves(key, proof, withdraw_public(c)),
    ensures
        verdict_under(
            key,
            submitted(bundle.proof),
            withdraw_inputs(bundle.root@, bundle.nullifier@, to, bundle.amount as nat),
        ) == Ok::<bool, VerifierTrap>(true),
{
    let inputs = withdraw_public(c);
    let bytes = withdraw_inputs(bundle.root@, bundle.nullifier@, to, bundle.amount as nat);
    assert(inputs.len() == 4 && bytes.len() == 4);
    lemma_withdraw_bytes(c, leaves, spend, recipient_binding, to, bundle, proof);
    lemma_accepted(key, proof, bundle.proof, inputs, bytes);
}

/// **Proven withdrawals are accepted.** If the prover proves every true
/// statement under a key, proving a withdrawal of a note in the log gives a
/// bundle, and a verifier instance with the key accepts the bundle's proof for
/// its root, nullifier and amount and the recipient that it is bound to.
pub proof fn lemma_withdraw_accepted<P: FnOnce(&WithdrawCircuit) -> Result<Proof, String>>(
    prove: P,
    key: VerificationKey,
    leaves: Seq<nat>,
    spend: Spend,
    recipient_binding: Fr,
    to: Seq<u8>,
    proven: Result<WithdrawBundle, ProveError>,
)
    requires
        key_points_ok(key),
        key.ic@.len() == 5,
        proves_withdrawals(prove, key),
        recipient_binding.value() < fr_modulus(),
        fr_encoding(recipient_binding.value()) == binding_of(to),
        withdraw_mismatch(leaves, spend) is None,
        proven_withdraw(prove, leaves, spend, recipient_binding, proven),
    ensures
        proven matches Ok(bundle) && verdict_under(
            key,
            submitted(bundle.proof),
            withdraw_inputs(bundle.root@, bundle.nullifier@, to, bundle.amount as nat),
        ) == Ok::<bool, VerifierTrap>(true),
{
    let (c, r) = choose|c: WithdrawCircuit, r: Result<Proof, String>|
        {
            &&& circuit_of_withdraw(c, leaves, spend, recipient_binding)
            &&& #[trigger] call_ensures(prove, (&c,), r)
            &&& match r {
                Ok(proof) => proven matches Ok(bundle) && bundle_of_withdraw(
                    bundle,
                    leaves,
                    spend,
                    recipient_binding,
                    proof,
                ),
                Err(why) => proven == Err::<WithdrawBundle, ProveError>(ProveError::Prover(why)),
            }
        };
    lemma_withdraw_provable(c, leaves, spend, recipient_binding);
    lemma_withdraw_bundle_accepted(
        key,
        c,
        r->Ok_0,
        leaves,
        spend,
        recipient_binding,
        to,
        proven->Ok_0,
    );
}

} // verus!
