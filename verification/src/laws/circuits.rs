//! Laws of the circuits: what satisfies them.

use crate::circuit::{le_nat, Assignment, Circuit, Gate, SynthesisError};
use crate::field::fr_modulus;
use crate::laws::tree::{led, lemma_led};
use crate::layout::transfer_public_inputs;
use crate::merkle::{
    ancestor, climb, index_bits, lemma_index_bits, lemma_position, position, MerklePath,
};
use crate::poseidon::hash2_spec;
use crate::transfer::{nth_created, nth_spent, spent_ok, NewNote, SpentNote, TransferCircuit};
use crate::util::{lemma_le_bound, lemma_le_small};
use crate::withdraw::WithdrawCircuit;
use vstd::arithmetic::div_mod::lemma_fundamental_div_mod_converse;
use vstd::arithmetic::power2::{lemma2_to64, lemma_pow2_strictly_increases, pow2};
use vstd::prelude::*;

verus! {

proof fn lemma_ancestor_bits(bits: Seq<bool>, level: nat)
    requires
        level <= bits.len(),
    ensures
        ancestor(le_nat(bits), level) == position(bits, level),
    decreases level,
{
    lemma_position(bits, 0);
    lemma2_to64();
    if level > 0 {
        lemma_ancestor_bits(bits, (level - 1) as nat);
    }
}

/// Climbing by bits is being led by the index that they spell.
proof fn lemma_climb_led(node: nat, siblings: Seq<nat>, bits: Seq<bool>)
    requires
        bits.len() == siblings.len(),
    ensures
        climb(node, siblings, bits, siblings.len()) == led(node, siblings, le_nat(bits)),
{
    let want = index_bits(le_nat(bits), bits.len());
    assert forall|i: int| 0 <= i < bits.len() implies bits[i] == want[i] by {
        lemma_ancestor_bits(bits, i as nat);
    }
    assert(bits =~= want);
    lemma_led(node, siblings, le_nat(bits));
}

/// The bits of an index spell its remainder.
proof fn lemma_index_spelled(index: nat, n: nat)
    requires
        n <= 64,
    ensures
        le_nat(index_bits(index, n)) == index % pow2(n),
        le_nat(index_bits(index, n)) < fr_modulus(),
{
    let bits = index_bits(index, n);
    lemma_index_bits(index, n, n);
    lemma_le_bound(bits, n);
    lemma2_to64();
    if n < 64 {
        lemma_pow2_strictly_increases(n, 64);
    }
    let p = pow2(n) as int;
    lemma_fundamental_div_mod_converse(
        index as int,
        p,
        ancestor(index, n) as int,
        le_nat(bits) as int,
    );
}

/// The first siblings of a path.
pub open spec fn first_siblings(path: MerklePath, depth: nat) -> Seq<nat> {
    Seq::new(depth, |l: int| path.siblings@[l].value())
}

/// A note leads along a path to a root.
pub open spec fn leads(
    value: nat,
    sk: nat,
    blinding: nat,
    path: MerklePath,
    depth: nat,
    root: nat,
) -> bool {
    led(
        hash2_spec(hash2_spec(value, hash2_spec(1, sk)), blinding),
        first_siblings(path, depth),
        path.leaf_index as nat,
    ) == root
}

/// A nullifier is the one of a key at the leaf of a path.
pub open spec fn nullifies(nullifier: nat, sk: nat, path: MerklePath, depth: nat) -> bool {
    nullifier == hash2_spec(hash2_spec(2, sk), path.leaf_index as nat % pow2(depth))
}

/// **The withdraw circuit** has the root, the nullifier, the recipient and the
/// amount as its public inputs. With all values given, it is satisfied if and
/// only if the note of exactly that amount under the prover's key leads to the
/// root, and the nullifier is the one of that key and leaf.
pub proof fn lemma_withdraw_circuit(
    circuit: &WithdrawCircuit,
    c: Circuit,
    satisfied: Result<bool, SynthesisError>,
)
    requires
        circuit.wf(),
        1 <= circuit.depth <= 64,
        call_ensures(WithdrawCircuit::generate_constraints, (circuit,), c),
        call_ensures(Circuit::is_satisfied, (&c,), satisfied),
    ensures
        c.inputs@.len() == 4,
        c.inputs@[0] == circuit.root,
        c.inputs@[1] == circuit.nullifier,
        c.inputs@[2] == circuit.recipient_binding,
        c.inputs@[3] == circuit.amount,
        satisfied is Err <==> circuit.root is None || circuit.nullifier is None
            || circuit.recipient_binding is None || circuit.amount is None || circuit.sk is None
            || circuit.blinding is None || circuit.path is None,
        satisfied matches Ok(holds) ==> (holds <==> {
            let sk = circuit.sk->0.value();
            &&& leads(
                circuit.amount->0.value(),
                sk,
                circuit.blinding->0.value(),
                circuit.path->0,
                circuit.depth as nat,
                circuit.root->0.value(),
            )
            &&& nullifies(
                circuit.nullifier->0.value(),
                sk,
                circuit.path->0,
                circuit.depth as nat,
            )
        }),
{
    if circuit.assigned() {
        let path = circuit.path->0;
        let d = circuit.depth as nat;
        let siblings = first_siblings(path, d);
        assert(siblings =~= Seq::new(d, |l: int| circuit.path->0.siblings@[l].value()));
        lemma_led(
            hash2_spec(
                hash2_spec(
                    circuit.amount->0.value(),
                    hash2_spec(1, circuit.sk->0.value()),
                ),
                circuit.blinding->0.value(),
            ),
            siblings,
            path.leaf_index as nat,
        );
        lemma_index_spelled(path.leaf_index as nat, d);
    }
}

/// **Whatever a prover puts into the withdraw circuit**, it is satisfied if and
/// only if the public nullifier and root are those of a note of exactly the
/// public amount under the prover's key, at the leaf that the prover's bits
/// spell.
pub proof fn lemma_any_withdrawal(circuit: &WithdrawCircuit, c: Circuit, asg: Assignment)
    requires
        circuit.wf(),
        call_ensures(WithdrawCircuit::generate_constraints, (circuit,), c),
    ensures
        ({
            let depth = circuit.depth as nat;
            let bits = Seq::new(depth, |k: int| asg.bits[k]);
            let sk = asg.witnesses[0];
            c.sat(asg) <==> {
                &&& led(
                    hash2_spec(
                        hash2_spec(asg.inputs[3], hash2_spec(1, sk)),
                        asg.witnesses[1],
                    ),
                    Seq::new(depth, |l: int| asg.witnesses[2 + l]),
                    le_nat(bits),
                ) == asg.inputs[0]
                &&& le_nat(bits) < fr_modulus()
                &&& hash2_spec(hash2_spec(2, sk), le_nat(bits)) == asg.inputs[1]
            }
        }),
{
    let depth = circuit.depth as nat;
    let bits = Seq::new(depth, |k: int| asg.bits[k]);
    let siblings = Seq::new(depth, |l: int| asg.witnesses[2 + l]);
    assert(bits =~= crate::util::bits_at(asg.bits, 0, depth));
    assert(siblings =~= crate::util::values_at(asg.witnesses, 2, depth));
    lemma_climb_led(
        hash2_spec(
            hash2_spec(asg.inputs[3], hash2_spec(1, asg.witnesses[0])),
            asg.witnesses[1],
        ),
        siblings,
        bits,
    );
}

/// The sum of some numbers.
pub open spec fn summed(numbers: Seq<nat>) -> nat
    decreases numbers.len(),
{
    if numbers.len() == 0 {
        0
    } else {
        summed(numbers.drop_last()) + numbers.last()
    }
}

/// The values of spent notes.
pub open spec fn spent_values(spent: Seq<Option<SpentNote>>) -> Seq<nat> {
    Seq::new(spent.len(), |i: int| spent[i]->0.value as nat)
}

/// The values of created notes.
pub open spec fn created_values(created: Seq<Option<NewNote>>) -> Seq<nat> {
    Seq::new(created.len(), |i: int| created[i]->0.value as nat)
}

proof fn lemma_spending(circuit: TransferCircuit, n: nat)
    requires
        n <= circuit.spent@.len(),
    ensures
        circuit.spending(n) == summed(spent_values(circuit.spent@).take(n as int)),
    decreases n,
{
    if n > 0 {
        lemma_spending(circuit, (n - 1) as nat);
        let all = spent_values(circuit.spent@);
        assert(all.take(n as int).drop_last() =~= all.take(n - 1));
    }
}

proof fn lemma_creating(circuit: TransferCircuit, n: nat)
    requires
        n <= circuit.created@.len(),
    ensures
        circuit.creating(n) == summed(created_values(circuit.created@).take(n as int)),
    decreases n,
{
    if n > 0 {
        lemma_creating(circuit, (n - 1) as nat);
        let all = created_values(circuit.created@);
        assert(all.take(n as int).drop_last() =~= all.take(n - 1));
    }
}

/// A spent note is a dummy or leads to the root, and its nullifier is the one
/// of its key and leaf.
pub open spec fn good_spend(note: SpentNote, depth: nat, root: nat, nullifier: nat) -> bool {
    &&& note.value > 0 ==> leads(
        note.value as nat,
        note.sk.value(),
        note.blinding.value(),
        note.path,
        depth,
        root,
    )
    &&& nullifies(nullifier, note.sk.value(), note.path, depth)
}

proof fn lemma_good_spend(note: SpentNote, depth: nat, root: nat, nullifier: nat)
    requires
        depth <= 64,
    ensures
        spent_ok(note.secret(depth), depth, root, nullifier) <==> good_spend(
            note,
            depth,
            root,
            nullifier,
        ),
{
    let siblings = first_siblings(note.path, depth);
    assert(siblings =~= note.secret(depth).siblings);
    lemma_led(
        hash2_spec(
            hash2_spec(note.value as nat, hash2_spec(1, note.sk.value())),
            note.blinding.value(),
        ),
        siblings,
        note.path.leaf_index as nat,
    );
    lemma_index_spelled(note.path.leaf_index as nat, depth);
}

/// **The transfer circuit** has the root, the nullifiers and the new
/// commitments as its public inputs, in this order. With all values given, it
/// is satisfied if and only if every spent note that is worth something leads
/// to the root, every nullifier is the one of its note's key and leaf, every
/// commitment is the one to its created note, and the notes that are spent are
/// worth exactly as much as those that are created.
pub proof fn lemma_transfer_circuit(
    circuit: &TransferCircuit,
    c: Circuit,
    satisfied: Result<bool, SynthesisError>,
)
    requires
        circuit.wf(),
        circuit.depth <= 64,
        circuit.assigned(),
        circuit.spent@.len() == circuit.nullifiers@.len(),
        circuit.created@.len() == circuit.new_commitments@.len(),
        call_ensures(TransferCircuit::generate_constraints, (circuit,), c),
        call_ensures(Circuit::is_satisfied, (&c,), satisfied),
    ensures
        ({
            let n = circuit.nullifiers@.len();
            &&& c.inputs@.len() == 1 + n + circuit.new_commitments@.len()
            &&& c.inputs@[0] == circuit.root
            &&& forall|i: int|
                0 <= i < n ==> c.inputs@[1 + i] == #[trigger] circuit.nullifiers@[i]
            &&& forall|i: int|
                0 <= i < circuit.new_commitments@.len() ==> c.inputs@[1 + n + i]
                    == #[trigger] circuit.new_commitments@[i]
        }),
        satisfied matches Ok(holds) && (holds <==> {
            &&& forall|i: int|
                0 <= i < circuit.spent@.len() ==> good_spend(
                    (#[trigger] circuit.spent@[i])->0,
                    circuit.depth as nat,
                    circuit.root->0.value(),
                    circuit.nullifiers@[i]->0.value(),
                )
            &&& forall|i: int|
                0 <= i < circuit.created@.len() ==> {
                    let note = (#[trigger] circuit.created@[i])->0;
                    circuit.new_commitments@[i]->0.value() == hash2_spec(
                        hash2_spec(note.value as nat, note.owner_pk.value()),
                        note.blinding.value(),
                    )
                }
            &&& summed(spent_values(circuit.spent@)) == summed(created_values(circuit.created@))
        }),
{
    assert forall|i: int| 0 <= i < circuit.spent@.len() implies spent_ok(
        (#[trigger] circuit.spent@[i])->0.secret(circuit.depth as nat),
        circuit.depth as nat,
        circuit.root->0.value(),
        circuit.nullifiers@[i]->0.value(),
    ) == good_spend(
        circuit.spent@[i]->0,
        circuit.depth as nat,
        circuit.root->0.value(),
        circuit.nullifiers@[i]->0.value(),
    ) by {
        lemma_good_spend(
            circuit.spent@[i]->0,
            circuit.depth as nat,
            circuit.root->0.value(),
            circuit.nullifiers@[i]->0.value(),
        );
    }
    lemma_spending(*circuit, circuit.spent@.len());
    lemma_creating(*circuit, circuit.created@.len());
    let spent = spent_values(circuit.spent@);
    assert(spent.take(spent.len() as int) =~= spent);
    let created = created_values(circuit.created@);
    assert(created.take(created.len() as int) =~= created);
}

/// The number that some of a prover's bits spell.
pub open spec fn word_at(bits: Seq<bool>, at: int, n: nat) -> nat {
    le_nat(Seq::new(n, |k: int| bits[at + k]))
}

/// What a prover puts in for a spent note: a 64-bit value, a key, a blinding, a
/// leaf index and siblings.
pub open spec fn puts_in(asg: Assignment, depth: nat, i: int, root: nat, nullifier: nat) -> bool {
    let w = i * (depth + 2);
    let b = i * (depth + 64);
    let value = word_at(asg.bits, b, 64);
    let sk = asg.witnesses[w];
    let index = word_at(asg.bits, b + 64, depth);
    &&& value != 0 ==> led(
        hash2_spec(hash2_spec(value, hash2_spec(1, sk)), asg.witnesses[w + 1]),
        Seq::new(depth, |l: int| asg.witnesses[w + 2 + l]),
        index,
    ) == root
    &&& index < fr_modulus()
    &&& nullifier == hash2_spec(hash2_spec(2, sk), index)
}

proof fn lemma_puts_in(asg: Assignment, depth: nat, i: nat, root: nat, nullifier: nat)
    ensures
        spent_ok(nth_spent(asg, depth, i), depth, root, nullifier) <==> puts_in(
            asg,
            depth,
            i as int,
            root,
            nullifier,
        ),
        nth_spent(asg, depth, i).value == word_at(asg.bits, (i * (depth + 64)) as int, 64),
{
    let s = nth_spent(asg, depth, i);
    let w = i * (depth + 2);
    let b = i * (depth + 64);
    assert(i * (depth + 2) >= 0 && i * (depth + 64) >= 0) by (nonlinear_arith);
    assert(s.siblings =~= Seq::new(depth, |l: int| asg.witnesses[w + 2 + l]));
    assert(s.index_bits =~= Seq::new(depth, |k: int| asg.bits[b + 64 + k]));
    assert(crate::util::bits_at(asg.bits, b as nat, 64) =~= Seq::new(
        64,
        |k: int| asg.bits[b + k],
    ));
    lemma_climb_led(
        hash2_spec(hash2_spec(s.value, hash2_spec(1, s.sk)), s.blinding),
        s.siblings,
        s.index_bits,
    );
}

/// **Whatever a prover puts into the transfer circuit** for two spent and two
/// created notes, it is satisfied if and only if each spent note that is worth
/// something leads to the public root, the public nullifiers and commitments
/// are those of the notes, and the 64-bit values add up to the same.
pub proof fn lemma_any_transfer(circuit: &TransferCircuit, c: Circuit, asg: Assignment)
    requires
        circuit.wf(),
        circuit.spent@.len() == 2,
        circuit.nullifiers@.len() == 2,
        circuit.created@.len() == 2,
        circuit.new_commitments@.len() == 2,
        call_ensures(TransferCircuit::generate_constraints, (circuit,), c),
    ensures
        ({
            let depth = circuit.depth as nat;
            let w = 2 * (depth + 2);
            let b = 2 * (depth + 64);
            let first = word_at(asg.bits, b as int, 64);
            let second = word_at(asg.bits, b as int + 64, 64);
            c.sat(asg) <==> {
                &&& puts_in(asg, depth, 0, asg.inputs[0], asg.inputs[1])
                &&& puts_in(asg, depth, 1, asg.inputs[0], asg.inputs[2])
                &&& asg.inputs[3] == hash2_spec(
                    hash2_spec(first, asg.witnesses[w as int]),
                    asg.witnesses[w as int + 1],
                )
                &&& asg.inputs[4] == hash2_spec(
                    hash2_spec(second, asg.witnesses[w as int + 2]),
                    asg.witnesses[w as int + 3],
                )
                &&& word_at(asg.bits, 0, 64) + word_at(asg.bits, (depth + 64) as int, 64) == first
                    + second
            }
        }),
{
    let depth = circuit.depth as nat;
    lemma_puts_in(asg, depth, 0, asg.inputs[0], asg.inputs[1]);
    lemma_puts_in(asg, depth, 1, asg.inputs[0], asg.inputs[2]);
    let b = 2 * (depth + 64);
    let (x, y) = (nth_created(asg, depth, 2, 0), nth_created(asg, depth, 2, 1));
    assert(crate::util::bits_at(asg.bits, b, 64) =~= Seq::new(64, |k: int| asg.bits[b + k]));
    assert(crate::util::bits_at(asg.bits, b + 64, 64) =~= Seq::new(
        64,
        |k: int| asg.bits[b + 64 + k],
    ));
    assert(x.value == word_at(asg.bits, b as int, 64));
    assert(y.value == word_at(asg.bits, b as int + 64, 64));
    reveal_with_fuel(crate::transfer::spent_total, 3);
    reveal_with_fuel(crate::transfer::created_total, 3);
    assert(circuit.n_in() == 2 && circuit.n_out() == 2);
    let (s, t) = (nth_spent(asg, depth, 0), nth_spent(asg, depth, 1));
    if c.sat(asg) {
        assert(spent_ok(s, depth, asg.inputs[0], asg.inputs[1]));
        assert(spent_ok(t, depth, asg.inputs[0], asg.inputs[2]));
        assert(crate::transfer::created_ok(x, asg.inputs[3]));
        assert(crate::transfer::created_ok(y, asg.inputs[4]));
    }
}

/// **Values cannot wrap.** The number that 64 of a prover's bits spell is below
/// `2^64`.
pub proof fn lemma_words_small(bits: Seq<bool>, at: int)
    ensures
        word_at(bits, at, 64) < 0x1_0000_0000_0000_0000,
{
    lemma_le_small(Seq::new(64, |k: int| bits[at + k]));
}

/// **Blank circuits** have the shape that they are asked for, and no values.
pub proof fn lemma_blank(
    depth: usize,
    n_in: usize,
    n_out: usize,
    transfer: TransferCircuit,
    withdraw: WithdrawCircuit,
    inputs: usize,
)
    requires
        call_ensures(TransferCircuit::blank, (depth, n_in, n_out), transfer),
        call_ensures(WithdrawCircuit::blank, (depth,), withdraw),
        call_ensures(transfer_public_inputs, (n_in, n_out), inputs),
    ensures
        transfer.depth == depth,
        transfer.root is None,
        transfer.nullifiers@.len() == n_in,
        transfer.spent@.len() == n_in,
        transfer.new_commitments@.len() == n_out,
        transfer.created@.len() == n_out,
        forall|i: int| 0 <= i < n_in ==> (#[trigger] transfer.nullifiers@[i]) is None,
        forall|i: int| 0 <= i < n_in ==> (#[trigger] transfer.spent@[i]) is None,
        forall|i: int| 0 <= i < n_out ==> (#[trigger] transfer.new_commitments@[i]) is None,
        forall|i: int| 0 <= i < n_out ==> (#[trigger] transfer.created@[i]) is None,
        withdraw.depth == depth,
        withdraw.root is None && withdraw.nullifier is None && withdraw.amount is None,
        withdraw.recipient_binding is None && withdraw.sk is None,
        withdraw.blinding is None && withdraw.path is None,
        inputs == 1 + n_in + n_out,
        crate::layout::WITHDRAW_PUBLIC_INPUTS == 4,
        crate::layout::ATTESTATION_PUBLIC_INPUTS == 5,
{
}

/// **The recipient is bound.** It is an operand of a product of the withdraw
/// circuit.
pub proof fn lemma_recipient_bound(circuit: &WithdrawCircuit, c: Circuit)
    requires
        circuit.wf(),
        call_ensures(WithdrawCircuit::generate_constraints, (circuit,), c),
    ensures
        exists|i: int, j: usize|
            0 <= i < c.gates@.len() && j < c.gates@.len() && c.gates@[i] == Gate::Product(j, j)
                && c.gates@[j as int] == Gate::Input(2),
{
}

} // verus!
