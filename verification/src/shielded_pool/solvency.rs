//! The pool's token balance is the sum of the notes in it.
//!
//! A [`Ledger`] says what nobody sees on the ledger: the note behind every
//! commitment, and which notes were spent, by which key. The laws here say that
//! every operation of the pool carries a ledger along whose unspent notes add
//! up to the pool's balance, so no value is created or lost inside the pool.
//!
//! They rest on three things that the pool cannot see. A depositor commits to a
//! note of the amount that is paid in. A statement whose proof is accepted has
//! a witness. And among the pairs that were hashed, no two different ones have
//! the same hash, and none has the hash zero, which stands for an empty leaf.

use super::{leaf_values, pool_root, transfer_inputs, withdraw_inputs, PoolState};
use crate::bytes::{be_nat, lemma_be_bytes, lemma_be_bytes_unique, lemma_pow256_sizes};
use crate::circuit::{le_nat, Assignment};
use crate::encoding::fr_encoding;
use crate::interfaces::all_canonical;
use crate::interfaces::fr::canonical_scalar;
use crate::merkle::{lemma_membership_binding, node_of, path_collides, path_pair, root_of, tree_pair};
use crate::note::{commitment_of, nullifier_of, pk_of};
use crate::poseidon::{hash2_spec, lemma_hash2_canonical};
use crate::transfer::{
    created_ok, created_total, nth_created, nth_spent, spent_ok, spent_total, transfer_relation,
    CreatedSecret, SpentSecret,
};
use crate::util::{bits_at, values_at};
use crate::withdraw::withdraw_relation;
use crate::zk_verifier::scalar_values;
use vstd::prelude::*;

verus! {

/// The note behind each commitment of a pool, in leaf order, and for each spent
/// one the key that spent it.
#[verifier::ext_equal]
pub struct Ledger {
    pub notes: Seq<CreatedSecret>,
    pub spent: Map<nat, nat>,
}

/// No two different pairs have the same hash, and none has the hash zero.
pub open spec fn apart(hashed: Set<(nat, nat)>) -> bool {
    &&& forall|p: (nat, nat), q: (nat, nat)|
        #![trigger hashed.contains(p), hashed.contains(q)]
        hashed.contains(p) && hashed.contains(q) && hash2_spec(p.0, p.1) == hash2_spec(q.0, q.1)
            ==> p == q
    &&& forall|p: (nat, nat)| #[trigger] hashed.contains(p) ==> hash2_spec(p.0, p.1) != 0
}

/// The pairs that a commitment to a note hashes.
pub open spec fn note_hashed(hashed: Set<(nat, nat)>, note: CreatedSecret) -> bool {
    &&& hashed.contains((note.value, note.owner_pk))
    &&& hashed.contains((hash2_spec(note.value, note.owner_pk), note.blinding))
}

/// The pairs that a path to the root of a tree hashes, and those of the tree at
/// the same places.
pub open spec fn path_hashed(
    hashed: Set<(nat, nat)>,
    leaves: Seq<nat>,
    leaf: nat,
    siblings: Seq<nat>,
    bits: Seq<bool>,
) -> bool {
    forall|level: nat|
        level < bits.len() ==> hashed.contains(#[trigger] path_pair(leaf, siblings, bits, level))
            && hashed.contains(tree_pair(leaves, bits, level))
}

/// The note that a spend names.
pub open spec fn named_note(s: SpentSecret) -> CreatedSecret {
    CreatedSecret { value: s.value, owner_pk: pk_of(s.sk), blinding: s.blinding }
}

/// The pairs that a spend hashes under the root of a tree.
pub open spec fn spend_hashed(hashed: Set<(nat, nat)>, leaves: Seq<nat>, s: SpentSecret) -> bool {
    &&& hashed.contains((1, s.sk))
    &&& note_hashed(hashed, named_note(s))
    &&& path_hashed(
        hashed,
        leaves,
        commitment_of(s.value, pk_of(s.sk), s.blinding),
        s.siblings,
        s.index_bits,
    )
}

/// The total value of those among the first `n` notes that are not spent.
pub open spec fn unspent_total(notes: Seq<CreatedSecret>, spent: Map<nat, nat>, n: nat) -> nat
    decreases n,
{
    if n == 0 {
        0
    } else {
        unspent_total(notes, spent, (n - 1) as nat) + if spent.dom().contains((n - 1) as nat) {
            0
        } else {
            notes[n - 1].value
        }
    }
}

impl Ledger {
    /// The notes open the pool's commitments, and every spent one has its
    /// nullifier in the spent set.
    pub open spec fn opens(self, pool: PoolState, hashed: Set<(nat, nat)>) -> bool {
        &&& self.notes.len() == pool.leaves.len()
        &&& forall|i: int|
            0 <= i < self.notes.len() ==> note_hashed(hashed, #[trigger] self.notes[i]) && be_nat(
                pool.leaves[i],
            ) == commitment_of(
                self.notes[i].value,
                self.notes[i].owner_pk,
                self.notes[i].blinding,
            )
        &&& forall|i: nat| #[trigger]
            self.spent.dom().contains(i) ==> {
                &&& i < self.notes.len()
                &&& pk_of(self.spent[i]) == self.notes[i as int].owner_pk
                &&& hashed.contains((1, self.spent[i]))
                &&& pool.nullifiers.contains(fr_encoding(nullifier_of(self.spent[i], i)))
            }
    }

    /// The pool's balance is the total of the unspent notes.
    pub open spec fn backs(self, pool: PoolState, hashed: Set<(nat, nat)>, balance: int) -> bool {
        &&& self.opens(pool, hashed)
        &&& balance == unspent_total(self.notes, self.spent, self.notes.len())
    }
}

/// A key more does not change the total of notes before it.
proof fn lemma_total_same(
    notes: Seq<CreatedSecret>,
    more: Seq<CreatedSecret>,
    spent: Map<nat, nat>,
    other: Map<nat, nat>,
    n: nat,
)
    requires
        n <= notes.len(),
        n <= more.len(),
        forall|i: int| 0 <= i < n ==> notes[i] == more[i],
        forall|i: nat| i < n ==> spent.dom().contains(i) == other.dom().contains(i),
    ensures
        unspent_total(notes, spent, n) == unspent_total(more, other, n),
    decreases n,
{
    if n > 0 {
        lemma_total_same(notes, more, spent, other, (n - 1) as nat);
    }
}

/// Spending a note takes its value off the total.
proof fn lemma_total_spend(
    notes: Seq<CreatedSecret>,
    spent: Map<nat, nat>,
    i: nat,
    sk: nat,
    n: nat,
)
    requires
        i < n <= notes.len(),
        !spent.dom().contains(i),
    ensures
        unspent_total(notes, spent.insert(i, sk), n) + notes[i as int].value == unspent_total(
            notes,
            spent,
            n,
        ),
    decreases n,
{
    if n == i + 1 {
        lemma_total_same(notes, notes, spent, spent.insert(i, sk), i);
    } else {
        lemma_total_spend(notes, spent, i, sk, (n - 1) as nat);
    }
}

/// **An empty pool is backed.** A pool without commitments holds nothing.
pub proof fn lemma_empty_backed(pool: PoolState, hashed: Set<(nat, nat)>)
    requires
        pool.leaves.len() == 0,
    ensures
        (Ledger { notes: Seq::empty(), spent: Map::empty() }).backs(pool, hashed, 0),
{
}

/// **Deposits keep the balance.** A deposit of an amount, with a commitment to
/// a note of that amount, adds as much to the notes as to the balance.
pub proof fn lemma_deposit_backed(
    ledger: Ledger,
    pool: PoolState,
    hashed: Set<(nat, nat)>,
    balance: int,
    note: CreatedSecret,
    commitment: Seq<u8>,
)
    requires
        ledger.backs(pool, hashed, balance),
        be_nat(commitment) == commitment_of(note.value, note.owner_pk, note.blinding),
        note_hashed(hashed, note),
    ensures
        (Ledger { notes: ledger.notes.push(note), spent: ledger.spent }).backs(
            pool.grown(seq![commitment]),
            hashed,
            balance + note.value,
        ),
{
    let after = Ledger { notes: ledger.notes.push(note), spent: ledger.spent };
    let grown = pool.grown(seq![commitment]);
    let n = ledger.notes.len();
    lemma_total_same(ledger.notes, after.notes, ledger.spent, after.spent, n);
    assert(!ledger.spent.dom().contains(n));
    assert forall|i: int| 0 <= i < after.notes.len() implies note_hashed(
        hashed,
        #[trigger] after.notes[i],
    ) && be_nat(grown.leaves[i]) == commitment_of(
        after.notes[i].value,
        after.notes[i].owner_pk,
        after.notes[i].blinding,
    ) by {
        if i < n {
            assert(after.notes[i] == ledger.notes[i]);
            assert(grown.leaves[i] == pool.leaves[i]);
        }
    }
}

/// A spend under a root of the pool names a note of the pool.
proof fn lemma_spend_named(
    ledger: Ledger,
    pool: PoolState,
    hashed: Set<(nat, nat)>,
    k: int,
    s: SpentSecret,
    nullifier: nat,
)
    requires
        ledger.opens(pool, hashed),
        apart(hashed),
        0 <= k <= pool.leaves.len(),
        s.value != 0,
        s.index_bits.len() == 20,
        spent_ok(s, 20, root_of(leaf_values(pool.leaves.take(k)), 20), nullifier),
        spend_hashed(hashed, leaf_values(pool.leaves.take(k)), s),
    ensures
        le_nat(s.index_bits) < ledger.notes.len(),
        ledger.notes[le_nat(s.index_bits) as int] == named_note(s),
{
    let leaves = leaf_values(pool.leaves.take(k));
    let index = le_nat(s.index_bits);
    let inner = hash2_spec(s.value, pk_of(s.sk));
    let cm = commitment_of(s.value, pk_of(s.sk), s.blinding);
    lemma_membership_binding(leaves, cm, s.siblings, s.index_bits);
    assert(!path_collides(leaves, cm, s.siblings, s.index_bits)) by {
        assert forall|level: nat|
            level < s.index_bits.len() && hash2_spec(
                path_pair(cm, s.siblings, s.index_bits, level).0,
                path_pair(cm, s.siblings, s.index_bits, level).1,
            ) == hash2_spec(
                tree_pair(leaves, s.index_bits, level).0,
                tree_pair(leaves, s.index_bits, level).1,
            ) implies #[trigger] path_pair(cm, s.siblings, s.index_bits, level) == tree_pair(
            leaves,
            s.index_bits,
            level,
        ) by {
            assert(hashed.contains(path_pair(cm, s.siblings, s.index_bits, level)));
            assert(hashed.contains(tree_pair(leaves, s.index_bits, level)));
        }
    }
    assert(node_of(leaves, 0, index) == cm);
    assert(hashed.contains((inner, s.blinding)));
    assert(cm != 0);
    assert(index < leaves.len());
    let note = ledger.notes[index as int];
    assert(leaves[index as int] == be_nat(pool.leaves[index as int]));
    assert(note_hashed(hashed, note));
    let other = hash2_spec(note.value, note.owner_pk);
    assert(hash2_spec(other, note.blinding) == hash2_spec(inner, s.blinding));
    assert(hashed.contains((other, note.blinding)));
    assert((other, note.blinding) == (inner, s.blinding));
    assert(hashed.contains((note.value, note.owner_pk)));
    assert(hashed.contains((s.value, pk_of(s.sk))));
    assert((note.value, note.owner_pk) == (s.value, pk_of(s.sk)));
}

/// Keys with one public key are one key.
proof fn lemma_one_key(hashed: Set<(nat, nat)>, sk: nat, other: nat)
    requires
        apart(hashed),
        hashed.contains((1, sk)),
        hashed.contains((1, other)),
        pk_of(sk) == pk_of(other),
    ensures
        sk == other,
{
    assert((1nat, sk) == (1nat, other));
}

/// The keys that spent notes, after the first `n` spends of a transfer.
pub open spec fn spent_after(spent: Map<nat, nat>, asg: Assignment, n: nat) -> Map<nat, nat>
    decreases n,
{
    if n == 0 {
        spent
    } else {
        let before = spent_after(spent, asg, (n - 1) as nat);
        let s = nth_spent(asg, 20, (n - 1) as nat);
        if s.value != 0 {
            before.insert(le_nat(s.index_bits), s.sk)
        } else {
            before
        }
    }
}

/// The notes that a transfer creates.
pub open spec fn created_notes(asg: Assignment, n_in: nat, n_out: nat) -> Seq<CreatedSecret> {
    Seq::new(n_out, |j: int| nth_created(asg, 20, n_in, j as nat))
}

/// The ledger after a transfer.
pub open spec fn after_transfer(ledger: Ledger, asg: Assignment, n_in: nat, n_out: nat) -> Ledger {
    Ledger {
        notes: ledger.notes + created_notes(asg, n_in, n_out),
        spent: spent_after(ledger.spent, asg, n_in),
    }
}

/// A transfer that the pool settles, with a witness of its statement: the
/// nullifiers are fresh, the inputs are those that the pool derives, and the
/// witness meets the relation under the root over the first `k` commitments.
pub open spec fn witnessed_transfer(
    pool: PoolState,
    hashed: Set<(nat, nat)>,
    nullifiers: Seq<Seq<u8>>,
    commitments: Seq<Seq<u8>>,
    k: int,
    asg: Assignment,
) -> bool {
    let inputs = transfer_inputs(pool_root(pool.leaves.take(k)), nullifiers, commitments);
    &&& 0 <= k <= pool.leaves.len()
    &&& !pool.double_spend(nullifiers)
    &&& all_canonical(inputs)
    &&& asg.inputs == scalar_values(inputs)
    &&& transfer_relation(asg, 20, nullifiers.len(), nullifiers.len(), commitments.len())
    &&& forall|i: nat|
        i < nullifiers.len() && (#[trigger] nth_spent(asg, 20, i)).value != 0 ==> spend_hashed(
            hashed,
            leaf_values(pool.leaves.take(k)),
            nth_spent(asg, 20, i),
        )
    &&& forall|j: nat|
        j < commitments.len() ==> note_hashed(
            hashed,
            #[trigger] nth_created(asg, 20, nullifiers.len(), j),
        )
}

/// The integer of the pool's root.
proof fn lemma_root_value(leaves: Seq<Seq<u8>>)
    ensures
        be_nat(pool_root(leaves)) == root_of(leaf_values(leaves), 20),
{
    let values = leaf_values(leaves);
    lemma_hash2_canonical(node_of(values, 19, 0), node_of(values, 19, 1));
    lemma_pow256_sizes();
    lemma_be_bytes(root_of(values, 20), 32);
}

/// What one spend of a witnessed transfer is.
proof fn lemma_transfer_spend(
    pool: PoolState,
    hashed: Set<(nat, nat)>,
    nullifiers: Seq<Seq<u8>>,
    commitments: Seq<Seq<u8>>,
    k: int,
    asg: Assignment,
    i: nat,
)
    requires
        witnessed_transfer(pool, hashed, nullifiers, commitments, k, asg),
        i < nullifiers.len(),
    ensures
        ({
            let s = nth_spent(asg, 20, i);
            let nullifier = nullifier_of(s.sk, le_nat(s.index_bits));
            &&& s.index_bits.len() == 20
            &&& spent_ok(s, 20, root_of(leaf_values(pool.leaves.take(k)), 20), nullifier)
            &&& nullifiers[i as int] == fr_encoding(nullifier)
            &&& !pool.nullifiers.contains(fr_encoding(nullifier))
        }),
{
    let inputs = transfer_inputs(pool_root(pool.leaves.take(k)), nullifiers, commitments);
    let s = nth_spent(asg, 20, i);
    lemma_root_value(pool.leaves.take(k));
    assert(inputs[0] == pool_root(pool.leaves.take(k)));
    assert(inputs[1 + i as int] == nullifiers[i as int]);
    assert(asg.inputs[0] == be_nat(inputs[0]));
    assert(asg.inputs[1 + i as int] == be_nat(nullifiers[i as int]));
    assert(spent_ok(s, 20, asg.inputs[0], asg.inputs[1 + i as int]));
    assert(canonical_scalar(inputs[1 + i as int]));
    lemma_be_bytes_unique(nullifiers[i as int]);
}

/// The first spends of a transfer take their values off the total, and each
/// names a note that was unspent.
proof fn lemma_transfer_spends(
    ledger: Ledger,
    pool: PoolState,
    hashed: Set<(nat, nat)>,
    nullifiers: Seq<Seq<u8>>,
    commitments: Seq<Seq<u8>>,
    k: int,
    asg: Assignment,
    n: nat,
)
    requires
        ledger.opens(pool, hashed),
        apart(hashed),
        witnessed_transfer(pool, hashed, nullifiers, commitments, k, asg),
        n <= nullifiers.len(),
    ensures
        ({
            let spent = spent_after(ledger.spent, asg, n);
            &&& unspent_total(ledger.notes, spent, ledger.notes.len()) + spent_total(asg, 20, n)
                == unspent_total(ledger.notes, ledger.spent, ledger.notes.len())
            &&& forall|i: nat| #[trigger]
                spent.dom().contains(i) ==> {
                    &&& i < ledger.notes.len()
                    &&& pk_of(spent[i]) == ledger.notes[i as int].owner_pk
                    &&& hashed.contains((1, spent[i]))
                    &&& pool.nullifiers.contains(fr_encoding(nullifier_of(spent[i], i))) || exists|
                        m: int,
                    |
                        0 <= m < n && #[trigger] nullifiers[m] == fr_encoding(
                            nullifier_of(spent[i], i),
                        )
                }
        }),
    decreases n,
{
    if n > 0 {
        let m = (n - 1) as nat;
        lemma_transfer_spends(ledger, pool, hashed, nullifiers, commitments, k, asg, m);
        lemma_transfer_spend(pool, hashed, nullifiers, commitments, k, asg, m);
        let before = spent_after(ledger.spent, asg, m);
        let after = spent_after(ledger.spent, asg, n);
        let s = nth_spent(asg, 20, m);
        let index = le_nat(s.index_bits);
        let nullifier = nullifier_of(s.sk, index);
        if s.value != 0 {
            lemma_spend_named(ledger, pool, hashed, k, s, nullifier);
            if before.dom().contains(index) {
                lemma_one_key(hashed, before[index], s.sk);
                let e = choose|e: int|
                    0 <= e < m && #[trigger] nullifiers[e] == fr_encoding(
                        nullifier_of(before[index], index),
                    );
                assert(nullifiers[m as int] == nullifiers[e]);
                assert(pool.double_spend(nullifiers));
            }
            lemma_total_spend(ledger.notes, before, index, s.sk, ledger.notes.len());
        }
        assert forall|i: nat| #[trigger] after.dom().contains(i) implies {
            &&& i < ledger.notes.len()
            &&& pk_of(after[i]) == ledger.notes[i as int].owner_pk
            &&& hashed.contains((1, after[i]))
            &&& pool.nullifiers.contains(fr_encoding(nullifier_of(after[i], i))) || exists|e: int|
                0 <= e < n && #[trigger] nullifiers[e] == fr_encoding(nullifier_of(after[i], i))
        } by {
            if s.value != 0 && i == index {
                assert(nullifiers[m as int] == fr_encoding(nullifier_of(after[i], i)));
            } else {
                assert(before.dom().contains(i));
                assert(after[i] == before[i]);
                if !pool.nullifiers.contains(fr_encoding(nullifier_of(before[i], i))) {
                    let e = choose|e: int|
                        0 <= e < m && #[trigger] nullifiers[e] == fr_encoding(
                            nullifier_of(before[i], i),
                        );
                    assert(0 <= e < n && nullifiers[e] == fr_encoding(nullifier_of(after[i], i)));
                }
            }
        }
    }
}

/// Notes behind the others add their values, where no spend is recorded.
proof fn lemma_total_created(ledger: Ledger, asg: Assignment, n_in: nat, n_out: nat, n: nat)
    requires
        n <= n_out,
        forall|i: nat| #[trigger]
            ledger.spent.dom().contains(i) ==> i < ledger.notes.len() - n_out,
        ledger.notes.len() >= n_out,
        forall|j: nat|
            j < n_out ==> ledger.notes[ledger.notes.len() - n_out + j] == #[trigger] nth_created(
                asg,
                20,
                n_in,
                j,
            ),
    ensures
        unspent_total(
            ledger.notes,
            ledger.spent,
            (ledger.notes.len() - n_out + n) as nat,
        ) == unspent_total(ledger.notes, ledger.spent, (ledger.notes.len() - n_out) as nat)
            + created_total(asg, 20, n_in, n),
    decreases n,
{
    if n > 0 {
        let m = (n - 1) as nat;
        lemma_total_created(ledger, asg, n_in, n_out, m);
        let at = (ledger.notes.len() - n_out + m) as nat;
        assert(!ledger.spent.dom().contains(at));
        assert(ledger.notes[at as int] == nth_created(asg, 20, n_in, m));
    }
}

/// **Transfers keep the balance.** A transfer that the pool settles, and whose
/// statement has a witness, leaves the balance as it is: the notes that it
/// spends were unspent notes of the pool, and are worth as much as the notes
/// that it creates.
pub proof fn lemma_transfer_backed(
    ledger: Ledger,
    pool: PoolState,
    hashed: Set<(nat, nat)>,
    balance: int,
    nullifiers: Seq<Seq<u8>>,
    commitments: Seq<Seq<u8>>,
    k: int,
    asg: Assignment,
)
    requires
        ledger.backs(pool, hashed, balance),
        apart(hashed),
        witnessed_transfer(pool, hashed, nullifiers, commitments, k, asg),
    ensures
        after_transfer(ledger, asg, nullifiers.len(), commitments.len()).backs(
            pool.spending(nullifiers).grown(commitments),
            hashed,
            balance,
        ),
{
    let n_in = nullifiers.len();
    let n_out = commitments.len();
    let after = after_transfer(ledger, asg, n_in, n_out);
    let settled = pool.spending(nullifiers).grown(commitments);
    let inputs = transfer_inputs(pool_root(pool.leaves.take(k)), nullifiers, commitments);
    lemma_transfer_spends(ledger, pool, hashed, nullifiers, commitments, k, asg, n_in);
    lemma_total_same(ledger.notes, after.notes, after.spent, after.spent, ledger.notes.len());
    assert forall|j: nat| j < n_out implies after.notes[after.notes.len() - n_out + j]
        == #[trigger] nth_created(asg, 20, n_in, j) by {
        assert(created_notes(asg, n_in, n_out)[j as int] == nth_created(asg, 20, n_in, j));
    }
    lemma_total_created(after, asg, n_in, n_out, n_out);
    assert forall|i: int| 0 <= i < after.notes.len() implies note_hashed(
        hashed,
        #[trigger] after.notes[i],
    ) && be_nat(settled.leaves[i]) == commitment_of(
        after.notes[i].value,
        after.notes[i].owner_pk,
        after.notes[i].blinding,
    ) by {
        if i < ledger.notes.len() {
            assert(after.notes[i] == ledger.notes[i]);
            assert(settled.leaves[i] == pool.leaves[i]);
        } else {
            let j = (i - ledger.notes.len()) as nat;
            assert(after.notes[i] == nth_created(asg, 20, n_in, j));
            assert(settled.leaves[i] == commitments[j as int]);
            assert(inputs[1 + n_in + j as int] == commitments[j as int]);
            assert(asg.inputs[1 + n_in + j as int] == be_nat(commitments[j as int]));
            assert(created_ok(
                nth_created(asg, 20, n_in, j),
                asg.inputs[1 + n_in + j as int],
            ));
        }
    }
    assert forall|i: nat| #[trigger] after.spent.dom().contains(i) implies {
        &&& i < after.notes.len()
        &&& pk_of(after.spent[i]) == after.notes[i as int].owner_pk
        &&& hashed.contains((1, after.spent[i]))
        &&& settled.nullifiers.contains(fr_encoding(nullifier_of(after.spent[i], i)))
    } by {
        let nf = fr_encoding(nullifier_of(after.spent[i], i));
        if !pool.nullifiers.contains(nf) {
            let e = choose|e: int| 0 <= e < n_in && #[trigger] nullifiers[e] == nf;
            assert(nullifiers.to_set().contains(nullifiers[e]));
        }
    }
}

/// The note that a withdrawal's witness names.
pub open spec fn exited(asg: Assignment) -> SpentSecret {
    SpentSecret {
        value: asg.inputs[3],
        sk: asg.witnesses[0],
        blinding: asg.witnesses[1],
        index_bits: bits_at(asg.bits, 0, 20),
        siblings: values_at(asg.witnesses, 2, 20),
    }
}

/// The ledger after a withdrawal.
pub open spec fn after_withdraw(ledger: Ledger, asg: Assignment) -> Ledger {
    Ledger {
        notes: ledger.notes,
        spent: ledger.spent.insert(le_nat(exited(asg).index_bits), exited(asg).sk),
    }
}

/// **Withdrawals keep the balance.** A withdrawal that the pool settles, and
/// whose statement has a witness, takes exactly the value of one unspent note
/// of the pool off the notes and off the balance.
pub proof fn lemma_withdraw_backed(
    ledger: Ledger,
    pool: PoolState,
    hashed: Set<(nat, nat)>,
    balance: int,
    nullifier: Seq<u8>,
    to: Seq<u8>,
    amount: i128,
    k: int,
    asg: Assignment,
)
    requires
        ledger.backs(pool, hashed, balance),
        apart(hashed),
        0 <= k <= pool.leaves.len(),
        pool.withdraw_refusal(nullifier, amount, pool_root(pool.leaves.take(k))) is None,
        all_canonical(
            withdraw_inputs(pool_root(pool.leaves.take(k)), nullifier, to, amount as nat),
        ),
        asg.inputs == scalar_values(
            withdraw_inputs(pool_root(pool.leaves.take(k)), nullifier, to, amount as nat),
        ),
        withdraw_relation(asg, 20),
        spend_hashed(hashed, leaf_values(pool.leaves.take(k)), exited(asg)),
    ensures
        after_withdraw(ledger, asg).backs(
            pool.spending(seq![nullifier]),
            hashed,
            balance - amount,
        ),
{
    let inputs = withdraw_inputs(pool_root(pool.leaves.take(k)), nullifier, to, amount as nat);
    let s = exited(asg);
    let index = le_nat(s.index_bits);
    let nf = nullifier_of(s.sk, index);
    let settled = pool.spending(seq![nullifier]);
    let after = after_withdraw(ledger, asg);
    lemma_root_value(pool.leaves.take(k));
    assert(asg.inputs[0] == be_nat(inputs[0]));
    assert(asg.inputs[1] == be_nat(nullifier));
    assert(canonical_scalar(inputs[1]));
    lemma_be_bytes_unique(nullifier);
    assert(nullifier == fr_encoding(nf));
    assert(asg.inputs[3] == be_nat(fr_encoding(amount as nat)));
    lemma_pow256_sizes();
    lemma_be_bytes(amount as nat, 32);
    assert(s.value == amount);
    lemma_spend_named(ledger, pool, hashed, k, s, nf);
    if ledger.spent.dom().contains(index) {
        lemma_one_key(hashed, ledger.spent[index], s.sk);
    }
    lemma_total_spend(ledger.notes, ledger.spent, index, s.sk, ledger.notes.len());
    assert(seq![nullifier].to_set().contains(seq![nullifier][0]));
    assert forall|i: nat| #[trigger] after.spent.dom().contains(i) implies {
        &&& i < after.notes.len()
        &&& pk_of(after.spent[i]) == after.notes[i as int].owner_pk
        &&& hashed.contains((1, after.spent[i]))
        &&& settled.nullifiers.contains(fr_encoding(nullifier_of(after.spent[i], i)))
    } by {
        if i != index {
            assert(ledger.spent.dom().contains(i));
        }
    }
}

} // verus!
