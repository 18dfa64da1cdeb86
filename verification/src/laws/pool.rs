//! Laws of the shielded pool.

use crate::bytes::{be_nat, lemma_be_bytes, lemma_be_bytes_unique, lemma_pow256_sizes};
use crate::field::fr_modulus;
use crate::host::sha256_of;
use crate::interfaces::{
    byte_views, Address, Attestations, Groth16Proof, Invocation, Trap, Verifier, VerifierTrap,
};
use crate::laws::tree::{filled, folded, lemma_root_folds};
use crate::merkle::{node_of, root_of};
use crate::poseidon::lemma_hash2_canonical;
use crate::shielded_pool::{
    leaf_values, lemma_pool_in_order, pool_root, settlement_refusal, transfer_inputs,
    withdraw_inputs, Deposit, GateConfig, Payment, PoolError, PoolState, ShieldedPool,
    ShieldedTransfer, Withdraw,
};
use crate::store::Store;
use vstd::arithmetic::power2::lemma2_to64;
use vstd::prelude::*;

verus! {

/// The numbers that byte strings spell.
pub open spec fn spelled(leaves: Seq<Seq<u8>>) -> Seq<nat> {
    Seq::new(leaves.len(), |i: int| be_nat(leaves[i]))
}

/// The bytes are the root of the complete tree with `2^20` leaves: some
/// commitments, and zeros behind them.
pub open spec fn is_root_of(root: Seq<u8>, leaves: Seq<Seq<u8>>) -> bool {
    &&& root.len() == 32
    &&& folded(filled(spelled(leaves), 0x10_0000), 20) == seq![be_nat(root)]
}

proof fn lemma_is_root(leaves: Seq<Seq<u8>>)
    ensures
        is_root_of(pool_root(leaves), leaves),
        forall|root: Seq<u8>| #[trigger] is_root_of(root, leaves) ==> root == pool_root(leaves),
{
    let xs = leaf_values(leaves);
    assert(spelled(leaves) =~= xs);
    lemma2_to64();
    lemma_root_folds(xs, 20);
    lemma_hash2_canonical(node_of(xs, 19, 0), node_of(xs, 19, 1));
    lemma_pow256_sizes();
    lemma_be_bytes(root_of(xs, 20), 32);
    assert forall|root: Seq<u8>| #[trigger] is_root_of(root, leaves) implies root == pool_root(
        leaves,
    ) by {
        assert(seq![be_nat(root)][0] == seq![root_of(xs, 20)][0]);
        lemma_be_bytes_unique(root);
    }
}

/// The states agree in all but their commitments and spent nullifiers.
pub open spec fn same_setting(s: PoolState, t: PoolState) -> bool {
    &&& t.address == s.address
    &&& t.admin == s.admin
    &&& t.token == s.token
    &&& t.transfer_verifier == s.transfer_verifier
    &&& t.withdraw_verifier == s.withdraw_verifier
    &&& t.gate == s.gate
}

/// Exactly the nullifiers of a list were spent in addition.
pub open spec fn spent_too(s: PoolState, t: PoolState, nullifiers: Seq<Seq<u8>>) -> bool {
    forall|n: Seq<u8>| #[trigger]
        t.nullifiers.contains(n) <==> s.nullifiers.contains(n) || nullifiers.contains(n)
}

/// **A pool begins empty.** It has what it was made with, no commitments and no
/// spent nullifiers.
pub proof fn lemma_new(
    address: Address,
    admin: Address,
    token: Address,
    transfer_verifier: Address,
    withdraw_verifier: Address,
    gate: Option<GateConfig>,
    pool: ShieldedPool,
)
    requires
        call_ensures(
            ShieldedPool::new,
            (address, admin, token, transfer_verifier, withdraw_verifier, gate),
            pool,
        ),
    ensures
        pool.wf(),
        pool@.address == address@,
        pool@.admin == admin@,
        pool@.token == token@,
        pool@.transfer_verifier == transfer_verifier@,
        pool@.withdraw_verifier == withdraw_verifier@,
        gate is Some <==> pool@.gate is Some,
        gate matches Some(g) ==> pool@.gate->0.registry == g.registry@
            && pool@.gate->0.required_claim == g.required_claim,
        pool@.leaves.len() == 0,
        forall|n: Seq<u8>| !(#[trigger] pool@.nullifiers.contains(n)),
{
}

/// **Depositing.** A deposit enters the pool if and only if the depositor signs
/// it, it pays a positive amount of the pool's token, the depositor holds the
/// claim that the pool asks for, if it asks for one, the commitment is a
/// canonical field element, and the tree has room. The first that fails is what
/// is reported, and nothing changes then.
pub proof fn lemma_deposit<A: Attestations>(
    pool: &mut ShieldedPool,
    call: &Invocation,
    registries: &Store<Address, A>,
    from: Address,
    token: &Address,
    amount: i128,
    commitment: [u8; 32],
    done: Result<(Deposit, Payment), Trap<PoolError>>,
)
    requires
        call_ensures(
            ShieldedPool::deposit::<A>,
            (pool, call, registries, from, token, amount, commitment),
            done,
        ),
    ensures
        ({
            let s = old(pool)@;
            let found = registries.map();
            if !call.signed_by(from@) {
                done == Err::<(Deposit, Payment), Trap<PoolError>>(Trap::Unauthorized)
            } else if amount <= 0 {
                done == Err::<(Deposit, Payment), Trap<PoolError>>(
                    Trap::Error(PoolError::InvalidAmount),
                )
            } else if token@ != s.token {
                done == Err::<(Deposit, Payment), Trap<PoolError>>(
                    Trap::Error(PoolError::WrongToken),
                )
            } else if s.gate is Some && !found.dom().contains(s.gate->0.registry) {
                done == Err::<(Deposit, Payment), Trap<PoolError>>(Trap::NoContract)
            } else if s.gate is Some && !found[s.gate->0.registry].attested(
                call.now,
                from@,
                s.gate->0.required_claim,
            ) {
                done == Err::<(Deposit, Payment), Trap<PoolError>>(
                    Trap::Error(PoolError::AttestationRequired),
                )
            } else if be_nat(commitment@) >= fr_modulus() {
                done == Err::<(Deposit, Payment), Trap<PoolError>>(
                    Trap::Error(PoolError::MalformedRequest),
                )
            } else if s.leaves.len() >= 0x10_0000 {
                done == Err::<(Deposit, Payment), Trap<PoolError>>(
                    Trap::Error(PoolError::TreeFull),
                )
            } else {
                done is Ok
            }
        }),
        done is Err ==> *final(pool) == *old(pool),
        done matches Ok((event, payment)) ==> {
            let (s, t) = (old(pool)@, final(pool)@);
            &&& same_setting(s, t)
            &&& t.leaves == s.leaves.push(commitment@)
            &&& t.nullifiers == s.nullifiers
            &&& event.from@ == from@
            &&& event.commitment == commitment
            &&& event.amount == amount
            &&& event.leaf_index == s.leaves.len()
            &&& is_root_of(event.new_root@, s.leaves.push(commitment@))
            &&& payment.from@ == from@
            &&& payment.to@ == s.address
            &&& payment.amount == amount
        },
{
    let (s, t) = (old(pool)@, final(pool)@);
    if done is Ok {
        assert(t.leaves =~= s.leaves.push(commitment@));
        lemma_is_root(t.leaves);
    }
}

/// A nullifier was spent before or is named twice.
pub open spec fn spends_again(s: PoolState, nullifiers: Seq<Seq<u8>>) -> bool {
    exists|i: int|
        0 <= i < nullifiers.len() && (s.nullifiers.contains(#[trigger] nullifiers[i])
            || nullifiers.take(i).contains(nullifiers[i]))
}

proof fn lemma_spends_again(s: PoolState, nullifiers: Seq<Seq<u8>>)
    ensures
        s.double_spend(nullifiers) == spends_again(s, nullifiers),
{
    if s.double_spend(nullifiers) {
        if exists|i: int|
            0 <= i < nullifiers.len() && s.nullifiers.contains(#[trigger] nullifiers[i]) {
        } else {
            let (i, j) = choose|i: int, j: int|
                0 <= j < i < nullifiers.len() && #[trigger] nullifiers[i]
                    == #[trigger] nullifiers[j];
            assert(nullifiers.take(i)[j] == nullifiers[i]);
            assert(nullifiers.take(i).contains(nullifiers[i]));
        }
    }
    if spends_again(s, nullifiers) {
        let i = choose|i: int|
            0 <= i < nullifiers.len() && (s.nullifiers.contains(#[trigger] nullifiers[i])
                || nullifiers.take(i).contains(nullifiers[i]));
        if !s.nullifiers.contains(nullifiers[i]) {
            let j = choose|j: int|
                0 <= j < nullifiers.take(i).len() && nullifiers.take(i)[j] == nullifiers[i];
            assert(nullifiers[j] == nullifiers[i]);
        }
    }
}

/// The inputs are the root, the nullifiers and the new commitments, in this
/// order.
pub open spec fn states_transfer(
    inputs: Seq<Seq<u8>>,
    root: Seq<u8>,
    nullifiers: Seq<Seq<u8>>,
    commitments: Seq<Seq<u8>>,
) -> bool {
    &&& inputs.len() == 1 + nullifiers.len() + commitments.len()
    &&& inputs[0] == root
    &&& forall|i: int| 0 <= i < nullifiers.len() ==> inputs[1 + i] == #[trigger] nullifiers[i]
    &&& forall|i: int|
        0 <= i < commitments.len() ==> inputs[1 + nullifiers.len() + i] == #[trigger] commitments[i]
}

proof fn lemma_states_transfer(
    inputs: Seq<Seq<u8>>,
    root: Seq<u8>,
    nullifiers: Seq<Seq<u8>>,
    commitments: Seq<Seq<u8>>,
)
    ensures
        states_transfer(inputs, root, nullifiers, commitments) <==> inputs == transfer_inputs(
            root,
            nullifiers,
            commitments,
        ),
{
    let want = transfer_inputs(root, nullifiers, commitments);
    if states_transfer(inputs, root, nullifiers, commitments) {
        let n = nullifiers.len() as int;
        assert forall|k: int| 0 <= k < want.len() implies inputs[k] == want[k] by {
            if 1 <= k <= n {
                assert(inputs[1 + (k - 1)] == nullifiers[k - 1]);
            } else if k > n {
                assert(inputs[1 + n + (k - 1 - n)] == commitments[k - 1 - n]);
            }
        }
        assert(inputs =~= want);
    }
}

/// Whether a root is one of those over the first commitments of the pool.
pub open spec fn is_past_root(s: PoolState, root: Seq<u8>) -> bool {
    exists|k: int| 0 <= k <= s.leaves.len() && #[trigger] is_root_of(root, s.leaves.take(k))
}

proof fn lemma_past_roots(s: PoolState, root: Seq<u8>)
    ensures
        s.knows_root(root) == is_past_root(s, root),
{
    if s.knows_root(root) {
        let k = choose|k: int|
            0 <= k <= s.leaves.len() && root == #[trigger] pool_root(s.leaves.take(k));
        lemma_is_root(s.leaves.take(k));
        assert(is_root_of(root, s.leaves.take(k)));
    }
    if is_past_root(s, root) {
        let k = choose|k: int|
            0 <= k <= s.leaves.len() && #[trigger] is_root_of(root, s.leaves.take(k));
        lemma_is_root(s.leaves.take(k));
        assert(root == pool_root(s.leaves.take(k)));
    }
}

/// **The checks of a transfer.** It names nullifiers and commitments, with a
/// ciphertext for each commitment, a root that the tree has or had, and
/// nullifiers that are unspent and differ. The first that fails is what is
/// reported; where none fails, the statement is the root, the nullifiers and
/// the commitments.
pub proof fn lemma_transfer_checked(
    pool: &ShieldedPool,
    nullifiers: &Vec<[u8; 32]>,
    commitments: &Vec<[u8; 32]>,
    ciphertexts: &Vec<Vec<u8>>,
    root: &[u8; 32],
    checked: Result<Vec<[u8; 32]>, PoolError>,
)
    requires
        call_ensures(
            ShieldedPool::check_transfer,
            (pool, nullifiers, commitments, ciphertexts, root),
            checked,
        ),
    ensures
        ({
            let s = pool@;
            if nullifiers@.len() == 0 || commitments@.len() == 0 || ciphertexts@.len()
                != commitments@.len() {
                checked == Err::<Vec<[u8; 32]>, PoolError>(PoolError::MalformedRequest)
            } else if !is_past_root(s, root@) {
                checked == Err::<Vec<[u8; 32]>, PoolError>(PoolError::UnknownRoot)
            } else if spends_again(s, byte_views(nullifiers@)) {
                checked == Err::<Vec<[u8; 32]>, PoolError>(PoolError::AlreadySpent)
            } else {
                checked matches Ok(inputs) && states_transfer(
                    byte_views(inputs@),
                    root@,
                    byte_views(nullifiers@),
                    byte_views(commitments@),
                )
            }
        }),
{
    lemma_past_roots(pool@, root@);
    lemma_spends_again(pool@, byte_views(nullifiers@));
    if let Ok(inputs) = checked {
        lemma_states_transfer(
            byte_views(inputs@),
            root@,
            byte_views(nullifiers@),
            byte_views(commitments@),
        );
    }
}

/// **Settling a transfer.** An accepted transfer is settled whenever the tree
/// has room for its commitments, and refused with `TreeFull` only where it has
/// none; a rejected one, and one without a verdict, is refused for that. Then
/// its nullifiers, and no others, are spent, and its commitments stand behind
/// the others, in order.
pub proof fn lemma_transfer_settled(
    pool: &mut ShieldedPool,
    verdict: Result<bool, VerifierTrap>,
    nullifiers: Vec<[u8; 32]>,
    commitments: Vec<[u8; 32]>,
    ciphertexts: Vec<Vec<u8>>,
    done: Result<ShieldedTransfer, Trap<PoolError>>,
)
    requires
        call_ensures(
            ShieldedPool::settle_transfer,
            (pool, verdict, nullifiers, commitments, ciphertexts),
            done,
        ),
    ensures
        verdict matches Err(trap) ==> done == Err::<ShieldedTransfer, Trap<PoolError>>(
            Trap::Verifier(trap),
        ),
        verdict == Ok::<bool, VerifierTrap>(false) ==> done == Err::<
            ShieldedTransfer,
            Trap<PoolError>,
        >(Trap::Error(PoolError::InvalidProof)),
        verdict == Ok::<bool, VerifierTrap>(true) && old(pool)@.leaves.len() + commitments@.len()
            <= 0x10_0000 ==> done is Ok,
        verdict == Ok::<bool, VerifierTrap>(true) && old(pool)@.leaves.len() + commitments@.len()
            > 0x10_0000 ==> done == Err::<ShieldedTransfer, Trap<PoolError>>(
            Trap::Error(PoolError::TreeFull),
        ),
        done is Err ==> *final(pool) == *old(pool),
        done matches Ok(event) ==> transferred(
            old(pool)@,
            final(pool)@,
            nullifiers@,
            commitments@,
            ciphertexts@,
            event,
        ),
{
    if done is Ok {
        lemma_transferred(
            old(pool)@,
            final(pool)@,
            nullifiers@,
            commitments@,
            ciphertexts@,
            done->Ok_0,
        );
    }
}

/// What a transfer does to a pool, and the event that tells of it.
pub open spec fn transferred(
    s: PoolState,
    t: PoolState,
    nullifiers: Seq<[u8; 32]>,
    commitments: Seq<[u8; 32]>,
    ciphertexts: Seq<Vec<u8>>,
    event: ShieldedTransfer,
) -> bool {
    &&& same_setting(s, t)
    &&& spent_too(s, t, byte_views(nullifiers))
    &&& t.leaves.len() == s.leaves.len() + commitments.len()
    &&& forall|i: int| 0 <= i < s.leaves.len() ==> #[trigger] t.leaves[i] == s.leaves[i]
    &&& forall|i: int|
        0 <= i < commitments.len() ==> t.leaves[s.leaves.len() + i] == (#[trigger] commitments[i])@
    &&& event.nullifiers@ == nullifiers
    &&& event.new_commitments@ == commitments
    &&& event.encrypted_notes@ == ciphertexts
    &&& is_root_of(event.new_root@, t.leaves)
}

proof fn lemma_transferred(
    s: PoolState,
    t: PoolState,
    nullifiers: Seq<[u8; 32]>,
    commitments: Seq<[u8; 32]>,
    ciphertexts: Seq<Vec<u8>>,
    event: ShieldedTransfer,
)
    requires
        t == s.spending(byte_views(nullifiers)).grown(byte_views(commitments)),
        event.nullifiers@ == nullifiers,
        event.new_commitments@ == commitments,
        event.encrypted_notes@ == ciphertexts,
        event.new_root@ == pool_root(t.leaves),
    ensures
        transferred(s, t, nullifiers, commitments, ciphertexts, event),
{
    lemma_is_root(t.leaves);
    assert forall|i: int| 0 <= i < commitments.len() implies t.leaves[s.leaves.len() + i] == (
    #[trigger] commitments[i])@ by {
        assert(byte_views(commitments)[i] == commitments[i]@);
    }
}

/// **Transferring.** A transfer is carried out if and only if it passes its
/// checks, the pool's transfer verifier accepts its statement, and the tree has
/// room for its commitments; otherwise it is refused for the first that fails,
/// and nothing changes.
pub proof fn lemma_transfer<V: Verifier>(
    pool: &mut ShieldedPool,
    env: &soroban_sdk::Env,
    verifiers: &Store<Address, V>,
    proof: &Groth16Proof,
    nullifiers: Vec<[u8; 32]>,
    commitments: Vec<[u8; 32]>,
    ciphertexts: Vec<Vec<u8>>,
    root: [u8; 32],
    done: Result<ShieldedTransfer, Trap<PoolError>>,
    inputs: Seq<Seq<u8>>,
)
    requires
        call_ensures(
            ShieldedPool::transfer::<V>,
            (pool, env, verifiers, proof, nullifiers, commitments, ciphertexts, root),
            done,
        ),
        states_transfer(inputs, root@, byte_views(nullifiers@), byte_views(commitments@)),
    ensures
        ({
            let s = old(pool)@;
            let asked = verifiers.map();
            if nullifiers@.len() == 0 || commitments@.len() == 0 || ciphertexts@.len()
                != commitments@.len() {
                done == Err::<ShieldedTransfer, Trap<PoolError>>(
                    Trap::Error(PoolError::MalformedRequest),
                )
            } else if !is_past_root(s, root@) {
                done == Err::<ShieldedTransfer, Trap<PoolError>>(
                    Trap::Error(PoolError::UnknownRoot),
                )
            } else if spends_again(s, byte_views(nullifiers@)) {
                done == Err::<ShieldedTransfer, Trap<PoolError>>(
                    Trap::Error(PoolError::AlreadySpent),
                )
            } else if !asked.dom().contains(s.transfer_verifier) {
                done == Err::<ShieldedTransfer, Trap<PoolError>>(Trap::NoContract)
            } else {
                match asked[s.transfer_verifier].verdict(*proof, inputs) {
                    Err(trap) => done == Err::<ShieldedTransfer, Trap<PoolError>>(
                        Trap::Verifier(trap),
                    ),
                    Ok(accepted) => if !accepted {
                        done == Err::<ShieldedTransfer, Trap<PoolError>>(
                            Trap::Error(PoolError::InvalidProof),
                        )
                    } else if s.leaves.len() + commitments@.len() > 0x10_0000 {
                        done == Err::<ShieldedTransfer, Trap<PoolError>>(
                            Trap::Error(PoolError::TreeFull),
                        )
                    } else {
                        done is Ok
                    },
                }
            }
        }),
        done is Err ==> *final(pool) == *old(pool),
        done matches Ok(event) ==> transferred(
            old(pool)@,
            final(pool)@,
            nullifiers@,
            commitments@,
            ciphertexts@,
            event,
        ),
{
    lemma_past_roots(old(pool)@, root@);
    lemma_spends_again(old(pool)@, byte_views(nullifiers@));
    lemma_states_transfer(inputs, root@, byte_views(nullifiers@), byte_views(commitments@));
    if done is Ok {
        lemma_transferred(
            old(pool)@,
            final(pool)@,
            nullifiers@,
            commitments@,
            ciphertexts@,
            done->Ok_0,
        );
    }
}

/// The inputs are the root, the nullifier, the recipient's digest with its
/// first byte cleared, and the amount, in this order.
pub open spec fn states_withdrawal(
    inputs: Seq<Seq<u8>>,
    root: Seq<u8>,
    nullifier: Seq<u8>,
    to: Seq<u8>,
    amount: i128,
) -> bool {
    &&& inputs.len() == 4
    &&& inputs[0] == root
    &&& inputs[1] == nullifier
    &&& inputs[2] == sha256_of(to).update(0, 0u8)
    &&& inputs[3].len() == 32
    &&& be_nat(inputs[3]) == amount
}

proof fn lemma_states_withdrawal(
    inputs: Seq<Seq<u8>>,
    root: Seq<u8>,
    nullifier: Seq<u8>,
    to: Seq<u8>,
    amount: i128,
)
    requires
        amount >= 0,
    ensures
        states_withdrawal(inputs, root, nullifier, to, amount) <==> inputs == withdraw_inputs(
            root,
            nullifier,
            to,
            amount as nat,
        ),
{
    lemma_pow256_sizes();
    lemma_be_bytes(amount as nat, 32);
    if states_withdrawal(inputs, root, nullifier, to, amount) {
        lemma_be_bytes_unique(inputs[3]);
        assert(inputs =~= withdraw_inputs(root, nullifier, to, amount as nat));
    }
}

/// **The checks of a withdrawal.** It is of a positive amount, under a root that
/// the tree has or had, and its nullifier is unspent. The first that fails is
/// what is reported; where none fails, the statement binds the root, the
/// nullifier, the recipient and the amount.
pub proof fn lemma_withdrawal_checked(
    pool: &ShieldedPool,
    env: &soroban_sdk::Env,
    nullifier: &[u8; 32],
    to: &Address,
    amount: i128,
    root: &[u8; 32],
    checked: Result<Vec<[u8; 32]>, Trap<PoolError>>,
)
    requires
        call_ensures(
            ShieldedPool::check_withdraw,
            (pool, env, nullifier, to, amount, root),
            checked,
        ),
    ensures
        ({
            let s = pool@;
            if amount <= 0 {
                checked == Err::<Vec<[u8; 32]>, Trap<PoolError>>(
                    Trap::Error(PoolError::InvalidAmount),
                )
            } else if !is_past_root(s, root@) {
                checked == Err::<Vec<[u8; 32]>, Trap<PoolError>>(
                    Trap::Error(PoolError::UnknownRoot),
                )
            } else if s.nullifiers.contains(nullifier@) {
                checked == Err::<Vec<[u8; 32]>, Trap<PoolError>>(
                    Trap::Error(PoolError::AlreadySpent),
                )
            } else if to@.len() > u32::MAX {
                checked == Err::<Vec<[u8; 32]>, Trap<PoolError>>(Trap::Oversized)
            } else {
                checked matches Ok(inputs) && states_withdrawal(
                    byte_views(inputs@),
                    root@,
                    nullifier@,
                    to@,
                    amount,
                )
            }
        }),
{
    lemma_past_roots(pool@, root@);
    if let Ok(inputs) = checked {
        lemma_states_withdrawal(byte_views(inputs@), root@, nullifier@, to@, amount);
    }
}

/// What a withdrawal does to a pool, what it pays, and the event that tells of
/// it.
pub open spec fn withdrawn(
    s: PoolState,
    t: PoolState,
    nullifier: [u8; 32],
    to: Seq<u8>,
    amount: i128,
    event: Withdraw,
    payment: Payment,
) -> bool {
    &&& same_setting(s, t)
    &&& t.leaves == s.leaves
    &&& forall|n: Seq<u8>| #[trigger]
        t.nullifiers.contains(n) <==> s.nullifiers.contains(n) || n == nullifier@
    &&& event.to@ == to
    &&& event.nullifier == nullifier
    &&& event.amount == amount
    &&& payment.from@ == s.address
    &&& payment.to@ == to
    &&& payment.amount == amount
}

proof fn lemma_withdrawn(
    s: PoolState,
    t: PoolState,
    nullifier: [u8; 32],
    to: Seq<u8>,
    amount: i128,
    event: Withdraw,
    payment: Payment,
)
    requires
        t == s.spending(seq![nullifier@]),
        event.to@ == to,
        event.nullifier == nullifier,
        event.amount == amount,
        payment.from@ == s.address,
        payment.to@ == to,
        payment.amount == amount,
    ensures
        withdrawn(s, t, nullifier, to, amount, event, payment),
{
    assert forall|n: Seq<u8>| #[trigger]
        t.nullifiers.contains(n) <==> s.nullifiers.contains(n) || n == nullifier@ by {
        assert(seq![nullifier@][0] == nullifier@);
        assert(seq![nullifier@].to_set().contains(n) <==> n == nullifier@);
    }
}

/// **Settling a withdrawal.** An accepted withdrawal from a pool is paid out,
/// however full the tree is; a rejected one, and one without a verdict, is
/// refused for that, and nothing changes.
pub proof fn lemma_withdrawal_settled(
    pool: &mut ShieldedPool,
    verdict: Result<bool, VerifierTrap>,
    nullifier: [u8; 32],
    to: Address,
    amount: i128,
    done: Result<(Withdraw, Payment), Trap<PoolError>>,
)
    requires
        call_ensures(
            ShieldedPool::settle_withdraw,
            (pool, verdict, nullifier, to, amount),
            done,
        ),
        old(pool).wf(),
    ensures
        verdict matches Err(trap) ==> done == Err::<(Withdraw, Payment), Trap<PoolError>>(
            Trap::Verifier(trap),
        ),
        verdict == Ok::<bool, VerifierTrap>(false) ==> done == Err::<
            (Withdraw, Payment),
            Trap<PoolError>,
        >(Trap::Error(PoolError::InvalidProof)),
        verdict == Ok::<bool, VerifierTrap>(true) ==> done is Ok,
        done is Err ==> *final(pool) == *old(pool),
        done matches Ok((event, payment)) ==> withdrawn(
            old(pool)@,
            final(pool)@,
            nullifier,
            to@,
            amount,
            event,
            payment,
        ),
{
    lemma_pool_in_order(*old(pool));
    if let Ok((event, payment)) = done {
        lemma_withdrawn(old(pool)@, final(pool)@, nullifier, to@, amount, event, payment);
    }
}

/// **Withdrawing.** A withdrawal is paid out if and only if it passes its checks
/// and the pool's withdraw verifier accepts its statement; otherwise it is
/// refused for the first that fails, and nothing changes.
pub proof fn lemma_withdraw<V: Verifier>(
    pool: &mut ShieldedPool,
    env: &soroban_sdk::Env,
    verifiers: &Store<Address, V>,
    proof: &Groth16Proof,
    nullifier: [u8; 32],
    to: Address,
    amount: i128,
    root: [u8; 32],
    done: Result<(Withdraw, Payment), Trap<PoolError>>,
    inputs: Seq<Seq<u8>>,
)
    requires
        call_ensures(
            ShieldedPool::withdraw::<V>,
            (pool, env, verifiers, proof, nullifier, to, amount, root),
            done,
        ),
        old(pool).wf(),
        amount > 0 ==> states_withdrawal(inputs, root@, nullifier@, to@, amount),
    ensures
        ({
            let s = old(pool)@;
            let asked = verifiers.map();
            if amount <= 0 {
                done == Err::<(Withdraw, Payment), Trap<PoolError>>(
                    Trap::Error(PoolError::InvalidAmount),
                )
            } else if !is_past_root(s, root@) {
                done == Err::<(Withdraw, Payment), Trap<PoolError>>(
                    Trap::Error(PoolError::UnknownRoot),
                )
            } else if s.nullifiers.contains(nullifier@) {
                done == Err::<(Withdraw, Payment), Trap<PoolError>>(
                    Trap::Error(PoolError::AlreadySpent),
                )
            } else if to@.len() > u32::MAX {
                done == Err::<(Withdraw, Payment), Trap<PoolError>>(Trap::Oversized)
            } else if !asked.dom().contains(s.withdraw_verifier) {
                done == Err::<(Withdraw, Payment), Trap<PoolError>>(Trap::NoContract)
            } else {
                match asked[s.withdraw_verifier].verdict(*proof, inputs) {
                    Err(trap) => done == Err::<(Withdraw, Payment), Trap<PoolError>>(
                        Trap::Verifier(trap),
                    ),
                    Ok(accepted) => if accepted {
                        done is Ok
                    } else {
                        done == Err::<(Withdraw, Payment), Trap<PoolError>>(
                            Trap::Error(PoolError::InvalidProof),
                        )
                    },
                }
            }
        }),
        done is Err ==> *final(pool) == *old(pool),
        done matches Ok((event, payment)) ==> withdrawn(
            old(pool)@,
            final(pool)@,
            nullifier,
            to@,
            amount,
            event,
            payment,
        ),
{
    lemma_pool_in_order(*old(pool));
    lemma_past_roots(old(pool)@, root@);
    if amount > 0 {
        lemma_states_withdrawal(inputs, root@, nullifier@, to@, amount);
    }
    if let Ok((event, payment)) = done {
        lemma_withdrawn(old(pool)@, final(pool)@, nullifier, to@, amount, event, payment);
    }
}

/// **What a pool tells.** Its root is the one over its commitments, a root is
/// known if it is one over the first of them, a nullifier is spent if it is
/// among the spent ones, and the size is the number of commitments.
pub proof fn lemma_told(
    pool: &ShieldedPool,
    root: [u8; 32],
    asked_root: &[u8; 32],
    known: bool,
    nullifier: &[u8; 32],
    spent: bool,
    size: u32,
    token: &Address,
)
    requires
        call_ensures(ShieldedPool::root, (pool,), root),
        call_ensures(ShieldedPool::is_known_root, (pool, asked_root), known),
        call_ensures(ShieldedPool::is_spent, (pool, nullifier), spent),
        call_ensures(ShieldedPool::size, (pool,), size),
        call_ensures(ShieldedPool::token, (pool,), token),
    ensures
        is_root_of(root@, pool@.leaves),
        known <==> is_past_root(pool@, asked_root@),
        spent <==> pool@.nullifiers.contains(nullifier@),
        size == pool@.leaves.len(),
        token@ == pool@.token,
{
    lemma_is_root(pool@.leaves);
    lemma_past_roots(pool@, asked_root@);
}

/// **Roots stay known.** A root that a pool had stays known to it, whatever
/// commitments come behind those that it was the root of.
pub proof fn lemma_root_stays_known(
    before: &ShieldedPool,
    root: [u8; 32],
    after: &ShieldedPool,
    known: bool,
)
    requires
        call_ensures(ShieldedPool::root, (before,), root),
        call_ensures(ShieldedPool::is_known_root, (after, &root), known),
        before@.leaves.is_prefix_of(after@.leaves),
    ensures
        known,
{
    let n = before@.leaves.len() as int;
    lemma_is_root(before@.leaves);
    assert(after@.leaves.take(n) =~= before@.leaves);
    assert(is_root_of(root@, after@.leaves.take(n)));
    lemma_past_roots(after@, root@);
}

/// **Room suffices.** An accepted call is refused for the size of the tree if
/// and only if its new leaves do not fit beside the others, of which there may
/// be `2^20` in all; one that adds none is never refused.
pub proof fn lemma_room_suffices(leaves: nat, new_leaves: nat)
    ensures
        settlement_refusal(leaves, Ok::<bool, VerifierTrap>(true), new_leaves) is None <==> leaves
            + new_leaves <= 0x10_0000,
        leaves <= 0x10_0000 ==> settlement_refusal(
            leaves,
            Ok::<bool, VerifierTrap>(true),
            0,
        ) is None,
{
}

/// **A deposit's root is known at once**, and so is any root that was known
/// before; what was unspent stays so.
pub proof fn lemma_after_deposit<A: Attestations>(
    pool: &mut ShieldedPool,
    call: &Invocation,
    registries: &Store<Address, A>,
    from: Address,
    token: &Address,
    amount: i128,
    commitment: [u8; 32],
    event: Deposit,
    payment: Payment,
    new_known: bool,
    root: &[u8; 32],
    known_before: bool,
    known_after: bool,
    nullifier: &[u8; 32],
    spent_before: bool,
    spent_after: bool,
    size_before: u32,
    size_after: u32,
)
    requires
        call_ensures(
            ShieldedPool::deposit::<A>,
            (pool, call, registries, from, token, amount, commitment),
            Ok::<(Deposit, Payment), Trap<PoolError>>((event, payment)),
        ),
        call_ensures(ShieldedPool::is_known_root, (&*final(pool), &event.new_root), new_known),
        call_ensures(ShieldedPool::is_known_root, (&*old(pool), root), known_before),
        call_ensures(ShieldedPool::is_known_root, (&*final(pool), root), known_after),
        call_ensures(ShieldedPool::is_spent, (&*old(pool), nullifier), spent_before),
        call_ensures(ShieldedPool::is_spent, (&*final(pool), nullifier), spent_after),
        call_ensures(ShieldedPool::size, (&*old(pool),), size_before),
        call_ensures(ShieldedPool::size, (&*final(pool),), size_after),
    ensures
        new_known,
        known_before ==> known_after,
        spent_after == spent_before,
        event.leaf_index == size_before,
        size_after == size_before + 1,
{
    let (s, t) = (old(pool)@, final(pool)@);
    lemma_deposit(
        pool,
        call,
        registries,
        from,
        token,
        amount,
        commitment,
        Ok::<(Deposit, Payment), Trap<PoolError>>((event, payment)),
    );
    lemma_known_grows(s, t, root@);
    lemma_past_roots(s, root@);
    lemma_past_roots(t, root@);
    lemma_past_roots(t, event.new_root@);
    assert(t.leaves.take(t.leaves.len() as int) =~= t.leaves);
    assert(is_root_of(event.new_root@, t.leaves.take(t.leaves.len() as int)));
}

/// Roots over the first leaves stay roots over the first leaves.
proof fn lemma_known_grows(s: PoolState, t: PoolState, root: Seq<u8>)
    requires
        s.leaves.is_prefix_of(t.leaves),
    ensures
        is_past_root(s, root) ==> is_past_root(t, root),
{
    if is_past_root(s, root) {
        let k = choose|k: int|
            0 <= k <= s.leaves.len() && #[trigger] is_root_of(root, s.leaves.take(k));
        assert(t.leaves.take(k) =~= s.leaves.take(k));
        assert(is_root_of(root, t.leaves.take(k)));
    }
}

/// **No note is spent twice.** Once a transfer went through, each of its
/// nullifiers is spent, its root is known, and a withdrawal or a transfer that
/// names one of them again, under any known root, is refused.
pub proof fn lemma_transfer_spends<V: Verifier>(
    pool: &mut ShieldedPool,
    env: &soroban_sdk::Env,
    verifiers: &Store<Address, V>,
    proof: &Groth16Proof,
    nullifiers: Vec<[u8; 32]>,
    commitments: Vec<[u8; 32]>,
    ciphertexts: Vec<Vec<u8>>,
    root: [u8; 32],
    event: ShieldedTransfer,
    inputs: Seq<Seq<u8>>,
    i: int,
    spent: bool,
    new_known: bool,
    still_known: bool,
    to: &Address,
    amount: i128,
    later_root: &[u8; 32],
    again: Result<Vec<[u8; 32]>, Trap<PoolError>>,
    others: &Vec<[u8; 32]>,
    j: int,
    later_commitments: &Vec<[u8; 32]>,
    later_ciphertexts: &Vec<Vec<u8>>,
    transfer_again: Result<Vec<[u8; 32]>, PoolError>,
)
    requires
        call_ensures(
            ShieldedPool::transfer::<V>,
            (pool, env, verifiers, proof, nullifiers, commitments, ciphertexts, root),
            Ok::<ShieldedTransfer, Trap<PoolError>>(event),
        ),
        states_transfer(inputs, root@, byte_views(nullifiers@), byte_views(commitments@)),
        0 <= i < nullifiers@.len(),
        call_ensures(ShieldedPool::is_spent, (&*final(pool), &nullifiers@[i]), spent),
        call_ensures(ShieldedPool::is_known_root, (&*final(pool), &event.new_root), new_known),
        call_ensures(ShieldedPool::is_known_root, (&*final(pool), &root), still_known),
        call_ensures(
            ShieldedPool::check_withdraw,
            (&*final(pool), env, &nullifiers@[i], to, amount, later_root),
            again,
        ),
        0 <= j < others@.len(),
        others@[j]@ == nullifiers@[i]@,
        call_ensures(
            ShieldedPool::check_transfer,
            (&*final(pool), others, later_commitments, later_ciphertexts, later_root),
            transfer_again,
        ),
    ensures
        spent,
        new_known,
        still_known,
        again is Err,
        amount > 0 && is_past_root(final(pool)@, later_root@) ==> again == Err::<
            Vec<[u8; 32]>,
            Trap<PoolError>,
        >(Trap::Error(PoolError::AlreadySpent)),
        transfer_again is Err,
{
    let (s, t) = (old(pool)@, final(pool)@);
    lemma_transfer(
        pool,
        env,
        verifiers,
        proof,
        nullifiers,
        commitments,
        ciphertexts,
        root,
        Ok::<ShieldedTransfer, Trap<PoolError>>(event),
        inputs,
    );
    assert(byte_views(nullifiers@)[i] == nullifiers@[i]@);
    assert(byte_views(nullifiers@).contains(nullifiers@[i]@));
    assert(t.nullifiers.contains(nullifiers@[i]@));
    assert(s.leaves =~= t.leaves.take(s.leaves.len() as int));
    lemma_known_grows(s, t, root@);
    lemma_past_roots(t, root@);
    lemma_past_roots(t, event.new_root@);
    assert(t.leaves.take(t.leaves.len() as int) =~= t.leaves);
    assert(is_root_of(event.new_root@, t.leaves.take(t.leaves.len() as int)));
    lemma_withdrawal_checked(&*final(pool), env, &nullifiers@[i], to, amount, later_root, again);
    lemma_transfer_checked(
        &*final(pool),
        others,
        later_commitments,
        later_ciphertexts,
        later_root,
        transfer_again,
    );
    assert(byte_views(others@)[j] == others@[j]@);
    assert(t.nullifiers.contains(byte_views(others@)[j]));
    assert(spends_again(t, byte_views(others@)));
}

/// **A withdrawal spends its note.** Once it went through, its nullifier is
/// spent, the tree and its roots are as they were, and a second one is refused.
pub proof fn lemma_withdrawal_spends<V: Verifier>(
    pool: &mut ShieldedPool,
    env: &soroban_sdk::Env,
    verifiers: &Store<Address, V>,
    proof: &Groth16Proof,
    nullifier: [u8; 32],
    to: Address,
    amount: i128,
    root: [u8; 32],
    event: Withdraw,
    payment: Payment,
    inputs: Seq<Seq<u8>>,
    spent: bool,
    root_before: [u8; 32],
    root_after: [u8; 32],
    size_before: u32,
    size_after: u32,
    again: Result<Vec<[u8; 32]>, Trap<PoolError>>,
)
    requires
        call_ensures(
            ShieldedPool::withdraw::<V>,
            (pool, env, verifiers, proof, nullifier, to, amount, root),
            Ok::<(Withdraw, Payment), Trap<PoolError>>((event, payment)),
        ),
        old(pool).wf(),
        amount > 0 ==> states_withdrawal(inputs, root@, nullifier@, to@, amount),
        call_ensures(ShieldedPool::is_spent, (&*final(pool), &nullifier), spent),
        call_ensures(ShieldedPool::root, (&*old(pool),), root_before),
        call_ensures(ShieldedPool::root, (&*final(pool),), root_after),
        call_ensures(ShieldedPool::size, (&*old(pool),), size_before),
        call_ensures(ShieldedPool::size, (&*final(pool),), size_after),
        call_ensures(
            ShieldedPool::check_withdraw,
            (&*final(pool), env, &nullifier, &to, amount, &root),
            again,
        ),
    ensures
        spent,
        root_after@ == root_before@,
        size_after == size_before,
        again == Err::<Vec<[u8; 32]>, Trap<PoolError>>(Trap::Error(PoolError::AlreadySpent)),
{
    lemma_withdraw(
        pool,
        env,
        verifiers,
        proof,
        nullifier,
        to,
        amount,
        root,
        Ok::<(Withdraw, Payment), Trap<PoolError>>((event, payment)),
        inputs,
    );
    lemma_known_grows(old(pool)@, final(pool)@, root@);
    lemma_withdrawal_checked(&*final(pool), env, &nullifier, &to, amount, &root, again);
}

} // verus!
