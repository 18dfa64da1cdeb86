//! Confidential value for a single asset.
//!
//! Deposits become note commitments in an incremental Merkle tree, transfers
//! are validated by ZK proofs (balance preserved, notes owned, no
//! double-spend) without revealing amounts, and withdrawals exit back to the
//! public token.
//!
//! One instance wraps exactly one token, so value can never cross assets
//! invisibly. A pool may be constructed with an attestation gate; deposits
//! then require a valid compliance attestation.
//!
//! Token movements are returned as a [`Payment`], which the ledger carries out
//! together with the call.

use crate::bytes::{
    be_nat, lemma_be_bytes, lemma_be_bytes_unique, lemma_be_leading_zeros, lemma_pow256_sizes,
};
use crate::encoding::fr_encoding;
use crate::field::fr_modulus;
use crate::host::{address_binding, amount_to_field, binding_of};
use crate::interfaces::fr::{canonical_scalar, is_canonical};
use crate::interfaces::{
    all_canonical, byte_views, Address, Attestations, ClaimType, Groth16Proof, Invocation, Trap,
    Verifier, VerifierTrap,
};
use crate::merkle::{
    ancestor, lemma_ancestor_root, lemma_empty_root, lemma_node_append, lemma_node_beyond,
    lemma_width, node_of, root_of, zero_of, MerkleTree,
};
use crate::poseidon::{parameters, Parameters};
use crate::store::{Key, Store};
use vstd::arithmetic::power2::{lemma2_to64, pow2};
use vstd::prelude::*;

pub mod poseidon;
pub mod solvency;

verus! {

/// Merkle tree depth: capacity 2^20 notes per pool instance.
pub const TREE_DEPTH: u32 = 20;

/// How many notes a pool holds at most.
pub const TREE_CAPACITY: u32 = 0x10_0000;

/// An attestation requirement for deposits.
#[derive(Clone, Debug)]
pub struct GateConfig {
    /// The attestation registry consulted on deposit.
    pub registry: Address,
    /// The claim a depositor must hold.
    pub required_claim: ClaimType,
}

/// An attestation requirement, as plain values.
pub struct GateView {
    pub registry: Seq<u8>,
    pub required_claim: ClaimType,
}

/// A note commitment entered the pool.
#[derive(Debug)]
pub struct Deposit {
    pub from: Address,
    pub commitment: [u8; 32],
    pub amount: i128,
    pub leaf_index: u32,
    pub new_root: [u8; 32],
}

/// A shielded transfer: nullifiers spent, commitments inserted, and
/// ciphertexts for the recipients.
#[derive(Debug)]
pub struct ShieldedTransfer {
    pub nullifiers: Vec<[u8; 32]>,
    pub new_commitments: Vec<[u8; 32]>,
    pub encrypted_notes: Vec<Vec<u8>>,
    pub new_root: [u8; 32],
}

/// A note exited the pool to a public balance.
#[derive(Debug)]
pub struct Withdraw {
    pub to: Address,
    pub nullifier: [u8; 32],
    pub amount: i128,
}

/// A movement of the pool's token, which the ledger carries out as part of the
/// call. If the ledger refuses it, the call is undone as a whole, with the
/// pool's state and events.
#[derive(Debug)]
pub struct Payment {
    pub from: Address,
    pub to: Address,
    pub amount: i128,
}

/// Errors of the pool.
#[derive(Clone, Copy, Debug, PartialEq, Eq, Structural)]
pub enum PoolError {
    WrongToken,
    InvalidAmount,
    TreeFull,
    UnknownRoot,
    AlreadySpent,
    InvalidProof,
    AttestationRequired,
    MalformedRequest,
}

impl PoolError {
    /// The error's number on the ledger.
    pub fn code(&self) -> (code: u32)
        ensures
            code == match *self {
                PoolError::WrongToken => 1u32,
                PoolError::InvalidAmount => 2,
                PoolError::TreeFull => 3,
                PoolError::UnknownRoot => 4,
                PoolError::AlreadySpent => 5,
                PoolError::InvalidProof => 6,
                PoolError::AttestationRequired => 7,
                PoolError::MalformedRequest => 8,
            },
    {
        match self {
            PoolError::WrongToken => 1,
            PoolError::InvalidAmount => 2,
            PoolError::TreeFull => 3,
            PoolError::UnknownRoot => 4,
            PoolError::AlreadySpent => 5,
            PoolError::InvalidProof => 6,
            PoolError::AttestationRequired => 7,
            PoolError::MalformedRequest => 8,
        }
    }
}

/// The integers of encoded leaves.
pub open spec fn leaf_values(leaves: Seq<Seq<u8>>) -> Seq<nat> {
    Seq::new(leaves.len(), |i: int| be_nat(leaves[i]))
}

/// The encoded root of the pool's tree over some leaves.
pub open spec fn pool_root(leaves: Seq<Seq<u8>>) -> Seq<u8> {
    fr_encoding(root_of(leaf_values(leaves), 20))
}

/// The pool's state, as plain values.
#[verifier::ext_equal]
pub struct PoolState {
    /// The pool's own address.
    pub address: Seq<u8>,
    pub admin: Seq<u8>,
    /// The single asset that this pool wraps.
    pub token: Seq<u8>,
    pub transfer_verifier: Seq<u8>,
    pub withdraw_verifier: Seq<u8>,
    pub gate: Option<GateView>,
    /// The commitments inserted so far, in leaf order.
    pub leaves: Seq<Seq<u8>>,
    /// The spent set.
    pub nullifiers: Set<Seq<u8>>,
}

impl PoolState {
    /// Whether a root is one that the tree has ever had.
    pub open spec fn knows_root(self, root: Seq<u8>) -> bool {
        exists|k: int|
            0 <= k <= self.leaves.len() && root == #[trigger] pool_root(self.leaves.take(k))
    }

    /// The state after commitments were inserted.
    pub open spec fn grown(self, commitments: Seq<Seq<u8>>) -> PoolState {
        PoolState { leaves: self.leaves + commitments, ..self }
    }

    /// The state after nullifiers were spent.
    pub open spec fn spending(self, nullifiers: Seq<Seq<u8>>) -> PoolState {
        PoolState { nullifiers: self.nullifiers.union(nullifiers.to_set()), ..self }
    }

    /// Why a deposit is refused, if it is. `attested` is the verdict of the
    /// gate's registry, if a contract stands at its address.
    pub open spec fn deposit_refusal(
        self,
        signed: bool,
        token: Seq<u8>,
        amount: i128,
        attested: Option<bool>,
        commitment: Seq<u8>,
    ) -> Option<Trap<PoolError>> {
        if !signed {
            Some(Trap::Unauthorized)
        } else if amount <= 0 {
            Some(Trap::Error(PoolError::InvalidAmount))
        } else if token != self.token {
            Some(Trap::Error(PoolError::WrongToken))
        } else if self.gate is Some && attested is None {
            Some(Trap::NoContract)
        } else if self.gate is Some && attested == Some(false) {
            Some(Trap::Error(PoolError::AttestationRequired))
        } else if !canonical_scalar(commitment) {
            Some(Trap::Error(PoolError::MalformedRequest))
        } else if self.leaves.len() >= 0x10_0000 {
            Some(Trap::Error(PoolError::TreeFull))
        } else {
            None
        }
    }

    /// A nullifier was spent before, or occurs twice.
    pub open spec fn double_spend(self, nullifiers: Seq<Seq<u8>>) -> bool {
        ||| exists|i: int|
            0 <= i < nullifiers.len() && self.nullifiers.contains(#[trigger] nullifiers[i])
        ||| exists|i: int, j: int|
            0 <= j < i < nullifiers.len() && #[trigger] nullifiers[i] == #[trigger] nullifiers[j]
    }

    /// Why a transfer is refused before its proof is looked at, if it is.
    pub open spec fn transfer_refusal(
        self,
        nullifiers: Seq<Seq<u8>>,
        commitments: Seq<Seq<u8>>,
        ciphertexts: nat,
        root: Seq<u8>,
    ) -> Option<PoolError> {
        if nullifiers.len() == 0 || commitments.len() == 0 || ciphertexts != commitments.len() {
            Some(PoolError::MalformedRequest)
        } else if !self.knows_root(root) {
            Some(PoolError::UnknownRoot)
        } else if self.double_spend(nullifiers) {
            Some(PoolError::AlreadySpent)
        } else {
            None
        }
    }

    /// Why a withdrawal is refused before its proof is looked at, if it is.
    pub open spec fn withdraw_refusal(
        self,
        nullifier: Seq<u8>,
        amount: i128,
        root: Seq<u8>,
    ) -> Option<PoolError> {
        if amount <= 0 {
            Some(PoolError::InvalidAmount)
        } else if !self.knows_root(root) {
            Some(PoolError::UnknownRoot)
        } else if self.nullifiers.contains(nullifier) {
            Some(PoolError::AlreadySpent)
        } else {
            None
        }
    }
}

/// The public inputs of a transfer, in circuit order.
pub open spec fn transfer_inputs(
    root: Seq<u8>,
    nullifiers: Seq<Seq<u8>>,
    commitments: Seq<Seq<u8>>,
) -> Seq<Seq<u8>> {
    seq![root] + nullifiers + commitments
}

/// The public inputs of a withdrawal, in circuit order.
pub open spec fn withdraw_inputs(
    root: Seq<u8>,
    nullifier: Seq<u8>,
    to: Seq<u8>,
    amount: nat,
) -> Seq<Seq<u8>> {
    seq![root, nullifier, binding_of(to), fr_encoding(amount)]
}

/// A shielded pool.
pub struct ShieldedPool {
    address: Address,
    admin: Address,
    token: Address,
    transfer_verifier: Address,
    withdraw_verifier: Address,
    gate: Option<GateConfig>,
    next_index: u32,
    filled_subtrees: Vec<[u8; 32]>,
    zeros: Vec<[u8; 32]>,
    current_root: [u8; 32],
    known_roots: Store<[u8; 32], bool>,
    nullifiers: Store<[u8; 32], bool>,
    params: Parameters,
    leaves: Ghost<Seq<Seq<u8>>>,
}

impl View for ShieldedPool {
    type V = PoolState;

    closed spec fn view(&self) -> PoolState {
        PoolState {
            address: self.address@,
            admin: self.admin@,
            token: self.token@,
            transfer_verifier: self.transfer_verifier@,
            withdraw_verifier: self.withdraw_verifier@,
            gate: match self.gate {
                Some(g) => Some(
                    GateView { registry: g.registry@, required_claim: g.required_claim },
                ),
                None => None,
            },
            leaves: self.leaves@,
            nullifiers: self.nullifiers.map().dom(),
        }
    }
}

impl ShieldedPool {
    spec fn levels_wf(self) -> bool {
        &&& self.params.is_protocol()
        &&& self.zeros@.len() == 21
        &&& forall|l: int|
            0 <= l <= 20 ==> be_nat((#[trigger] self.zeros@[l])@) == zero_of(l as nat)
                && canonical_scalar(self.zeros@[l]@)
        &&& self.filled_subtrees@.len() == 20
        &&& forall|l: int|
            0 <= l < 20 ==> canonical_scalar((#[trigger] self.filled_subtrees@[l])@)
    }

    /// Where the path of the next leaf comes from the right, the subtree to
    /// its left is the one that is kept.
    spec fn frontier_wf(self, leaves: Seq<nat>) -> bool {
        forall|l: int|
            0 <= l < 20 && ancestor(leaves.len(), l as nat) % 2 == 1 ==> be_nat(
                (#[trigger] self.filled_subtrees@[l])@,
            ) == node_of(leaves, l as nat, (ancestor(leaves.len(), l as nat) - 1) as nat)
    }

    spec fn roots_wf(self) -> bool {
        &&& self.known_roots.wf()
        &&& forall|root: Seq<u8>| #[trigger]
            self.known_roots.map().dom().contains(root) <==> self@.knows_root(root)
    }

    /// The incremental tree is the one over the inserted commitments, which
    /// are canonical, and the known roots are the ones it has had.
    pub closed spec fn wf(self) -> bool {
        &&& self.levels_wf()
        &&& self.next_index == self.leaves@.len() <= TREE_CAPACITY
        &&& all_canonical(self.leaves@)
        &&& self.frontier_wf(leaf_values(self.leaves@))
        &&& self.current_root@ == pool_root(self.leaves@)
        &&& self.roots_wf()
        &&& self.nullifiers.wf()
    }

    /// * `address`: the address of this pool.
    /// * `token`: the single asset this pool wraps.
    /// * `transfer_verifier` / `withdraw_verifier`: `zk_verifier` instances
    ///   pinned to the transfer and withdraw circuits.
    /// * `gate`: optional attestation requirement for deposits.
    pub fn new(
        address: Address,
        admin: Address,
        token: Address,
        transfer_verifier: Address,
        withdraw_verifier: Address,
        gate: Option<GateConfig>,
    ) -> (pool: ShieldedPool)
        ensures
            pool.wf(),
            pool@ == (PoolState {
                address: address@,
                admin: admin@,
                token: token@,
                transfer_verifier: transfer_verifier@,
                withdraw_verifier: withdraw_verifier@,
                gate: match gate {
                    Some(g) => Some(
                        GateView { registry: g.registry@, required_claim: g.required_claim },
                    ),
                    None => None,
                },
                leaves: Seq::empty(),
                nullifiers: Set::empty(),
            }),
    {
        let params = parameters();
        // The all-empty subtree hashes for each level.
        let mut zeros: Vec<[u8; 32]> = Vec::new();
        let zero: [u8; 32] = [0u8; 32];
        proof {
            lemma_be_leading_zeros(zero@, 32);
        }
        zeros.push(zero);
        let mut filled_subtrees: Vec<[u8; 32]> = Vec::new();
        let mut level: usize = 0;
        while level < 20
            invariant
                level <= 20,
                params.is_protocol(),
                zeros@.len() == level + 1,
                filled_subtrees@.len() == level,
                forall|l: int|
                    0 <= l <= level ==> be_nat((#[trigger] zeros@[l])@) == zero_of(l as nat)
                        && canonical_scalar(zeros@[l]@),
                forall|l: int|
                    0 <= l < level ==> canonical_scalar((#[trigger] filled_subtrees@[l])@),
            decreases 20 - level,
        {
            let z: [u8; 32] = zeros[level];
            proof {
                vstd::arithmetic::div_mod::lemma_small_mod(be_nat(z@), fr_modulus());
            }
            let above: [u8; 32] = poseidon::hash2_bytes(&params, &z, &z);
            filled_subtrees.push(z);
            zeros.push(above);
            level = level + 1;
        }
        let empty_root: [u8; 32] = zeros[20];
        let mut known_roots: Store<[u8; 32], bool> = Store::new();
        known_roots.set(empty_root, true);
        let pool = ShieldedPool {
            address,
            admin,
            token,
            transfer_verifier,
            withdraw_verifier,
            gate,
            next_index: 0,
            filled_subtrees,
            zeros,
            current_root: empty_root,
            known_roots,
            nullifiers: Store::new(),
            params,
            leaves: Ghost(Seq::empty()),
        };
        proof {
            let none = Seq::<Seq<u8>>::empty();
            assert(leaf_values(none) =~= Seq::<nat>::empty());
            lemma_empty_root(20);
            lemma_be_bytes_unique(empty_root@);
            assert(empty_root@ == pool_root(none));
            assert(none.take(0) =~= none);
            assert forall|root: Seq<u8>| #[trigger]
                pool.known_roots.map().dom().contains(root) <==> pool@.knows_root(root) by {
                if pool@.knows_root(root) {
                    let k = choose|k: int|
                        0 <= k <= 0 && root == #[trigger] pool_root(none.take(k));
                    assert(none.take(k) =~= none);
                }
            }
            assert forall|l: int| 0 <= l < 20 implies ancestor(0, #[trigger] (l as nat)) == 0 by {
                lemma_ancestor_zero(l as nat);
            }
            assert(pool@.nullifiers =~= Set::empty());
        }
        pool
    }

    /// The subtrees that an insertion keeps are those that the next one
    /// needs.
    proof fn lemma_frontier_next(self, before: ShieldedPool, leaves: Seq<nat>, leaf: nat)
        requires
            before.frontier_wf(leaves),
            forall|l: int|
                0 <= l < 20 && ancestor(leaves.len(), l as nat) % 2 == 1
                    ==> #[trigger] self.filled_subtrees@[l] == before.filled_subtrees@[l],
            forall|l: int|
                0 <= l < 20 && ancestor(leaves.len(), l as nat) % 2 == 0 ==> be_nat(
                    (#[trigger] self.filled_subtrees@[l])@,
                ) == node_of(leaves.push(leaf), l as nat, ancestor(leaves.len(), l as nat)),
        ensures
            self.frontier_wf(leaves.push(leaf)),
    {
        let grown = leaves.push(leaf);
        assert forall|l: int|
            0 <= l < 20 && ancestor(grown.len(), l as nat) % 2 == 1 implies be_nat(
            (#[trigger] self.filled_subtrees@[l])@,
        ) == node_of(grown, l as nat, (ancestor(grown.len(), l as nat) - 1) as nat) by {
            let here = ancestor(leaves.len(), l as nat);
            lemma_ancestor_next(leaves.len(), l as nat);
            if here % 2 == 1 {
                assert(ancestor(grown.len(), l as nat) == here);
                assert(be_nat(before.filled_subtrees@[l]@) == node_of(
                    leaves,
                    l as nat,
                    (here - 1) as nat,
                ));
                lemma_node_append(leaves, leaf, l as nat, (here - 1) as nat);
            }
        }
    }

    /// Incremental (append-only) Merkle insertion, tracking one filled
    /// subtree per level. Returns the leaf index and the new root.
    fn insert_commitment(&mut self, commitment: &[u8; 32]) -> (inserted: (u32, [u8; 32]))
        requires
            old(self).wf(),
            old(self)@.leaves.len() < TREE_CAPACITY,
            canonical_scalar(commitment@),
        ensures
            final(self).wf(),
            final(self)@ == old(self)@.grown(seq![commitment@]),
            inserted.0 == old(self)@.leaves.len(),
            inserted.1@ == pool_root(final(self)@.leaves),
    {
        let index: u32 = self.next_index;
        let ghost before = *self;
        let ghost leaves = leaf_values(self.leaves@);
        let ghost grown = leaf_values(self.leaves@.push(commitment@));
        proof {
            assert(grown =~= leaves.push(be_nat(commitment@)));
        }
        let mut node: [u8; 32] = *commitment;
        let mut idx: u32 = index;
        let mut level: usize = 0;
        while level < 20
            invariant
                level <= 20,
                self.levels_wf(),
                before.frontier_wf(leaves),
                index == leaves.len(),
                grown == leaves.push(be_nat(commitment@)),
                idx == ancestor(index as nat, level as nat),
                be_nat(node@) == node_of(grown, level as nat, idx as nat),
                canonical_scalar(node@),
                self.address == before.address,
                self.admin == before.admin,
                self.token == before.token,
                self.transfer_verifier == before.transfer_verifier,
                self.withdraw_verifier == before.withdraw_verifier,
                self.gate == before.gate,
                self.next_index == before.next_index,
                self.known_roots == before.known_roots,
                self.nullifiers == before.nullifiers,
                self.leaves == before.leaves,
                forall|l: int|
                    level <= l < 20 ==> #[trigger] self.filled_subtrees@[l]
                        == before.filled_subtrees@[l],
                forall|l: int|
                    0 <= l < level && ancestor(index as nat, l as nat) % 2 == 1
                        ==> #[trigger] self.filled_subtrees@[l] == before.filled_subtrees@[l],
                forall|l: int|
                    0 <= l < level && ancestor(index as nat, l as nat) % 2 == 0 ==> be_nat(
                        (#[trigger] self.filled_subtrees@[l])@,
                    ) == node_of(grown, l as nat, ancestor(index as nat, l as nat)),
            decreases 20 - level,
        {
            proof {
                vstd::arithmetic::div_mod::lemma_small_mod(be_nat(node@), fr_modulus());
                lemma_width(index as nat, level as nat);
            }
            if idx % 2 == 0 {
                self.filled_subtrees[level] = node;
                let zero: [u8; 32] = self.zeros[level];
                proof {
                    vstd::arithmetic::div_mod::lemma_small_mod(be_nat(zero@), fr_modulus());
                    lemma_node_beyond(grown, level as nat, (idx + 1) as nat);
                }
                node = poseidon::hash2_bytes(&self.params, &node, &zero);
            } else {
                let left: [u8; 32] = self.filled_subtrees[level];
                proof {
                    vstd::arithmetic::div_mod::lemma_small_mod(be_nat(left@), fr_modulus());
                    assert(be_nat(before.filled_subtrees@[level as int]@) == node_of(
                        leaves,
                        level as nat,
                        (idx - 1) as nat,
                    ));
                    lemma_node_append(
                        leaves,
                        be_nat(commitment@),
                        level as nat,
                        (idx - 1) as nat,
                    );
                }
                node = poseidon::hash2_bytes(&self.params, &left, &node);
            }
            idx = idx / 2;
            level = level + 1;
        }
        self.next_index = index + 1;
        self.current_root = node;
        self.known_roots.set(node, true);
        self.leaves = Ghost(self.leaves@.push(commitment@));
        proof {
            let old_bytes = before.leaves@;
            let new_bytes = self.leaves@;
            assert(new_bytes =~= old_bytes + seq![commitment@]);
            vstd::arithmetic::power2::lemma2_to64();
            lemma_ancestor_root(index as nat, 20);
            lemma_be_bytes_unique(node@);
            assert(node@ == pool_root(new_bytes));
            assert(all_canonical(new_bytes));
            self.lemma_frontier_next(before, leaves, be_nat(commitment@));
            assert forall|root: Seq<u8>| #[trigger]
                self.known_roots.map().dom().contains(root) <==> self@.knows_root(root) by {
                let n = old_bytes.len() as int;
                if self.known_roots.map().dom().contains(root) {
                    if root == node@ {
                        assert(new_bytes.take(n + 1) =~= new_bytes);
                        assert(root == pool_root(self@.leaves.take(n + 1)));
                    } else {
                        assert(before.known_roots.map().dom().contains(root));
                        assert(before@.knows_root(root));
                        let k = choose|k: int|
                            0 <= k <= n && root == #[trigger] pool_root(old_bytes.take(k));
                        assert(new_bytes.take(k) =~= old_bytes.take(k));
                        assert(root == pool_root(self@.leaves.take(k)));
                    }
                }
                if self@.knows_root(root) {
                    let k = choose|k: int|
                        0 <= k <= n + 1 && root == #[trigger] pool_root(new_bytes.take(k));
                    if k == n + 1 {
                        assert(new_bytes.take(k) =~= new_bytes);
                    } else {
                        assert(new_bytes.take(k) =~= old_bytes.take(k));
                        assert(root == pool_root(old_bytes.take(k)));
                        assert(before@.knows_root(root));
                        assert(before.known_roots.map().dom().contains(root));
                    }
                }
            }
            assert(self@ =~= before@.grown(seq![commitment@]));
        }
        (index, node)
    }

    /// Public to shielded: locks `amount` of the pool token and inserts the
    /// client-computed note `commitment` into the Merkle tree. The payment
    /// moves the amount from the depositor to the pool.
    ///
    /// The commitment binds `(value, owner_pk, blinding)`; the contract never
    /// learns the note's internal structure beyond `amount`.
    pub fn deposit<A: Attestations>(
        &mut self,
        call: &Invocation,
        registries: &Store<Address, A>,
        from: Address,
        token: &Address,
        amount: i128,
        commitment: [u8; 32],
    ) -> (done: Result<(Deposit, Payment), Trap<PoolError>>)
        requires
            old(self).wf(),
            registries.wf(),
            forall|a: Seq<u8>| #[trigger]
                registries.map().dom().contains(a) ==> registries.map()[a].in_order(),
        ensures
            final(self).wf(),
            match old(self)@.deposit_refusal(
                call.signed_by(from@),
                token@,
                amount,
                gate_verdict(old(self)@.gate, registries.map(), call.now, from@),
                commitment@,
            ) {
                Some(trap) => {
                    &&& done == Err::<(Deposit, Payment), Trap<PoolError>>(trap)
                    &&& *final(self) == *old(self)
                },
                None => {
                    &&& done matches Ok((event, payment))
                    &&& final(self)@ == old(self)@.grown(seq![commitment@])
                    &&& event.from@ == from@
                    &&& event.commitment == commitment
                    &&& event.amount == amount
                    &&& event.leaf_index == old(self)@.leaves.len()
                    &&& event.new_root@ == pool_root(final(self)@.leaves)
                    &&& payment.from@ == from@
                    &&& payment.to@ == old(self)@.address
                    &&& payment.amount == amount
                },
            },
    {
        if !call.is_signed_by(&from) {
            return Err(Trap::Unauthorized);
        }
        if amount <= 0 {
            return Err(Trap::Error(PoolError::InvalidAmount));
        }
        if !token.same(&self.token) {
            return Err(Trap::Error(PoolError::WrongToken));
        }
        if let Some(gate) = &self.gate {
            match registries.get(&gate.registry) {
                None => {
                    return Err(Trap::NoContract);
                },
                Some(registry) => {
                    if !registry.check(call.now, &from, &gate.required_claim) {
                        return Err(Trap::Error(PoolError::AttestationRequired));
                    }
                },
            }
        }
        if !is_canonical(&commitment) {
            return Err(Trap::Error(PoolError::MalformedRequest));
        }
        if self.next_index >= TREE_CAPACITY {
            return Err(Trap::Error(PoolError::TreeFull));
        }
        let payment = Payment { from: from.clone(), to: self.address.clone(), amount };
        let (leaf_index, new_root) = self.insert_commitment(&commitment);
        Ok((Deposit { from, commitment, amount, leaf_index, new_root }, payment))
    }

    /// The checks that a transfer passes before its proof is looked at.
    /// Returns the statement to prove: root, nullifiers and new commitments,
    /// in circuit order.
    pub fn check_transfer(
        &self,
        nullifiers: &Vec<[u8; 32]>,
        new_commitments: &Vec<[u8; 32]>,
        encrypted_notes: &Vec<Vec<u8>>,
        root: &[u8; 32],
    ) -> (checked: Result<Vec<[u8; 32]>, PoolError>)
        requires
            self.wf(),
        ensures
            match self@.transfer_refusal(
                byte_views(nullifiers@),
                byte_views(new_commitments@),
                encrypted_notes@.len(),
                root@,
            ) {
                Some(e) => checked == Err::<Vec<[u8; 32]>, PoolError>(e),
                None => checked matches Ok(inputs) && byte_views(inputs@) == transfer_inputs(
                    root@,
                    byte_views(nullifiers@),
                    byte_views(new_commitments@),
                ),
            },
    {
        let ghost nfs = byte_views(nullifiers@);
        let ghost cms = byte_views(new_commitments@);
        if nullifiers.len() == 0 || new_commitments.len() == 0 || encrypted_notes.len()
            != new_commitments.len() {
            return Err(PoolError::MalformedRequest);
        }
        if !self.is_known_root(root) {
            return Err(PoolError::UnknownRoot);
        }
        // Reject double-spends, including duplicates within this call.
        let mut i: usize = 0;
        while i < nullifiers.len()
            invariant
                i <= nullifiers@.len(),
                self.wf(),
                nfs == byte_views(nullifiers@),
                cms == byte_views(new_commitments@),
                nfs.len() > 0,
                cms.len() > 0,
                encrypted_notes@.len() == cms.len(),
                self@.knows_root(root@),
                forall|k: int| 0 <= k < i ==> !self@.nullifiers.contains(#[trigger] nfs[k]),
                forall|k: int, m: int|
                    0 <= m < k < i ==> #[trigger] nfs[k] != #[trigger] nfs[m],
            decreases nullifiers@.len() - i,
        {
            if self.is_spent(&nullifiers[i]) {
                assert(self@.nullifiers.contains(nfs[i as int]));
                return Err(PoolError::AlreadySpent);
            }
            let mut j: usize = 0;
            while j < i
                invariant
                    j <= i < nullifiers@.len(),
                    self.wf(),
                    nfs == byte_views(nullifiers@),
                    cms == byte_views(new_commitments@),
                    nfs.len() > 0,
                    cms.len() > 0,
                    encrypted_notes@.len() == cms.len(),
                    self@.knows_root(root@),
                    forall|m: int| 0 <= m < j ==> nfs[i as int] != #[trigger] nfs[m],
                decreases i - j,
            {
                if nullifiers[j].same(&nullifiers[i]) {
                    assert(nfs[i as int] == nfs[j as int]);
                    return Err(PoolError::AlreadySpent);
                }
                j = j + 1;
            }
            i = i + 1;
        }
        let mut inputs: Vec<[u8; 32]> = Vec::new();
        inputs.push(*root);
        append32(&mut inputs, nullifiers);
        append32(&mut inputs, new_commitments);
        proof {
            assert(byte_views(inputs@) =~= transfer_inputs(root@, nfs, cms));
        }
        Ok(inputs)
    }

    /// What the verdict on a checked transfer leads to: spent nullifiers and
    /// inserted commitments, or a refusal.
    pub fn settle_transfer(
        &mut self,
        verdict: Result<bool, VerifierTrap>,
        nullifiers: Vec<[u8; 32]>,
        new_commitments: Vec<[u8; 32]>,
        encrypted_notes: Vec<Vec<u8>>,
    ) -> (done: Result<ShieldedTransfer, Trap<PoolError>>)
        requires
            old(self).wf(),
            verdict == Ok::<bool, VerifierTrap>(true) ==> all_canonical(
                byte_views(new_commitments@),
            ),
        ensures
            final(self).wf(),
            match settlement_refusal(old(self)@.leaves.len(), verdict, new_commitments@.len()) {
                Some(trap) => {
                    &&& done == Err::<ShieldedTransfer, Trap<PoolError>>(trap)
                    &&& *final(self) == *old(self)
                },
                None => {
                    &&& done matches Ok(event)
                    &&& final(self)@ == old(self)@.spending(byte_views(nullifiers@)).grown(
                        byte_views(new_commitments@),
                    )
                    &&& event.nullifiers@ == nullifiers@
                    &&& event.new_commitments@ == new_commitments@
                    &&& event.encrypted_notes@ == encrypted_notes@
                    &&& event.new_root@ == pool_root(final(self)@.leaves)
                },
            },
    {
        match verdict {
            Err(trap) => {
                return Err(Trap::Verifier(trap));
            },
            Ok(accepted) => {
                if !accepted {
                    return Err(Trap::Error(PoolError::InvalidProof));
                }
            },
        }
        if new_commitments.len() > (TREE_CAPACITY - self.next_index) as usize {
            return Err(Trap::Error(PoolError::TreeFull));
        }
        self.spend(&nullifiers);
        let ghost spent = self@;
        let ghost cms = byte_views(new_commitments@);
        let mut i: usize = 0;
        proof {
            assert(self@ =~= spent.grown(cms.take(0)));
        }
        while i < new_commitments.len()
            invariant
                i <= new_commitments@.len(),
                self.wf(),
                cms == byte_views(new_commitments@),
                all_canonical(cms),
                spent.leaves.len() + cms.len() <= TREE_CAPACITY,
                self@ == spent.grown(cms.take(i as int)),
            decreases new_commitments@.len() - i,
        {
            proof {
                assert(canonical_scalar(cms[i as int]));
                assert(cms.take(i + 1) =~= cms.take(i as int) + seq![cms[i as int]]);
            }
            let ghost before = self@;
            self.insert_commitment(&new_commitments[i]);
            proof {
                assert(before.grown(seq![cms[i as int]]).leaves =~= spent.grown(
                    cms.take(i + 1),
                ).leaves);
            }
            i = i + 1;
        }
        proof {
            assert(cms.take(cms.len() as int) =~= cms);
        }
        let new_root: [u8; 32] = self.root();
        Ok(ShieldedTransfer { nullifiers, new_commitments, encrypted_notes, new_root })
    }

    /// Marks nullifiers as spent.
    fn spend(&mut self, nullifiers: &Vec<[u8; 32]>)
        requires
            old(self).wf(),
        ensures
            final(self).wf(),
            final(self)@ == old(self)@.spending(byte_views(nullifiers@)),
    {
        let ghost nfs = byte_views(nullifiers@);
        let mut i: usize = 0;
        proof {
            assert(nfs.take(0).to_set() =~= Set::empty());
            assert(self@ =~= old(self)@.spending(nfs.take(0)));
        }
        while i < nullifiers.len()
            invariant
                i <= nullifiers@.len(),
                self.wf(),
                nfs == byte_views(nullifiers@),
                self@ == old(self)@.spending(nfs.take(i as int)),
            decreases nullifiers@.len() - i,
        {
            let ghost before = *self;
            self.nullifiers.set(nullifiers[i], true);
            proof {
                let nf = nfs[i as int];
                let seen = nfs.take(i as int);
                let more = nfs.take(i + 1);
                assert(more =~= seen.push(nf));
                assert forall|x: Seq<u8>| more.to_set().contains(x) == (seen.to_set().contains(x)
                    || x == nf) by {
                    if more.contains(x) {
                        let k = choose|k: int| 0 <= k < more.len() && more[k] == x;
                        if k < i {
                            assert(seen[k] == x);
                        }
                    }
                    if seen.contains(x) {
                        let k = choose|k: int| 0 <= k < seen.len() && seen[k] == x;
                        assert(more[k] == x);
                    }
                    assert(more[i as int] == nf);
                }
                assert(self@.nullifiers =~= old(self)@.spending(more).nullifiers);
                assert(self@.leaves == before@.leaves);
                assert forall|root: Seq<u8>| #[trigger]
                    self.known_roots.map().dom().contains(root) <==> self@.knows_root(root) by {
                    assert(before@.knows_root(root) == self@.knows_root(root));
                }
            }
            i = i + 1;
        }
        proof {
            assert(nfs.take(nfs.len() as int) =~= nfs);
        }
    }

    /// Shielded transfer. The proof (against the transfer circuit) attests:
    /// the spent notes exist under `root` and are owned by the prover, the
    /// nullifiers are correctly derived, and input value equals output value,
    /// all without revealing any amount.
    ///
    /// `encrypted_notes` are opaque ciphertexts for the recipients; the
    /// contract cannot read them.
    pub fn transfer<V: Verifier>(
        &mut self,
        env: &soroban_sdk::Env,
        verifiers: &Store<Address, V>,
        proof: &Groth16Proof,
        nullifiers: Vec<[u8; 32]>,
        new_commitments: Vec<[u8; 32]>,
        encrypted_notes: Vec<Vec<u8>>,
        root: [u8; 32],
    ) -> (done: Result<ShieldedTransfer, Trap<PoolError>>)
        requires
            old(self).wf(),
            verifiers.wf(),
        ensures
            final(self).wf(),
            match transfer_outcome(
                old(self)@,
                verifiers.map(),
                *proof,
                byte_views(nullifiers@),
                byte_views(new_commitments@),
                encrypted_notes@.len(),
                root@,
            ) {
                Some(trap) => {
                    &&& done == Err::<ShieldedTransfer, Trap<PoolError>>(trap)
                    &&& *final(self) == *old(self)
                },
                None => {
                    &&& done matches Ok(event)
                    &&& final(self)@ == old(self)@.spending(byte_views(nullifiers@)).grown(
                        byte_views(new_commitments@),
                    )
                    &&& all_canonical(byte_views(nullifiers@))
                    &&& event.nullifiers@ == nullifiers@
                    &&& event.new_commitments@ == new_commitments@
                    &&& event.encrypted_notes@ == encrypted_notes@
                    &&& event.new_root@ == pool_root(final(self)@.leaves)
                },
            },
    {
        let inputs: Vec<[u8; 32]> = match self.check_transfer(
            &nullifiers,
            &new_commitments,
            &encrypted_notes,
            &root,
        ) {
            Ok(inputs) => inputs,
            Err(e) => {
                return Err(Trap::Error(e));
            },
        };
        let verdict: Result<bool, VerifierTrap> = match verifiers.get(&self.transfer_verifier) {
            Some(verifier) => verifier.verify(env, proof, &inputs),
            None => {
                return Err(Trap::NoContract);
            },
        };
        proof {
            let nfs = byte_views(nullifiers@);
            let cms = byte_views(new_commitments@);
            let all = transfer_inputs(root@, nfs, cms);
            if verdict == Ok::<bool, VerifierTrap>(true) {
                assert forall|i: int| 0 <= i < nfs.len() implies canonical_scalar(
                    #[trigger] nfs[i],
                ) by {
                    assert(all[1 + i] == nfs[i]);
                }
                assert forall|i: int| 0 <= i < cms.len() implies canonical_scalar(
                    #[trigger] cms[i],
                ) by {
                    assert(all[1 + nfs.len() + i] == cms[i]);
                }
            }
        }
        self.settle_transfer(verdict, nullifiers, new_commitments, encrypted_notes)
    }

    /// The checks that a withdrawal passes before its proof is looked at.
    /// Returns the statement to prove: root, nullifier, recipient binding and
    /// amount, in circuit order.
    pub fn check_withdraw(
        &self,
        env: &soroban_sdk::Env,
        nullifier: &[u8; 32],
        to: &Address,
        amount: i128,
        root: &[u8; 32],
    ) -> (checked: Result<Vec<[u8; 32]>, Trap<PoolError>>)
        requires
            self.wf(),
        ensures
            match self@.withdraw_refusal(nullifier@, amount, root@) {
                Some(e) => checked == Err::<Vec<[u8; 32]>, Trap<PoolError>>(Trap::Error(e)),
                None => if to@.len() > u32::MAX {
                    checked == Err::<Vec<[u8; 32]>, Trap<PoolError>>(Trap::Oversized)
                } else {
                    checked matches Ok(inputs) && byte_views(inputs@) == withdraw_inputs(
                        root@,
                        nullifier@,
                        to@,
                        amount as nat,
                    )
                },
            },
    {
        if amount <= 0 {
            return Err(Trap::Error(PoolError::InvalidAmount));
        }
        if !self.is_known_root(root) {
            return Err(Trap::Error(PoolError::UnknownRoot));
        }
        if self.is_spent(nullifier) {
            return Err(Trap::Error(PoolError::AlreadySpent));
        }
        let bound: [u8; 32] = match address_binding(env, to) {
            Some(bytes) => bytes,
            None => {
                return Err(Trap::Oversized);
            },
        };
        let encoded: [u8; 32] = amount_to_field(amount);
        let inputs: Vec<[u8; 32]> = vec![*root, *nullifier, bound, encoded];
        proof {
            assert(byte_views(inputs@) =~= withdraw_inputs(
                root@,
                nullifier@,
                to@,
                amount as nat,
            ));
        }
        Ok(inputs)
    }

    /// What the verdict on a checked withdrawal leads to: a spent nullifier
    /// and a payment, or a refusal.
    pub fn settle_withdraw(
        &mut self,
        verdict: Result<bool, VerifierTrap>,
        nullifier: [u8; 32],
        to: Address,
        amount: i128,
    ) -> (done: Result<(Withdraw, Payment), Trap<PoolError>>)
        requires
            old(self).wf(),
        ensures
            final(self).wf(),
            match settlement_refusal(old(self)@.leaves.len(), verdict, 0) {
                Some(trap) => {
                    &&& done == Err::<(Withdraw, Payment), Trap<PoolError>>(trap)
                    &&& *final(self) == *old(self)
                },
                None => {
                    &&& done matches Ok((event, payment))
                    &&& final(self)@ == old(self)@.spending(seq![nullifier@])
                    &&& event.to@ == to@
                    &&& event.nullifier == nullifier
                    &&& event.amount == amount
                    &&& payment.from@ == old(self)@.address
                    &&& payment.to@ == to@
                    &&& payment.amount == amount
                },
            },
    {
        match verdict {
            Err(trap) => {
                return Err(Trap::Verifier(trap));
            },
            Ok(accepted) => {
                if !accepted {
                    return Err(Trap::Error(PoolError::InvalidProof));
                }
            },
        }
        let spent: Vec<[u8; 32]> = vec![nullifier];
        proof {
            assert(byte_views(spent@) =~= seq![nullifier@]);
        }
        self.spend(&spent);
        let payment = Payment { from: self.address.clone(), to: to.clone(), amount };
        Ok((Withdraw { to, nullifier, amount }, payment))
    }

    /// Shielded to public: exits `amount` of the pool token to `to`, proving
    /// ownership of an unspent note of exactly that value under `root`. The
    /// proof binds the recipient, so a relayer cannot redirect funds. The
    /// payment moves the amount from the pool to the recipient.
    pub fn withdraw<V: Verifier>(
        &mut self,
        env: &soroban_sdk::Env,
        verifiers: &Store<Address, V>,
        proof: &Groth16Proof,
        nullifier: [u8; 32],
        to: Address,
        amount: i128,
        root: [u8; 32],
    ) -> (done: Result<(Withdraw, Payment), Trap<PoolError>>)
        requires
            old(self).wf(),
            verifiers.wf(),
        ensures
            final(self).wf(),
            match withdraw_outcome(
                old(self)@,
                verifiers.map(),
                *proof,
                nullifier@,
                to@,
                amount,
                root@,
            ) {
                Some(trap) => {
                    &&& done == Err::<(Withdraw, Payment), Trap<PoolError>>(trap)
                    &&& *final(self) == *old(self)
                },
                None => {
                    &&& done matches Ok((event, payment))
                    &&& final(self)@ == old(self)@.spending(seq![nullifier@])
                    &&& canonical_scalar(nullifier@)
                    &&& event.to@ == to@
                    &&& event.nullifier == nullifier
                    &&& event.amount == amount
                    &&& payment.from@ == old(self)@.address
                    &&& payment.to@ == to@
                    &&& payment.amount == amount
                },
            },
    {
        let inputs: Vec<[u8; 32]> = match self.check_withdraw(
            env,
            &nullifier,
            &to,
            amount,
            &root,
        ) {
            Ok(inputs) => inputs,
            Err(trap) => {
                return Err(trap);
            },
        };
        let verdict: Result<bool, VerifierTrap> = match verifiers.get(&self.withdraw_verifier) {
            Some(verifier) => verifier.verify(env, proof, &inputs),
            None => {
                return Err(Trap::NoContract);
            },
        };
        proof {
            let all = withdraw_inputs(root@, nullifier@, to@, amount as nat);
            assert(all[1] == nullifier@);
        }
        self.settle_withdraw(verdict, nullifier, to, amount)
    }

    /// The current Merkle root.
    pub fn root(&self) -> (root: [u8; 32])
        requires
            self.wf(),
        ensures
            root@ == pool_root(self@.leaves),
    {
        self.current_root
    }

    /// Whether `root` is a root this tree has ever had (proofs may lag the
    /// tip, so historical roots stay valid).
    pub fn is_known_root(&self, root: &[u8; 32]) -> (known: bool)
        requires
            self.wf(),
        ensures
            known == self@.knows_root(root@),
    {
        self.known_roots.has(root)
    }

    /// Whether `nullifier` has been spent.
    pub fn is_spent(&self, nullifier: &[u8; 32]) -> (spent: bool)
        requires
            self.wf(),
        ensures
            spent == self@.nullifiers.contains(nullifier@),
    {
        self.nullifiers.has(nullifier)
    }

    /// Number of commitments inserted so far, which is the next leaf index.
    pub fn size(&self) -> (n: u32)
        requires
            self.wf(),
        ensures
            n == self@.leaves.len(),
    {
        self.next_index
    }

    /// The token this pool wraps.
    pub fn token(&self) -> (token: &Address)
        ensures
            token@ == self@.token,
    {
        &self.token
    }
}

/// Appends byte strings to a list.
fn append32(list: &mut Vec<[u8; 32]>, more: &Vec<[u8; 32]>)
    ensures
        final(list)@ == old(list)@ + more@,
{
    let mut i: usize = 0;
    proof {
        assert(list@ =~= old(list)@ + more@.take(0));
    }
    while i < more.len()
        invariant
            i <= more@.len(),
            list@ == old(list)@ + more@.take(i as int),
        decreases more@.len() - i,
    {
        list.push(more[i]);
        proof {
            assert(list@ =~= old(list)@ + more@.take(i + 1));
        }
        i = i + 1;
    }
    proof {
        assert(more@.take(more@.len() as int) =~= more@);
    }
}

/// The verdict of a gate's registry on a depositor, if there is a gate and a
/// contract stands at its address.
pub open spec fn gate_verdict<A: Attestations>(
    gate: Option<GateView>,
    registries: Map<Seq<u8>, A>,
    now: u64,
    from: Seq<u8>,
) -> Option<bool> {
    match gate {
        Some(g) => if registries.dom().contains(g.registry) {
            Some(registries[g.registry].attested(now, from, g.required_claim))
        } else {
            None
        },
        None => None,
    }
}

/// Why a checked call is refused after its proof was looked at, if it is.
pub open spec fn settlement_refusal(
    leaves: nat,
    verdict: Result<bool, VerifierTrap>,
    new_leaves: nat,
) -> Option<Trap<PoolError>> {
    match verdict {
        Err(trap) => Some(Trap::Verifier(trap)),
        Ok(accepted) => if !accepted {
            Some(Trap::Error(PoolError::InvalidProof))
        } else if leaves + new_leaves > 0x10_0000 {
            Some(Trap::Error(PoolError::TreeFull))
        } else {
            None
        },
    }
}

/// Why a transfer is refused, if it is.
pub open spec fn transfer_outcome<V: Verifier>(
    s: PoolState,
    verifiers: Map<Seq<u8>, V>,
    proof: Groth16Proof,
    nullifiers: Seq<Seq<u8>>,
    commitments: Seq<Seq<u8>>,
    ciphertexts: nat,
    root: Seq<u8>,
) -> Option<Trap<PoolError>> {
    match s.transfer_refusal(nullifiers, commitments, ciphertexts, root) {
        Some(e) => Some(Trap::Error(e)),
        None => if !verifiers.dom().contains(s.transfer_verifier) {
            Some(Trap::NoContract)
        } else {
            settlement_refusal(
                s.leaves.len(),
                verifiers[s.transfer_verifier].verdict(
                    proof,
                    transfer_inputs(root, nullifiers, commitments),
                ),
                commitments.len(),
            )
        },
    }
}

/// Why a withdrawal is refused, if it is.
pub open spec fn withdraw_outcome<V: Verifier>(
    s: PoolState,
    verifiers: Map<Seq<u8>, V>,
    proof: Groth16Proof,
    nullifier: Seq<u8>,
    to: Seq<u8>,
    amount: i128,
    root: Seq<u8>,
) -> Option<Trap<PoolError>> {
    match s.withdraw_refusal(nullifier, amount, root) {
        Some(e) => Some(Trap::Error(e)),
        None => if to.len() > u32::MAX {
            Some(Trap::Oversized)
        } else if !verifiers.dom().contains(s.withdraw_verifier) {
            Some(Trap::NoContract)
        } else {
            settlement_refusal(
                s.leaves.len(),
                verifiers[s.withdraw_verifier].verdict(
                    proof,
                    withdraw_inputs(root, nullifier, to, amount as nat),
                ),
                0,
            )
        },
    }
}

proof fn lemma_ancestor_zero(level: nat)
    ensures
        ancestor(0, level) == 0,
    decreases level,
{
    if level > 0 {
        lemma_ancestor_zero((level - 1) as nat);
    }
}

/// A position moves by at most one at each level when the next one is taken.
proof fn lemma_ancestor_next(n: nat, level: nat)
    ensures
        ancestor(n + 1, level) == ancestor(n, level) || ancestor(n + 1, level) == ancestor(
            n,
            level,
        ) + 1,
    decreases level,
{
    if level > 0 {
        lemma_ancestor_next(n, (level - 1) as nat);
    }
}

/// **Tree lockstep.** The pool's root is the encoded root of the prover's tree
/// over the same commitments, and stays so after every insertion into both.
pub proof fn lemma_tree_lockstep(s: PoolState, tree: MerkleTree, commitment: Seq<u8>)
    requires
        tree.height() == 20,
        tree.leaves() == leaf_values(s.leaves),
    ensures
        pool_root(s.leaves) == fr_encoding(root_of(tree.leaves(), tree.height())),
        leaf_values(s.grown(seq![commitment]).leaves) == tree.leaves().push(be_nat(commitment)),
        pool_root(s.grown(seq![commitment]).leaves) == fr_encoding(
            root_of(tree.leaves().push(be_nat(commitment)), tree.height()),
        ),
{
    assert(leaf_values(s.grown(seq![commitment]).leaves) =~= tree.leaves().push(
        be_nat(commitment),
    ));
}

/// The leaves of a complete tree of some depth: some leaves, and zeros.
pub open spec fn padded(leaves: Seq<nat>, depth: nat) -> Seq<nat> {
    Seq::new(
        pow2(depth),
        |i: int|
            if i < leaves.len() {
                leaves[i]
            } else {
                0
            },
    )
}

/// Nodes do not tell zeros at the end from no leaves.
proof fn lemma_padded_node(leaves: Seq<nat>, depth: nat, level: nat, index: nat)
    requires
        leaves.len() <= pow2(depth),
    ensures
        node_of(padded(leaves, depth), level, index) == node_of(leaves, level, index),
    decreases level,
{
    if level > 0 {
        lemma_padded_node(leaves, depth, (level - 1) as nat, 2 * index);
        lemma_padded_node(leaves, depth, (level - 1) as nat, 2 * index + 1);
    }
}

/// **Insertion.** A commitment that is inserted becomes the next leaf, and the
/// others stay. The new root is the root of the complete tree over the leaves
/// and zeros behind them; it is known from then on, and so is every root that
/// was known. A full tree takes no commitment: what would insert one is refused
/// with `TreeFull`.
pub proof fn lemma_insertion(
    s: PoolState,
    commitment: Seq<u8>,
    amount: i128,
    attested: Option<bool>,
    more: nat,
)
    requires
        s.leaves.len() <= 0x10_0000,
        canonical_scalar(commitment),
        amount > 0,
        s.gate is Some ==> attested == Some(true),
        more > 0,
    ensures
        s.leaves.len() < 0x10_0000 ==> {
            let t = s.grown(seq![commitment]);
            let root = pool_root(t.leaves);
            &&& s.deposit_refusal(true, s.token, amount, attested, commitment) is None
            &&& t.leaves == s.leaves.push(commitment)
            &&& root == fr_encoding(root_of(padded(leaf_values(t.leaves), 20), 20))
            &&& t.knows_root(root)
            &&& forall|earlier: Seq<u8>| #[trigger]
                s.knows_root(earlier) ==> t.knows_root(earlier)
        },
        s.leaves.len() == 0x10_0000 ==> {
            &&& s.deposit_refusal(true, s.token, amount, attested, commitment) == Some(
                Trap::Error(PoolError::TreeFull),
            )
            &&& settlement_refusal(s.leaves.len(), Ok(true), more) == Some(
                Trap::Error(PoolError::TreeFull),
            )
        },
{
    if s.leaves.len() < 0x10_0000 {
        let t = s.grown(seq![commitment]);
        assert(t.leaves =~= s.leaves.push(commitment));
        lemma2_to64();
        lemma_padded_node(leaf_values(t.leaves), 20, 20, 0);
        lemma_roots_remembered(t, Seq::empty(), Seq::empty(), pool_root(t.leaves));
        assert forall|earlier: Seq<u8>| #[trigger] s.knows_root(earlier) implies t.knows_root(
            earlier,
        ) by {
            lemma_roots_remembered(s, seq![commitment], Seq::empty(), earlier);
            let u = s.spending(Seq::empty()).grown(seq![commitment]);
            assert(u.leaves == t.leaves);
            let k = choose|k: int|
                0 <= k <= u.leaves.len() && earlier == #[trigger] pool_root(u.leaves.take(k));
            assert(earlier == pool_root(t.leaves.take(k)));
        }
    }
}

/// **Roots are remembered.** The current root is known, and a known root stays
/// known whatever is inserted or spent.
pub proof fn lemma_roots_remembered(
    s: PoolState,
    commitments: Seq<Seq<u8>>,
    nullifiers: Seq<Seq<u8>>,
    root: Seq<u8>,
)
    ensures
        s.knows_root(pool_root(s.leaves)),
        s.knows_root(root) ==> s.spending(nullifiers).grown(commitments).knows_root(root),
{
    let n = s.leaves.len() as int;
    assert(s.leaves.take(n) =~= s.leaves);
    assert(pool_root(s.leaves) == pool_root(s.leaves.take(n)));
    let t = s.spending(nullifiers).grown(commitments);
    if s.knows_root(root) {
        let k = choose|k: int| 0 <= k <= n && root == #[trigger] pool_root(s.leaves.take(k));
        assert(t.leaves.take(k) =~= s.leaves.take(k));
        assert(root == pool_root(t.leaves.take(k)));
    }
}

/// **No note is spent twice.** After a nullifier was spent, every transfer or
/// withdrawal that names it is refused, with `AlreadySpent` where the request
/// is otherwise in order.
pub proof fn lemma_no_double_spend(
    s: PoolState,
    spent: Seq<Seq<u8>>,
    nullifier: Seq<u8>,
    nullifiers: Seq<Seq<u8>>,
    commitments: Seq<Seq<u8>>,
    ciphertexts: nat,
    amount: i128,
    root: Seq<u8>,
)
    requires
        spent.contains(nullifier),
        nullifiers.contains(nullifier),
    ensures
        ({
            let t = s.spending(spent);
            &&& t.nullifiers.contains(nullifier)
            &&& t.transfer_refusal(nullifiers, commitments, ciphertexts, root) is Some
            &&& t.withdraw_refusal(nullifier, amount, root) is Some
            &&& t.knows_root(root) && commitments.len() == ciphertexts > 0
                ==> t.transfer_refusal(nullifiers, commitments, ciphertexts, root) == Some(
                PoolError::AlreadySpent,
            )
            &&& t.knows_root(root) && amount > 0 ==> t.withdraw_refusal(nullifier, amount, root)
                == Some(PoolError::AlreadySpent)
        }),
{
    let t = s.spending(spent);
    assert(spent.to_set().contains(nullifier));
    let i = choose|i: int| 0 <= i < nullifiers.len() && nullifiers[i] == nullifier;
    assert(t.nullifiers.contains(nullifiers[i]));
}

/// **A transfer names each nullifier once.** A request that repeats a
/// nullifier is refused.
pub proof fn lemma_no_repeats(
    s: PoolState,
    nullifiers: Seq<Seq<u8>>,
    commitments: Seq<Seq<u8>>,
    ciphertexts: nat,
    root: Seq<u8>,
    i: int,
    j: int,
)
    requires
        0 <= j < i < nullifiers.len(),
        nullifiers[i] == nullifiers[j],
    ensures
        s.transfer_refusal(nullifiers, commitments, ciphertexts, root) is Some,
{
}

/// **Spent stays spent.** Nothing takes a nullifier out of the spent set.
pub proof fn lemma_spent_forever(
    s: PoolState,
    nullifiers: Seq<Seq<u8>>,
    commitments: Seq<Seq<u8>>,
    nullifier: Seq<u8>,
)
    requires
        s.nullifiers.contains(nullifier),
    ensures
        s.spending(nullifiers).grown(commitments).nullifiers.contains(nullifier),
{
}

/// **A bundle stays valid.** What other calls insert and spend after proving
/// does not make a transfer or withdrawal refused, as long as they do not
/// spend its nullifiers.
pub proof fn lemma_bundle_stays_valid(
    s: PoolState,
    others_spent: Seq<Seq<u8>>,
    others_inserted: Seq<Seq<u8>>,
    nullifiers: Seq<Seq<u8>>,
    commitments: Seq<Seq<u8>>,
    ciphertexts: nat,
    amount: i128,
    root: Seq<u8>,
)
    requires
        forall|i: int|
            0 <= i < nullifiers.len() ==> !others_spent.contains(#[trigger] nullifiers[i]),
    ensures
        ({
            let t = s.spending(others_spent).grown(others_inserted);
            &&& s.transfer_refusal(nullifiers, commitments, ciphertexts, root) is None
                ==> t.transfer_refusal(nullifiers, commitments, ciphertexts, root) is None
            &&& nullifiers.len() > 0 && s.withdraw_refusal(nullifiers[0], amount, root) is None
                ==> t.withdraw_refusal(nullifiers[0], amount, root) is None
        }),
{
    let t = s.spending(others_spent).grown(others_inserted);
    lemma_roots_remembered(s, others_inserted, others_spent, root);
    assert forall|i: int| 0 <= i < nullifiers.len() implies s.nullifiers.contains(
        #[trigger] nullifiers[i],
    ) == t.nullifiers.contains(nullifiers[i]) by {}
}

/// **The recipient is part of the statement.** Two withdrawals have the same
/// public inputs only if they agree in root, nullifier, recipient binding and
/// amount.
pub proof fn lemma_withdraw_binds(
    root: Seq<u8>,
    nullifier: Seq<u8>,
    to: Seq<u8>,
    amount: i128,
    other_root: Seq<u8>,
    other_nullifier: Seq<u8>,
    other_to: Seq<u8>,
    other_amount: i128,
)
    requires
        amount > 0,
        other_amount > 0,
        withdraw_inputs(root, nullifier, to, amount as nat) == withdraw_inputs(
            other_root,
            other_nullifier,
            other_to,
            other_amount as nat,
        ),
    ensures
        root == other_root,
        nullifier == other_nullifier,
        binding_of(to) == binding_of(other_to),
        amount == other_amount,
{
    let a = withdraw_inputs(root, nullifier, to, amount as nat);
    let b = withdraw_inputs(other_root, other_nullifier, other_to, other_amount as nat);
    assert(a[0] == b[0] && a[1] == b[1] && a[2] == b[2] && a[3] == b[3]);
    lemma_pow256_sizes();
    lemma_be_bytes(amount as nat, 32);
    lemma_be_bytes(other_amount as nat, 32);
}

/// **Deposits are admitted.** A deposit that is not refused is signed by the
/// depositor, pays a positive amount of the pool's own token and, where the
/// pool requires a claim, comes from an address that the registry attests it
/// for.
pub proof fn lemma_deposits_admitted<A: Attestations>(
    s: PoolState,
    registries: Map<Seq<u8>, A>,
    signed: bool,
    now: u64,
    from: Seq<u8>,
    token: Seq<u8>,
    amount: i128,
    commitment: Seq<u8>,
)
    requires
        s.deposit_refusal(
            signed,
            token,
            amount,
            gate_verdict(s.gate, registries, now, from),
            commitment,
        ) is None,
    ensures
        signed,
        amount > 0,
        token == s.token,
        s.gate matches Some(g) ==> registries.dom().contains(g.registry)
            && registries[g.registry].attested(now, from, g.required_claim),
{
}

/// **The tree is in order.** Every commitment in a pool is canonical, and
/// there are at most `2^20`.
pub proof fn lemma_pool_in_order(pool: ShieldedPool)
    requires
        pool.wf(),
    ensures
        all_canonical(pool@.leaves),
        pool@.leaves.len() <= 0x10_0000,
{
}

} // verus!
