//! The pool's state machine around a verifier's verdict.

use attesta::attestation_registry::AttestationRegistry;
use attesta::encoding::{fr_from_bytes, fr_to_bytes};
use attesta::host::{address_binding, amount_to_field};
use attesta::interfaces::fr::FR_MINUS_ONE;
use attesta::interfaces::{
    Address, ClaimType, Groth16Proof, Invocation, Trap, VerificationKey, VerifierTrap,
};
use attesta::merkle::MerkleTree;
use attesta::shielded_pool::poseidon::hash2;
use attesta::shielded_pool::{
    Deposit, GateConfig, Payment, PoolError, ShieldedPool, ShieldedTransfer, Withdraw,
};
use attesta::store::Store;
use attesta::zk_verifier::{VerifierError, ZkVerifier};
use soroban_sdk::testutils::EnvTestConfig;
use soroban_sdk::{Bytes, Env};

fn address(tag: u8) -> Address {
    Address { xdr: vec![tag; 4] }
}

const POOL: u8 = 1;
const ADMIN: u8 = 2;
const TOKEN: u8 = 3;
const TRANSFER_VERIFIER: u8 = 4;
const WITHDRAW_VERIFIER: u8 = 5;
const REGISTRY: u8 = 6;
const USER: u8 = 7;

struct Setup {
    env: Env,
    pool: ShieldedPool,
    registries: Store<Address, AttestationRegistry>,
    balances: Vec<(u8, i128)>,
    accepts: bool,
}

fn setup(verifier_accepts: bool, gate: Option<GateConfig>) -> Setup {
    let env = Env::new_with_config(EnvTestConfig {
        capture_snapshot_at_drop: false,
    });
    Setup {
        env,
        pool: ShieldedPool::new(
            address(POOL),
            address(ADMIN),
            address(TOKEN),
            address(TRANSFER_VERIFIER),
            address(WITHDRAW_VERIFIER),
            gate,
        ),
        registries: Store::new(),
        balances: vec![(USER, 1_000_000)],
        accepts: verifier_accepts,
    }
}

fn infinity<const N: usize>() -> [u8; N] {
    let mut bytes = [0u8; N];
    bytes[0] = 0x40;
    bytes
}

/// A proof of points at infinity.
fn null_proof() -> Groth16Proof {
    Groth16Proof {
        a: infinity(),
        b: infinity(),
        c: infinity(),
    }
}

/// A verifier instance with a fixed verdict on the null proof: of its pairings
/// only that of `alpha` with `beta` can differ from one.
fn fixed_verifier(env: &Env, accepts: bool, n_inputs: usize) -> ZkVerifier {
    let (mut alpha, mut beta) = (infinity(), infinity());
    if !accepts {
        let seed = Bytes::from_slice(env, b"seed");
        let dst = Bytes::from_slice(env, b"ATTESTA_TEST");
        let bls = env.crypto().bls12_381();
        alpha = bls.hash_to_g1(&seed, &dst).to_bytes().to_array();
        beta = bls.hash_to_g2(&seed, &dst).to_bytes().to_array();
    }
    let key = VerificationKey {
        alpha,
        beta,
        gamma: infinity(),
        delta: infinity(),
        ic: vec![infinity(); n_inputs + 1],
    };
    ZkVerifier::new("fixed".to_string(), key).unwrap()
}

impl Setup {
    fn deposit(
        &mut self,
        token: u8,
        amount: i128,
        commitment: [u8; 32],
    ) -> Result<Deposit, Trap<PoolError>> {
        let call = Invocation {
            now: 0,
            signers: vec![address(USER)],
        };
        let (event, payment) = self.pool.deposit(
            &call,
            &self.registries,
            address(USER),
            &address(token),
            amount,
            commitment,
        )?;
        self.pay(&payment);
        Ok(event)
    }

    fn transfer(
        &mut self,
        nullifiers: &[[u8; 32]],
        commitments: &[[u8; 32]],
        notes: &[&[u8]],
        root: [u8; 32],
    ) -> Result<ShieldedTransfer, Trap<PoolError>> {
        let nullifiers = nullifiers.to_vec();
        let commitments = commitments.to_vec();
        let notes: Vec<Vec<u8>> = notes.iter().map(|n| n.to_vec()).collect();
        let n_inputs = 1 + nullifiers.len() + commitments.len();
        let mut verifiers = Store::new();
        verifiers.set(
            address(TRANSFER_VERIFIER),
            fixed_verifier(&self.env, self.accepts, n_inputs),
        );
        self.pool.transfer(
            &self.env,
            &verifiers,
            &null_proof(),
            nullifiers,
            commitments,
            notes,
            root,
        )
    }

    fn withdraw(
        &mut self,
        nullifier: [u8; 32],
        to: u8,
        amount: i128,
        root: [u8; 32],
    ) -> Result<Withdraw, Trap<PoolError>> {
        let mut verifiers = Store::new();
        verifiers.set(
            address(WITHDRAW_VERIFIER),
            fixed_verifier(&self.env, self.accepts, 4),
        );
        let (event, payment) = self.pool.withdraw(
            &self.env,
            &verifiers,
            &null_proof(),
            nullifier,
            address(to),
            amount,
            root,
        )?;
        self.pay(&payment);
        Ok(event)
    }

    fn pay(&mut self, payment: &Payment) {
        self.balances.push((payment.from.xdr[0], -payment.amount));
        self.balances.push((payment.to.xdr[0], payment.amount));
    }

    fn balance(&self, who: u8) -> i128 {
        self.balances
            .iter()
            .filter(|(a, _)| *a == who)
            .map(|(_, n)| n)
            .sum()
    }
}

fn commitment(seed: u8) -> [u8; 32] {
    [seed; 32]
}

#[test]
fn deposit_locks_tokens_and_grows_tree() {
    let mut s = setup(true, None);
    let root_before = s.pool.root();

    let event = s.deposit(TOKEN, 500, commitment(1)).unwrap();
    assert_eq!(event.leaf_index, 0);
    assert_eq!(event.new_root, s.pool.root());

    assert_eq!(s.balance(USER), 999_500);
    assert_eq!(s.balance(POOL), 500);
    assert_eq!(s.pool.size(), 1);
    let root_after = s.pool.root();
    assert_ne!(root_before, root_after);
    // Historical roots stay valid for in-flight proofs.
    assert!(s.pool.is_known_root(&root_before));
    assert!(s.pool.is_known_root(&root_after));
}

#[test]
fn checks_give_the_public_inputs() {
    let s = setup(true, None);
    let root = s.pool.root();
    let inputs = s
        .pool
        .check_transfer(
            &vec![[9u8; 32], [8u8; 32]],
            &vec![commitment(2)],
            &vec![b"ct".to_vec()],
            &root,
        )
        .unwrap();
    assert_eq!(inputs, vec![root, [9u8; 32], [8u8; 32], commitment(2)]);
    let inputs = s
        .pool
        .check_withdraw(&s.env, &[9u8; 32], &address(77), 5, &root)
        .unwrap();
    let binding = address_binding(&s.env, &address(77)).unwrap();
    assert_eq!(inputs, vec![root, [9u8; 32], binding, amount_to_field(5)]);
}

#[test]
fn deposit_rejects_foreign_token() {
    let mut s = setup(true, None);
    let trap = s.deposit(99, 500, commitment(1)).unwrap_err();
    assert_eq!(trap, Trap::Error(PoolError::WrongToken));
    assert_eq!(PoolError::WrongToken.code(), 1);
}

#[test]
fn deposit_rejects_nonpositive_amount() {
    let mut s = setup(true, None);
    let trap = s.deposit(TOKEN, 0, commitment(1)).unwrap_err();
    assert_eq!(trap, Trap::Error(PoolError::InvalidAmount));
    assert_eq!(PoolError::InvalidAmount.code(), 2);
    let trap = s.deposit(TOKEN, -1, commitment(1)).unwrap_err();
    assert_eq!(trap, Trap::Error(PoolError::InvalidAmount));
    assert_eq!(s.pool.size(), 0);
}

#[test]
fn transfer_spends_nullifiers_and_inserts_commitments() {
    let mut s = setup(true, None);
    s.deposit(TOKEN, 500, commitment(1)).unwrap();
    let root = s.pool.root();

    let nullifier = [9u8; 32];
    assert!(!s.pool.is_spent(&nullifier));

    let event = s
        .transfer(
            &[nullifier],
            &[commitment(2), commitment(3)],
            &[b"ct-1", b"ct-2"],
            root,
        )
        .unwrap();
    assert_eq!(event.nullifiers, vec![nullifier]);
    assert_eq!(event.new_commitments, vec![commitment(2), commitment(3)]);
    assert_eq!(event.encrypted_notes, vec![b"ct-1".to_vec(), b"ct-2".to_vec()]);
    assert_eq!(event.new_root, s.pool.root());

    assert!(s.pool.is_spent(&nullifier));
    assert_eq!(s.pool.size(), 3);
    // The pool's token balance is untouched by shielded transfers.
    assert_eq!(s.balance(POOL), 500);
}

#[test]
fn transfer_rejects_double_spend() {
    let mut s = setup(true, None);
    s.deposit(TOKEN, 500, commitment(1)).unwrap();
    let root = s.pool.root();
    let nullifier = [9u8; 32];

    s.transfer(&[nullifier], &[commitment(2)], &[b"ct"], root).unwrap();
    // Same nullifier again, against the (still known) old root.
    let trap = s
        .transfer(&[nullifier], &[commitment(4)], &[b"ct"], root)
        .unwrap_err();
    assert_eq!(trap, Trap::Error(PoolError::AlreadySpent));
    assert_eq!(PoolError::AlreadySpent.code(), 5);
    assert_eq!(s.pool.size(), 2);
}

#[test]
fn transfer_rejects_a_nullifier_given_twice() {
    let mut s = setup(true, None);
    let root = s.pool.root();
    let trap = s
        .transfer(&[[9u8; 32], [8u8; 32], [9u8; 32]], &[commitment(4)], &[b"ct"], root)
        .unwrap_err();
    assert_eq!(trap, Trap::Error(PoolError::AlreadySpent));
}

#[test]
fn transfer_rejects_unknown_root() {
    let mut s = setup(true, None);
    let trap = s
        .transfer(&[[9u8; 32]], &[commitment(2)], &[b"ct"], [7u8; 32])
        .unwrap_err();
    assert_eq!(trap, Trap::Error(PoolError::UnknownRoot));
    assert_eq!(PoolError::UnknownRoot.code(), 4);
}

#[test]
fn transfer_rejects_invalid_proof() {
    let mut s = setup(false, None);
    s.deposit(TOKEN, 500, commitment(1)).unwrap();
    let root = s.pool.root();
    let trap = s
        .transfer(&[[9u8; 32]], &[commitment(2)], &[b"ct"], root)
        .unwrap_err();
    assert_eq!(trap, Trap::Error(PoolError::InvalidProof));
    assert_eq!(PoolError::InvalidProof.code(), 6);
    // A refused transfer changes nothing.
    assert!(!s.pool.is_spent(&[9u8; 32]));
    assert_eq!(s.pool.root(), root);
}

#[test]
fn withdraw_pays_out_and_spends_nullifier() {
    let mut s = setup(true, None);
    s.deposit(TOKEN, 500, commitment(1)).unwrap();
    let root = s.pool.root();
    let recipient = 77;
    let nullifier = [9u8; 32];

    let event = s.withdraw(nullifier, recipient, 200, root).unwrap();
    assert_eq!(event.amount, 200);
    assert_eq!(event.nullifier, nullifier);
    assert_eq!(event.to, address(recipient));

    assert_eq!(s.balance(recipient), 200);
    assert_eq!(s.balance(POOL), 300);
    assert!(s.pool.is_spent(&nullifier));
}

#[test]
fn withdraw_rejects_spent_nullifier() {
    let mut s = setup(true, None);
    s.deposit(TOKEN, 500, commitment(1)).unwrap();
    let root = s.pool.root();
    let nullifier = [9u8; 32];
    s.withdraw(nullifier, 77, 200, root).unwrap();
    let trap = s.withdraw(nullifier, 77, 200, root).unwrap_err();
    assert_eq!(trap, Trap::Error(PoolError::AlreadySpent));
    assert_eq!(s.balance(POOL), 300);
}

#[test]
fn withdraw_checks_amount_and_root() {
    let mut s = setup(true, None);
    let root = s.pool.root();
    let trap = s.withdraw([9u8; 32], 77, 0, root).unwrap_err();
    assert_eq!(trap, Trap::Error(PoolError::InvalidAmount));
    let trap = s.withdraw([9u8; 32], 77, 1, [7u8; 32]).unwrap_err();
    assert_eq!(trap, Trap::Error(PoolError::UnknownRoot));
    s.accepts = false;
    let trap = s.withdraw([9u8; 32], 77, 1, root).unwrap_err();
    assert_eq!(trap, Trap::Error(PoolError::InvalidProof));
}

fn kyc_gate() -> Option<GateConfig> {
    Some(GateConfig {
        registry: address(REGISTRY),
        required_claim: ClaimType::KycLevel(2),
    })
}

fn registry_with(claim: Option<ClaimType>) -> AttestationRegistry {
    let mut registry = AttestationRegistry::new(address(ADMIN), address(50));
    if let Some(claim) = claim {
        let call = Invocation {
            now: 0,
            signers: vec![address(USER)],
        };
        registry
            .settle_present(&call, Ok(true), address(USER), claim, [7u8; 32], 1000)
            .unwrap();
    }
    registry
}

#[test]
fn gated_pool_admits_attested_depositor() {
    let mut s = setup(true, kyc_gate());
    s.registries
        .set(address(REGISTRY), registry_with(Some(ClaimType::KycLevel(2))));
    s.deposit(TOKEN, 100, commitment(1)).unwrap();
    assert_eq!(s.pool.size(), 1);
}

#[test]
fn gated_pool_rejects_unattested_depositor() {
    let mut s = setup(true, kyc_gate());
    s.registries.set(address(REGISTRY), registry_with(None));
    let trap = s.deposit(TOKEN, 100, commitment(1)).unwrap_err();
    assert_eq!(trap, Trap::Error(PoolError::AttestationRequired));
    assert_eq!(PoolError::AttestationRequired.code(), 7);
    // Another claim does not do.
    s.registries
        .set(address(REGISTRY), registry_with(Some(ClaimType::KycLevel(1))));
    let trap = s.deposit(TOKEN, 100, commitment(1)).unwrap_err();
    assert_eq!(trap, Trap::Error(PoolError::AttestationRequired));
}

#[test]
fn gate_without_a_registry_traps() {
    let mut s = setup(true, kyc_gate());
    let trap = s.deposit(TOKEN, 100, commitment(1)).unwrap_err();
    assert_eq!(trap, Trap::NoContract);
}

#[test]
fn deposits_are_authorized_by_the_depositor() {
    let mut s = setup(true, None);
    let call = Invocation {
        now: 0,
        signers: vec![address(99)],
    };
    let done = s.pool.deposit(
        &call,
        &s.registries,
        address(USER),
        &address(TOKEN),
        5,
        commitment(1),
    );
    assert_eq!(done.unwrap_err(), Trap::Unauthorized);
}

#[test]
fn malformed_requests_are_refused() {
    let mut s = setup(true, None);
    let root = s.pool.root();
    let refused = Trap::Error(PoolError::MalformedRequest);
    assert_eq!(PoolError::MalformedRequest.code(), 8);
    assert_eq!(
        s.transfer(&[], &[commitment(2)], &[b"ct"], root).unwrap_err(),
        refused
    );
    assert_eq!(s.transfer(&[[9u8; 32]], &[], &[], root).unwrap_err(), refused);
    assert_eq!(
        s.transfer(&[[9u8; 32]], &[commitment(2)], &[], root).unwrap_err(),
        refused
    );
    // A commitment that is not a canonical field element.
    let mut order = FR_MINUS_ONE;
    order[31] = 1;
    assert_eq!(s.deposit(TOKEN, 5, order).unwrap_err(), refused);
    s.deposit(TOKEN, 5, FR_MINUS_ONE).unwrap();
}

#[test]
fn full_trees_are_reported() {
    let mut s = setup(true, None);
    let root = s.pool.root();
    // One commitment more than the tree has leaves.
    let too_many = vec![commitment(1); (1 << 20) + 1];
    let done = s
        .pool
        .settle_transfer(Ok(true), vec![[9u8; 32]], too_many, vec![]);
    assert_eq!(done.unwrap_err(), Trap::Error(PoolError::TreeFull));
    assert_eq!(PoolError::TreeFull.code(), 3);
    // Nothing was spent or inserted.
    assert!(!s.pool.is_spent(&[9u8; 32]));
    assert_eq!(s.pool.root(), root);
}

#[test]
fn tree_tracks_the_provers() {
    let mut s = setup(true, None);
    let mut tree = MerkleTree::new(20);
    assert_eq!(s.pool.root(), fr_to_bytes(tree.root()));
    let mut roots = vec![s.pool.root()];
    for i in 1..=9u8 {
        s.deposit(TOKEN, 5, commitment(i)).unwrap();
        tree.insert(fr_from_bytes(&commitment(i)));
        assert_eq!(s.pool.root(), fr_to_bytes(tree.root()));
        roots.push(s.pool.root());
    }
    // Every root that there ever was is remembered.
    for root in &roots {
        assert!(s.pool.is_known_root(root));
    }
    assert!(!s.pool.is_known_root(&[0u8; 32]));
}

#[test]
fn byte_hash_is_the_protocol_hash() {
    let a = commitment(1);
    let b = commitment(2);
    let expected = attesta::poseidon::hash2(fr_from_bytes(&a), fr_from_bytes(&b));
    assert_eq!(hash2(&a, &b), fr_to_bytes(expected));
    assert_ne!(hash2(&a, &b), hash2(&b, &a));
}

#[test]
fn bundles_outlive_later_deposits() {
    let mut s = setup(true, None);
    s.deposit(TOKEN, 500, commitment(1)).unwrap();
    let root = s.pool.root();
    // Deposits and transfers land between proving and submission.
    s.deposit(TOKEN, 500, commitment(2)).unwrap();
    s.transfer(&[[8u8; 32]], &[commitment(3)], &[b"ct"], root).unwrap();
    s.transfer(&[[9u8; 32]], &[commitment(4)], &[b"ct"], root).unwrap();
    assert_eq!(s.pool.size(), 4);
    // Spent nullifiers stay spent.
    assert!(s.pool.is_spent(&[8u8; 32]));
    assert!(s.pool.is_spent(&[9u8; 32]));
}

#[test]
fn verifier_traps_end_the_call() {
    let mut s = setup(true, None);
    let trap = VerifierTrap::Error(VerifierError::NonCanonicalInput);
    let done = s
        .pool
        .settle_transfer(Err(trap), vec![[9u8; 32]], vec![commitment(2)], vec![vec![]]);
    assert_eq!(done.unwrap_err(), Trap::Verifier(trap));
    let done = s.pool.settle_withdraw(Err(trap), [9u8; 32], address(77), 5);
    assert_eq!(done.unwrap_err(), Trap::Verifier(trap));
    assert!(!s.pool.is_spent(&[9u8; 32]));
}

#[test]
fn calls_without_a_verifier_contract_trap() {
    let mut s = setup(true, None);
    let root = s.pool.root();
    let nobody: Store<Address, ZkVerifier> = Store::new();
    let proof = Groth16Proof {
        a: [0u8; 96],
        b: [0u8; 192],
        c: [0u8; 96],
    };
    let done = s.pool.transfer(
        &s.env,
        &nobody,
        &proof,
        vec![[9u8; 32]],
        vec![commitment(2)],
        vec![vec![]],
        root,
    );
    assert_eq!(done.unwrap_err(), Trap::NoContract);
    let done = s
        .pool
        .withdraw(&s.env, &nobody, &proof, [9u8; 32], address(77), 5, root);
    assert_eq!(done.unwrap_err(), Trap::NoContract);
    assert_eq!(s.pool.token().xdr, address(TOKEN).xdr);
}
