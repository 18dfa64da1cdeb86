//! Real Groth16 proofs: keys from the blank circuit shapes, proofs from real
//! witnesses, and their verification natively, on the host, and offline from
//! bundle files.

use ark_bls12_381::Bls12_381;
use ark_ff::{BigInteger, PrimeField};
use ark_groth16::{Groth16, ProvingKey};
use ark_r1cs_std::alloc::AllocVar;
use ark_r1cs_std::boolean::Boolean;
use ark_r1cs_std::eq::EqGadget;
use ark_r1cs_std::fields::fp::FpVar;
use ark_r1cs_std::fields::FieldVar;
use ark_r1cs_std::select::CondSelectGadget;
use ark_relations::r1cs::{
    ConstraintSynthesizer, ConstraintSystem, ConstraintSystemRef, SynthesisError,
};
use ark_snark::SNARK;
use attesta::attestation_registry::AttestationRegistry;
use attesta::circuit::{Circuit, Gate};
use attesta::cli::bundle::{read_bundle, render_transfer, render_withdraw};
use attesta::cli::verify::verify_bundle;
use attesta::curve::{Fq2, G1Affine, G2Affine};
use attesta::encoding::{
    fr_from_bytes, fr_to_bytes, g1_from_bytes, g2_from_bytes, proof_to_bytes, vk_to_bytes, Proof,
    ProofBytes, VerificationKeyBytes, VerifyingKey,
};
use attesta::field::{Fq, Fr};
use attesta::host::address_binding;
use attesta::interfaces::{Address, Groth16Proof, Invocation, VerificationKey, Verifier};
use attesta::merkle::{MerkleTree, POOL_TREE_DEPTH};
use attesta::note::{derive_nullifier, derive_pk, Note};
use attesta::prover::{prove_transfer, prove_withdraw, Output, Spend};
use attesta::shielded_pool::{Payment, ShieldedPool};
use attesta::store::Store;
use attesta::transfer::{NewNote, SpentNote, TransferCircuit};
use attesta::withdraw::WithdrawCircuit;
use attesta::zk_verifier::ZkVerifier;
use rand_chacha::rand_core::SeedableRng;
use rand_chacha::ChaCha20Rng;
use soroban_sdk::testutils::{Address as _, EnvTestConfig};
use soroban_sdk::xdr::ToXdr;
use soroban_sdk::Env;

type ArkFr = ark_bls12_381::Fr;

const DEPTH: usize = 8;

// ── conversions ─────────────────────────────────────────────────────────

fn ark(x: Fr) -> ArkFr {
    ArkFr::from_be_bytes_mod_order(&x.to_be_bytes())
}

fn fq(x: ark_bls12_381::Fq) -> Fq {
    let bytes: [u8; 48] = x.into_bigint().to_bytes_be().try_into().unwrap();
    Fq::from_be_bytes_mod_order(&bytes)
}

fn g1(p: &ark_bls12_381::G1Affine) -> G1Affine {
    if p.infinity {
        return G1Affine::identity();
    }
    G1Affine {
        x: fq(p.x),
        y: fq(p.y),
        infinity: false,
    }
}

fn g2(p: &ark_bls12_381::G2Affine) -> G2Affine {
    if p.infinity {
        return G2Affine::identity();
    }
    G2Affine {
        x: Fq2 {
            c0: fq(p.x.c0),
            c1: fq(p.x.c1),
        },
        y: Fq2 {
            c0: fq(p.y.c0),
            c1: fq(p.y.c1),
        },
        infinity: false,
    }
}

fn ark_fq(x: Fq) -> ark_bls12_381::Fq {
    ark_bls12_381::Fq::from_be_bytes_mod_order(&x.to_be_bytes())
}

fn ark_g1(p: &G1Affine) -> ark_bls12_381::G1Affine {
    ark_bls12_381::G1Affine {
        x: ark_fq(p.x),
        y: ark_fq(p.y),
        infinity: p.infinity,
    }
}

fn ark_g2(p: &G2Affine) -> ark_bls12_381::G2Affine {
    ark_bls12_381::G2Affine {
        x: ark_bls12_381::Fq2::new(ark_fq(p.x.c0), ark_fq(p.x.c1)),
        y: ark_bls12_381::Fq2::new(ark_fq(p.y.c0), ark_fq(p.y.c1)),
        infinity: p.infinity,
    }
}

fn own_proof(p: &ark_groth16::Proof<Bls12_381>) -> Proof {
    Proof {
        a: g1(&p.a),
        b: g2(&p.b),
        c: g1(&p.c),
    }
}

fn ark_proof(p: &ProofBytes) -> ark_groth16::Proof<Bls12_381> {
    ark_groth16::Proof {
        a: ark_g1(&g1_from_bytes(&p.a)),
        b: ark_g2(&g2_from_bytes(&p.b)),
        c: ark_g1(&g1_from_bytes(&p.c)),
    }
}

fn own_vk(vk: &ark_groth16::VerifyingKey<Bls12_381>) -> VerifyingKey {
    VerifyingKey {
        alpha_g1: g1(&vk.alpha_g1),
        beta_g2: g2(&vk.beta_g2),
        gamma_g2: g2(&vk.gamma_g2),
        delta_g2: g2(&vk.delta_g2),
        gamma_abc_g1: vk.gamma_abc_g1.iter().map(g1).collect(),
    }
}

fn chain_vk(vk: &ark_groth16::VerifyingKey<Bls12_381>) -> VerificationKey {
    let b: VerificationKeyBytes = vk_to_bytes(&own_vk(vk));
    VerificationKey {
        alpha: b.alpha,
        beta: b.beta,
        gamma: b.gamma,
        delta: b.delta,
        ic: b.ic,
    }
}

fn chain_proof(p: &Proof) -> Groth16Proof {
    let b = proof_to_bytes(p);
    Groth16Proof {
        a: b.a,
        b: b.b,
        c: b.c,
    }
}

// ── from a circuit description to a constraint system ───────────────────

enum Wire {
    Field(FpVar<ArkFr>),
    Bit(Boolean<ArkFr>),
    Enforced,
}

struct Replay<'a>(&'a Circuit);

impl ConstraintSynthesizer<ArkFr> for Replay<'_> {
    fn generate_constraints(self, cs: ConstraintSystemRef<ArkFr>) -> Result<(), SynthesisError> {
        let c = self.0;
        let missing = SynthesisError::AssignmentMissing;
        let mut wires: Vec<Wire> = Vec::new();
        for gate in &c.gates {
            let field = |w: &usize| match &wires[*w] {
                Wire::Field(x) => x.clone(),
                _ => unreachable!(),
            };
            let bit = |w: &usize| match &wires[*w] {
                Wire::Bit(b) => b.clone(),
                _ => unreachable!(),
            };
            let wire = match gate {
                Gate::Input(i) => Wire::Field(FpVar::new_input(cs.clone(), || {
                    c.inputs[*i].map(ark).ok_or(missing)
                })?),
                Gate::Witness(i) => Wire::Field(FpVar::new_witness(cs.clone(), || {
                    c.witnesses[*i].map(ark).ok_or(missing)
                })?),
                Gate::Boolean(i) => Wire::Bit(Boolean::new_witness(cs.clone(), || {
                    c.bits[*i].ok_or(missing)
                })?),
                Gate::Constant(k) => Wire::Field(FpVar::constant(ark(*k))),
                Gate::Sum(a, b) => Wire::Field(field(a) + field(b)),
                Gate::Product(a, b) => Wire::Field(field(a) * field(b)),
                Gate::Square(a) => Wire::Field(field(a).square()?),
                Gate::Select(s, a, b) => {
                    Wire::Field(FpVar::conditionally_select(&bit(s), &field(a), &field(b))?)
                }
                Gate::IsNeq(a, b) => Wire::Bit(field(a).is_neq(&field(b))?),
                Gate::FromBits(ws) => {
                    let bits: Vec<Boolean<ArkFr>> = ws.iter().map(bit).collect();
                    Wire::Field(Boolean::le_bits_to_fp(&bits)?)
                }
                Gate::EnforceEqual(a, b) => {
                    field(a).enforce_equal(&field(b))?;
                    Wire::Enforced
                }
                Gate::EnforceEqualIf(s, a, b) => {
                    field(a).conditional_enforce_equal(&field(b), &bit(s))?;
                    Wire::Enforced
                }
            };
            wires.push(wire);
        }
        Ok(())
    }
}

type Keys = (
    ProvingKey<Bls12_381>,
    ark_groth16::VerifyingKey<Bls12_381>,
);

fn setup(circuit: &Circuit, rng: &mut ChaCha20Rng) -> Keys {
    Groth16::<Bls12_381>::circuit_specific_setup(Replay(circuit), rng).unwrap()
}

fn prove(
    pk: &ProvingKey<Bls12_381>,
    circuit: &Circuit,
    rng: &mut ChaCha20Rng,
) -> ark_groth16::Proof<Bls12_381> {
    Groth16::<Bls12_381>::prove(pk, Replay(circuit), rng).unwrap()
}

fn verify(
    vk: &ark_groth16::VerifyingKey<Bls12_381>,
    inputs: &[Fr],
    proof: &ark_groth16::Proof<Bls12_381>,
) -> bool {
    let inputs: Vec<ArkFr> = inputs.iter().map(|x| ark(*x)).collect();
    Groth16::<Bls12_381>::verify(vk, &inputs, proof).unwrap()
}

fn env() -> Env {
    let env = Env::new_with_config(EnvTestConfig {
        capture_snapshot_at_drop: false,
    });
    env.cost_estimate().budget().reset_unlimited();
    env
}

fn encoded(inputs: &[Fr]) -> Vec<[u8; 32]> {
    inputs.iter().map(|x| fr_to_bytes(*x)).collect()
}

// ── fixtures ────────────────────────────────────────────────────────────

/// A real spend: 600 + 400 in, 750 + 250 out.
fn transfer_fixture(depth: usize) -> (TransferCircuit, Vec<Fr>) {
    let sk1 = Fr::from(11u64);
    let sk2 = Fr::from(22u64);
    let n1 = Note {
        value: 600,
        owner_pk: derive_pk(sk1),
        blinding: Fr::from(101u64),
    };
    let n2 = Note {
        value: 400,
        owner_pk: derive_pk(sk2),
        blinding: Fr::from(102u64),
    };
    let mut tree = MerkleTree::new(depth);
    let i1 = tree.insert(n1.commitment());
    let i2 = tree.insert(n2.commitment());
    let out1 = NewNote {
        value: 750,
        owner_pk: derive_pk(Fr::from(33u64)),
        blinding: Fr::from(201u64),
    };
    let out2 = NewNote {
        value: 250,
        owner_pk: derive_pk(sk1),
        blinding: Fr::from(202u64),
    };
    let public_inputs = vec![
        tree.root(),
        derive_nullifier(sk1, i1),
        derive_nullifier(sk2, i2),
        out1.commitment(),
        out2.commitment(),
    ];
    let circuit = TransferCircuit {
        depth,
        root: Some(public_inputs[0]),
        nullifiers: vec![Some(public_inputs[1]), Some(public_inputs[2])],
        new_commitments: vec![Some(public_inputs[3]), Some(public_inputs[4])],
        spent: vec![
            Some(SpentNote {
                value: n1.value,
                sk: sk1,
                blinding: n1.blinding,
                path: tree.path(i1),
            }),
            Some(SpentNote {
                value: n2.value,
                sk: sk2,
                blinding: n2.blinding,
                path: tree.path(i2),
            }),
        ],
        created: vec![Some(out1), Some(out2)],
    };
    (circuit, public_inputs)
}

/// One note of 900, exited to the binding 4242.
fn withdraw_fixture(depth: usize) -> (WithdrawCircuit, Vec<Fr>) {
    let sk = Fr::from(11u64);
    let note = Note {
        value: 900,
        owner_pk: derive_pk(sk),
        blinding: Fr::from(101u64),
    };
    let mut tree = MerkleTree::new(depth);
    let idx = tree.insert(note.commitment());
    let recipient_binding = Fr::from(4242u64);
    let public_inputs = vec![
        tree.root(),
        derive_nullifier(sk, idx),
        recipient_binding,
        Fr::from(note.value),
    ];
    let circuit = WithdrawCircuit {
        depth,
        root: Some(public_inputs[0]),
        nullifier: Some(public_inputs[1]),
        recipient_binding: Some(recipient_binding),
        amount: Some(public_inputs[3]),
        sk: Some(sk),
        blinding: Some(note.blinding),
        path: Some(tree.path(idx)),
    };
    (circuit, public_inputs)
}

// ── native ──────────────────────────────────────────────────────────────

#[test]
fn spelled_numbers_are_enforced_alike() {
    let limbs: [u64; 4] = [
        0xffffffff00000000,
        0x53bda402fffe5bfe,
        0x3339d80809a1d805,
        0x73eda753299d7d48,
    ];
    let bit = |i: usize| (limbs[i / 64] >> (i % 64)) & 1 == 1;
    let largest: Vec<bool> = (0..256).map(bit).collect();
    let mut order = largest.clone();
    order[0] = true;
    for (bits, canonical) in [(largest, true), (order, false), (vec![true; 254], true)] {
        let mut c = Circuit::new();
        let bits = bits.iter().map(|b| c.new_bit(Some(*b))).collect();
        c.from_bits(&bits);
        assert_eq!(c.is_satisfied().unwrap(), canonical);
        let cs = ConstraintSystem::<ArkFr>::new_ref();
        Replay(&c).generate_constraints(cs.clone()).unwrap();
        assert_eq!(cs.is_satisfied().unwrap(), canonical);
    }
}

#[test]
fn transfer_proof_verifies_and_tampering_fails() {
    let mut rng = ChaCha20Rng::seed_from_u64(0xa77e57a);
    let (pk, vk) = setup(
        &TransferCircuit::blank(DEPTH, 2, 2).generate_constraints(),
        &mut rng,
    );
    let (circuit, public_inputs) = transfer_fixture(DEPTH);
    let proof = prove(&pk, &circuit.generate_constraints(), &mut rng);
    assert!(verify(&vk, &public_inputs, &proof));

    // Any tampered statement must fail: try swapping a nullifier.
    let mut tampered = public_inputs.clone();
    tampered[1] = Fr::from(31337u64);
    assert!(!verify(&vk, &tampered, &proof));
}

#[test]
fn withdraw_proof_verifies_and_recipient_swap_fails() {
    let mut rng = ChaCha20Rng::seed_from_u64(0xa77e57a);
    let (pk, vk) = setup(
        &WithdrawCircuit::blank(DEPTH).generate_constraints(),
        &mut rng,
    );
    let (circuit, public_inputs) = withdraw_fixture(DEPTH);
    let proof = prove(&pk, &circuit.generate_constraints(), &mut rng);
    assert!(verify(&vk, &public_inputs, &proof));

    // A relayer redirecting the exit changes public input 2.
    let mut redirected = public_inputs.clone();
    redirected[2] = Fr::from(6666u64);
    assert!(!verify(&vk, &redirected, &proof));
}

// ── on the host ─────────────────────────────────────────────────────────

#[test]
fn real_transfer_proof_verifies_on_chain() {
    let mut rng = ChaCha20Rng::seed_from_u64(0x0e2e);
    let (pk, vk) = setup(
        &TransferCircuit::blank(POOL_TREE_DEPTH, 2, 2).generate_constraints(),
        &mut rng,
    );
    let (circuit, public_inputs) = transfer_fixture(POOL_TREE_DEPTH);
    let proof = prove(&pk, &circuit.generate_constraints(), &mut rng);

    let env = env();
    let verifier = ZkVerifier::new("transfer".to_string(), chain_vk(&vk)).unwrap();
    let inputs = encoded(&public_inputs);
    let proof = chain_proof(&own_proof(&proof));
    assert_eq!(verifier.verify(&env, &proof, &inputs), Ok(true));

    // The same proof for a tampered statement must fail: claim a different
    // nullifier.
    let mut tampered = inputs.clone();
    tampered[1] = fr_to_bytes(Fr::from(31337u64));
    assert_eq!(verifier.verify(&env, &proof, &tampered), Ok(false));
}

#[test]
fn real_withdraw_proof_verifies_on_chain() {
    let mut rng = ChaCha20Rng::seed_from_u64(0x0e2f);
    let (pk, vk) = setup(
        &WithdrawCircuit::blank(POOL_TREE_DEPTH).generate_constraints(),
        &mut rng,
    );
    let (circuit, public_inputs) = withdraw_fixture(POOL_TREE_DEPTH);
    let proof = prove(&pk, &circuit.generate_constraints(), &mut rng);

    let env = env();
    let verifier = ZkVerifier::new("withdraw".to_string(), chain_vk(&vk)).unwrap();
    let inputs = encoded(&public_inputs);
    let proof = chain_proof(&own_proof(&proof));
    assert_eq!(verifier.verify(&env, &proof, &inputs), Ok(true));

    // Redirecting the exit must invalidate the proof.
    let mut redirected = inputs.clone();
    redirected[2] = fr_to_bytes(Fr::from(6666u64));
    assert_eq!(verifier.verify(&env, &proof, &redirected), Ok(false));

    // And a different claimed amount is a different statement.
    let mut inflated = inputs.clone();
    inflated[3] = fr_to_bytes(Fr::from(901u64));
    assert_eq!(verifier.verify(&env, &proof, &inflated), Ok(false));
}

// ── the proving pipeline ────────────────────────────────────────────────

fn transfer_prover<'a>(
    pk: &'a ProvingKey<Bls12_381>,
    rng: &'a mut ChaCha20Rng,
) -> impl FnOnce(&TransferCircuit) -> Result<Proof, String> + 'a {
    move |c| Ok(own_proof(&prove(pk, &c.generate_constraints(), rng)))
}

fn withdraw_prover<'a>(
    pk: &'a ProvingKey<Bls12_381>,
    rng: &'a mut ChaCha20Rng,
) -> impl FnOnce(&WithdrawCircuit) -> Result<Proof, String> + 'a {
    move |c| Ok(own_proof(&prove(pk, &c.generate_constraints(), rng)))
}

#[test]
fn pipeline_proves_and_verifies_transfer_and_withdraw() {
    let mut rng = ChaCha20Rng::seed_from_u64(0x9c0de);
    let (t_pk, t_vk) = setup(
        &TransferCircuit::blank(POOL_TREE_DEPTH, 2, 2).generate_constraints(),
        &mut rng,
    );
    let (w_pk, w_vk) = setup(
        &WithdrawCircuit::blank(POOL_TREE_DEPTH).generate_constraints(),
        &mut rng,
    );

    // Deposit one 500 note; spend it with a dummy second input.
    let sk = Fr::from(11u64);
    let note = Note {
        value: 500,
        owner_pk: derive_pk(sk),
        blinding: Fr::from(101u64),
    };
    let log = vec![note.commitment()];
    let spends = [
        Spend {
            sk,
            value: 500,
            blinding: Fr::from(101u64),
            leaf_index: 0,
        },
        Spend {
            sk: Fr::from(777u64),
            value: 0,
            blinding: Fr::from(0u64),
            leaf_index: 0,
        },
    ];
    let recipient_sk = Fr::from(33u64);
    let outputs = [
        Output {
            owner_pk: derive_pk(recipient_sk),
            value: 500,
            blinding: Fr::from(201u64),
        },
        Output {
            owner_pk: derive_pk(sk),
            value: 0,
            blinding: Fr::from(202u64),
        },
    ];

    let bundle = prove_transfer(transfer_prover(&t_pk, &mut rng), &log, &spends, &outputs).unwrap();
    let mut inputs = vec![fr_from_bytes(&bundle.root)];
    for nf in &bundle.nullifiers {
        inputs.push(fr_from_bytes(nf));
    }
    for c in &bundle.new_commitments {
        inputs.push(fr_from_bytes(c));
    }
    assert!(verify(&t_vk, &inputs, &ark_proof(&bundle.proof)));

    // The bundle file passes the offline check, and a tampered one does not.
    let text = render_transfer(&bundle);
    let t_key = vk_to_bytes(&own_vk(&t_vk));
    let read = read_bundle("transfer.bundle", &text).unwrap();
    assert_eq!(
        verify_bundle(&t_key, &read).unwrap(),
        "OK: transfer proof verifies (5 public inputs)"
    );
    let lines: Vec<String> = text
        .lines()
        .map(|l| {
            if l.starts_with("nullifier.0=") {
                let hex: String = fr_to_bytes(Fr::from(31337u64))
                    .iter()
                    .map(|b| format!("{b:02x}"))
                    .collect();
                format!("nullifier.0={hex}")
            } else {
                l.to_string()
            }
        })
        .collect();
    let read = read_bundle("transfer.bundle", &lines.join("\n")).unwrap();
    assert_eq!(
        verify_bundle(&t_key, &read).unwrap_err(),
        "proof does NOT verify against this vk and these public inputs"
    );

    // Now withdraw the recipient's new note (leaf 1 in the grown log).
    let log = vec![
        note.commitment(),
        fr_from_bytes(&bundle.new_commitments[0]),
        fr_from_bytes(&bundle.new_commitments[1]),
    ];
    let w = prove_withdraw(
        withdraw_prover(&w_pk, &mut rng),
        &log,
        &Spend {
            sk: recipient_sk,
            value: 500,
            blinding: Fr::from(201u64),
            leaf_index: 1,
        },
        Fr::from(4242u64),
    )
    .unwrap();
    let inputs = vec![
        fr_from_bytes(&w.root),
        fr_from_bytes(&w.nullifier),
        fr_from_bytes(&w.recipient_binding),
        Fr::from(w.amount),
    ];
    assert!(verify(&w_vk, &inputs, &ark_proof(&w.proof)));

    let w_key = vk_to_bytes(&own_vk(&w_vk));
    let read = read_bundle("withdraw.bundle", &render_withdraw(&w)).unwrap();
    assert_eq!(
        verify_bundle(&w_key, &read).unwrap(),
        "OK: withdraw proof verifies (4 public inputs)"
    );
    assert_eq!(
        verify_bundle(&t_key, &read).unwrap_err(),
        "vk expects 5 public inputs, bundle has 4 — wrong vk for this circuit?"
    );
}

#[test]
fn mismatched_note_fails_before_proving() {
    let sk = Fr::from(11u64);
    let note = Note {
        value: 500,
        owner_pk: derive_pk(sk),
        blinding: Fr::from(101u64),
    };
    let log = vec![note.commitment()];
    let bad_spends = [
        Spend {
            sk,
            value: 501,
            blinding: Fr::from(101u64),
            leaf_index: 0,
        },
        Spend {
            sk: Fr::from(777u64),
            value: 0,
            blinding: Fr::from(0u64),
            leaf_index: 0,
        },
    ];
    let outputs = [
        Output {
            owner_pk: derive_pk(Fr::from(33u64)),
            value: 501,
            blinding: Fr::from(201u64),
        },
        Output {
            owner_pk: derive_pk(sk),
            value: 0,
            blinding: Fr::from(202u64),
        },
    ];
    let err = prove_transfer(
        |_: &TransferCircuit| -> Result<Proof, String> { panic!("nothing is to be proven") },
        &log,
        &bad_spends,
        &outputs,
    )
    .unwrap_err();
    assert!(err.message().contains("does not match"), "got: {}", err.message());
}

// ── the whole protocol ──────────────────────────────────────────────────

/// Public balances.
struct Ledger(Vec<(Address, i128)>);

impl Ledger {
    fn balance(&self, a: &Address) -> i128 {
        self.0.iter().filter(|(b, _)| b.xdr == a.xdr).map(|(_, n)| n).sum()
    }

    fn apply(&mut self, p: &Payment) {
        self.0.push((p.from.clone(), -p.amount));
        self.0.push((p.to.clone(), p.amount));
    }
}

fn address(env: &Env) -> Address {
    let a = soroban_sdk::Address::generate(env);
    Address {
        xdr: a.to_xdr(env).iter().collect(),
    }
}

/// The contract's recipient binding, recomputed here so that the withdraw
/// proof can be generated over it.
fn recipient_binding(env: &Env, address: &Address) -> Fr {
    let xdr = soroban_sdk::Bytes::from_slice(env, &address.xdr);
    let mut bytes = env.crypto().sha256(&xdr).to_array();
    bytes[0] = 0;
    fr_from_bytes(&bytes)
}

#[test]
fn full_flow_deposit_transfer_withdraw_with_real_proofs() {
    let mut rng = ChaCha20Rng::seed_from_u64(0xf10f);
    let (transfer_pk, transfer_vk) = setup(
        &TransferCircuit::blank(POOL_TREE_DEPTH, 2, 2).generate_constraints(),
        &mut rng,
    );
    let (withdraw_pk, withdraw_vk) = setup(
        &WithdrawCircuit::blank(POOL_TREE_DEPTH).generate_constraints(),
        &mut rng,
    );

    let env = env();
    let admin = address(&env);
    let user = address(&env);
    let payout = address(&env);
    let token = address(&env);
    let pool_address = address(&env);
    let transfer_verifier = address(&env);
    let withdraw_verifier = address(&env);
    let mut ledger = Ledger(vec![(user.clone(), 1_000)]);

    let mut verifiers: Store<Address, ZkVerifier> = Store::new();
    verifiers.set(
        transfer_verifier.clone(),
        ZkVerifier::new("transfer".to_string(), chain_vk(&transfer_vk)).unwrap(),
    );
    verifiers.set(
        withdraw_verifier.clone(),
        ZkVerifier::new("withdraw".to_string(), chain_vk(&withdraw_vk)).unwrap(),
    );
    let registries: Store<Address, AttestationRegistry> = Store::new();
    let mut pool = ShieldedPool::new(
        pool_address.clone(),
        admin,
        token.clone(),
        transfer_verifier,
        withdraw_verifier,
        None,
    );
    let call = Invocation {
        now: 0,
        signers: vec![user.clone()],
    };

    // Deposit: two notes enter the pool.
    let sk1 = Fr::from(11u64);
    let sk2 = Fr::from(22u64);
    let n1 = Note {
        value: 600,
        owner_pk: derive_pk(sk1),
        blinding: Fr::from(101u64),
    };
    let n2 = Note {
        value: 400,
        owner_pk: derive_pk(sk2),
        blinding: Fr::from(102u64),
    };
    let mut tree = MerkleTree::new(POOL_TREE_DEPTH);
    let (_, paid) = pool
        .deposit(&call, &registries, user.clone(), &token, 600, fr_to_bytes(n1.commitment()))
        .unwrap();
    ledger.apply(&paid);
    let i1 = tree.insert(n1.commitment());
    let (_, paid) = pool
        .deposit(&call, &registries, user.clone(), &token, 400, fr_to_bytes(n2.commitment()))
        .unwrap();
    ledger.apply(&paid);
    let i2 = tree.insert(n2.commitment());

    // Tree lockstep: the on-chain tree tracks the prover's.
    assert_eq!(pool.root(), fr_to_bytes(tree.root()));
    assert_eq!(ledger.balance(&pool_address), 1_000);

    // Shielded transfer: 600 + 400 into 750 (payout's key) + 250 change.
    let payout_sk = Fr::from(33u64);
    let out1 = NewNote {
        value: 750,
        owner_pk: derive_pk(payout_sk),
        blinding: Fr::from(201u64),
    };
    let out2 = NewNote {
        value: 250,
        owner_pk: derive_pk(sk1),
        blinding: Fr::from(202u64),
    };
    let root = tree.root();
    let nf1 = derive_nullifier(sk1, i1);
    let nf2 = derive_nullifier(sk2, i2);
    let circuit = TransferCircuit {
        depth: POOL_TREE_DEPTH,
        root: Some(root),
        nullifiers: vec![Some(nf1), Some(nf2)],
        new_commitments: vec![Some(out1.commitment()), Some(out2.commitment())],
        spent: vec![
            Some(SpentNote {
                value: n1.value,
                sk: sk1,
                blinding: n1.blinding,
                path: tree.path(i1),
            }),
            Some(SpentNote {
                value: n2.value,
                sk: sk2,
                blinding: n2.blinding,
                path: tree.path(i2),
            }),
        ],
        created: vec![Some(out1.clone()), Some(out2.clone())],
    };
    let proof = prove(&transfer_pk, &circuit.generate_constraints(), &mut rng);
    pool.transfer(
        &env,
        &verifiers,
        &chain_proof(&own_proof(&proof)),
        vec![fr_to_bytes(nf1), fr_to_bytes(nf2)],
        vec![fr_to_bytes(out1.commitment()), fr_to_bytes(out2.commitment())],
        vec![b"ciphertext-for-payout".to_vec(), b"ciphertext-change".to_vec()],
        fr_to_bytes(root),
    )
    .unwrap();

    let i_out1 = tree.insert(out1.commitment());
    tree.insert(out2.commitment());
    assert_eq!(pool.root(), fr_to_bytes(tree.root()));
    assert!(pool.is_spent(&fr_to_bytes(nf1)));
    assert!(pool.is_spent(&fr_to_bytes(nf2)));
    // Amounts moved shielded: the public balance is unchanged.
    assert_eq!(ledger.balance(&pool_address), 1_000);

    // Withdraw: payout exits their 750 note to a public balance.
    let root = tree.root();
    let nf_out1 = derive_nullifier(payout_sk, i_out1);
    let binding = recipient_binding(&env, &payout);
    assert_eq!(address_binding(&env, &payout), Some(fr_to_bytes(binding)));
    let circuit = WithdrawCircuit {
        depth: POOL_TREE_DEPTH,
        root: Some(root),
        nullifier: Some(nf_out1),
        recipient_binding: Some(binding),
        amount: Some(Fr::from(out1.value)),
        sk: Some(payout_sk),
        blinding: Some(out1.blinding),
        path: Some(tree.path(i_out1)),
    };
    let proof = prove(&withdraw_pk, &circuit.generate_constraints(), &mut rng);
    let (_, paid) = pool
        .withdraw(
            &env,
            &verifiers,
            &chain_proof(&own_proof(&proof)),
            fr_to_bytes(nf_out1),
            payout.clone(),
            750,
            fr_to_bytes(root),
        )
        .unwrap();
    ledger.apply(&paid);

    assert_eq!(ledger.balance(&payout), 750);
    assert_eq!(ledger.balance(&pool_address), 250);
    assert!(pool.is_spent(&fr_to_bytes(nf_out1)));
}
