//! On-chain Groth16 verification over BLS12-381 using the Soroban host
//! functions.
//!
//! One verifier instance is deployed per circuit, each pinned to a published
//! verifying key at construction. The key is immutable for the life of the
//! instance: there is no admin, no upgrade hook, and no way to mutate it.

use crate::bytes::{be_nat, be_prefix};
use crate::curve::{g1_valid, g2_valid, G1Affine, G2Affine};
use crate::encoding::{
    g1_encoding, g1_from_bytes, g1_named, g1_to_bytes, g2_encoding, g2_from_bytes, g2_named,
    g2_to_bytes, KeyParts, G1_LEN, G2_LEN,
};
use crate::field::fr_modulus;
use crate::interfaces::fr::{canonical_scalar, is_canonical, lemma_fr_minus_one, FR_MINUS_ONE};
use crate::interfaces::{
    all_canonical, byte_views, Groth16Proof, VerificationKey, Verifier, VerifierTrap,
};
use soroban_sdk::crypto::bls12_381::{Bls12381Fr, Bls12381G1Affine, Bls12381G2Affine};
use soroban_sdk::{BytesN, Env};
use vstd::prelude::*;

verus! {

/// Errors of a verifier instance.
#[derive(Clone, Copy, Debug, PartialEq, Eq, Structural)]
pub enum VerifierError {
    /// The verifying key must have exactly one more IC point than the circuit
    /// has public inputs; a mismatched call is a caller bug.
    InputLengthMismatch,
    /// The verifying key is malformed (empty IC).
    MalformedKey,
    /// A public input is not a canonical field element. The host reduces
    /// scalars by the group order silently, so accepting other encodings
    /// would let callers replay one proof under two of them.
    NonCanonicalInput,
}

impl VerifierError {
    /// The error's number on the ledger.
    pub fn code(&self) -> (code: u32)
        ensures
            code == match *self {
                VerifierError::InputLengthMismatch => 1u32,
                VerifierError::MalformedKey => 2,
                VerifierError::NonCanonicalInput => 3,
            },
    {
        match self {
            VerifierError::InputLengthMismatch => 1,
            VerifierError::MalformedKey => 2,
            VerifierError::NonCanonicalInput => 3,
        }
    }
}

/// The byte strings of a list of G1 points.
pub open spec fn g1_views(points: Seq<[u8; 96]>) -> Seq<Seq<u8>> {
    Seq::new(points.len(), |i: int| points[i]@)
}

/// The byte strings of a list of G2 points.
pub open spec fn g2_views(points: Seq<[u8; 192]>) -> Seq<Seq<u8>> {
    Seq::new(points.len(), |i: int| points[i]@)
}

/// The integers of a list of scalars.
pub open spec fn scalar_values(scalars: Seq<Seq<u8>>) -> Seq<nat> {
    Seq::new(scalars.len(), |i: int| be_nat(scalars[i]))
}

/// The host takes these bytes as a G1 point: they are its encoding, and it is
/// on the curve and in the subgroup.
pub open spec fn host_g1(bytes: Seq<u8>) -> bool {
    bytes == g1_encoding(g1_named(bytes)) && g1_valid(g1_named(bytes))
}

/// The host takes these bytes as a G2 point: they are its encoding, and it is
/// on the curve and in the subgroup.
pub open spec fn host_g2(bytes: Seq<u8>) -> bool {
    bytes == g2_encoding(g2_named(bytes)) && g2_valid(g2_named(bytes))
}

/// The sum of G1 points, each multiplied by a scalar.
pub uninterp spec fn g1_msm_of(points: Seq<Seq<u8>>, scalars: Seq<nat>) -> Seq<u8>;

/// A G1 point multiplied by a scalar.
pub uninterp spec fn g1_mul_of(point: Seq<u8>, scalar: nat) -> Seq<u8>;

/// Whether the product of the pairings of G1 points with G2 points is one.
pub uninterp spec fn pairing_is_one(g1: Seq<Seq<u8>>, g2: Seq<Seq<u8>>) -> bool;

/// `Bls12_381::g1_msm` of the host, with the budget of `env` lifted first. Its
/// result is named [`g1_msm_of`] of the points and the scalars; it is a point
/// that the host takes.
#[verifier::external_body]
fn host_g1_msm(env: &Env, points: &Vec<[u8; G1_LEN]>, scalars: &Vec<[u8; 32]>) -> (sum: [u8;
    G1_LEN])
    requires
        0 < points@.len() == scalars@.len() <= u32::MAX,
        forall|i: int| 0 <= i < points@.len() ==> host_g1((#[trigger] points@[i])@),
    ensures
        sum@ == g1_msm_of(g1_views(points@), scalar_values(byte_views(scalars@))),
        host_g1(sum@),
{
    env.cost_estimate().budget().reset_unlimited();
    let g1 = |p: &[u8; G1_LEN]| Bls12381G1Affine::from_bytes(BytesN::from_array(env, p));
    let fr = |s: &[u8; 32]| Bls12381Fr::from_bytes(BytesN::from_array(env, s));
    let vp = soroban_sdk::Vec::from_iter(env, points.iter().map(g1));
    let vs = soroban_sdk::Vec::from_iter(env, scalars.iter().map(fr));
    env.crypto().bls12_381().g1_msm(vp, vs).to_array()
}

/// `Bls12_381::g1_mul` of the host, with the budget of `env` lifted first. Its
/// result is named [`g1_mul_of`] of the point and the scalar; it is a point
/// that the host takes.
#[verifier::external_body]
fn host_g1_mul(env: &Env, point: &[u8; G1_LEN], scalar: &[u8; 32]) -> (product: [u8; G1_LEN])
    requires
        host_g1(point@),
    ensures
        product@ == g1_mul_of(point@, be_nat(scalar@)),
        host_g1(product@),
{
    env.cost_estimate().budget().reset_unlimited();
    let p = Bls12381G1Affine::from_bytes(BytesN::from_array(env, point));
    let s = Bls12381Fr::from_bytes(BytesN::from_array(env, scalar));
    env.crypto().bls12_381().g1_mul(&p, &s).to_array()
}

/// `Bls12_381::pairing_check` of the host, with the budget of `env` lifted
/// first. Its result is named [`pairing_is_one`] of the points.
#[verifier::external_body]
fn host_pairing_check(env: &Env, g1: &Vec<[u8; G1_LEN]>, g2: &Vec<[u8; G2_LEN]>) -> (one: bool)
    requires
        0 < g1@.len() == g2@.len() <= u32::MAX,
        forall|i: int| 0 <= i < g1@.len() ==> host_g1((#[trigger] g1@[i])@),
        forall|i: int| 0 <= i < g2@.len() ==> host_g2((#[trigger] g2@[i])@),
    ensures
        one == pairing_is_one(g1_views(g1@), g2_views(g2@)),
{
    env.cost_estimate().budget().reset_unlimited();
    let p = |p: &[u8; G1_LEN]| Bls12381G1Affine::from_bytes(BytesN::from_array(env, p));
    let q = |q: &[u8; G2_LEN]| Bls12381G2Affine::from_bytes(BytesN::from_array(env, q));
    let vp1 = soroban_sdk::Vec::from_iter(env, g1.iter().map(p));
    let vp2 = soroban_sdk::Vec::from_iter(env, g2.iter().map(q));
    env.crypto().bls12_381().pairing_check(vp1, vp2)
}

/// Whether the host takes these bytes as a G1 point.
pub fn host_takes_g1(bytes: &[u8; G1_LEN]) -> (takes: bool)
    ensures
        takes == host_g1(bytes@),
{
    let p: G1Affine = g1_from_bytes(bytes);
    let again: [u8; G1_LEN] = g1_to_bytes(&p);
    let mut i: usize = 0;
    while i < G1_LEN
        invariant
            i <= 96,
            again@ == g1_encoding(g1_named(bytes@)),
            forall|k: int| 0 <= k < i ==> again[k] == bytes[k],
        decreases 96 - i,
    {
        if again[i] != bytes[i] {
            assert(again@[i as int] != bytes@[i as int]);
            return false;
        }
        i = i + 1;
    }
    proof {
        assert(again@ =~= bytes@);
    }
    p.is_valid()
}

/// Whether the host takes these bytes as a G2 point.
pub fn host_takes_g2(bytes: &[u8; G2_LEN]) -> (takes: bool)
    ensures
        takes == host_g2(bytes@),
{
    let p: G2Affine = g2_from_bytes(bytes);
    let again: [u8; G2_LEN] = g2_to_bytes(&p);
    let mut i: usize = 0;
    while i < G2_LEN
        invariant
            i <= 192,
            again@ == g2_encoding(g2_named(bytes@)),
            forall|k: int| 0 <= k < i ==> again[k] == bytes[k],
        decreases 192 - i,
    {
        if again[i] != bytes[i] {
            assert(again@[i as int] != bytes@[i as int]);
            return false;
        }
        i = i + 1;
    }
    proof {
        assert(again@ =~= bytes@);
    }
    p.is_valid()
}

/// The host takes every point of the key.
pub open spec fn key_points_ok(vk: VerificationKey) -> bool {
    &&& host_g1(vk.alpha@)
    &&& host_g2(vk.beta@)
    &&& host_g2(vk.gamma@)
    &&& host_g2(vk.delta@)
    &&& forall|i: int| 0 <= i < vk.ic@.len() ==> host_g1((#[trigger] vk.ic@[i])@)
}

/// The host takes every point of the proof.
pub open spec fn proof_points_ok(proof: Groth16Proof) -> bool {
    &&& host_g1(proof.a@)
    &&& host_g2(proof.b@)
    &&& host_g1(proof.c@)
}

/// The Groth16 equation
/// `e(-A, B) * e(alpha, beta) * e(vk_x, gamma) * e(C, delta) == 1`, where
/// `vk_x = IC[0] + sum of input_i * IC[i + 1]` and `-A = (r - 1) * A`, over
/// encoded points.
pub open spec fn groth16_equation(
    key: KeyParts,
    a: Seq<u8>,
    b: Seq<u8>,
    c: Seq<u8>,
    inputs: Seq<nat>,
) -> bool {
    let vk_x = g1_msm_of(key.ic, seq![1nat] + inputs);
    let neg_a = g1_mul_of(a, (fr_modulus() - 1) as nat);
    pairing_is_one(seq![neg_a, key.alpha, vk_x, c], seq![b, key.beta, key.gamma, key.delta])
}

/// The parts of a verifying key.
pub open spec fn key_parts(vk: VerificationKey) -> KeyParts {
    KeyParts {
        alpha: vk.alpha@,
        beta: vk.beta@,
        gamma: vk.gamma@,
        delta: vk.delta@,
        ic: g1_views(vk.ic@),
    }
}

/// The Groth16 equation holds of a statement under a verifying key.
pub open spec fn groth16_holds(
    vk: VerificationKey,
    proof: Groth16Proof,
    inputs: Seq<Seq<u8>>,
) -> bool {
    groth16_equation(key_parts(vk), proof.a@, proof.b@, proof.c@, scalar_values(inputs))
}

/// The verdict on a statement under a verifying key.
pub open spec fn verdict_under(
    vk: VerificationKey,
    proof: Groth16Proof,
    inputs: Seq<Seq<u8>>,
) -> Result<bool, VerifierTrap> {
    if inputs.len() + 1 != vk.ic@.len() {
        Err(VerifierTrap::Error(VerifierError::InputLengthMismatch))
    } else if !all_canonical(inputs) {
        Err(VerifierTrap::Error(VerifierError::NonCanonicalInput))
    } else if !key_points_ok(vk) || !proof_points_ok(proof) {
        Err(VerifierTrap::InvalidPoint)
    } else {
        Ok(groth16_holds(vk, proof, inputs))
    }
}

/// A verifier instance.
#[derive(Debug)]
pub struct ZkVerifier {
    circuit_id: String,
    vk: VerificationKey,
}

impl ZkVerifier {
    /// The circuit this instance is pinned to.
    pub closed spec fn circuit(self) -> Seq<char> {
        self.circuit_id@
    }

    /// The pinned verifying key.
    pub closed spec fn key(self) -> VerificationKey {
        self.vk
    }

    /// The key has a point for the constant input; the ledger's lists have
    /// 32-bit lengths.
    #[verifier::type_invariant]
    spec fn key_shaped(self) -> bool {
        0 < self.vk.ic@.len() <= u32::MAX
    }

    /// Deploy-time initialization. `vk` is pinned forever; `circuit_id` names
    /// the circuit so that indexers and integrators can identify instances.
    pub fn new(circuit_id: String, vk: VerificationKey) -> (made: Result<ZkVerifier, VerifierError>)
        requires
            vk.ic@.len() <= u32::MAX,
        ensures
            made is Err == (vk.ic@.len() == 0),
            made matches Ok(v) ==> v.circuit() == circuit_id@ && v.key() == vk,
            made matches Err(e) ==> e == VerifierError::MalformedKey,
    {
        if vk.ic.len() == 0 {
            return Err(VerifierError::MalformedKey);
        }
        Ok(ZkVerifier { circuit_id, vk })
    }

    /// The circuit this instance is pinned to.
    pub fn circuit_id(&self) -> (id: &String)
        ensures
            id@ == self.circuit(),
    {
        &self.circuit_id
    }

    /// The pinned verifying key, for provers and auditors.
    pub fn vk(&self) -> (vk: &VerificationKey)
        ensures
            *vk == self.key(),
    {
        &self.vk
    }

    /// Whether the host takes every point of the pinned key.
    fn key_taken(&self) -> (taken: bool)
        ensures
            taken == key_points_ok(self.key()),
    {
        if !(host_takes_g1(&self.vk.alpha) && host_takes_g2(&self.vk.beta) && host_takes_g2(
            &self.vk.gamma,
        ) && host_takes_g2(&self.vk.delta)) {
            return false;
        }
        let mut i: usize = 0;
        while i < self.vk.ic.len()
            invariant
                i <= self.vk.ic@.len(),
                forall|k: int| 0 <= k < i ==> host_g1((#[trigger] self.vk.ic@[k])@),
            decreases self.vk.ic@.len() - i,
        {
            if !host_takes_g1(&self.vk.ic[i]) {
                assert(!host_g1(self.vk.ic@[i as int]@));
                return false;
            }
            i = i + 1;
        }
        true
    }

    /// The Groth16 equation, as a single multi-pairing of the host.
    fn paired(&self, env: &Env, proof: &Groth16Proof, public_inputs: &Vec<[u8; 32]>) -> (holds:
        bool)
        requires
            public_inputs@.len() + 1 == self.key().ic@.len(),
            key_points_ok(self.key()),
            proof_points_ok(*proof),
        ensures
            holds == groth16_holds(self.key(), *proof, byte_views(public_inputs@)),
    {
        proof {
            use_type_invariant(self);
        }
        // vk_x = IC[0] + sum of input_i * IC[i + 1], via one multi-scalar
        // multiplication.
        let scalars: Vec<[u8; 32]> = with_constant_input(public_inputs);
        let vk_x: [u8; G1_LEN] = host_g1_msm(env, &self.vk.ic, &scalars);

        // -A = A * (r - 1)
        proof {
            lemma_fr_minus_one();
        }
        let neg_a: [u8; G1_LEN] = host_g1_mul(env, &proof.a, &FR_MINUS_ONE);

        let vp1: Vec<[u8; G1_LEN]> = vec![neg_a, self.vk.alpha, vk_x, proof.c];
        let vp2: Vec<[u8; G2_LEN]> = vec![
            proof.b,
            self.vk.beta,
            self.vk.gamma,
            self.vk.delta,
        ];
        proof {
            assert(g1_views(vp1@) =~= seq![neg_a@, self.vk.alpha@, vk_x@, proof.c@]);
            assert(g2_views(vp2@) =~= seq![
                proof.b@,
                self.vk.beta@,
                self.vk.gamma@,
                self.vk.delta@,
            ]);
        }
        host_pairing_check(env, &vp1, &vp2)
    }
}

impl Verifier for ZkVerifier {
    open spec fn verdict(&self, proof: Groth16Proof, inputs: Seq<Seq<u8>>) -> Result<
        bool,
        VerifierTrap,
    > {
        verdict_under(self.key(), proof, inputs)
    }

    /// Groth16 verification, as a single multi-pairing of the host.
    fn verify(&self, env: &Env, proof: &Groth16Proof, public_inputs: &Vec<[u8; 32]>) -> (verdict:
        Result<bool, VerifierTrap>) {
        proof {
            use_type_invariant(self);
        }
        if public_inputs.len() != self.vk.ic.len() - 1 {
            return Err(VerifierTrap::Error(VerifierError::InputLengthMismatch));
        }
        if !inputs_canonical(public_inputs) {
            return Err(VerifierTrap::Error(VerifierError::NonCanonicalInput));
        }
        if !(self.key_taken() && host_takes_g1(&proof.a) && host_takes_g2(&proof.b)
            && host_takes_g1(&proof.c)) {
            return Err(VerifierTrap::InvalidPoint);
        }
        Ok(self.paired(env, proof, public_inputs))
    }
}

/// Whether every public input is a canonical field element.
fn inputs_canonical(public_inputs: &Vec<[u8; 32]>) -> (canonical: bool)
    ensures
        canonical == all_canonical(byte_views(public_inputs@)),
{
    let mut i: usize = 0;
    while i < public_inputs.len()
        invariant
            i <= public_inputs@.len(),
            forall|k: int|
                0 <= k < i ==> canonical_scalar(#[trigger] byte_views(public_inputs@)[k]),
        decreases public_inputs@.len() - i,
    {
        if !is_canonical(&public_inputs[i]) {
            assert(!canonical_scalar(byte_views(public_inputs@)[i as int]));
            return false;
        }
        i = i + 1;
    }
    true
}

/// The scalars of a statement: one, and then its public inputs.
fn with_constant_input(public_inputs: &Vec<[u8; 32]>) -> (scalars: Vec<[u8; 32]>)
    ensures
        scalars@.len() == public_inputs@.len() + 1,
        scalar_values(byte_views(scalars@)) == seq![1nat] + scalar_values(
            byte_views(public_inputs@),
        ),
{
    let mut one: [u8; 32] = [0u8; 32];
    one[31] = 1;
    let mut scalars: Vec<[u8; 32]> = Vec::new();
    scalars.push(one);
    let mut i: usize = 0;
    while i < public_inputs.len()
        invariant
            i <= public_inputs@.len(),
            scalars@ == seq![one] + public_inputs@.take(i as int),
        decreases public_inputs@.len() - i,
    {
        scalars.push(public_inputs[i]);
        proof {
            assert(scalars@ =~= seq![one] + public_inputs@.take(i + 1));
        }
        i = i + 1;
    }
    proof {
        assert(public_inputs@.take(public_inputs@.len() as int) =~= public_inputs@);
        lemma_one(one@);
        assert(scalar_values(byte_views(scalars@)) =~= seq![1nat] + scalar_values(
            byte_views(public_inputs@),
        ));
    }
    scalars
}

proof fn lemma_one(bytes: Seq<u8>)
    requires
        bytes.len() == 32,
        bytes[31] == 1,
        forall|i: int| 0 <= i < 31 ==> bytes[i] == 0,
    ensures
        be_nat(bytes) == 1,
{
    crate::bytes::lemma_be_leading_zeros(bytes, 31);
    reveal_with_fuel(be_prefix, 2);
}

/// **One encoding per statement.** Two statements that a key accepts under one
/// proof, and that name the same field elements, are the same bytes.
pub proof fn lemma_one_encoding(
    vk: VerificationKey,
    proof: Groth16Proof,
    a: Seq<Seq<u8>>,
    b: Seq<Seq<u8>>,
)
    requires
        verdict_under(vk, proof, a) == Ok::<bool, VerifierTrap>(true),
        verdict_under(vk, proof, b) == Ok::<bool, VerifierTrap>(true),
        forall|i: int|
            0 <= i < a.len() ==> be_nat(#[trigger] a[i]) % fr_modulus() == be_nat(b[i])
                % fr_modulus(),
    ensures
        a == b,
{
    assert forall|i: int| 0 <= i < a.len() implies a[i] == b[i] by {
        assert(canonical_scalar(a[i]) && canonical_scalar(b[i]));
        vstd::arithmetic::div_mod::lemma_small_mod(be_nat(a[i]), fr_modulus());
        vstd::arithmetic::div_mod::lemma_small_mod(be_nat(b[i]), fr_modulus());
        crate::bytes::lemma_be_injective(a[i], b[i]);
    }
    assert(a =~= b);
}

} // verus!
