//! Laws of the verifier and of the encodings.

use crate::attestation_registry::AttestationError;
use crate::bytes::{
    be_bytes, be_nat, lemma_be_bytes, lemma_be_bytes_unique, lemma_pow256_sizes,
};
use crate::curve::{g1_in_subgroup, g2_in_subgroup, g2_on_curve, G1Affine, G2Affine, G2Point};
use crate::encoding::{
    fr_from_bytes, fr_to_bytes, g1_encoding, g1_from_bytes, g1_named, g1_to_bytes, g2_encoding,
    g2_from_bytes, g2_named, g2_to_bytes, lemma_g1_roundtrip, lemma_g2_roundtrip, proof_to_bytes,
    vk_to_bytes, Proof, ProofBytes, VerificationKeyBytes, VerifyingKey,
};
use crate::field::{fq_modulus, fr_modulus, Fr};
use crate::host::truncate_to_field;
use crate::interfaces::fr::is_canonical;
use crate::interfaces::{byte_views, Groth16Proof, VerificationKey, Verifier, VerifierTrap};
use crate::issuer_registry::RegistryError;
use crate::shielded_pool::PoolError;
use crate::zk_verifier::{
    g1_msm_of, g1_mul_of, host_g1, host_g2, host_takes_g1, host_takes_g2, pairing_is_one,
    VerifierError, ZkVerifier,
};
use soroban_sdk::Env;
use vstd::arithmetic::div_mod::lemma_small_mod;
use vstd::prelude::*;

verus! {

/// The number that a part of a byte string spells.
pub open spec fn part(bytes: Seq<u8>, from: int, to: int) -> nat {
    be_nat(bytes.subrange(from, to))
}

/// The bytes of a point at infinity: the flag, and zeros.
pub open spec fn flags_infinity(bytes: Seq<u8>) -> bool {
    bytes[0] == 0x40 && forall|i: int| 1 <= i < bytes.len() ==> #[trigger] bytes[i] == 0
}

/// 96 bytes are a point that the host takes: the point at infinity, or two
/// canonical coordinates, the first one first, with `y^2 = x^3 + 4`, in the
/// subgroup.
pub open spec fn is_g1(bytes: Seq<u8>) -> bool {
    let q = fq_modulus();
    if bytes[0] & 0x40 != 0 {
        flags_infinity(bytes) && g1_in_subgroup(0, 0, true)
    } else {
        let x = part(bytes, 0, 48);
        let y = part(bytes, 48, 96);
        &&& x < q
        &&& y < q
        &&& (y * y) % q == (x * x * x + 4) % q
        &&& g1_in_subgroup(x, y, false)
    }
}

/// 192 bytes are a point that the host takes: the point at infinity, or two
/// canonical coordinates, each with its part along `u` first, on the curve and
/// in the subgroup.
pub open spec fn is_g2(bytes: Seq<u8>) -> bool {
    let q = fq_modulus();
    if bytes[0] & 0x40 != 0 {
        flags_infinity(bytes) && g2_in_subgroup((0, 0), (0, 0), true)
    } else {
        let x1 = part(bytes, 0, 48);
        let x0 = part(bytes, 48, 96);
        let y1 = part(bytes, 96, 144);
        let y0 = part(bytes, 144, 192);
        &&& x0 < q
        &&& x1 < q
        &&& y0 < q
        &&& y1 < q
        &&& g2_on_curve(G2Point { x0, x1, y0, y1, infinity: false })
        &&& g2_in_subgroup((x0, x1), (y0, y1), false)
    }
}

/// 48 bytes are those of the number that they spell, reduced, if and only if
/// that number is canonical.
proof fn lemma_reduced(bytes: Seq<u8>)
    requires
        bytes.len() == 48,
    ensures
        be_bytes(be_nat(bytes) % fq_modulus(), 48).len() == 48,
        be_bytes(be_nat(bytes) % fq_modulus(), 48) == bytes <==> be_nat(bytes) < fq_modulus(),
        be_nat(bytes) < fq_modulus() ==> be_nat(bytes) % fq_modulus() == be_nat(bytes),
{
    lemma_pow256_sizes();
    let x = be_nat(bytes) % fq_modulus();
    lemma_be_bytes(x, 48);
    lemma_be_bytes_unique(bytes);
    if be_nat(bytes) < fq_modulus() {
        lemma_small_mod(be_nat(bytes), fq_modulus());
    }
}

proof fn lemma_is_g1(bytes: Seq<u8>)
    requires
        bytes.len() == 96,
    ensures
        host_g1(bytes) <==> is_g1(bytes),
{
    let again = g1_encoding(g1_named(bytes));
    if bytes[0] & 0x40 != 0 {
        if flags_infinity(bytes) {
            assert(again =~= bytes);
        }
    } else {
        let (a, b) = (bytes.subrange(0, 48), bytes.subrange(48, 96));
        lemma_reduced(a);
        lemma_reduced(b);
        assert(again.subrange(0, 48) =~= be_bytes(be_nat(a) % fq_modulus(), 48));
        assert(again.subrange(48, 96) =~= be_bytes(be_nat(b) % fq_modulus(), 48));
        assert(bytes =~= a + b);
    }
}

proof fn lemma_is_g2(bytes: Seq<u8>)
    requires
        bytes.len() == 192,
    ensures
        host_g2(bytes) <==> is_g2(bytes),
{
    let again = g2_encoding(g2_named(bytes));
    if bytes[0] & 0x40 != 0 {
        if flags_infinity(bytes) {
            assert(again =~= bytes);
        }
    } else {
        let (a, b) = (bytes.subrange(0, 48), bytes.subrange(48, 96));
        let (c, d) = (bytes.subrange(96, 144), bytes.subrange(144, 192));
        lemma_reduced(a);
        lemma_reduced(b);
        lemma_reduced(c);
        lemma_reduced(d);
        assert(again.subrange(0, 48) =~= be_bytes(be_nat(a) % fq_modulus(), 48));
        assert(again.subrange(48, 96) =~= be_bytes(be_nat(b) % fq_modulus(), 48));
        assert(again.subrange(96, 144) =~= be_bytes(be_nat(c) % fq_modulus(), 48));
        assert(again.subrange(144, 192) =~= be_bytes(be_nat(d) % fq_modulus(), 48));
        assert(bytes =~= a + b + c + d);
    }
}

/// **What the host takes.** It is told of exactly the bytes that are points.
pub proof fn lemma_points_taken(g1: &[u8; 96], first: bool, g2: &[u8; 192], second: bool)
    requires
        call_ensures(host_takes_g1, (g1,), first),
        call_ensures(host_takes_g2, (g2,), second),
    ensures
        first <==> is_g1(g1@),
        second <==> is_g2(g2@),
{
    lemma_is_g1(g1@);
    lemma_is_g2(g2@);
}

/// The host takes every point of the key.
pub open spec fn sound_key(vk: VerificationKey) -> bool {
    &&& is_g1(vk.alpha@)
    &&& is_g2(vk.beta@)
    &&& is_g2(vk.gamma@)
    &&& is_g2(vk.delta@)
    &&& forall|i: int| 0 <= i < vk.ic@.len() ==> is_g1((#[trigger] vk.ic@[i])@)
}

/// The Groth16 equation `e(-A, B) * e(alpha, beta) * e(vk_x, gamma) *
/// e(C, delta) == 1`, where `vk_x` is the sum of the key's points, the first
/// one with scalar one and each other with its input.
pub open spec fn equation_holds(
    vk: VerificationKey,
    proof: Groth16Proof,
    points: Seq<Seq<u8>>,
    scalars: Seq<nat>,
) -> bool {
    pairing_is_one(
        seq![
            g1_mul_of(proof.a@, (fr_modulus() - 1) as nat),
            vk.alpha@,
            g1_msm_of(points, scalars),
            proof.c@,
        ],
        seq![proof.b@, vk.beta@, vk.gamma@, vk.delta@],
    )
}

/// **The verdict.** A verifier gives one if and only if there is one input for
/// each point of its key but the first, every input is canonical, and the host
/// takes all points; what fails first is what is reported. The verdict is
/// whether the equation holds, with the inputs in their order.
#[verifier::rlimit(40)]
pub proof fn lemma_verdict(
    verifier: &ZkVerifier,
    env: &Env,
    proof: &Groth16Proof,
    inputs: &Vec<[u8; 32]>,
    verdict: Result<bool, VerifierTrap>,
    points: Seq<Seq<u8>>,
    scalars: Seq<nat>,
)
    requires
        call_ensures(
            <ZkVerifier as Verifier>::verify,
            (verifier, env, proof, inputs),
            verdict,
        ),
        points.len() == verifier.key().ic@.len(),
        forall|i: int|
            0 <= i < points.len() ==> #[trigger] points[i] == verifier.key().ic@[i]@,
        scalars.len() == inputs@.len() + 1,
        scalars[0] == 1,
        forall|i: int|
            0 <= i < inputs@.len() ==> scalars[i + 1] == be_nat((#[trigger] inputs@[i])@),
    ensures
        ({
            let vk = verifier.key();
            if inputs@.len() + 1 != vk.ic@.len() {
                verdict == Err::<bool, VerifierTrap>(
                    VerifierTrap::Error(VerifierError::InputLengthMismatch),
                )
            } else if exists|i: int|
                0 <= i < inputs@.len() && be_nat((#[trigger] inputs@[i])@) >= fr_modulus() {
                verdict == Err::<bool, VerifierTrap>(
                    VerifierTrap::Error(VerifierError::NonCanonicalInput),
                )
            } else if !(sound_key(vk) && is_g1(proof.a@) && is_g2(proof.b@) && is_g1(proof.c@)) {
                verdict == Err::<bool, VerifierTrap>(VerifierTrap::InvalidPoint)
            } else {
                verdict == Ok::<bool, VerifierTrap>(equation_holds(vk, *proof, points, scalars))
            }
        }),
{
    let vk = verifier.key();
    lemma_is_g1(vk.alpha@);
    lemma_is_g2(vk.beta@);
    lemma_is_g2(vk.gamma@);
    lemma_is_g2(vk.delta@);
    assert forall|i: int| 0 <= i < vk.ic@.len() implies (host_g1((#[trigger] vk.ic@[i])@)
        <==> is_g1(vk.ic@[i]@)) by {
        lemma_is_g1(vk.ic@[i]@);
    }
    lemma_is_g1(proof.a@);
    lemma_is_g2(proof.b@);
    lemma_is_g1(proof.c@);
    let views = byte_views(inputs@);
    assert(forall|i: int| 0 <= i < inputs@.len() ==> #[trigger] views[i] == inputs@[i]@);
    assert(forall|i: int| 0 <= i < inputs@.len() ==> (#[trigger] inputs@[i])@ == views[i]);
    let said = seq![1nat] + crate::zk_verifier::scalar_values(views);
    assert(scalars =~= said) by {
        assert forall|k: int| 0 <= k < scalars.len() implies scalars[k] == said[k] by {
            if k > 0 {
                assert(scalars[(k - 1) + 1] == be_nat(inputs@[k - 1]@));
            }
        }
    }
    assert(points =~= crate::zk_verifier::g1_views(vk.ic@));
}

/// **A verifier is pinned.** It is made of any key with a point, and tells the
/// circuit and the key that it was made with.
pub proof fn lemma_pinned(
    circuit_id: String,
    vk: VerificationKey,
    made: Result<ZkVerifier, VerifierError>,
    id: &String,
    key: &VerificationKey,
)
    requires
        call_ensures(ZkVerifier::new, (circuit_id, vk), made),
        made matches Ok(v) ==> call_ensures(ZkVerifier::circuit_id, (&v,), id) && call_ensures(
            ZkVerifier::vk,
            (&v,),
            key,
        ),
    ensures
        vk.ic@.len() == 0 ==> made == Err::<ZkVerifier, VerifierError>(
            VerifierError::MalformedKey,
        ),
        vk.ic@.len() > 0 ==> made is Ok,
        made matches Ok(v) ==> v.key() == vk && id@ == circuit_id@ && *key == vk,
{
}

/// **Scalars are written big-endian** and read back, reduced by the order.
pub proof fn lemma_scalars(x: Fr, bytes: [u8; 32], other: &[u8; 32], read: Fr, again: Fr)
    requires
        call_ensures(fr_to_bytes, (x,), bytes),
        call_ensures(fr_from_bytes, (other,), read),
        call_ensures(fr_from_bytes, (&bytes,), again),
    ensures
        be_nat(bytes@) == x.value(),
        read.value() == be_nat(other@) % fr_modulus(),
        x.value() < fr_modulus() ==> again.value() == x.value(),
{
    if x.value() < fr_modulus() {
        lemma_small_mod(x.value(), fr_modulus());
    }
}

/// **Points are written coordinate by coordinate**, 48 bytes each, the first
/// coordinate first, and of a G2 coordinate the part along `u` first; the point
/// at infinity is its flag. What was written is read back.
pub proof fn lemma_points(
    p: &G1Affine,
    g1: [u8; 96],
    p_again: G1Affine,
    q: &G2Affine,
    g2: [u8; 192],
    q_again: G2Affine,
)
    requires
        call_ensures(g1_to_bytes, (p,), g1),
        call_ensures(g1_from_bytes, (&g1,), p_again),
        call_ensures(g2_to_bytes, (q,), g2),
        call_ensures(g2_from_bytes, (&g2,), q_again),
        p.x.value() < fq_modulus(),
        p.y.value() < fq_modulus(),
        p.infinity ==> p.x.value() == 0 && p.y.value() == 0,
        q.x.c0.value() < fq_modulus(),
        q.x.c1.value() < fq_modulus(),
        q.y.c0.value() < fq_modulus(),
        q.y.c1.value() < fq_modulus(),
        q.infinity ==> q.x.c0.value() == 0 && q.x.c1.value() == 0 && q.y.c0.value() == 0
            && q.y.c1.value() == 0,
    ensures
        p.infinity ==> flags_infinity(g1@),
        !p.infinity ==> part(g1@, 0, 48) == p.x.value() && part(g1@, 48, 96) == p.y.value(),
        q.infinity ==> flags_infinity(g2@),
        !q.infinity ==> {
            &&& part(g2@, 0, 48) == q.x.c1.value()
            &&& part(g2@, 48, 96) == q.x.c0.value()
            &&& part(g2@, 96, 144) == q.y.c1.value()
            &&& part(g2@, 144, 192) == q.y.c0.value()
        },
        p_again@ == p@,
        q_again@ == q@,
{
    lemma_g1_roundtrip(p@);
    lemma_g2_roundtrip(q@);
    if !p.infinity {
        lemma_small(p.x.value());
        lemma_small(p.y.value());
        assert(g1@.subrange(0, 48) =~= be_bytes(p.x.value(), 48));
        assert(g1@.subrange(48, 96) =~= be_bytes(p.y.value(), 48));
    }
    if !q.infinity {
        lemma_small(q.x.c0.value());
        lemma_small(q.x.c1.value());
        lemma_small(q.y.c0.value());
        lemma_small(q.y.c1.value());
        assert(g2@.subrange(0, 48) =~= be_bytes(q.x.c1.value(), 48));
        assert(g2@.subrange(48, 96) =~= be_bytes(q.x.c0.value(), 48));
        assert(g2@.subrange(96, 144) =~= be_bytes(q.y.c1.value(), 48));
        assert(g2@.subrange(144, 192) =~= be_bytes(q.y.c0.value(), 48));
    }
}

proof fn lemma_small(x: nat)
    requires
        x < fq_modulus(),
    ensures
        be_bytes(x, 48).len() == 48,
        be_nat(be_bytes(x, 48)) == x,
{
    lemma_pow256_sizes();
    lemma_be_bytes(x, 48);
}

/// **Reading points.** The flag alone says whether a point is the one at
/// infinity; any other has its coordinates at their places, reduced.
pub proof fn lemma_points_read(g1: &[u8; 96], p: G1Affine, g2: &[u8; 192], q: G2Affine)
    requires
        call_ensures(g1_from_bytes, (g1,), p),
        call_ensures(g2_from_bytes, (g2,), q),
    ensures
        p.infinity <==> g1@[0] & 0x40 != 0,
        p.infinity ==> p.x.value() == 0 && p.y.value() == 0,
        !p.infinity ==> {
            &&& p.x.value() == part(g1@, 0, 48) % fq_modulus()
            &&& p.y.value() == part(g1@, 48, 96) % fq_modulus()
        },
        q.infinity <==> g2@[0] & 0x40 != 0,
        q.infinity ==> q.x.c0.value() == 0 && q.x.c1.value() == 0 && q.y.c0.value() == 0
            && q.y.c1.value() == 0,
        !q.infinity ==> {
            &&& q.x.c1.value() == part(g2@, 0, 48) % fq_modulus()
            &&& q.x.c0.value() == part(g2@, 48, 96) % fq_modulus()
            &&& q.y.c1.value() == part(g2@, 96, 144) % fq_modulus()
            &&& q.y.c0.value() == part(g2@, 144, 192) % fq_modulus()
        },
{
    assert(p@ == g1_named(g1@));
    assert(q@ == g2_named(g2@));
}

/// **Proofs and keys are written point by point**, each point in its own place.
pub proof fn lemma_keys_written(
    proof: &Proof,
    bytes: ProofBytes,
    a: [u8; 96],
    b: [u8; 192],
    c: [u8; 96],
    vk: &VerifyingKey,
    key: VerificationKeyBytes,
    alpha: [u8; 96],
    beta: [u8; 192],
    gamma: [u8; 192],
    delta: [u8; 192],
    i: int,
    ic: [u8; 96],
)
    requires
        call_ensures(proof_to_bytes, (proof,), bytes),
        call_ensures(g1_to_bytes, (&proof.a,), a),
        call_ensures(g2_to_bytes, (&proof.b,), b),
        call_ensures(g1_to_bytes, (&proof.c,), c),
        call_ensures(vk_to_bytes, (vk,), key),
        call_ensures(g1_to_bytes, (&vk.alpha_g1,), alpha),
        call_ensures(g2_to_bytes, (&vk.beta_g2,), beta),
        call_ensures(g2_to_bytes, (&vk.gamma_g2,), gamma),
        call_ensures(g2_to_bytes, (&vk.delta_g2,), delta),
        0 <= i < vk.gamma_abc_g1@.len(),
        call_ensures(g1_to_bytes, (&vk.gamma_abc_g1@[i],), ic),
    ensures
        bytes.a@ == a@,
        bytes.b@ == b@,
        bytes.c@ == c@,
        key.alpha@ == alpha@,
        key.beta@ == beta@,
        key.gamma@ == gamma@,
        key.delta@ == delta@,
        key.ic@.len() == vk.gamma_abc_g1@.len(),
        key.ic@[i]@ == ic@,
{
}

/// **Canonical scalars.** Exactly the bytes that spell a number below the group
/// order are canonical, and whatever is written as a field element is.
pub proof fn lemma_canonical_scalars(
    bytes: &[u8; 32],
    canonical: bool,
    digest: [u8; 32],
    cleared: [u8; 32],
    canonical_too: bool,
)
    requires
        call_ensures(is_canonical, (bytes,), canonical),
        call_ensures(truncate_to_field, (digest,), cleared),
        call_ensures(is_canonical, (&cleared,), canonical_too),
    ensures
        canonical <==> be_nat(bytes@) < fr_modulus(),
        cleared@[0] == 0,
        forall|i: int| 1 <= i < 32 ==> #[trigger] cleared@[i] == digest@[i],
        canonical_too,
{
}

/// **Errors have their numbers on the ledger.**
pub proof fn lemma_codes(
    verifier: &VerifierError,
    verifier_code: u32,
    pool: &PoolError,
    pool_code: u32,
    issuers: &RegistryError,
    issuers_code: u32,
    attestations: &AttestationError,
    attestations_code: u32,
)
    requires
        call_ensures(VerifierError::code, (verifier,), verifier_code),
        call_ensures(PoolError::code, (pool,), pool_code),
        call_ensures(RegistryError::code, (issuers,), issuers_code),
        call_ensures(AttestationError::code, (attestations,), attestations_code),
    ensures
        1 <= verifier_code <= 3,
        *verifier == VerifierError::InputLengthMismatch <==> verifier_code == 1,
        *verifier == VerifierError::MalformedKey <==> verifier_code == 2,
        *verifier == VerifierError::NonCanonicalInput <==> verifier_code == 3,
        1 <= pool_code <= 8,
        *pool == PoolError::WrongToken <==> pool_code == 1,
        *pool == PoolError::InvalidAmount <==> pool_code == 2,
        *pool == PoolError::TreeFull <==> pool_code == 3,
        *pool == PoolError::UnknownRoot <==> pool_code == 4,
        *pool == PoolError::AlreadySpent <==> pool_code == 5,
        *pool == PoolError::InvalidProof <==> pool_code == 6,
        *pool == PoolError::AttestationRequired <==> pool_code == 7,
        *pool == PoolError::MalformedRequest <==> pool_code == 8,
        1 <= issuers_code <= 5,
        *issuers == RegistryError::UnknownAction <==> issuers_code == 1,
        *issuers == RegistryError::TimelockNotElapsed <==> issuers_code == 2,
        *issuers == RegistryError::IssuerExists <==> issuers_code == 3,
        *issuers == RegistryError::UnknownIssuer <==> issuers_code == 4,
        *issuers == RegistryError::KeyInUse <==> issuers_code == 5,
        1 <= attestations_code <= 6,
        *attestations == AttestationError::NoVerifierForClaim <==> attestations_code == 1,
        *attestations == AttestationError::InactiveIssuerKey <==> attestations_code == 2,
        *attestations == AttestationError::CredentialRevoked <==> attestations_code == 3,
        *attestations == AttestationError::InvalidProof <==> attestations_code == 4,
        *attestations == AttestationError::InvalidExpiry <==> attestations_code == 5,
        *attestations == AttestationError::NotAnIssuer <==> attestations_code == 6,
{
}

} // verus!
