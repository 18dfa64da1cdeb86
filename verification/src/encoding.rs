//! Byte encodings of field elements, points, proofs and verifying keys, as
//! the Soroban host functions take them.
//!
//! - **Fr**: 32-byte big-endian integer.
//! - **G1** (96 bytes): `be(x) || be(y)`, each coordinate 48 bytes.
//! - **G2** (192 bytes): `be(x.c1) || be(x.c0) || be(y.c1) || be(y.c0)`.
//! - Points at infinity set the infinity flag (bit 1) of the first byte, all
//!   other bits zero.

use crate::bytes::{
    be_bytes, be_nat, be_prefix, lemma_be_bytes, lemma_be_bytes_unique, lemma_pow256_sizes,
    pow256,
};
use crate::curve::{g1_infinity, g2_infinity, Fq2, G1Affine, G1Point, G2Affine, G2Point};
use crate::field::{fq_modulus, fr_modulus, Fq, Fr};
use vstd::prelude::*;

verus! {

/// Byte length of an encoded G1 point.
pub const G1_LEN: usize = 96;

/// Byte length of an encoded G2 point.
pub const G2_LEN: usize = 192;

/// The infinity flag: bit 1 of the first byte.
pub const INFINITY_FLAG: u8 = 0x40;

/// The encoding of a scalar.
pub open spec fn fr_encoding(x: nat) -> Seq<u8> {
    be_bytes(x, 32)
}

/// The encoding of a point at infinity.
pub open spec fn infinity_encoding(len: nat) -> Seq<u8> {
    Seq::new(
        len,
        |i: int|
            if i == 0 {
                0x40u8
            } else {
                0u8
            },
    )
}

/// The encoding of a G1 point.
pub open spec fn g1_encoding(p: G1Point) -> Seq<u8> {
    if p.infinity {
        infinity_encoding(96)
    } else {
        be_bytes(p.x, 48) + be_bytes(p.y, 48)
    }
}

/// The encoding of a G2 point.
pub open spec fn g2_encoding(p: G2Point) -> Seq<u8> {
    if p.infinity {
        infinity_encoding(192)
    } else {
        be_bytes(p.x1, 48) + be_bytes(p.x0, 48) + be_bytes(p.y1, 48) + be_bytes(p.y0, 48)
    }
}

/// The base field element that 48 bytes name, reduced by the field's order.
pub open spec fn fq_named(bytes: Seq<u8>, at: int) -> nat {
    be_nat(bytes.subrange(at, at + 48)) % fq_modulus()
}

/// The G1 point that 96 bytes name.
pub open spec fn g1_named(bytes: Seq<u8>) -> G1Point {
    if bytes[0] & 0x40 != 0 {
        g1_infinity()
    } else {
        G1Point { x: fq_named(bytes, 0), y: fq_named(bytes, 48), infinity: false }
    }
}

/// The G2 point that 192 bytes name.
pub open spec fn g2_named(bytes: Seq<u8>) -> G2Point {
    if bytes[0] & 0x40 != 0 {
        g2_infinity()
    } else {
        G2Point {
            x0: fq_named(bytes, 48),
            x1: fq_named(bytes, 0),
            y0: fq_named(bytes, 144),
            y1: fq_named(bytes, 96),
            infinity: false,
        }
    }
}

/// A point whose coordinates are canonical, and zero at infinity.
pub open spec fn g1_proper(p: G1Point) -> bool {
    &&& p.x < fq_modulus()
    &&& p.y < fq_modulus()
    &&& p.infinity ==> p == g1_infinity()
}

/// A point whose coordinates are canonical, and zero at infinity.
pub open spec fn g2_proper(p: G2Point) -> bool {
    &&& p.x0 < fq_modulus()
    &&& p.x1 < fq_modulus()
    &&& p.y0 < fq_modulus()
    &&& p.y1 < fq_modulus()
    &&& p.infinity ==> p == g2_infinity()
}

/// Encodes an Fr scalar as the 32-byte big-endian public-input encoding.
pub fn fr_to_bytes(x: Fr) -> (out: [u8; 32])
    ensures
        out@ == fr_encoding(x.value()),
        be_nat(out@) == x.value(),
{
    let out: [u8; 32] = x.to_be_bytes();
    proof {
        lemma_be_bytes_unique(out@);
    }
    out
}

/// Decodes a 32-byte big-endian scalar; an integer from the group order up is
/// reduced.
pub fn fr_from_bytes(bytes: &[u8; 32]) -> (x: Fr)
    ensures
        x.value() == be_nat(bytes@) % fr_modulus(),
{
    Fr::from_be_bytes_mod_order(bytes)
}

fn fq_be(x: Fq) -> (out: [u8; 48])
    ensures
        out@ == be_bytes(x.value(), 48),
{
    let out: [u8; 48] = x.to_be_bytes();
    proof {
        lemma_be_bytes_unique(out@);
    }
    out
}

/// The element that the 48 bytes at `at` name.
fn fq_from_be(bytes: &[u8], at: usize) -> (x: Fq)
    requires
        at + 48 <= bytes@.len(),
    ensures
        x.value() == fq_named(bytes@, at as int),
{
    let mut part: [u8; 48] = [0u8; 48];
    let len: usize = bytes.len();
    let mut i: usize = 0;
    while i < 48
        invariant
            i <= 48,
            at + 48 <= len,
            len == bytes@.len(),
            forall|k: int| 0 <= k < i ==> part[k] == bytes@[at + k],
        decreases 48 - i,
    {
        part[i] = bytes[at + i];
        i = i + 1;
    }
    proof {
        assert(part@ =~= bytes@.subrange(at as int, at + 48));
    }
    Fq::from_be_bytes_mod_order(&part)
}

/// Encodes a G1 point in the 96-byte uncompressed host encoding.
pub fn g1_to_bytes(p: &G1Affine) -> (out: [u8; G1_LEN])
    ensures
        out@ == g1_encoding(p@),
{
    let mut out: [u8; G1_LEN] = [0u8; G1_LEN];
    if p.infinity {
        out[0] = INFINITY_FLAG;
        proof {
            assert(out@ =~= infinity_encoding(96));
        }
    } else {
        let x: [u8; 48] = fq_be(p.x);
        let y: [u8; 48] = fq_be(p.y);
        let mut i: usize = 0;
        while i < 48
            invariant
                i <= 48,
                forall|k: int| 0 <= k < i ==> out[k] == x[k],
                forall|k: int| 0 <= k < i ==> out[48 + k] == y[k],
            decreases 48 - i,
        {
            out[i] = x[i];
            out[48 + i] = y[i];
            i = i + 1;
        }
        proof {
            assert(out@ =~= x@ + y@) by {
                assert forall|k: int| 48 <= k < 96 implies out@[k] == y@[k - 48] by {
                    assert(out[48 + (k - 48)] == y[k - 48]);
                }
            }
        }
    }
    out
}

/// Encodes a G2 point in the 192-byte uncompressed host encoding.
pub fn g2_to_bytes(p: &G2Affine) -> (out: [u8; G2_LEN])
    ensures
        out@ == g2_encoding(p@),
{
    let mut out: [u8; G2_LEN] = [0u8; G2_LEN];
    if p.infinity {
        out[0] = INFINITY_FLAG;
        proof {
            assert(out@ =~= infinity_encoding(192));
        }
    } else {
        let a: [u8; 48] = fq_be(p.x.c1);
        let b: [u8; 48] = fq_be(p.x.c0);
        let c: [u8; 48] = fq_be(p.y.c1);
        let d: [u8; 48] = fq_be(p.y.c0);
        let mut i: usize = 0;
        while i < 48
            invariant
                i <= 48,
                forall|k: int| 0 <= k < i ==> out[k] == a[k],
                forall|k: int| 0 <= k < i ==> out[48 + k] == b[k],
                forall|k: int| 0 <= k < i ==> out[96 + k] == c[k],
                forall|k: int| 0 <= k < i ==> out[144 + k] == d[k],
            decreases 48 - i,
        {
            out[i] = a[i];
            out[48 + i] = b[i];
            out[96 + i] = c[i];
            out[144 + i] = d[i];
            i = i + 1;
        }
        proof {
            let all = a@ + b@ + c@ + d@;
            assert(out@ =~= all) by {
                assert forall|k: int| 48 <= k < 96 implies out@[k] == all[k] by {
                    assert(out[48 + (k - 48)] == b[k - 48]);
                }
                assert forall|k: int| 96 <= k < 144 implies out@[k] == all[k] by {
                    assert(out[96 + (k - 96)] == c[k - 96]);
                }
                assert forall|k: int| 144 <= k < 192 implies out@[k] == all[k] by {
                    assert(out[144 + (k - 144)] == d[k - 144]);
                }
            }
        }
    }
    out
}

/// Decodes a 96-byte host-encoded G1 point. Coordinates are reduced and curve
/// membership is not checked.
pub fn g1_from_bytes(bytes: &[u8; G1_LEN]) -> (p: G1Affine)
    ensures
        p@ == g1_named(bytes@),
{
    if bytes[0] & INFINITY_FLAG != 0 {
        return G1Affine::identity();
    }
    G1Affine { x: fq_from_be(bytes, 0), y: fq_from_be(bytes, 48), infinity: false }
}

/// Decodes a 192-byte host-encoded G2 point (see [`g1_from_bytes`]).
pub fn g2_from_bytes(bytes: &[u8; G2_LEN]) -> (p: G2Affine)
    ensures
        p@ == g2_named(bytes@),
{
    if bytes[0] & INFINITY_FLAG != 0 {
        return G2Affine::identity();
    }
    G2Affine {
        x: Fq2 { c0: fq_from_be(bytes, 48), c1: fq_from_be(bytes, 0) },
        y: Fq2 { c0: fq_from_be(bytes, 144), c1: fq_from_be(bytes, 96) },
        infinity: false,
    }
}

/// A Groth16 proof.
#[derive(Clone, Copy, Debug, PartialEq, Eq, Structural)]
pub struct Proof {
    /// `A`, in G1.
    pub a: G1Affine,
    /// `B`, in G2.
    pub b: G2Affine,
    /// `C`, in G1.
    pub c: G1Affine,
}

/// A Groth16 proof in host encoding.
#[derive(Clone, Copy, Debug, PartialEq, Eq)]
pub struct ProofBytes {
    /// `proof.a`, G1.
    pub a: [u8; G1_LEN],
    /// `proof.b`, G2.
    pub b: [u8; G2_LEN],
    /// `proof.c`, G1.
    pub c: [u8; G1_LEN],
}

impl ProofBytes {
    /// These bytes encode the proof.
    pub open spec fn encodes(self, proof: Proof) -> bool {
        &&& self.a@ == g1_encoding(proof.a@)
        &&& self.b@ == g2_encoding(proof.b@)
        &&& self.c@ == g1_encoding(proof.c@)
    }
}

/// Encodes a proof for submission to the contract layer.
pub fn proof_to_bytes(proof: &Proof) -> (out: ProofBytes)
    ensures
        out.encodes(*proof),
{
    ProofBytes { a: g1_to_bytes(&proof.a), b: g2_to_bytes(&proof.b), c: g1_to_bytes(&proof.c) }
}

/// A Groth16 verifying key.
#[derive(Debug)]
pub struct VerifyingKey {
    /// `alpha`, in G1.
    pub alpha_g1: G1Affine,
    /// `beta`, in G2.
    pub beta_g2: G2Affine,
    /// `gamma`, in G2.
    pub gamma_g2: G2Affine,
    /// `delta`, in G2.
    pub delta_g2: G2Affine,
    /// One point per public input, plus one.
    pub gamma_abc_g1: Vec<G1Affine>,
}

/// A verifying key in host encoding: what a `zk_verifier` instance is
/// constructed with.
#[derive(Debug)]
pub struct VerificationKeyBytes {
    /// `vk.alpha_g1`.
    pub alpha: [u8; G1_LEN],
    /// `vk.beta_g2`.
    pub beta: [u8; G2_LEN],
    /// `vk.gamma_g2`.
    pub gamma: [u8; G2_LEN],
    /// `vk.delta_g2`.
    pub delta: [u8; G2_LEN],
    /// `vk.gamma_abc_g1`: one point per public input, plus one.
    pub ic: Vec<[u8; G1_LEN]>,
}

/// A verifying key, as plain values.
#[verifier::ext_equal]
pub struct KeyParts {
    pub alpha: Seq<u8>,
    pub beta: Seq<u8>,
    pub gamma: Seq<u8>,
    pub delta: Seq<u8>,
    pub ic: Seq<Seq<u8>>,
}

impl View for VerificationKeyBytes {
    type V = KeyParts;

    open spec fn view(&self) -> KeyParts {
        KeyParts {
            alpha: self.alpha@,
            beta: self.beta@,
            gamma: self.gamma@,
            delta: self.delta@,
            ic: Seq::new(self.ic@.len(), |i: int| self.ic@[i]@),
        }
    }
}

impl VerificationKeyBytes {
    /// These bytes encode the verifying key.
    pub open spec fn encodes(self, vk: VerifyingKey) -> bool {
        &&& self.alpha@ == g1_encoding(vk.alpha_g1@)
        &&& self.beta@ == g2_encoding(vk.beta_g2@)
        &&& self.gamma@ == g2_encoding(vk.gamma_g2@)
        &&& self.delta@ == g2_encoding(vk.delta_g2@)
        &&& self.ic@.len() == vk.gamma_abc_g1@.len()
        &&& forall|i: int|
            0 <= i < self.ic@.len() ==> (#[trigger] self.ic@[i])@ == g1_encoding(
                vk.gamma_abc_g1@[i]@,
            )
    }

    /// The points that these bytes name are those of the verifying key.
    pub open spec fn names(self, vk: VerifyingKey) -> bool {
        &&& vk.alpha_g1@ == g1_named(self.alpha@)
        &&& vk.beta_g2@ == g2_named(self.beta@)
        &&& vk.gamma_g2@ == g2_named(self.gamma@)
        &&& vk.delta_g2@ == g2_named(self.delta@)
        &&& vk.gamma_abc_g1@.len() == self.ic@.len()
        &&& forall|i: int|
            0 <= i < self.ic@.len() ==> (#[trigger] vk.gamma_abc_g1@[i])@ == g1_named(
                self.ic@[i]@,
            )
    }
}

/// Encodes a verifying key for pinning into a `zk_verifier`.
pub fn vk_to_bytes(vk: &VerifyingKey) -> (out: VerificationKeyBytes)
    ensures
        out.encodes(*vk),
{
    let mut ic: Vec<[u8; G1_LEN]> = Vec::new();
    let mut i: usize = 0;
    while i < vk.gamma_abc_g1.len()
        invariant
            i <= vk.gamma_abc_g1@.len(),
            ic@.len() == i,
            forall|k: int|
                0 <= k < i ==> (#[trigger] ic@[k])@ == g1_encoding(vk.gamma_abc_g1@[k]@),
        decreases vk.gamma_abc_g1@.len() - i,
    {
        ic.push(g1_to_bytes(&vk.gamma_abc_g1[i]));
        i = i + 1;
    }
    VerificationKeyBytes {
        alpha: g1_to_bytes(&vk.alpha_g1),
        beta: g2_to_bytes(&vk.beta_g2),
        gamma: g2_to_bytes(&vk.gamma_g2),
        delta: g2_to_bytes(&vk.delta_g2),
        ic,
    }
}

/// A canonical integer below the order of the base field fits 48 bytes and
/// leaves the three top bits of the first one clear.
proof fn lemma_fq_bytes(x: nat)
    requires
        x < fq_modulus(),
    ensures
        be_bytes(x, 48).len() == 48,
        be_nat(be_bytes(x, 48)) == x,
        be_bytes(x, 48)[0] < 0x20,
{
    lemma_pow256_sizes();
    lemma_be_bytes(x, 48);
    let s = be_bytes(x, 48);
    lemma_top_byte(s, 48);
    let top = s[0] as nat;
    if top >= 0x20 {
        assert(top * pow256(47) >= 0x20 * pow256(47)) by (nonlinear_arith)
            requires
                top >= 0x20,
        ;
    }
}

/// The first byte counts with the largest weight.
proof fn lemma_top_byte(s: Seq<u8>, n: nat)
    requires
        0 < n <= s.len(),
    ensures
        be_prefix(s, n) >= s[0] as nat * pow256((n - 1) as nat),
    decreases n,
{
    if n == 1 {
        reveal_with_fuel(be_prefix, 2);
        assert(pow256(0) == 1);
    } else {
        lemma_top_byte(s, (n - 1) as nat);
        let p = pow256((n - 2) as nat);
        assert(s[0] as nat * (256 * p) == s[0] as nat * p * 256) by (nonlinear_arith);
    }
}

/// **Scalars round-trip.** Decoding the encoding of a canonical scalar gives
/// it back, and encoding what a canonical encoding names gives the bytes back.
pub proof fn lemma_fr_roundtrip(x: nat, bytes: Seq<u8>)
    requires
        x < fr_modulus(),
        bytes.len() == 32,
        be_nat(bytes) < fr_modulus(),
    ensures
        be_nat(fr_encoding(x)) % fr_modulus() == x,
        fr_encoding(be_nat(bytes) % fr_modulus()) == bytes,
{
    lemma_pow256_sizes();
    lemma_be_bytes(x, 32);
    vstd::arithmetic::div_mod::lemma_small_mod(x, fr_modulus());
    vstd::arithmetic::div_mod::lemma_small_mod(be_nat(bytes), fr_modulus());
    lemma_be_bytes_unique(bytes);
}

/// **G1 points round-trip.** Decoding the encoding of a point gives it back.
pub proof fn lemma_g1_roundtrip(p: G1Point)
    requires
        g1_proper(p),
    ensures
        g1_encoding(p).len() == 96,
        g1_named(g1_encoding(p)) == p,
{
    if p.infinity {
        assert(0x40u8 & 0x40 != 0) by (bit_vector);
    } else {
        let s = g1_encoding(p);
        lemma_fq_bytes(p.x);
        lemma_fq_bytes(p.y);
        assert(s.subrange(0, 48) =~= be_bytes(p.x, 48));
        assert(s.subrange(48, 96) =~= be_bytes(p.y, 48));
        let top = s[0];
        assert(top & 0x40 == 0) by (bit_vector)
            requires
                top < 0x20,
        ;
        vstd::arithmetic::div_mod::lemma_small_mod(p.x, fq_modulus());
        vstd::arithmetic::div_mod::lemma_small_mod(p.y, fq_modulus());
    }
}

/// **G2 points round-trip.** Decoding the encoding of a point gives it back.
pub proof fn lemma_g2_roundtrip(p: G2Point)
    requires
        g2_proper(p),
    ensures
        g2_encoding(p).len() == 192,
        g2_named(g2_encoding(p)) == p,
{
    if p.infinity {
        assert(0x40u8 & 0x40 != 0) by (bit_vector);
    } else {
        let s = g2_encoding(p);
        lemma_fq_bytes(p.x0);
        lemma_fq_bytes(p.x1);
        lemma_fq_bytes(p.y0);
        lemma_fq_bytes(p.y1);
        assert(s.subrange(0, 48) =~= be_bytes(p.x1, 48));
        assert(s.subrange(48, 96) =~= be_bytes(p.x0, 48));
        assert(s.subrange(96, 144) =~= be_bytes(p.y1, 48));
        assert(s.subrange(144, 192) =~= be_bytes(p.y0, 48));
        let top = s[0];
        assert(top & 0x40 == 0) by (bit_vector)
            requires
                top < 0x20,
        ;
        vstd::arithmetic::div_mod::lemma_small_mod(p.x0, fq_modulus());
        vstd::arithmetic::div_mod::lemma_small_mod(p.x1, fq_modulus());
        vstd::arithmetic::div_mod::lemma_small_mod(p.y0, fq_modulus());
        vstd::arithmetic::div_mod::lemma_small_mod(p.y1, fq_modulus());
    }
}

} // verus!
