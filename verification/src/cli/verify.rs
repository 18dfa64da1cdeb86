//! The offline check of a proof bundle: the same Groth16 check that the chain
//! runs.

use super::args::{parse_fr, parse_number, parsed_fr, parsed_number};
use super::bundle::{
    bundle_field, by_key, field_of, keys_differ, lemma_by_key, lemma_transfer_bundle_roundtrip,
    lemma_withdraw_bundle_roundtrip, parsed_bundle, transfer_fields, transfer_text, withdraw_fields,
    withdraw_text, Bundle,
};
use crate::artifacts::{to_g1, to_g2, vk_from_bytes};
use crate::bytes::be_nat;
use crate::circuit::values;
use crate::curve::{g1_valid, g2_valid, G1Affine, G1Point, G2Affine, G2Point};
use crate::encoding::{
    fr_encoding, fr_to_bytes, g1_encoding, g1_from_bytes, g1_named, g2_encoding, g2_from_bytes,
    g2_named, lemma_g1_roundtrip, lemma_g2_roundtrip, proof_to_bytes, vk_to_bytes, KeyParts, Proof,
    VerificationKeyBytes, VerifyingKey, G1_LEN, G2_LEN,
};
use crate::field::{Fr};
use crate::hex_codec::{
    decode, hex_decoded, hex_encoded, hex_fault_name, hex_fault_text, lemma_hex_roundtrip,
};
use crate::host::binding_of;
use crate::interfaces::fr::canonical_scalar;
use crate::interfaces::{all_canonical, byte_views, Groth16Proof, VerificationKey, VerifierTrap};
use crate::prover::{TransferBundle, WithdrawBundle};
use crate::shielded_pool::{transfer_inputs, withdraw_inputs};
use crate::text::{
    append_str, append_text, chars_of, decimal, labelled, lemma_decimal_roundtrip, string_of,
    to_decimal,
};
use crate::zk_verifier::{
    groth16_equation, groth16_holds, host_g1, host_g2, key_parts, key_points_ok,
    proof_points_ok, scalar_values, verdict_under,
};
use ark_bls12_381::{Bls12_381, Fr as ArkFr};
use ark_ff::PrimeField;
use ark_groth16::{Groth16, Proof as ArkProof, VerifyingKey as ArkKey};
use ark_serialize::CanonicalDeserialize;
use ark_snark::SNARK;
use vstd::prelude::*;
use vstd::utf8::encode_utf8;

verus! {

/// The points of a proof.
pub struct ProofPoints {
    pub a: G1Point,
    pub b: G2Point,
    pub c: G1Point,
}

/// The points of a proof.
pub open spec fn points_of(proof: Proof) -> ProofPoints {
    ProofPoints { a: proof.a@, b: proof.b@, c: proof.c@ }
}

/// A field of a bundle that holds a field element, or what is wrong with it.
pub open spec fn scalar_of(bundle: Map<Seq<char>, Seq<char>>, key: Seq<char>) -> Result<
    nat,
    Seq<char>,
> {
    match field_of(bundle, key) {
        Err(e) => Err(e),
        Ok(text) => parsed_fr(text),
    }
}

/// The first `n` of some fields that hold field elements, or what is wrong with
/// the first bad one.
pub open spec fn scalars_of(
    bundle: Map<Seq<char>, Seq<char>>,
    keys: Seq<Seq<char>>,
    n: nat,
) -> Result<Seq<nat>, Seq<char>>
    decreases n,
{
    if n == 0 {
        Ok(Seq::empty())
    } else {
        match scalars_of(bundle, keys, (n - 1) as nat) {
            Err(e) => Err(e),
            Ok(got) => match scalar_of(bundle, keys[n - 1]) {
                Err(e) => Err(e),
                Ok(x) => Ok(got.push(x)),
            },
        }
    }
}

/// The keys of the public inputs of a transfer, in their order.
pub open spec fn transfer_keys() -> Seq<Seq<char>> {
    seq![
        "root"@,
        "nullifier.0"@,
        "nullifier.1"@,
        "new_commitment.0"@,
        "new_commitment.1"@,
    ]
}

/// The keys of the public inputs of a withdrawal, but for the amount.
pub open spec fn withdraw_keys() -> Seq<Seq<char>> {
    seq!["root"@, "nullifier"@, "recipient_binding"@]
}

/// The circuit that a bundle is for, and its public inputs in the circuit's
/// order, or what is wrong with the bundle.
pub open spec fn statement_of(bundle: Map<Seq<char>, Seq<char>>) -> Result<
    (Seq<char>, Seq<nat>),
    Seq<char>,
> {
    match field_of(bundle, "circuit"@) {
        Err(e) => Err(e),
        Ok(circuit) => if circuit == "transfer"@ {
            match scalars_of(bundle, transfer_keys(), 5) {
                Err(e) => Err(e),
                Ok(inputs) => Ok((circuit, inputs)),
            }
        } else if circuit == "withdraw"@ {
            match scalars_of(bundle, withdraw_keys(), 3) {
                Err(e) => Err(e),
                Ok(inputs) => match field_of(bundle, "amount"@) {
                    Err(e) => Err(e),
                    Ok(text) => match parsed_number("amount"@, text) {
                        Err(e) => Err(e),
                        Ok(amount) => Ok((circuit, inputs.push(amount))),
                    },
                },
            }
        } else {
            match scalar_of(bundle, "root"@) {
                Err(e) => Err(e),
                Ok(_) => Err("unknown bundle circuit: "@ + circuit),
            }
        },
    }
}

/// The valid G1 point that a text spells in hexadecimal, or what is wrong with
/// it under a name.
pub open spec fn checked_g1_of(s: Seq<char>, name: Seq<char>) -> Result<G1Point, Seq<char>> {
    match hex_decoded(encode_utf8(s)) {
        Err(e) => Err(name + ": "@ + hex_fault_text(e)),
        Ok(bytes) => if bytes.len() != 96 {
            Err(name + ": expected 96 bytes"@)
        } else if !g1_valid(g1_named(bytes)) {
            Err(name + ": not a valid G1 point"@)
        } else {
            Ok(g1_named(bytes))
        },
    }
}

/// The valid G2 point that a text spells in hexadecimal, or what is wrong with
/// it under a name.
pub open spec fn checked_g2_of(s: Seq<char>, name: Seq<char>) -> Result<G2Point, Seq<char>> {
    match hex_decoded(encode_utf8(s)) {
        Err(e) => Err(name + ": "@ + hex_fault_text(e)),
        Ok(bytes) => if bytes.len() != 192 {
            Err(name + ": expected 192 bytes"@)
        } else if !g2_valid(g2_named(bytes)) {
            Err(name + ": not a valid G2 point"@)
        } else {
            Ok(g2_named(bytes))
        },
    }
}

/// A field of a bundle that holds a G1 point, or what is wrong with it.
pub open spec fn g1_of(bundle: Map<Seq<char>, Seq<char>>, key: Seq<char>) -> Result<
    G1Point,
    Seq<char>,
> {
    match field_of(bundle, key) {
        Err(e) => Err(e),
        Ok(text) => checked_g1_of(text, key),
    }
}

/// A field of a bundle that holds a G2 point, or what is wrong with it.
pub open spec fn g2_of(bundle: Map<Seq<char>, Seq<char>>, key: Seq<char>) -> Result<
    G2Point,
    Seq<char>,
> {
    match field_of(bundle, key) {
        Err(e) => Err(e),
        Ok(text) => checked_g2_of(text, key),
    }
}

/// The proof of a bundle, or what is wrong with it.
pub open spec fn proof_of(bundle: Map<Seq<char>, Seq<char>>) -> Result<ProofPoints, Seq<char>> {
    match g1_of(bundle, "proof.a"@) {
        Err(e) => Err(e),
        Ok(a) => match g2_of(bundle, "proof.b"@) {
            Err(e) => Err(e),
            Ok(b) => match g1_of(bundle, "proof.c"@) {
                Err(e) => Err(e),
                Ok(c) => Ok(ProofPoints { a, b, c }),
            },
        },
    }
}

/// Every point that the key names is on its curve and in its subgroup.
pub open spec fn key_valid(key: KeyParts) -> bool {
    &&& g1_valid(g1_named(key.alpha))
    &&& g2_valid(g2_named(key.beta))
    &&& g2_valid(g2_named(key.gamma))
    &&& g2_valid(g2_named(key.delta))
    &&& forall|i: int| 0 <= i < key.ic.len() ==> g1_valid(g1_named(#[trigger] key.ic[i]))
}

/// The encodings of the points that the key names.
pub open spec fn reencoded(key: KeyParts) -> KeyParts {
    KeyParts {
        alpha: g1_encoding(g1_named(key.alpha)),
        beta: g2_encoding(g2_named(key.beta)),
        gamma: g2_encoding(g2_named(key.gamma)),
        delta: g2_encoding(g2_named(key.delta)),
        ic: Seq::new(key.ic.len(), |i: int| g1_encoding(g1_named(key.ic[i]))),
    }
}

/// What the check of a bundle under a key reports.
pub open spec fn report_of(key: KeyParts, bundle: Map<Seq<char>, Seq<char>>) -> Result<
    Seq<char>,
    Seq<char>,
> {
    match statement_of(bundle) {
        Err(e) => Err(e),
        Ok((circuit, inputs)) => if key.ic.len() == 0 {
            Err("vk has no IC points — wrong vk for this circuit?"@)
        } else if key.ic.len() != inputs.len() + 1 {
            Err(
                "vk expects "@ + decimal((key.ic.len() - 1) as nat)
                    + " public inputs, bundle has "@ + decimal(inputs.len())
                    + " — wrong vk for this circuit?"@,
            )
        } else {
            match proof_of(bundle) {
                Err(e) => Err(e),
                Ok(proof) => if !key_valid(key) {
                    Err("vk: not a valid key, a point is off-curve or in the wrong subgroup"@)
                } else if !groth16_equation(
                    reencoded(key),
                    g1_encoding(proof.a),
                    g2_encoding(proof.b),
                    g1_encoding(proof.c),
                    inputs,
                ) {
                    Err("proof does NOT verify against this vk and these public inputs"@)
                } else {
                    Ok(
                        "OK: "@ + circuit + " proof verifies ("@ + decimal(inputs.len())
                            + " public inputs)"@,
                    )
                },
            }
        },
    }
}

/// `SNARK::verify` of `ark_groth16::Groth16` over BLS12-381. It compares
/// `e(A, B) * e(vk_x, -gamma) * e(C, -delta)` with `e(alpha, beta)`; of points
/// in the groups, these are equal just when the Groth16 equation holds. It
/// fails only if the number of inputs does not fit the key. The key and the
/// proof are handed over in their uncompressed serialization: the encoded
/// points in order, the IC points behind their number.
#[verifier::external_body]
fn ark_groth16_verify(vk: &VerificationKey, proof: &Groth16Proof, inputs: &Vec<[u8; 32]>) -> (
    accepted: bool)
    requires
        key_points_ok(*vk),
        proof_points_ok(*proof),
        all_canonical(byte_views(inputs@)),
        inputs@.len() + 1 == vk.ic@.len(),
    ensures
        accepted == groth16_holds(*vk, *proof, byte_views(inputs@)),
{
    let len = (vk.ic.len() as u64).to_le_bytes();
    let ic = vk.ic.concat();
    let key = [&vk.alpha[..], &vk.beta, &vk.gamma, &vk.delta, &len, &ic].concat();
    let key = ArkKey::<Bls12_381>::deserialize_uncompressed(&key[..]).unwrap();
    let proof = [&proof.a[..], &proof.b, &proof.c].concat();
    let proof = ArkProof::deserialize_uncompressed(&proof[..]).unwrap();
    let fr = |x: &[u8; 32]| ArkFr::from_be_bytes_mod_order(x);
    let x: Vec<ArkFr> = inputs.iter().map(fr).collect();
    Groth16::<_>::verify(&key, &x, &proof).unwrap()
}

/// The field element in a field of a bundle.
fn scalar_field(bundle: &Bundle, key: &str) -> (x: Result<Fr, String>)
    ensures
        match x {
            Ok(x) => scalar_of(bundle@, key@) == Ok::<nat, Seq<char>>(x.value()),
            Err(e) => scalar_of(bundle@, key@) == Err::<nat, Seq<char>>(e@),
        },
{
    match bundle_field(bundle, key) {
        Ok(text) => parse_fr(text),
        Err(e) => Err(e),
    }
}

proof fn lemma_scalar_fault_stays(
    bundle: Map<Seq<char>, Seq<char>>,
    keys: Seq<Seq<char>>,
    m: nat,
    n: nat,
)
    requires
        m <= n,
        scalars_of(bundle, keys, m) is Err,
    ensures
        scalars_of(bundle, keys, n) == scalars_of(bundle, keys, m),
    decreases n,
{
    if m < n {
        lemma_scalar_fault_stays(bundle, keys, m, (n - 1) as nat);
    }
}

/// The field elements in some fields of a bundle.
fn scalar_fields(bundle: &Bundle, keys: &Vec<&str>) -> (xs: Result<Vec<Fr>, String>)
    ensures
        ({
            let names = Seq::new(keys@.len(), |i: int| keys@[i]@);
            match xs {
                Ok(xs) => scalars_of(bundle@, names, names.len()) == Ok::<Seq<nat>, Seq<char>>(
                    values(xs@),
                ),
                Err(e) => scalars_of(bundle@, names, names.len()) == Err::<Seq<nat>, Seq<char>>(
                    e@,
                ),
            }
        }),
{
    let ghost names = Seq::new(keys@.len(), |i: int| keys@[i]@);
    let mut xs: Vec<Fr> = Vec::new();
    proof {
        assert(values(xs@) =~= Seq::<nat>::empty());
    }
    let mut i: usize = 0;
    while i < keys.len()
        invariant
            i <= keys@.len(),
            names == Seq::new(keys@.len(), |i: int| keys@[i]@),
            scalars_of(bundle@, names, i as nat) == Ok::<Seq<nat>, Seq<char>>(values(xs@)),
        decreases keys@.len() - i,
    {
        let ghost before = values(xs@);
        proof {
            assert(names[i as int] == keys@[i as int]@);
        }
        match scalar_field(bundle, keys[i]) {
            Ok(x) => {
                xs.push(x);
                proof {
                    assert(values(xs@) =~= before.push(x.value()));
                }
            },
            Err(e) => {
                proof {
                    lemma_scalar_fault_stays(bundle@, names, (i + 1) as nat, names.len());
                }
                return Err(e);
            },
        }
        i = i + 1;
    }
    Ok(xs)
}

/// The circuit that a bundle is for, and its public inputs in the circuit's
/// order.
pub fn statement(bundle: &Bundle) -> (stated: Result<(String, Vec<Fr>), String>)
    ensures
        match stated {
            Ok((circuit, inputs)) => statement_of(bundle@) == Ok::<
                (Seq<char>, Seq<nat>),
                Seq<char>,
            >((circuit@, values(inputs@))),
            Err(e) => statement_of(bundle@) == Err::<(Seq<char>, Seq<nat>), Seq<char>>(e@),
        },
{
    let circuit: String = match bundle_field(bundle, "circuit") {
        Ok(circuit) => circuit.to_owned(),
        Err(e) => {
            return Err(e);
        },
    };
    if circuit == "transfer".to_owned() {
        let keys: Vec<&str> = vec![
            "root",
            "nullifier.0",
            "nullifier.1",
            "new_commitment.0",
            "new_commitment.1",
        ];
        proof {
            assert(Seq::new(keys@.len(), |i: int| keys@[i]@) =~= transfer_keys());
        }
        match scalar_fields(bundle, &keys) {
            Ok(inputs) => Ok((circuit, inputs)),
            Err(e) => Err(e),
        }
    } else if circuit == "withdraw".to_owned() {
        let keys: Vec<&str> = vec!["root", "nullifier", "recipient_binding"];
        proof {
            assert(Seq::new(keys@.len(), |i: int| keys@[i]@) =~= withdraw_keys());
        }
        let mut inputs: Vec<Fr> = match scalar_fields(bundle, &keys) {
            Ok(inputs) => inputs,
            Err(e) => {
                return Err(e);
            },
        };
        let text: &str = match bundle_field(bundle, "amount") {
            Ok(text) => text,
            Err(e) => {
                return Err(e);
            },
        };
        let amount: u64 = match parse_number("amount", &chars_of(text)) {
            Ok(amount) => amount,
            Err(e) => {
                return Err(e);
            },
        };
        let ghost before = values(inputs@);
        inputs.push(Fr::from_u64(amount));
        proof {
            assert(values(inputs@) =~= before.push(amount as nat));
        }
        Ok((circuit, inputs))
    } else {
        match scalar_field(bundle, "root") {
            Ok(_) => Err(labelled("unknown bundle circuit: ", &chars_of(circuit.as_str()))),
            Err(e) => Err(e),
        }
    }
}

/// A message under a name.
fn named(name: &str, what: &Vec<char>) -> (text: String)
    ensures
        text@ == name@ + ": "@ + what@,
{
    let mut out: Vec<char> = chars_of(name);
    append_str(&mut out, ": ");
    append_text(&mut out, what);
    string_of(&out)
}

/// A name and what is said of it.
fn said(name: &str, what: &str) -> (text: String)
    ensures
        text@ == name@ + what@,
{
    let mut out: Vec<char> = chars_of(name);
    append_str(&mut out, what);
    string_of(&out)
}

/// Decodes a G1 point and rejects one that is off the curve or in the wrong
/// subgroup.
pub fn checked_g1(hex_str: &str, name: &str) -> (point: Result<G1Affine, String>)
    ensures
        match point {
            Ok(p) => checked_g1_of(hex_str@, name@) == Ok::<G1Point, Seq<char>>(p@),
            Err(e) => checked_g1_of(hex_str@, name@) == Err::<G1Point, Seq<char>>(e@),
        },
{
    let decoded: Vec<u8> = match decode(hex_str) {
        Ok(decoded) => decoded,
        Err(e) => {
            return Err(named(name, &hex_fault_name(&e)));
        },
    };
    let bytes: [u8; G1_LEN] = match to_g1(&decoded) {
        Some(bytes) => bytes,
        None => {
            return Err(said(name, ": expected 96 bytes"));
        },
    };
    let p: G1Affine = g1_from_bytes(&bytes);
    if !p.is_valid() {
        return Err(said(name, ": not a valid G1 point"));
    }
    Ok(p)
}

/// Decodes a G2 point and rejects one that is off the curve or in the wrong
/// subgroup.
pub fn checked_g2(hex_str: &str, name: &str) -> (point: Result<G2Affine, String>)
    ensures
        match point {
            Ok(p) => checked_g2_of(hex_str@, name@) == Ok::<G2Point, Seq<char>>(p@),
            Err(e) => checked_g2_of(hex_str@, name@) == Err::<G2Point, Seq<char>>(e@),
        },
{
    let decoded: Vec<u8> = match decode(hex_str) {
        Ok(decoded) => decoded,
        Err(e) => {
            return Err(named(name, &hex_fault_name(&e)));
        },
    };
    let bytes: [u8; G2_LEN] = match to_g2(&decoded) {
        Some(bytes) => bytes,
        None => {
            return Err(said(name, ": expected 192 bytes"));
        },
    };
    let p: G2Affine = g2_from_bytes(&bytes);
    if !p.is_valid() {
        return Err(said(name, ": not a valid G2 point"));
    }
    Ok(p)
}

/// The G1 point in a field of a bundle.
fn g1_field(bundle: &Bundle, key: &str) -> (point: Result<G1Affine, String>)
    ensures
        match point {
            Ok(p) => g1_of(bundle@, key@) == Ok::<G1Point, Seq<char>>(p@),
            Err(e) => g1_of(bundle@, key@) == Err::<G1Point, Seq<char>>(e@),
        },
{
    match bundle_field(bundle, key) {
        Ok(text) => checked_g1(text, key),
        Err(e) => Err(e),
    }
}

/// The proof of a bundle. It may come from an untrusted relayer, so its points
/// are checked.
pub fn bundle_proof(bundle: &Bundle) -> (found: Result<Proof, String>)
    ensures
        match found {
            Ok(p) => proof_of(bundle@) == Ok::<ProofPoints, Seq<char>>(points_of(p)),
            Err(e) => proof_of(bundle@) == Err::<ProofPoints, Seq<char>>(e@),
        },
{
    let a: G1Affine = match g1_field(bundle, "proof.a") {
        Ok(a) => a,
        Err(e) => {
            return Err(e);
        },
    };
    let b: G2Affine = match bundle_field(bundle, "proof.b") {
        Ok(text) => match checked_g2(text, "proof.b") {
            Ok(b) => b,
            Err(e) => {
                return Err(e);
            },
        },
        Err(e) => {
            return Err(e);
        },
    };
    match g1_field(bundle, "proof.c") {
        Ok(c) => Ok(Proof { a, b, c }),
        Err(e) => Err(e),
    }
}

/// Whether every point of a key is on its curve and in its subgroup.
fn key_is_valid(vk: &VerifyingKey, Ghost(bytes): Ghost<VerificationKeyBytes>) -> (valid: bool)
    requires
        bytes.names(*vk),
    ensures
        valid == key_valid(bytes@),
{
    if !(vk.alpha_g1.is_valid() && vk.beta_g2.is_valid() && vk.gamma_g2.is_valid()
        && vk.delta_g2.is_valid()) {
        return false;
    }
    let mut i: usize = 0;
    while i < vk.gamma_abc_g1.len()
        invariant
            i <= vk.gamma_abc_g1@.len(),
            bytes.names(*vk),
            forall|k: int| 0 <= k < i ==> g1_valid(g1_named(#[trigger] bytes@.ic[k])),
        decreases vk.gamma_abc_g1@.len() - i,
    {
        proof {
            assert(vk.gamma_abc_g1@[i as int]@ == g1_named(bytes@.ic[i as int]));
        }
        if !vk.gamma_abc_g1[i].is_valid() {
            assert(!g1_valid(g1_named(bytes@.ic[i as int])));
            return false;
        }
        i = i + 1;
    }
    true
}

/// The host takes the encoding of a valid G1 point that bytes name.
proof fn lemma_named_g1(bytes: Seq<u8>)
    requires
        g1_valid(g1_named(bytes)),
    ensures
        host_g1(g1_encoding(g1_named(bytes))),
        g1_encoding(g1_named(bytes)).len() == 96,
{
    lemma_g1_roundtrip(g1_named(bytes));
}

/// The host takes the encoding of a valid G2 point that bytes name.
proof fn lemma_named_g2(bytes: Seq<u8>)
    requires
        g2_valid(g2_named(bytes)),
    ensures
        host_g2(g2_encoding(g2_named(bytes))),
        g2_encoding(g2_named(bytes)).len() == 192,
{
    lemma_g2_roundtrip(g2_named(bytes));
}

/// The points of a bundle's proof are valid, and bytes name them.
proof fn lemma_proof_named(bundle: Map<Seq<char>, Seq<char>>)
    requires
        proof_of(bundle) is Ok,
    ensures
        ({
            let p = proof_of(bundle)->Ok_0;
            &&& host_g1(g1_encoding(p.a))
            &&& host_g2(g2_encoding(p.b))
            &&& host_g1(g1_encoding(p.c))
        }),
{
    let a = hex_decoded(encode_utf8(bundle["proof.a"@]))->Ok_0;
    let b = hex_decoded(encode_utf8(bundle["proof.b"@]))->Ok_0;
    let c = hex_decoded(encode_utf8(bundle["proof.c"@]))->Ok_0;
    lemma_named_g1(a);
    lemma_named_g2(b);
    lemma_named_g1(c);
}

/// The encodings of field elements.
fn encode_inputs(inputs: &Vec<Fr>) -> (encoded: Vec<[u8; 32]>)
    ensures
        encoded@.len() == inputs@.len(),
        all_canonical(byte_views(encoded@)),
        scalar_values(byte_views(encoded@)) == values(inputs@),
{
    let mut encoded: Vec<[u8; 32]> = Vec::new();
    let mut i: usize = 0;
    while i < inputs.len()
        invariant
            i <= inputs@.len(),
            encoded@.len() == i,
            forall|k: int|
                0 <= k < i ==> be_nat((#[trigger] encoded@[k])@) == inputs@[k].value()
                    && canonical_scalar(encoded@[k]@),
        decreases inputs@.len() - i,
    {
        let x: Fr = inputs[i];
        proof {
            use_type_invariant(&x);
        }
        encoded.push(fr_to_bytes(x));
        i = i + 1;
    }
    proof {
        assert forall|k: int| 0 <= k < encoded@.len() implies canonical_scalar(
            #[trigger] byte_views(encoded@)[k],
        ) by {
            assert(canonical_scalar(encoded@[k]@));
        }
        assert(scalar_values(byte_views(encoded@)) =~= values(inputs@));
    }
    encoded
}

/// Runs the Groth16 check on a statement.
fn holds_offline(
    vk: &VerifyingKey,
    proof: &Proof,
    inputs: &Vec<Fr>,
    Ghost(bytes): Ghost<VerificationKeyBytes>,
) -> (holds: bool)
    requires
        bytes.names(*vk),
        key_valid(bytes@),
        host_g1(g1_encoding(proof.a@)),
        host_g2(g2_encoding(proof.b@)),
        host_g1(g1_encoding(proof.c@)),
        bytes.ic@.len() == inputs@.len() + 1,
    ensures
        holds == groth16_equation(
            reencoded(bytes@),
            g1_encoding(proof.a@),
            g2_encoding(proof.b@),
            g1_encoding(proof.c@),
            values(inputs@),
        ),
{
    let key: VerificationKeyBytes = vk_to_bytes(vk);
    let key = VerificationKey {
        alpha: key.alpha,
        beta: key.beta,
        gamma: key.gamma,
        delta: key.delta,
        ic: key.ic,
    };
    let encoded = proof_to_bytes(proof);
    let proof = Groth16Proof { a: encoded.a, b: encoded.b, c: encoded.c };
    let inputs: Vec<[u8; 32]> = encode_inputs(inputs);
    proof {
        lemma_named_g1(bytes.alpha@);
        lemma_named_g2(bytes.beta@);
        lemma_named_g2(bytes.gamma@);
        lemma_named_g2(bytes.delta@);
        assert forall|i: int| 0 <= i < key.ic@.len() implies host_g1((#[trigger] key.ic@[i])@) by {
            assert(vk.gamma_abc_g1@[i]@ == g1_named(bytes@.ic[i]));
            assert(g1_valid(g1_named(bytes@.ic[i])));
            lemma_named_g1(bytes@.ic[i]);
        }
        assert forall|i: int| 0 <= i < key.ic@.len() implies #[trigger] key_parts(key).ic[i]
            == reencoded(bytes@).ic[i] by {
            assert(vk.gamma_abc_g1@[i]@ == g1_named(bytes@.ic[i]));
            assert(key.ic@[i]@ == g1_encoding(vk.gamma_abc_g1@[i]@));
        }
        assert(key_parts(key) =~= reencoded(bytes@));
    }
    ark_groth16_verify(&key, &proof, &inputs)
}

/// Checks a bundle against a verifying key, and says what came of it.
pub fn verify_bundle(vk: &VerificationKeyBytes, bundle: &Bundle) -> (report: Result<
    String,
    String,
>)
    ensures
        match report {
            Ok(said) => report_of(vk@, bundle@) == Ok::<Seq<char>, Seq<char>>(said@),
            Err(e) => report_of(vk@, bundle@) == Err::<Seq<char>, Seq<char>>(e@),
        },
{
    let key: VerifyingKey = vk_from_bytes(vk);
    let (circuit, inputs): (String, Vec<Fr>) = match statement(bundle) {
        Ok(stated) => stated,
        Err(e) => {
            return Err(e);
        },
    };
    if key.gamma_abc_g1.len() == 0 {
        return Err("vk has no IC points — wrong vk for this circuit?".to_owned());
    }
    if key.gamma_abc_g1.len() - 1 != inputs.len() {
        let mut out: Vec<char> = chars_of("vk expects ");
        append_text(&mut out, &to_decimal(key.gamma_abc_g1.len() as u128 - 1));
        append_str(&mut out, " public inputs, bundle has ");
        append_text(&mut out, &to_decimal(inputs.len() as u128));
        append_str(&mut out, " — wrong vk for this circuit?");
        return Err(string_of(&out));
    }
    let proof: Proof = match bundle_proof(bundle) {
        Ok(proof) => proof,
        Err(e) => {
            return Err(e);
        },
    };
    if !key_is_valid(&key, Ghost(*vk)) {
        return Err(
            "vk: not a valid key, a point is off-curve or in the wrong subgroup".to_owned(),
        );
    }
    proof {
        lemma_proof_named(bundle@);
    }
    if !holds_offline(&key, &proof, &inputs, Ghost(*vk)) {
        return Err("proof does NOT verify against this vk and these public inputs".to_owned());
    }
    let mut out: Vec<char> = chars_of("OK: ");
    append_str(&mut out, circuit.as_str());
    append_str(&mut out, " proof verifies (");
    append_text(&mut out, &to_decimal(inputs.len() as u128));
    append_str(&mut out, " public inputs)");
    Ok(string_of(&out))
}

/// The Groth16 check of a bundle that holds a statement passes just when a
/// verifier instance with the key accepts the statement.
proof fn lemma_as_on_chain(
    key: VerificationKey,
    proof: Groth16Proof,
    inputs: Seq<Seq<u8>>,
    circuit: Seq<char>,
    bundle: Map<Seq<char>, Seq<char>>,
)
    requires
        key_points_ok(key),
        proof_points_ok(proof),
        all_canonical(inputs),
        statement_of(bundle) == Ok::<(Seq<char>, Seq<nat>), Seq<char>>(
            (circuit, scalar_values(inputs)),
        ),
        proof_of(bundle) is Ok,
        proof_of(bundle)->Ok_0.a == g1_named(proof.a@),
        proof_of(bundle)->Ok_0.b == g2_named(proof.b@),
        proof_of(bundle)->Ok_0.c == g1_named(proof.c@),
    ensures
        report_of(key_parts(key), bundle) is Ok <==> verdict_under(key, proof, inputs) == Ok::<
            bool,
            VerifierTrap,
        >(true),
{
    let parts = key_parts(key);
    assert forall|i: int| 0 <= i < parts.ic.len() implies g1_valid(
        g1_named(#[trigger] parts.ic[i]),
    ) && parts.ic[i] == g1_encoding(g1_named(parts.ic[i])) by {
        assert(host_g1(key.ic@[i]@));
    }
    assert(reencoded(parts) =~= parts);
}

/// The hex digits of a canonical encoding spell its integer.
proof fn lemma_canonical_hex(bytes: Seq<u8>)
    requires
        canonical_scalar(bytes),
    ensures
        parsed_fr(hex_encoded(bytes)) == Ok::<nat, Seq<char>>(be_nat(bytes)),
{
    lemma_hex_roundtrip(bytes);
}

/// A field that spells a G1 point that the host takes names it.
proof fn lemma_g1_read_back(bundle: Map<Seq<char>, Seq<char>>, key: Seq<char>, bytes: Seq<u8>)
    requires
        bytes.len() == 96,
        g1_valid(g1_named(bytes)),
        field_of(bundle, key) == Ok::<Seq<char>, Seq<char>>(hex_encoded(bytes)),
    ensures
        g1_of(bundle, key) == Ok::<G1Point, Seq<char>>(g1_named(bytes)),
{
    lemma_hex_roundtrip(bytes);
}

/// A field that spells a G2 point that the host takes names it.
proof fn lemma_g2_read_back(bundle: Map<Seq<char>, Seq<char>>, key: Seq<char>, bytes: Seq<u8>)
    requires
        bytes.len() == 192,
        g2_valid(g2_named(bytes)),
        field_of(bundle, key) == Ok::<Seq<char>, Seq<char>>(hex_encoded(bytes)),
    ensures
        g2_of(bundle, key) == Ok::<G2Point, Seq<char>>(g2_named(bytes)),
{
    lemma_hex_roundtrip(bytes);
}

/// A bundle's proof fields name the points of the proof.
proof fn lemma_proof_read_back(bundle: Map<Seq<char>, Seq<char>>, proof: Groth16Proof)
    requires
        proof_points_ok(proof),
        field_of(bundle, "proof.a"@) == Ok::<Seq<char>, Seq<char>>(hex_encoded(proof.a@)),
        field_of(bundle, "proof.b"@) == Ok::<Seq<char>, Seq<char>>(hex_encoded(proof.b@)),
        field_of(bundle, "proof.c"@) == Ok::<Seq<char>, Seq<char>>(hex_encoded(proof.c@)),
    ensures
        proof_of(bundle) is Ok,
        proof_of(bundle)->Ok_0.a == g1_named(proof.a@),
        proof_of(bundle)->Ok_0.b == g2_named(proof.b@),
        proof_of(bundle)->Ok_0.c == g1_named(proof.c@),
{
    lemma_g1_read_back(bundle, "proof.a"@, proof.a@);
    lemma_g2_read_back(bundle, "proof.b"@, proof.b@);
    lemma_g1_read_back(bundle, "proof.c"@, proof.c@);
}

/// The public inputs of a written transfer bundle are read back.
proof fn lemma_transfer_read_back(bundle: TransferBundle, inputs: Seq<Seq<u8>>)
    requires
        bundle.nullifiers@.len() == 2,
        bundle.new_commitments@.len() == 2,
        inputs == transfer_inputs(
            bundle.root@,
            byte_views(bundle.nullifiers@),
            byte_views(bundle.new_commitments@),
        ),
        all_canonical(inputs),
        keys_differ(transfer_fields(bundle)),
    ensures
        statement_of(by_key(transfer_fields(bundle))) == Ok::<(Seq<char>, Seq<nat>), Seq<char>>(
            ("transfer"@, scalar_values(inputs)),
        ),
{
    let fields = transfer_fields(bundle);
    let read = by_key(fields);
    lemma_by_key(fields);
    reveal_strlit("nullifier.");
    reveal_strlit("nullifier.0");
    reveal_strlit("nullifier.1");
    reveal_strlit("new_commitment.");
    reveal_strlit("new_commitment.0");
    reveal_strlit("new_commitment.1");
    assert("nullifier."@ + decimal(0) =~= "nullifier.0"@);
    assert("nullifier."@ + decimal(1) =~= "nullifier.1"@);
    assert("new_commitment."@ + decimal(0) =~= "new_commitment.0"@);
    assert("new_commitment."@ + decimal(1) =~= "new_commitment.1"@);
    let keys = transfer_keys();
    assert forall|i: int| 0 <= i < 5 implies scalar_of(read, #[trigger] keys[i]) == Ok::<
        nat,
        Seq<char>,
    >(scalar_values(inputs)[i]) by {
        assert(fields[4 + i].0 == keys[i]);
        assert(fields[4 + i].1 == hex_encoded(inputs[i]));
        assert(canonical_scalar(inputs[i]));
        lemma_canonical_hex(inputs[i]);
    }
    lemma_scalars(read, keys, scalar_values(inputs));
    assert(fields[0].0 == "circuit"@);
}

/// **The offline check is the chain's, for transfers.** The check of a written
/// transfer bundle passes just when a verifier instance with the key accepts
/// the proof with the public inputs that the pool derives from the call.
pub proof fn lemma_transfer_checked_as_on_chain(
    path: Seq<char>,
    key: VerificationKey,
    proof: Groth16Proof,
    bundle: TransferBundle,
)
    requires
        key_points_ok(key),
        proof_points_ok(proof),
        bundle.proof.a@ == proof.a@,
        bundle.proof.b@ == proof.b@,
        bundle.proof.c@ == proof.c@,
        bundle.nullifiers@.len() == 2,
        bundle.new_commitments@.len() == 2,
        all_canonical(
            transfer_inputs(
                bundle.root@,
                byte_views(bundle.nullifiers@),
                byte_views(bundle.new_commitments@),
            ),
        ),
    ensures
        parsed_bundle(path, transfer_text(bundle)) matches Ok(read) && (report_of(
            key_parts(key),
            read,
        ) is Ok <==> verdict_under(
            key,
            proof,
            transfer_inputs(
                bundle.root@,
                byte_views(bundle.nullifiers@),
                byte_views(bundle.new_commitments@),
            ),
        ) == Ok::<bool, VerifierTrap>(true)),
{
    let inputs = transfer_inputs(
        bundle.root@,
        byte_views(bundle.nullifiers@),
        byte_views(bundle.new_commitments@),
    );
    let fields = transfer_fields(bundle);
    let read = by_key(fields);
    lemma_transfer_bundle_roundtrip(path, bundle);
    lemma_transfer_read_back(bundle, inputs);
    lemma_by_key(fields);
    assert(fields[1].0 == "proof.a"@ && fields[2].0 == "proof.b"@ && fields[3].0 == "proof.c"@);
    lemma_proof_read_back(read, proof);
    lemma_as_on_chain(key, proof, inputs, "transfer"@, read);
}

/// Fields that each hold a field element hold them all.
proof fn lemma_scalars(bundle: Map<Seq<char>, Seq<char>>, keys: Seq<Seq<char>>, xs: Seq<nat>)
    requires
        keys.len() == xs.len(),
        forall|i: int|
            0 <= i < keys.len() ==> scalar_of(bundle, #[trigger] keys[i]) == Ok::<
                nat,
                Seq<char>,
            >(xs[i]),
    ensures
        scalars_of(bundle, keys, keys.len()) == Ok::<Seq<nat>, Seq<char>>(xs),
{
    lemma_first_scalars(bundle, keys, xs, keys.len());
    assert(xs.take(keys.len() as int) =~= xs);
}

proof fn lemma_first_scalars(
    bundle: Map<Seq<char>, Seq<char>>,
    keys: Seq<Seq<char>>,
    xs: Seq<nat>,
    n: nat,
)
    requires
        n <= keys.len() == xs.len(),
        forall|i: int|
            0 <= i < keys.len() ==> scalar_of(bundle, #[trigger] keys[i]) == Ok::<
                nat,
                Seq<char>,
            >(xs[i]),
    ensures
        scalars_of(bundle, keys, n) == Ok::<Seq<nat>, Seq<char>>(xs.take(n as int)),
    decreases n,
{
    if n == 0 {
        assert(xs.take(0) =~= Seq::<nat>::empty());
    } else {
        lemma_first_scalars(bundle, keys, xs, (n - 1) as nat);
        assert(scalar_of(bundle, keys[n - 1]) == Ok::<nat, Seq<char>>(xs[n - 1]));
        assert(xs.take(n as int) =~= xs.take(n - 1).push(xs[n - 1]));
    }
}

/// The public inputs of a written withdraw bundle are read back.
proof fn lemma_withdraw_read_back(bundle: WithdrawBundle, inputs: Seq<Seq<u8>>)
    requires
        inputs == seq![
            bundle.root@,
            bundle.nullifier@,
            bundle.recipient_binding@,
            fr_encoding(bundle.amount as nat),
        ],
        all_canonical(inputs),
        keys_differ(withdraw_fields(bundle)),
    ensures
        statement_of(by_key(withdraw_fields(bundle))) == Ok::<(Seq<char>, Seq<nat>), Seq<char>>(
            ("withdraw"@, scalar_values(inputs)),
        ),
{
    let fields = withdraw_fields(bundle);
    let read = by_key(fields);
    lemma_by_key(fields);
    let keys = withdraw_keys();
    let scalars = scalar_values(inputs);
    assert forall|i: int| 0 <= i < 3 implies scalar_of(read, #[trigger] keys[i]) == Ok::<
        nat,
        Seq<char>,
    >(scalars.take(3)[i]) by {
        assert(fields[4 + i].0 == keys[i]);
        assert(fields[4 + i].1 == hex_encoded(inputs[i]));
        assert(canonical_scalar(inputs[i]));
        lemma_canonical_hex(inputs[i]);
    }
    lemma_scalars(read, keys, scalars.take(3));
    assert(fields[0].0 == "circuit"@ && fields[0].1 == "withdraw"@);
    assert(fields[7].0 == "amount"@ && fields[7].1 == decimal(bundle.amount as nat));
    assert("withdraw"@ != "transfer"@) by {
        reveal_strlit("transfer");
        reveal_strlit("withdraw");
        assert("withdraw"@[0] != "transfer"@[0]);
    }
    lemma_decimal_roundtrip(bundle.amount as nat, u64::MAX as nat);
    assert(be_nat(fr_encoding(bundle.amount as nat)) == bundle.amount) by {
        crate::bytes::lemma_pow256_sizes();
        crate::bytes::lemma_be_bytes(bundle.amount as nat, 32);
    }
    assert(scalars =~= scalars.take(3).push(bundle.amount as nat));
}

/// **The offline check is the chain's, for withdrawals.** The check of a written
/// withdraw bundle whose binding is that of the payout address passes just when
/// a verifier instance with the key accepts the proof with the public inputs
/// that the pool derives from the call.
pub proof fn lemma_withdraw_checked_as_on_chain(
    path: Seq<char>,
    key: VerificationKey,
    proof: Groth16Proof,
    bundle: WithdrawBundle,
    to: Seq<u8>,
)
    requires
        key_points_ok(key),
        proof_points_ok(proof),
        bundle.proof.a@ == proof.a@,
        bundle.proof.b@ == proof.b@,
        bundle.proof.c@ == proof.c@,
        bundle.recipient_binding@ == binding_of(to),
        all_canonical(
            withdraw_inputs(bundle.root@, bundle.nullifier@, to, bundle.amount as nat),
        ),
    ensures
        parsed_bundle(path, withdraw_text(bundle)) matches Ok(read) && (report_of(
            key_parts(key),
            read,
        ) is Ok <==> verdict_under(
            key,
            proof,
            withdraw_inputs(bundle.root@, bundle.nullifier@, to, bundle.amount as nat),
        ) == Ok::<bool, VerifierTrap>(true)),
{
    let inputs = withdraw_inputs(bundle.root@, bundle.nullifier@, to, bundle.amount as nat);
    let fields = withdraw_fields(bundle);
    let read = by_key(fields);
    lemma_withdraw_bundle_roundtrip(path, bundle);
    lemma_withdraw_read_back(bundle, inputs);
    lemma_by_key(fields);
    assert(fields[1].0 == "proof.a"@ && fields[2].0 == "proof.b"@ && fields[3].0 == "proof.c"@);
    lemma_proof_read_back(read, proof);
    lemma_as_on_chain(key, proof, inputs, "withdraw"@, read);
}

} // verus!
