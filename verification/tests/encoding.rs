//! Byte encodings of scalars, points, proofs and keys.

use ark_ec::{AffineRepr, PrimeGroup};
use ark_ff::{BigInteger, PrimeField, UniformRand};
use attesta::artifacts::vk_from_bytes;
use attesta::curve::{Fq2, G1Affine, G2Affine};
use attesta::encoding::{
    fr_from_bytes, fr_to_bytes, g1_from_bytes, g1_to_bytes, g2_from_bytes, g2_to_bytes,
    proof_to_bytes, vk_to_bytes, Proof, VerifyingKey,
};
use attesta::field::{Fq, Fr};
use attesta::hex_codec::{decode, encode, HexFault};
use attesta::interfaces::fr::{is_canonical, FR_MINUS_ONE};
use rand_chacha::rand_core::SeedableRng;
use std::ops::Neg;

// The standard uncompressed generator encodings, as documented for the
// Soroban host functions and the IETF BLS suites.
const G1_GEN_HEX: &str = "17f1d3a73197d7942695638c4fa9ac0fc3688c4f9774b905a14e3a3f171bac586c55e83ff97a1aeffb3af00adb22c6bb08b3f481e3aaa0f1a09e30ed741d8ae4fcf5e095d5d00af600db18cb2c04b3edd03cc744a2888ae40caa232946c5e7e1";
const G2_GEN_HEX: &str = "13e02b6052719f607dacd3a088274f65596bd0d09920b61ab5da61bbdc7f5049334cf11213945d57e5ac7d055d042b7e024aa2b2f08f0a91260805272dc51051c6e47ad4fa403b02b4510b647ae3d1770bac0326a805bbefd48056c8c121bdb80606c4a02ea734cc32acd2b02bc28b99cb3e287e85a763af267492ab572e99ab3f370d275cec1da1aaa9075ff05f79be0ce5d527727d6e118cc9cdc6da2e351aadfd9baa8cbdd3a76d429a695160d12c923ac9cc3baca289e193548608b82801";

fn fq(x: ark_bls12_381::Fq) -> Fq {
    let bytes: [u8; 48] = x.into_bigint().to_bytes_be().try_into().unwrap();
    Fq::from_be_bytes_mod_order(&bytes)
}

fn fr(x: ark_bls12_381::Fr) -> Fr {
    let bytes: [u8; 32] = x.into_bigint().to_bytes_be().try_into().unwrap();
    Fr::from_be_bytes_mod_order(&bytes)
}

fn g1(p: ark_bls12_381::G1Affine) -> G1Affine {
    G1Affine {
        x: fq(p.x),
        y: fq(p.y),
        infinity: p.infinity,
    }
}

fn g2(p: ark_bls12_381::G2Affine) -> G2Affine {
    G2Affine {
        x: Fq2 {
            c0: fq(p.x.c0),
            c1: fq(p.x.c1),
        },
        y: Fq2 {
            c0: fq(p.y.c0),
            c1: fq(p.y.c1),
        },
        infinity: p.infinity,
    }
}

#[test]
fn g1_generator_matches_host_encoding() {
    let p = g1(ark_bls12_381::G1Affine::generator());
    assert_eq!(hex::encode(g1_to_bytes(&p)), G1_GEN_HEX);
}

#[test]
fn g2_generator_matches_host_encoding() {
    let p = g2(ark_bls12_381::G2Affine::generator());
    assert_eq!(hex::encode(g2_to_bytes(&p)), G2_GEN_HEX);
}

#[test]
fn infinity_sets_flag_bit() {
    let g1 = g1_to_bytes(&G1Affine::identity());
    assert_eq!(g1[0], 0x40);
    assert!(g1[1..].iter().all(|b| *b == 0));
    let g2 = g2_to_bytes(&G2Affine::identity());
    assert_eq!(g2[0], 0x40);
    assert!(g2[1..].iter().all(|b| *b == 0));
}

#[test]
fn random_points_roundtrip() {
    let mut rng = rand_chacha::ChaCha20Rng::seed_from_u64(7);
    for _ in 0..32 {
        let s = ark_bls12_381::Fr::rand(&mut rng);
        let p = g1((ark_bls12_381::G1Projective::generator() * s).into());
        let q = g2((ark_bls12_381::G2Projective::generator() * s).into());
        let s = fr(s);
        assert_eq!(g1_from_bytes(&g1_to_bytes(&p)), p);
        assert_eq!(g2_from_bytes(&g2_to_bytes(&q)), q);
        assert_eq!(fr_from_bytes(&fr_to_bytes(s)), s);
    }
    assert_eq!(
        g1_from_bytes(&g1_to_bytes(&G1Affine::identity())),
        G1Affine::identity()
    );
    assert_eq!(
        g2_from_bytes(&g2_to_bytes(&G2Affine::identity())),
        G2Affine::identity()
    );
}

#[test]
fn fr_roundtrip_and_boundaries() {
    let one = fr_to_bytes(Fr::from(1u64));
    let mut expected = [0u8; 32];
    expected[31] = 1;
    assert_eq!(one, expected);

    let x = fr(ark_bls12_381::Fr::from(0xdeadbeefu64).neg());
    assert_eq!(fr_from_bytes(&fr_to_bytes(x)), x);
}

#[test]
fn curve_membership_is_checked() {
    let p = g1(ark_bls12_381::G1Affine::generator());
    let q = g2(ark_bls12_381::G2Affine::generator());
    assert!(p.is_valid());
    assert!(q.is_valid());
    assert!(G1Affine::identity().is_valid());
    assert!(G2Affine::identity().is_valid());
    // Off the curve.
    assert!(!G1Affine { y: p.x, ..p }.is_valid());
    assert!(!G2Affine { y: q.x, ..q }.is_valid());
}

#[test]
fn subgroup_membership_is_checked() {
    // On the curve, outside of the subgroup.
    let mut x = ark_bls12_381::Fq::from(0u64);
    let p = loop {
        if let Some(p) = ark_bls12_381::G1Affine::get_point_from_x_unchecked(x, false) {
            if !p.is_in_correct_subgroup_assuming_on_curve() {
                break p;
            }
        }
        x += ark_bls12_381::Fq::from(1u64);
    };
    assert!(p.is_on_curve());
    assert!(!g1(p).is_valid());

    let mut x = ark_bls12_381::Fq2::new(0u64.into(), 0u64.into());
    let q = loop {
        if let Some(q) = ark_bls12_381::G2Affine::get_point_from_x_unchecked(x, false) {
            if !q.is_in_correct_subgroup_assuming_on_curve() {
                break q;
            }
        }
        x.c0 += ark_bls12_381::Fq::from(1u64);
    };
    assert!(q.is_on_curve());
    assert!(!g2(q).is_valid());
}

#[test]
fn proofs_and_keys_encode_pointwise() {
    let p = g1(ark_bls12_381::G1Affine::generator());
    let q = g2(ark_bls12_381::G2Affine::generator());
    let inf = G1Affine::identity();
    let encoded = proof_to_bytes(&Proof { a: p, b: q, c: inf });
    assert_eq!(encoded.a, g1_to_bytes(&p));
    assert_eq!(encoded.b, g2_to_bytes(&q));
    assert_eq!(encoded.c, g1_to_bytes(&inf));

    let vk = VerifyingKey {
        alpha_g1: p,
        beta_g2: q,
        gamma_g2: q,
        delta_g2: G2Affine::identity(),
        gamma_abc_g1: vec![inf, p],
    };
    let bytes = vk_to_bytes(&vk);
    assert_eq!(bytes.ic, vec![g1_to_bytes(&inf), g1_to_bytes(&p)]);
    assert_eq!(bytes.delta[0], 0x40);
    // And back.
    let again = vk_to_bytes(&vk_from_bytes(&bytes));
    assert_eq!(again.alpha, bytes.alpha);
    assert_eq!(again.beta, bytes.beta);
    assert_eq!(again.gamma, bytes.gamma);
    assert_eq!(again.delta, bytes.delta);
    assert_eq!(again.ic, bytes.ic);
}

#[test]
fn canonical_scalars_end_below_the_order() {
    assert!(is_canonical(&[0u8; 32]));
    assert!(is_canonical(&FR_MINUS_ONE));
    let mut order = FR_MINUS_ONE;
    order[31] = 1;
    assert!(!is_canonical(&order));
    assert!(!is_canonical(&[0xff; 32]));
    let mut just_below = FR_MINUS_ONE;
    just_below[0] -= 1;
    just_below[31] = 0xff;
    assert!(is_canonical(&just_below));
    // Non-canonical bytes name a reduced scalar.
    assert_eq!(fr_from_bytes(&order), Fr::zero());
}

#[test]
fn hex_goes_both_ways() {
    assert_eq!(encode(&[0x00, 0x7f, 0xab]), "007fab");
    assert_eq!(decode("007FaB"), Ok(vec![0x00, 0x7f, 0xab]));
    assert_eq!(decode(""), Ok(vec![]));
    assert_eq!(decode("abc"), Err(HexFault::OddLength));
    assert_eq!(
        decode("0g"),
        Err(HexFault::InvalidHexCharacter { c: 'g', index: 1 })
    );
    // An odd length is reported before a bad digit.
    assert_eq!(decode("zzz"), Err(HexFault::OddLength));
}
