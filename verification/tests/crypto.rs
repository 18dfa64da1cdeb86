//! Field arithmetic, the hash, notes and trees.

use ark_crypto_primitives::sponge::poseidon::{
    find_poseidon_ark_and_mds, PoseidonConfig, PoseidonSponge,
};
use ark_crypto_primitives::sponge::CryptographicSponge;
use ark_ff::{BigInteger, Field, PrimeField};
use attesta::circuit::Circuit;
use attesta::field::{Fq, Fr};
use attesta::merkle::gadget as merkle_gadget;
use attesta::merkle::{compute_root, MerklePath, MerkleTree};
use attesta::note::gadget as note_gadget;
use attesta::note::{derive_nullifier, derive_pk, Note, DOMAIN_NF};
use attesta::poseidon::gadget as poseidon_gadget;
use attesta::poseidon::{
    hash2, is_injective, parameters, permute, FULL_ROUNDS, PARTIAL_ROUNDS,
};

type ArkFr = ark_bls12_381::Fr;

fn ark(x: Fr) -> ArkFr {
    ArkFr::from_be_bytes_mod_order(&x.to_be_bytes())
}

fn own(x: ArkFr) -> Fr {
    let bytes: [u8; 32] = x.into_bigint().to_bytes_be().try_into().unwrap();
    Fr::from_be_bytes_mod_order(&bytes)
}

/// The order of the scalar field minus one.
fn minus_one() -> Fr {
    own(-ArkFr::from(1u64))
}

// ── the field ───────────────────────────────────────────────────────────

#[test]
fn field_sums_and_products_wrap_at_the_order() {
    let m = minus_one();
    assert_eq!(m.plus(&Fr::from(1u64)), Fr::zero());
    assert_eq!(m.plus(&Fr::from(8u64)), Fr::from(7u64));
    assert_eq!(m.times(&m), Fr::from(1u64));
    assert_eq!(Fr::from(6u64).times(&Fr::from(7u64)), Fr::from(42u64));
    assert_eq!(m.times(&Fr::from(2u64)), own(-ArkFr::from(2u64)));
}

#[test]
fn field_powers_match_repeated_products() {
    let x = Fr::from(3u64);
    assert_eq!(x.pow(0), Fr::from(1u64));
    assert_eq!(x.pow(5), Fr::from(243u64));
    assert_eq!(minus_one().pow(5), minus_one());
    assert_eq!(minus_one().pow(2), Fr::from(1u64));
}

#[test]
fn field_bytes_are_big_endian_and_reduced() {
    let mut bytes = [0u8; 32];
    bytes[30] = 1;
    bytes[31] = 2;
    assert_eq!(Fr::from_be_bytes_mod_order(&bytes), Fr::from(258u64));
    assert_eq!(Fr::from(258u64).to_be_bytes(), bytes);
    // The order itself is zero.
    let mut order = minus_one().to_be_bytes();
    order[31] += 1;
    assert_eq!(Fr::from_be_bytes_mod_order(&order), Fr::zero());

    let mut wide = [0u8; 48];
    wide[46] = 1;
    wide[47] = 2;
    assert_eq!(Fq::from_be_bytes_mod_order(&wide).to_be_bytes(), wide);
    // All ones is above the order of the base field.
    assert_ne!(Fq::from_be_bytes_mod_order(&[0xff; 48]).to_be_bytes(), [0xff; 48]);
}

// ── the hash ────────────────────────────────────────────────────────────

#[test]
fn parameters_have_expected_shape() {
    let p = parameters();
    assert_eq!(p.ark.len(), FULL_ROUNDS + PARTIAL_ROUNDS);
}

#[test]
fn hash2_is_deterministic_and_asymmetric() {
    let a = Fr::from(7u64);
    let b = Fr::from(11u64);
    assert_eq!(hash2(a, b), hash2(a, b));
    assert_ne!(hash2(a, b), hash2(b, a));
    assert_ne!(hash2(a, b), hash2(a, a));
}

#[test]
fn permutation_matches_the_sponge() {
    let (rounds, mds) = find_poseidon_ark_and_mds::<ArkFr>(255, 2, 8, 57, 0);
    let config = PoseidonConfig::new(8, 57, 5, mds, rounds, 2, 1);
    for (l, r) in [(7u64, 11u64), (0, 0), (123456789, 987654321)] {
        let mut sponge = PoseidonSponge::new(&config);
        sponge.absorb(&vec![ArkFr::from(l), ArkFr::from(r)]);
        let squeezed: Vec<ArkFr> = sponge.squeeze_field_elements(2);
        let out = permute([Fr::zero(), Fr::from(l), Fr::from(r)]);
        assert_eq!(ark(out[1]), squeezed[0]);
        assert_eq!(ark(out[2]), squeezed[1]);
        assert_eq!(out[0], hash2(Fr::from(l), Fr::from(r)));
    }
}

#[test]
fn the_permutation_keeps_states_apart() {
    // The determinant of the instance's matrix is not zero.
    let m = parameters().mds;
    let e = |i: usize, j: usize| ark(m[i][j]);
    let det = e(0, 0) * (e(1, 1) * e(2, 2) - e(1, 2) * e(2, 1))
        - e(0, 1) * (e(1, 0) * e(2, 2) - e(1, 2) * e(2, 0))
        + e(0, 2) * (e(1, 0) * e(2, 1) - e(1, 1) * e(2, 0));
    assert_ne!(det, ArkFr::from(0u64));
    assert!(is_injective());

    // The inverse of the S-box exponent takes fifth powers back.
    let inverse: [u64; 4] = [
        0x33333332cccccccd,
        0x217f0e679998f199,
        0xe14a56699d73f002,
        0x2e5f0fbadd72321c,
    ];
    for x in [0u64, 1, 2, 77] {
        let fifth = ark(Fr::from(x).pow(5));
        assert_eq!(fifth.pow(inverse), ArkFr::from(x));
    }

    let mut seen = Vec::new();
    for x in 0..5u64 {
        for y in 0..5u64 {
            let out = permute([Fr::from(x), Fr::from(y), minus_one()]);
            assert!(!seen.contains(&out));
            seen.push(out);
        }
    }
}

#[test]
fn poseidon_gadget_matches_native() {
    let l = Fr::from(123456789u64);
    let r = Fr::from(987654321u64);
    let mut cs = Circuit::new();
    let lv = cs.new_witness(Some(l));
    let rv = cs.new_witness(Some(r));
    let hv = poseidon_gadget::hash2(&mut cs, lv, rv);
    assert_eq!(cs.value(hv).unwrap(), hash2(l, r));
    assert!(cs.is_satisfied().unwrap());
}

// ── notes ───────────────────────────────────────────────────────────────

fn sample_note(sk: Fr) -> Note {
    Note {
        value: 1_000_000,
        owner_pk: derive_pk(sk),
        blinding: Fr::from(42u64),
    }
}

#[test]
fn commitment_hides_nothing_leaks_nothing_trivially() {
    let sk = Fr::from(1234u64);
    let note = sample_note(sk);
    let mut other = note;
    other.blinding = Fr::from(43u64);
    // Same value and owner, different blinding: different commitment.
    assert_ne!(note.commitment(), other.commitment());
}

#[test]
fn commitment_is_two_nested_hashes() {
    let note = sample_note(Fr::from(1234u64));
    let inner = hash2(Fr::from(1_000_000u64), derive_pk(Fr::from(1234u64)));
    assert_eq!(note.commitment(), hash2(inner, Fr::from(42u64)));
    assert_eq!(derive_pk(Fr::from(5u64)), hash2(Fr::from(1u64), Fr::from(5u64)));
}

#[test]
fn commitments_bind_every_field() {
    let note = sample_note(Fr::from(1234u64));
    let richer = Note { value: 1_000_001, ..note };
    let stolen = Note { owner_pk: derive_pk(Fr::from(1235u64)), ..note };
    assert_ne!(note.commitment(), richer.commitment());
    assert_ne!(note.commitment(), stolen.commitment());
}

#[test]
fn nullifiers_are_unique_per_leaf_and_key() {
    let sk = Fr::from(1234u64);
    assert_ne!(derive_nullifier(sk, 0), derive_nullifier(sk, 1));
    assert_ne!(
        derive_nullifier(sk, 0),
        derive_nullifier(Fr::from(5678u64), 0)
    );
    // One note, one nullifier.
    assert_eq!(
        derive_nullifier(sk, 3),
        hash2(hash2(Fr::from(2u64), sk), Fr::from(3u64))
    );
}

#[test]
fn pk_and_nf_domains_are_separated() {
    let sk = Fr::from(1234u64);
    // The derivation of a public key and the inner nullifier hash differ on
    // the domain tag, so knowing pk reveals nothing about nullifiers.
    assert_ne!(derive_pk(sk), hash2(Fr::from(DOMAIN_NF), sk));
}

#[test]
fn gadgets_match_native() {
    let sk = Fr::from(99u64);
    let note = sample_note(sk);
    let leaf_index = 7u64;

    let mut cs = Circuit::new();
    let sk_v = cs.new_witness(Some(sk));
    let value_v = cs.new_witness(Some(Fr::from(note.value)));
    let blind_v = cs.new_witness(Some(note.blinding));
    let idx_v = cs.new_witness(Some(Fr::from(leaf_index)));

    let pk_v = note_gadget::derive_pk(&mut cs, sk_v);
    assert_eq!(cs.value(pk_v).unwrap(), note.owner_pk);

    let cm_v = note_gadget::commitment(&mut cs, value_v, pk_v, blind_v);
    assert_eq!(cs.value(cm_v).unwrap(), note.commitment());

    let nf_v = note_gadget::nullifier(&mut cs, sk_v, idx_v);
    assert_eq!(cs.value(nf_v).unwrap(), derive_nullifier(sk, leaf_index));

    assert!(cs.is_satisfied().unwrap());
}

// ── trees ───────────────────────────────────────────────────────────────

#[test]
fn empty_root_matches_zero_chain() {
    let tree = MerkleTree::new(4);
    let mut z = Fr::from(0u64);
    for _ in 0..4 {
        z = hash2(z, z);
    }
    assert_eq!(tree.root(), z);
    assert_eq!(tree.size(), 0);
}

#[test]
fn paths_verify_and_roots_evolve() {
    let mut tree = MerkleTree::new(4);
    let mut roots = Vec::new();
    for i in 0..5u64 {
        tree.insert(Fr::from(100 + i));
        roots.push(tree.root());
    }
    // All roots distinct.
    for i in 0..roots.len() {
        for j in 0..i {
            assert_ne!(roots[i], roots[j]);
        }
    }
    // Every inserted leaf's path verifies against the final root.
    for i in 0..5u64 {
        let path = tree.path(i);
        assert_eq!(compute_root(Fr::from(100 + i), &path), tree.root());
    }
    // A wrong leaf does not.
    let path = tree.path(2);
    assert_ne!(compute_root(Fr::from(999u64), &path), tree.root());
}

#[test]
fn root_of_two_leaves_is_written_out() {
    let mut tree = MerkleTree::new(2);
    assert_eq!(tree.insert(Fr::from(5u64)), 0);
    assert_eq!(tree.insert(Fr::from(6u64)), 1);
    let zero = Fr::zero();
    let left = hash2(Fr::from(5u64), Fr::from(6u64));
    assert_eq!(tree.root(), hash2(left, hash2(zero, zero)));
    let path = tree.path(1);
    assert_eq!(path.leaf_index, 1);
    assert_eq!(path.siblings, vec![Fr::from(5u64), hash2(zero, zero)]);
    // A full tree still answers.
    tree.insert(Fr::from(7u64));
    tree.insert(Fr::from(8u64));
    assert_eq!(tree.size(), 4);
    assert_eq!(
        tree.root(),
        hash2(left, hash2(Fr::from(7u64), Fr::from(8u64)))
    );
}

#[test]
fn path_without_siblings_is_the_leaf() {
    let path = MerklePath { siblings: vec![], leaf_index: 0 };
    assert_eq!(compute_root(Fr::from(3u64), &path), Fr::from(3u64));
}

#[test]
fn merkle_gadget_matches_native() {
    let mut tree = MerkleTree::new(4);
    for i in 0..3u64 {
        tree.insert(Fr::from(7 * (i + 1)));
    }
    let index = 1u64;
    let leaf = Fr::from(14u64);
    let path = tree.path(index);

    let mut cs = Circuit::new();
    let leaf_v = cs.new_witness(Some(leaf));
    let siblings: Vec<_> = path
        .siblings
        .iter()
        .map(|s| cs.new_witness(Some(*s)))
        .collect();
    let bits: Vec<_> = (0..4)
        .map(|i| cs.new_bit(Some((index >> i) & 1 == 1)))
        .collect();
    let root_v = merkle_gadget::compute_root(&mut cs, leaf_v, &siblings, &bits);
    assert_eq!(cs.value(root_v).unwrap(), tree.root());
    assert!(cs.is_satisfied().unwrap());
}
