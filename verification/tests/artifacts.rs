//! Proving-key artifacts.

use ark_bls12_381::{Bls12_381, G1Affine, G2Affine};
use ark_ec::AffineRepr;
use ark_serialize::CanonicalSerialize;
use attesta::artifacts::proving_key;

fn sample() -> ark_groth16::ProvingKey<Bls12_381> {
    let (g1, g2) = (G1Affine::generator(), G2Affine::generator());
    ark_groth16::ProvingKey {
        vk: ark_groth16::VerifyingKey {
            alpha_g1: g1,
            beta_g2: g2,
            gamma_g2: g2,
            delta_g2: G2Affine::zero(),
            gamma_abc_g1: vec![g1, G1Affine::zero(), g1],
        },
        beta_g1: g1,
        delta_g1: g1,
        a_query: vec![g1; 2],
        b_g1_query: vec![],
        b_g2_query: vec![g2; 3],
        h_query: vec![g1],
        l_query: vec![g1; 4],
    }
}

fn bytes(key: &ark_groth16::ProvingKey<Bls12_381>) -> Vec<u8> {
    let mut data = Vec::new();
    key.serialize_compressed(&mut data).unwrap();
    data
}

#[test]
fn proving_keys_are_read_back() {
    let key = sample();
    let mut data = bytes(&key);
    assert!(proving_key(&data).ok().unwrap().key == key);
    // What follows the key is not looked at.
    data.push(7);
    assert!(proving_key(&data).ok().unwrap().key == key);
}

#[test]
fn bad_proving_keys_are_refused() {
    let invalid = "the input buffer contained invalid data";
    let data = bytes(&sample());
    // A point is cut off, or a list is longer than what is left.
    for n in [0, 8, 335, 400, data.len() - 1] {
        assert_eq!(proving_key(&data[..n].to_vec()).err().unwrap(), invalid);
    }
    // The length of a list is cut off.
    for n in [336, 343, 344 + 3 * 48 + 96] {
        let text = proving_key(&data[..n].to_vec()).err().unwrap();
        assert!(text.starts_with("I/O error: "));
    }
    // The first point is uncompressed, off the curve, or no coordinate.
    let mut flags = data.clone();
    flags[0] &= 0x7f;
    assert_eq!(
        proving_key(&flags).err().unwrap(),
        "the call expects empty flags"
    );
    let mut point = data.clone();
    point[1..48].fill(0xff);
    point[0] |= 0x1f;
    assert_eq!(proving_key(&point).err().unwrap(), invalid);
}

#[test]
fn announced_lengths_do_not_overwhelm() {
    let data = bytes(&sample());
    let mut long = data.clone();
    long[336..344].fill(0xff);
    assert_eq!(
        proving_key(&long).err().unwrap(),
        "the input buffer contained invalid data"
    );
    let mut longer = data.clone();
    longer[336] = 0xff;
    assert!(proving_key(&longer).is_err());
}
