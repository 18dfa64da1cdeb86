//! A verifier instance on the host.

use attesta::interfaces::fr::FR_MINUS_ONE;
use attesta::interfaces::{Groth16Proof, VerificationKey, Verifier, VerifierTrap};
use attesta::zk_verifier::{host_takes_g1, host_takes_g2, VerifierError, ZkVerifier};
use soroban_sdk::testutils::EnvTestConfig;
use soroban_sdk::{Bytes, Env};

fn env() -> Env {
    let env = Env::new_with_config(EnvTestConfig {
        capture_snapshot_at_drop: false,
    });
    env.cost_estimate().budget().reset_unlimited();
    env
}

/// Structurally valid (on-curve, in-subgroup) points via hash-to-curve. They
/// satisfy the encoding checks of the host functions but are not a real proof
/// or key, so verification must return false.
fn arbitrary_g1(env: &Env, seed: &[u8]) -> [u8; 96] {
    let dst = Bytes::from_slice(env, b"ATTESTA_TEST_G1");
    let msg = Bytes::from_slice(env, seed);
    env.crypto()
        .bls12_381()
        .hash_to_g1(&msg, &dst)
        .to_bytes()
        .to_array()
}

fn arbitrary_g2(env: &Env, seed: &[u8]) -> [u8; 192] {
    let dst = Bytes::from_slice(env, b"ATTESTA_TEST_G2");
    let msg = Bytes::from_slice(env, seed);
    env.crypto()
        .bls12_381()
        .hash_to_g2(&msg, &dst)
        .to_bytes()
        .to_array()
}

fn test_vk(env: &Env, num_inputs: u8) -> VerificationKey {
    VerificationKey {
        alpha: arbitrary_g1(env, b"alpha"),
        beta: arbitrary_g2(env, b"beta"),
        gamma: arbitrary_g2(env, b"gamma"),
        delta: arbitrary_g2(env, b"delta"),
        ic: (0..=num_inputs)
            .map(|i| arbitrary_g1(env, &[b'i', b'c', i]))
            .collect(),
    }
}

fn test_proof(env: &Env) -> Groth16Proof {
    Groth16Proof {
        a: arbitrary_g1(env, b"proof-a"),
        b: arbitrary_g2(env, b"proof-b"),
        c: arbitrary_g1(env, b"proof-c"),
    }
}

#[test]
fn checks_are_not_metered() {
    // The default budget pays for one check only.
    let env = Env::new_with_config(EnvTestConfig {
        capture_snapshot_at_drop: false,
    });
    let mut g1 = [0u8; 96];
    g1[0] = 0x40;
    let mut g2 = [0u8; 192];
    g2[0] = 0x40;
    let key = VerificationKey {
        alpha: g1,
        beta: g2,
        gamma: g2,
        delta: g2,
        ic: vec![g1; 120],
    };
    let proof = Groth16Proof {
        a: g1,
        b: g2,
        c: g1,
    };
    let verifier = ZkVerifier::new("wide".to_string(), key).unwrap();
    for n in 0..4u8 {
        assert_eq!(verifier.verify(&env, &proof, &vec![[n; 32]; 119]), Ok(true));
    }
}

#[test]
fn vk_is_pinned_at_construction() {
    let env = env();
    let verifier = ZkVerifier::new("transfer".to_string(), test_vk(&env, 2)).unwrap();
    assert_eq!(verifier.circuit_id(), "transfer");
    assert_eq!(*verifier.vk(), test_vk(&env, 2));
}

#[test]
fn rejects_empty_verifying_key() {
    let env = env();
    let vk = VerificationKey {
        alpha: arbitrary_g1(&env, b"alpha"),
        beta: arbitrary_g2(&env, b"beta"),
        gamma: arbitrary_g2(&env, b"gamma"),
        delta: arbitrary_g2(&env, b"delta"),
        ic: vec![],
    };
    let err = ZkVerifier::new("transfer".to_string(), vk).unwrap_err();
    assert_eq!(err, VerifierError::MalformedKey);
    assert_eq!(err.code(), 2);
}

#[test]
fn invalid_proof_is_rejected() {
    let env = env();
    let verifier = ZkVerifier::new("transfer".to_string(), test_vk(&env, 1)).unwrap();
    let inputs = vec![[7u8; 32]];
    // Arbitrary points cannot satisfy the pairing equation.
    assert_eq!(
        verifier.verify(&env, &test_proof(&env), &inputs),
        Ok(false)
    );
}

#[test]
fn input_length_mismatch_panics() {
    let env = env();
    let verifier = ZkVerifier::new("withdraw".to_string(), test_vk(&env, 2)).unwrap();
    // The key expects 2 public inputs; supply 1.
    let inputs = vec![[1u8; 32]];
    let trap = verifier.verify(&env, &test_proof(&env), &inputs).unwrap_err();
    assert_eq!(trap, VerifierTrap::Error(VerifierError::InputLengthMismatch));
    assert_eq!(VerifierError::InputLengthMismatch.code(), 1);
}

#[test]
fn non_canonical_input_is_rejected() {
    let env = env();
    let verifier = ZkVerifier::new("transfer".to_string(), test_vk(&env, 1)).unwrap();
    // The group order r itself: one more than the largest canonical scalar.
    // The host would reduce it to 0, so a proof for input 0 would verify under
    // both encodings.
    let mut r = FR_MINUS_ONE;
    r[31] = 0x01;
    let inputs = vec![r];
    let trap = verifier.verify(&env, &test_proof(&env), &inputs).unwrap_err();
    assert_eq!(trap, VerifierTrap::Error(VerifierError::NonCanonicalInput));
    assert_eq!(VerifierError::NonCanonicalInput.code(), 3);
}

#[test]
fn largest_canonical_input_is_accepted() {
    let env = env();
    let verifier = ZkVerifier::new("transfer".to_string(), test_vk(&env, 1)).unwrap();
    // r - 1 is canonical: must reach the pairing check (and fail it, since the
    // key and the proof are arbitrary points).
    let inputs = vec![FR_MINUS_ONE];
    assert_eq!(
        verifier.verify(&env, &test_proof(&env), &inputs),
        Ok(false)
    );
}

#[test]
fn points_off_the_curve_trap() {
    let env = env();
    let verifier = ZkVerifier::new("transfer".to_string(), test_vk(&env, 1)).unwrap();
    let mut proof = test_proof(&env);
    proof.a[95] ^= 1;
    assert_eq!(
        verifier.verify(&env, &proof, &vec![[7u8; 32]]),
        Err(VerifierTrap::InvalidPoint)
    );
}

#[test]
fn points_of_the_key_are_checked_too() {
    let env = env();
    let mut vk = test_vk(&env, 1);
    vk.ic[1][95] ^= 1;
    let verifier = ZkVerifier::new("transfer".to_string(), vk).unwrap();
    assert_eq!(
        verifier.verify(&env, &test_proof(&env), &vec![[7u8; 32]]),
        Err(VerifierTrap::InvalidPoint)
    );
}

#[test]
fn host_takes_its_own_points_only() {
    let env = env();
    let p = arbitrary_g1(&env, b"p");
    let q = arbitrary_g2(&env, b"q");
    assert!(host_takes_g1(&p));
    assert!(host_takes_g2(&q));
    let mut bad = p;
    bad[0] |= 0x80;
    assert!(!host_takes_g1(&bad));
    let mut bad = q;
    bad[0] |= 0x20;
    assert!(!host_takes_g2(&bad));
    // Infinity has one encoding.
    let mut infinity = [0u8; 96];
    infinity[0] = 0x40;
    assert!(host_takes_g1(&infinity));
    infinity[95] = 1;
    assert!(!host_takes_g1(&infinity));
}

#[test]
fn infinity_everywhere_satisfies_the_equation() {
    let env = env();
    let mut inf1 = [0u8; 96];
    inf1[0] = 0x40;
    let mut inf2 = [0u8; 192];
    inf2[0] = 0x40;
    let vk = VerificationKey {
        alpha: inf1,
        beta: inf2,
        gamma: inf2,
        delta: inf2,
        ic: vec![inf1, inf1],
    };
    let verifier = ZkVerifier::new("transfer".to_string(), vk).unwrap();
    let proof = Groth16Proof {
        a: inf1,
        b: inf2,
        c: inf1,
    };
    assert_eq!(verifier.verify(&env, &proof, &vec![[7u8; 32]]), Ok(true));
}
