//! The attestation registry around a verifier's verdict.

use attesta::attestation_registry::{AttestationError, AttestationRegistry, Presented};
use attesta::host::{address_binding, amount_to_field, claim_to_xdr, u64_to_field};
use attesta::interfaces::{
    Address, Attestations, ClaimType, Groth16Proof, Invocation, Trap, VerificationKey, VerifierTrap,
};
use attesta::issuer_registry::{Action, IssuerRegistry};
use attesta::store::Store;
use attesta::zk_verifier::{VerifierError, ZkVerifier};
use soroban_sdk::testutils::EnvTestConfig;
use soroban_sdk::xdr::ToXdr;
use soroban_sdk::{Bytes, Env, IntoVal};

const DELAY: u64 = 3600;

fn address(tag: u8) -> Address {
    Address { xdr: vec![tag; 4] }
}

const ADMIN: u8 = 200;
const ISSUER: u8 = 1;
const USER: u8 = 2;
const ISSUERS: u8 = 3;
const VERIFIER: u8 = 4;
const ISSUER_KEY: [u8; 32] = [42u8; 32];

struct Setup {
    env: Env,
    registry: AttestationRegistry,
    issuers: Store<Address, IssuerRegistry>,
    accepts: bool,
    now: u64,
}

fn call(now: u64, signer: u8) -> Invocation {
    Invocation {
        now,
        signers: vec![address(signer)],
    }
}

fn setup(verifier_accepts: bool) -> Setup {
    let env = Env::new_with_config(EnvTestConfig {
        capture_snapshot_at_drop: false,
    });

    // Real issuer registry: register an issuer through the timelock.
    let mut issuer_registry = IssuerRegistry::new(address(ADMIN), DELAY);
    let queued = issuer_registry
        .queue(
            &call(0, ADMIN),
            Action::AddIssuer(address(ISSUER), ISSUER_KEY, "Anchor One".to_string()),
        )
        .unwrap();
    issuer_registry.execute(&call(DELAY, ADMIN), queued.id).unwrap();
    let mut issuers = Store::new();
    issuers.set(address(ISSUERS), issuer_registry);

    let mut registry = AttestationRegistry::new(address(ADMIN), address(ISSUERS));
    registry
        .set_verifier(&call(DELAY, ADMIN), "kyc_level".to_string(), address(VERIFIER))
        .unwrap();
    Setup {
        env,
        registry,
        issuers,
        accepts: verifier_accepts,
        now: DELAY,
    }
}

fn infinity<const N: usize>() -> [u8; N] {
    let mut bytes = [0u8; N];
    bytes[0] = 0x40;
    bytes
}

/// A proof of points at infinity.
fn null_proof() -> Groth16Proof {
    Groth16Proof {
        a: infinity(),
        b: infinity(),
        c: infinity(),
    }
}

/// A verifier instance with a fixed verdict on the null proof: of its pairings
/// only that of `alpha` with `beta` can differ from one.
fn fixed_verifier(env: &Env, accepts: bool, n_inputs: usize) -> ZkVerifier {
    let (mut alpha, mut beta) = (infinity(), infinity());
    if !accepts {
        let seed = Bytes::from_slice(env, b"seed");
        let dst = Bytes::from_slice(env, b"ATTESTA_TEST");
        let bls = env.crypto().bls12_381();
        alpha = bls.hash_to_g1(&seed, &dst).to_bytes().to_array();
        beta = bls.hash_to_g2(&seed, &dst).to_bytes().to_array();
    }
    let key = VerificationKey {
        alpha,
        beta,
        gamma: infinity(),
        delta: infinity(),
        ic: vec![infinity(); n_inputs + 1],
    };
    ZkVerifier::new("fixed".to_string(), key).unwrap()
}

/// A presentation to a verifier with a fixed verdict.
fn present(
    s: &mut Setup,
    claim_type: ClaimType,
    issuer_key: [u8; 32],
    credential_ref: [u8; 32],
    expires_at: u64,
) -> Result<Presented, Trap<AttestationError>> {
    let call = call(s.now, USER);
    let mut verifiers = Store::new();
    verifiers.set(address(VERIFIER), fixed_verifier(&s.env, s.accepts, 5));
    s.registry.present(
        &s.env,
        &call,
        &s.issuers,
        &verifiers,
        address(USER),
        &null_proof(),
        claim_type,
        &b"pool-entry".to_vec(),
        issuer_key,
        credential_ref,
        expires_at,
    )
}

fn present_kyc(
    s: &mut Setup,
    credential_ref: [u8; 32],
    expires_at: u64,
) -> Result<Presented, Trap<AttestationError>> {
    present(s, ClaimType::KycLevel(2), ISSUER_KEY, credential_ref, expires_at)
}

#[test]
fn present_then_check() {
    let mut s = setup(true);
    let claim = ClaimType::KycLevel(2);
    assert!(!s.registry.check(s.now, &address(USER), &claim));

    let cred = [7u8; 32];
    let expires_at = s.now + 1000;
    present_kyc(&mut s, cred, expires_at).unwrap();

    assert!(s.registry.check(s.now, &address(USER), &claim));
    // Scoped to the exact claim: a different level is a different claim.
    assert!(!s.registry.check(s.now, &address(USER), &ClaimType::KycLevel(3)));
    // Scoped to the address.
    assert!(!s.registry.check(s.now, &address(99), &claim));

    let record = s.registry.get_attestation(&address(USER), &claim).unwrap();
    assert_eq!(record.credential_ref, cred);
    assert_eq!(record.expires_at, expires_at);
    assert_eq!(record.presented_at, s.now);
}

#[test]
fn attestation_expires() {
    let mut s = setup(true);
    let expires_at = s.now + 1000;
    present_kyc(&mut s, [7u8; 32], expires_at).unwrap();

    assert!(s.registry.check(s.now, &address(USER), &ClaimType::KycLevel(2)));
    // The last second counts.
    assert!(s.registry.check(s.now + 1000, &address(USER), &ClaimType::KycLevel(2)));
    s.now += 1001;
    assert!(!s.registry.check(s.now, &address(USER), &ClaimType::KycLevel(2)));
}

#[test]
fn revocation_invalidates_attestation() {
    let mut s = setup(true);
    let cred = [7u8; 32];
    let expires_at = s.now + 1000;
    present_kyc(&mut s, cred, expires_at).unwrap();
    assert!(s.registry.check(s.now, &address(USER), &ClaimType::KycLevel(2)));

    s.registry
        .revoke_credential(&call(s.now, ISSUER), &s.issuers, address(ISSUER), cred)
        .unwrap();
    assert!(!s.registry.check(s.now, &address(USER), &ClaimType::KycLevel(2)));
}

#[test]
fn revoked_credential_cannot_be_presented() {
    let mut s = setup(true);
    let cred = [7u8; 32];
    s.registry
        .revoke_credential(&call(s.now, ISSUER), &s.issuers, address(ISSUER), cred)
        .unwrap();
    let expires_at = s.now + 1000;
    let trap = present_kyc(&mut s, cred, expires_at).unwrap_err();
    assert_eq!(trap, Trap::Error(AttestationError::CredentialRevoked));
    assert_eq!(AttestationError::CredentialRevoked.code(), 3);
}

#[test]
fn only_registered_issuers_can_revoke() {
    let mut s = setup(true);
    let trap = s
        .registry
        .revoke_credential(&call(s.now, 77), &s.issuers, address(77), [7u8; 32])
        .unwrap_err();
    assert_eq!(trap, Trap::Error(AttestationError::NotAnIssuer));
    assert_eq!(AttestationError::NotAnIssuer.code(), 6);
    // And an issuer only for itself.
    let trap = s
        .registry
        .revoke_credential(&call(s.now, 77), &s.issuers, address(ISSUER), [7u8; 32])
        .unwrap_err();
    assert_eq!(trap, Trap::Unauthorized);
}

#[test]
fn invalid_proof_rejected() {
    let mut s = setup(false);
    let expires_at = s.now + 1000;
    let trap = present_kyc(&mut s, [7u8; 32], expires_at).unwrap_err();
    assert_eq!(trap, Trap::Error(AttestationError::InvalidProof));
    assert_eq!(AttestationError::InvalidProof.code(), 4);
    assert!(!s.registry.check(s.now, &address(USER), &ClaimType::KycLevel(2)));
}

#[test]
fn unknown_issuer_key_rejected() {
    let mut s = setup(true);
    let expires_at = s.now + 1000;
    let trap = present(
        &mut s,
        ClaimType::KycLevel(2),
        [99u8; 32],
        [7u8; 32],
        expires_at,
    )
    .unwrap_err();
    assert_eq!(trap, Trap::Error(AttestationError::InactiveIssuerKey));
    assert_eq!(AttestationError::InactiveIssuerKey.code(), 2);
}

#[test]
fn claim_kind_without_verifier_rejected() {
    let mut s = setup(true);
    let expires_at = s.now + 1000;
    let trap = present(
        &mut s,
        ClaimType::Accredited,
        ISSUER_KEY,
        [7u8; 32],
        expires_at,
    )
    .unwrap_err();
    assert_eq!(trap, Trap::Error(AttestationError::NoVerifierForClaim));
    assert_eq!(AttestationError::NoVerifierForClaim.code(), 1);
}

#[test]
fn expiry_must_lie_ahead() {
    let mut s = setup(true);
    let expires_at = s.now;
    let trap = present_kyc(&mut s, [7u8; 32], expires_at).unwrap_err();
    assert_eq!(trap, Trap::Error(AttestationError::InvalidExpiry));
    assert_eq!(AttestationError::InvalidExpiry.code(), 5);
}

#[test]
fn presentations_are_authorized_by_the_user() {
    let s = setup(true);
    let checked = s.registry.check_present(
        &s.env,
        &call(s.now, 77),
        &s.issuers,
        &address(USER),
        &ClaimType::KycLevel(2),
        &vec![],
        &ISSUER_KEY,
        &[7u8; 32],
        s.now + 1,
    );
    assert_eq!(checked.unwrap_err(), Trap::Unauthorized);
}

#[test]
fn verifiers_are_set_by_the_admin() {
    let mut s = setup(true);
    let done = s
        .registry
        .set_verifier(&call(s.now, USER), "accredited".to_string(), address(9));
    assert_eq!(done.unwrap_err(), Trap::Unauthorized);
    let done = s
        .registry
        .set_verifier(&call(s.now, ADMIN), "accredited".to_string(), address(9))
        .unwrap();
    assert_eq!(done.claim_kind, "accredited");
}

#[test]
fn verifier_traps_pass_through() {
    let mut s = setup(true);
    let trap = VerifierTrap::Error(VerifierError::InputLengthMismatch);
    let done = s.registry.settle_present(
        &call(s.now, USER),
        Err(trap),
        address(USER),
        ClaimType::KycLevel(2),
        [7u8; 32],
        s.now + 1,
    );
    assert_eq!(done.unwrap_err(), Trap::Verifier(trap));
}

#[test]
fn a_verifier_must_stand_at_its_address() {
    let mut s = setup(true);
    let nobody: Store<Address, ZkVerifier> = Store::new();
    let trap = s
        .registry
        .present(
            &s.env,
            &call(s.now, USER),
            &s.issuers,
            &nobody,
            address(USER),
            &null_proof(),
            ClaimType::KycLevel(2),
            &vec![],
            ISSUER_KEY,
            [7u8; 32],
            s.now + 1000,
        )
        .unwrap_err();
    assert_eq!(trap, Trap::NoContract);
}

#[test]
fn statements_bind_claim_context_subject_and_expiry() {
    let s = setup(true);
    let inputs_of = |context: &[u8], user: &Address| {
        let call = Invocation {
            now: s.now,
            signers: vec![user.clone()],
        };
        s.registry
            .check_present(
                &s.env,
                &call,
                &s.issuers,
                user,
                &ClaimType::KycLevel(2),
                &context.to_vec(),
                &ISSUER_KEY,
                &[7u8; 32],
                s.now + 1000,
            )
            .unwrap()
            .1
    };
    let a = inputs_of(b"pool-entry", &address(USER));
    let b = inputs_of(b"other-app", &address(USER));
    let c = inputs_of(b"pool-entry", &address(8));
    assert_eq!(a[0], ISSUER_KEY);
    assert_eq!(a[1], [7u8; 32]);
    assert_ne!(a[2], b[2]);
    assert_eq!(a[3], b[3]);
    assert_eq!(a[2], c[2]);
    assert_ne!(a[3], c[3]);
    assert_eq!(a[4], u64_to_field(s.now + 1000));

    // The claim binding is SHA-256 over the claim's XDR and the context, the
    // top byte cleared.
    let mut bytes = claim_to_xdr(&s.env, &ClaimType::KycLevel(2));
    bytes.extend_from_slice(b"pool-entry");
    let digest = s.env.crypto().sha256(&Bytes::from_slice(&s.env, &bytes));
    let mut expected = digest.to_array();
    expected[0] = 0;
    assert_eq!(a[2], expected);
    assert_eq!(Some(a[3]), address_binding(&s.env, &address(USER)));
}

#[test]
fn claims_serialize_as_symbol_vectors() {
    let s = setup(true);
    let env = &s.env;
    let symbol = |name: &str| soroban_sdk::Symbol::new(env, name);
    let kyc: soroban_sdk::Vec<soroban_sdk::Val> = soroban_sdk::Vec::from_array(
        env,
        [symbol("KycLevel").into_val(env), 2u32.into_val(env)],
    );
    let expected: Vec<u8> = kyc.to_xdr(env).iter().collect();
    assert_eq!(claim_to_xdr(env, &ClaimType::KycLevel(2)), expected);

    let income: soroban_sdk::Vec<soroban_sdk::Val> = soroban_sdk::Vec::from_array(
        env,
        [symbol("IncomeAbove").into_val(env), 5i128.into_val(env)],
    );
    let expected: Vec<u8> = income.to_xdr(env).iter().collect();
    assert_eq!(claim_to_xdr(env, &ClaimType::IncomeAbove(5)), expected);

    let place: soroban_sdk::Vec<soroban_sdk::Val> = soroban_sdk::Vec::from_array(
        env,
        [
            symbol("Jurisdiction").into_val(env),
            soroban_sdk::BytesN::from_array(env, &[3u8; 32]).into_val(env),
        ],
    );
    let expected: Vec<u8> = place.to_xdr(env).iter().collect();
    assert_eq!(claim_to_xdr(env, &ClaimType::Jurisdiction([3u8; 32])), expected);

    let accredited: soroban_sdk::Vec<soroban_sdk::Val> =
        soroban_sdk::Vec::from_array(env, [symbol("Accredited").into_val(env)]);
    let expected: Vec<u8> = accredited.to_xdr(env).iter().collect();
    assert_eq!(claim_to_xdr(env, &ClaimType::Accredited), expected);
}

#[test]
fn numbers_become_field_elements() {
    let mut expected = [0u8; 32];
    expected[30] = 1;
    expected[31] = 2;
    assert_eq!(u64_to_field(258), expected);
    assert_eq!(amount_to_field(258), expected);
    let mut large = [0u8; 32];
    large[16] = 0x7f;
    large[17..].fill(0xff);
    assert_eq!(amount_to_field(i128::MAX), large);
}
