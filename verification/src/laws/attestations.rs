//! Laws of the attestation registry.

use crate::attestation_registry::{
    AttestationError, AttestationRecord, AttestationRegistry, CredentialRevoked, Presented,
    VerifierSet,
};
use crate::bytes::{be_nat, lemma_be_bytes, lemma_be_bytes_unique, lemma_pow256_sizes};
use crate::host::{claim_to_xdr, sha256_of};
use crate::interfaces::{
    Address, Attestations, ClaimType, Groth16Proof, Invocation, Issuers, Trap, Verifier,
    VerifierTrap,
};
use crate::interfaces::byte_views;
use crate::store::Store;
use vstd::prelude::*;

verus! {

/// **A registry begins empty.** It knows its administrator and its issuer
/// registry, and no verifiers, attestations or revocations.
pub proof fn lemma_new(admin: Address, issuers: Address, registry: AttestationRegistry)
    requires
        call_ensures(AttestationRegistry::new, (admin, issuers), registry),
    ensures
        registry.wf(),
        registry@.admin == admin@,
        registry@.issuer_registry == issuers@,
        forall|k: Seq<char>| !(#[trigger] registry@.verifiers.dom().contains(k)),
        forall|h: (Seq<u8>, ClaimType)| !(#[trigger] registry@.attestations.dom().contains(h)),
        forall|c: Seq<u8>| !(#[trigger] registry@.revoked.contains(c)),
{
}

/// **Routing.** The administrator, and no one else, routes a claim kind to a
/// verifier. Other kinds stay routed as they were, and nothing else changes.
pub proof fn lemma_routing(
    registry: &mut AttestationRegistry,
    call: &Invocation,
    kind: String,
    verifier: Address,
    done: Result<VerifierSet, Trap<AttestationError>>,
)
    requires
        call_ensures(AttestationRegistry::set_verifier, (registry, call, kind, verifier), done),
    ensures
        done is Ok <==> call.signed_by(old(registry)@.admin),
        done matches Err(trap) ==> trap == Trap::<AttestationError>::Unauthorized
            && *final(registry) == *old(registry),
        done matches Ok(event) ==> {
            let (s, t) = (old(registry)@, final(registry)@);
            &&& event.claim_kind@ == kind@
            &&& event.verifier@ == verifier@
            &&& t.verifiers.dom().contains(kind@)
            &&& t.verifiers[kind@] == verifier@
            &&& forall|k: Seq<char>|
                k != kind@ ==> (#[trigger] t.verifiers.dom().contains(k)
                    == s.verifiers.dom().contains(k) && (s.verifiers.dom().contains(k)
                    ==> t.verifiers[k] == s.verifiers[k]))
            &&& t.admin == s.admin
            &&& t.issuer_registry == s.issuer_registry
            &&& t.attestations == s.attestations
            &&& t.revoked == s.revoked
        },
{
}

/// The public inputs of a presentation: the issuer key, the credential, the
/// digests of the claim with its context and of the user, each with its first
/// byte cleared, and the expiry.
pub open spec fn states(
    inputs: Seq<Seq<u8>>,
    issuer_key: Seq<u8>,
    credential_ref: Seq<u8>,
    claim_xdr: Seq<u8>,
    context: Seq<u8>,
    user: Seq<u8>,
    expires_at: u64,
) -> bool {
    &&& inputs.len() == 5
    &&& inputs[0] == issuer_key
    &&& inputs[1] == credential_ref
    &&& inputs[2] == sha256_of(claim_xdr + context).update(0, 0u8)
    &&& inputs[3] == sha256_of(user).update(0, 0u8)
    &&& inputs[4].len() == 32
    &&& be_nat(inputs[4]) == expires_at
}

/// Inputs that state a presentation are the ones that are checked.
proof fn lemma_states(a: Seq<Seq<u8>>, b: Seq<Seq<u8>>, expires_at: u64)
    requires
        a.len() == 5,
        b.len() == 5,
        a[0] == b[0],
        a[1] == b[1],
        a[2] == b[2],
        a[3] == b[3],
        a[4].len() == 32,
        be_nat(a[4]) == expires_at,
        b[4] == crate::encoding::fr_encoding(expires_at as nat),
    ensures
        a == b,
{
    lemma_be_bytes_unique(a[4]);
    assert(a =~= b);
}

/// **The checks of a presentation.** It must be signed by its user, expire
/// after now, come under a key that the issuer registry calls active, carry a
/// credential that is not revoked, and be of a kind that is routed. The first
/// that fails is what is reported; where none fails, the kind's verifier is to
/// be asked about the statement.
pub proof fn lemma_presentation_checked<I: Issuers>(
    registry: &AttestationRegistry,
    env: &soroban_sdk::Env,
    call: &Invocation,
    issuers: &Store<Address, I>,
    user: &Address,
    claim_type: &ClaimType,
    context: &Vec<u8>,
    issuer_key: &[u8; 32],
    credential_ref: &[u8; 32],
    expires_at: u64,
    checked: Result<(Address, Vec<[u8; 32]>), Trap<AttestationError>>,
    kind: &'static str,
    xdr: Vec<u8>,
)
    requires
        call_ensures(
            AttestationRegistry::check_present::<I>,
            (
                registry,
                env,
                call,
                issuers,
                user,
                claim_type,
                context,
                issuer_key,
                credential_ref,
                expires_at,
            ),
            checked,
        ),
        call_ensures(ClaimType::kind, (claim_type,), kind),
        call_ensures(claim_to_xdr, (env, claim_type), xdr),
    ensures
        ({
            let s = registry@;
            let found = issuers.map();
            if !call.signed_by(user@) {
                checked == Err::<(Address, Vec<[u8; 32]>), Trap<AttestationError>>(
                    Trap::Unauthorized,
                )
            } else if expires_at <= call.now {
                checked == Err::<(Address, Vec<[u8; 32]>), Trap<AttestationError>>(
                    Trap::Error(AttestationError::InvalidExpiry),
                )
            } else if !found.dom().contains(s.issuer_registry) {
                checked == Err::<(Address, Vec<[u8; 32]>), Trap<AttestationError>>(
                    Trap::NoContract,
                )
            } else if !found[s.issuer_registry].key_active(issuer_key@) {
                checked == Err::<(Address, Vec<[u8; 32]>), Trap<AttestationError>>(
                    Trap::Error(AttestationError::InactiveIssuerKey),
                )
            } else if s.revoked.contains(credential_ref@) {
                checked == Err::<(Address, Vec<[u8; 32]>), Trap<AttestationError>>(
                    Trap::Error(AttestationError::CredentialRevoked),
                )
            } else if !s.verifiers.dom().contains(kind@) {
                checked == Err::<(Address, Vec<[u8; 32]>), Trap<AttestationError>>(
                    Trap::Error(AttestationError::NoVerifierForClaim),
                )
            } else if xdr@.len() + context@.len() > u32::MAX || user@.len() > u32::MAX {
                checked == Err::<(Address, Vec<[u8; 32]>), Trap<AttestationError>>(
                    Trap::Oversized,
                )
            } else {
                &&& checked matches Ok((verifier, inputs))
                &&& verifier@ == s.verifiers[kind@]
                &&& states(
                    byte_views(inputs@),
                    issuer_key@,
                    credential_ref@,
                    xdr@,
                    context@,
                    user@,
                    expires_at,
                )
            }
        }),
{
    lemma_pow256_sizes();
    lemma_be_bytes(expires_at as nat, 32);
}

/// **Verdicts are followed.** An accepted presentation is recorded as it is,
/// for its user and claim and under no other; a rejected one, and one without a
/// verdict, changes nothing.
pub proof fn lemma_verdict_followed(
    registry: &mut AttestationRegistry,
    call: &Invocation,
    verdict: Result<bool, VerifierTrap>,
    user: Address,
    claim_type: ClaimType,
    credential_ref: [u8; 32],
    expires_at: u64,
    done: Result<Presented, Trap<AttestationError>>,
)
    requires
        call_ensures(
            AttestationRegistry::settle_present,
            (registry, call, verdict, user, claim_type, credential_ref, expires_at),
            done,
        ),
    ensures
        done is Ok <==> verdict == Ok::<bool, VerifierTrap>(true),
        verdict == Ok::<bool, VerifierTrap>(false) ==> done == Err::<
            Presented,
            Trap<AttestationError>,
        >(Trap::Error(AttestationError::InvalidProof)),
        verdict matches Err(trap) ==> done == Err::<Presented, Trap<AttestationError>>(
            Trap::Verifier(trap),
        ),
        done is Err ==> *final(registry) == *old(registry),
        done matches Ok(event) ==> {
            let (s, t) = (old(registry)@, final(registry)@);
            &&& event.user@ == user@
            &&& event.claim_type == claim_type
            &&& event.expires_at == expires_at
            &&& recorded_alone(s.attestations, t.attestations, user@, claim_type)
            &&& t.attestations[(user@, claim_type)].expires_at == expires_at
            &&& t.attestations[(user@, claim_type)].credential_ref == credential_ref
            &&& t.attestations[(user@, claim_type)].presented_at == call.now
            &&& t.verifiers == s.verifiers
            &&& t.revoked == s.revoked
            &&& t.admin == s.admin
            &&& t.issuer_registry == s.issuer_registry
        },
{
}

/// There is an attestation of the claim for the user, and those for others and
/// of other claims are as they were.
pub open spec fn recorded_alone(
    before: Map<(Seq<u8>, ClaimType), AttestationRecord>,
    after: Map<(Seq<u8>, ClaimType), AttestationRecord>,
    user: Seq<u8>,
    claim_type: ClaimType,
) -> bool {
    &&& after.dom().contains((user, claim_type))
    &&& forall|h: (Seq<u8>, ClaimType)|
        h != (user, claim_type) ==> (#[trigger] after.dom().contains(h) == before.dom().contains(h)
            && (before.dom().contains(h) ==> after[h] == before[h]))
}

/// **Presenting.** A presentation is recorded if and only if it passes every
/// check and the verifier that its own kind is routed to accepts its statement;
/// otherwise it is refused, for the first check that fails, and nothing
/// changes.
pub proof fn lemma_present<V: Verifier, I: Issuers>(
    registry: &mut AttestationRegistry,
    env: &soroban_sdk::Env,
    call: &Invocation,
    issuers: &Store<Address, I>,
    verifiers: &Store<Address, V>,
    user: Address,
    proof: &Groth16Proof,
    claim_type: ClaimType,
    context: &Vec<u8>,
    issuer_key: [u8; 32],
    credential_ref: [u8; 32],
    expires_at: u64,
    done: Result<Presented, Trap<AttestationError>>,
    kind: &'static str,
    xdr: Vec<u8>,
    inputs: Seq<Seq<u8>>,
)
    requires
        call_ensures(
            AttestationRegistry::present::<V, I>,
            (
                registry,
                env,
                call,
                issuers,
                verifiers,
                user,
                proof,
                claim_type,
                context,
                issuer_key,
                credential_ref,
                expires_at,
            ),
            done,
        ),
        call_ensures(ClaimType::kind, (&claim_type,), kind),
        call_ensures(claim_to_xdr, (env, &claim_type), xdr),
        states(inputs, issuer_key@, credential_ref@, xdr@, context@, user@, expires_at),
    ensures
        ({
            let s = old(registry)@;
            let found = issuers.map();
            let asked = verifiers.map();
            let verifier = s.verifiers[kind@];
            if !call.signed_by(user@) {
                done == Err::<Presented, Trap<AttestationError>>(Trap::Unauthorized)
            } else if expires_at <= call.now {
                done == Err::<Presented, Trap<AttestationError>>(
                    Trap::Error(AttestationError::InvalidExpiry),
                )
            } else if !found.dom().contains(s.issuer_registry) {
                done == Err::<Presented, Trap<AttestationError>>(Trap::NoContract)
            } else if !found[s.issuer_registry].key_active(issuer_key@) {
                done == Err::<Presented, Trap<AttestationError>>(
                    Trap::Error(AttestationError::InactiveIssuerKey),
                )
            } else if s.revoked.contains(credential_ref@) {
                done == Err::<Presented, Trap<AttestationError>>(
                    Trap::Error(AttestationError::CredentialRevoked),
                )
            } else if !s.verifiers.dom().contains(kind@) {
                done == Err::<Presented, Trap<AttestationError>>(
                    Trap::Error(AttestationError::NoVerifierForClaim),
                )
            } else if xdr@.len() + context@.len() > u32::MAX || user@.len() > u32::MAX {
                done == Err::<Presented, Trap<AttestationError>>(Trap::Oversized)
            } else if !asked.dom().contains(verifier) {
                done == Err::<Presented, Trap<AttestationError>>(Trap::NoContract)
            } else {
                match asked[verifier].verdict(*proof, inputs) {
                    Err(trap) => done == Err::<Presented, Trap<AttestationError>>(
                        Trap::Verifier(trap),
                    ),
                    Ok(accepted) => if accepted {
                        done is Ok
                    } else {
                        done == Err::<Presented, Trap<AttestationError>>(
                            Trap::Error(AttestationError::InvalidProof),
                        )
                    },
                }
            }
        }),
        done is Err ==> *final(registry) == *old(registry),
        done matches Ok(event) ==> {
            let (s, t) = (old(registry)@, final(registry)@);
            &&& event.user@ == user@
            &&& event.claim_type == claim_type
            &&& event.expires_at == expires_at
            &&& recorded_alone(s.attestations, t.attestations, user@, claim_type)
            &&& t.attestations[(user@, claim_type)].expires_at == expires_at
            &&& t.attestations[(user@, claim_type)].credential_ref == credential_ref
            &&& t.attestations[(user@, claim_type)].presented_at == call.now
            &&& t.verifiers == s.verifiers
            &&& t.revoked == s.revoked
            &&& t.admin == s.admin
            &&& t.issuer_registry == s.issuer_registry
        },
{
    let p = crate::attestation_registry::Presentation {
        user: user@,
        claim_type,
        context: context@,
        issuer_key: issuer_key@,
        credential_ref,
        expires_at,
    };
    lemma_states(inputs, p.inputs(), expires_at);
}

/// **Each kind has its own verifier.** Presentations of one claim to two
/// registries that route its kind alike, and agree in all but the routing of
/// other kinds, come to the same.
pub proof fn lemma_routed_by_own_kind<V: Verifier, I: Issuers>(
    registry: &mut AttestationRegistry,
    other: &mut AttestationRegistry,
    env: &soroban_sdk::Env,
    call: &Invocation,
    issuers: &Store<Address, I>,
    verifiers: &Store<Address, V>,
    user: Address,
    proof: &Groth16Proof,
    claim_type: ClaimType,
    context: &Vec<u8>,
    issuer_key: [u8; 32],
    credential_ref: [u8; 32],
    expires_at: u64,
    done: Result<Presented, Trap<AttestationError>>,
    also: Result<Presented, Trap<AttestationError>>,
)
    requires
        call_ensures(
            AttestationRegistry::present::<V, I>,
            (
                registry,
                env,
                call,
                issuers,
                verifiers,
                user,
                proof,
                claim_type,
                context,
                issuer_key,
                credential_ref,
                expires_at,
            ),
            done,
        ),
        call_ensures(
            AttestationRegistry::present::<V, I>,
            (
                other,
                env,
                call,
                issuers,
                verifiers,
                user,
                proof,
                claim_type,
                context,
                issuer_key,
                credential_ref,
                expires_at,
            ),
            also,
        ),
        old(other)@.issuer_registry == old(registry)@.issuer_registry,
        old(other)@.revoked == old(registry)@.revoked,
        ({
            let (a, b) = (old(registry)@.verifiers, old(other)@.verifiers);
            let name = match claim_type {
                ClaimType::KycLevel(_) => "kyc_level"@,
                ClaimType::Jurisdiction(_) => "jurisdiction"@,
                ClaimType::IncomeAbove(_) => "income_above"@,
                ClaimType::Accredited => "accredited"@,
            };
            &&& a.dom().contains(name) == b.dom().contains(name)
            &&& a.dom().contains(name) ==> a[name] == b[name]
        }),
    ensures
        done is Ok <==> also is Ok,
        done matches Err(trap) ==> also == Err::<Presented, Trap<AttestationError>>(trap),
{
}

/// **Revoking.** An active issuer that signs the call, and no one else, revokes
/// a credential. Nothing else changes.
pub proof fn lemma_revoke<I: Issuers>(
    registry: &mut AttestationRegistry,
    call: &Invocation,
    issuers: &Store<Address, I>,
    issuer: Address,
    credential_ref: [u8; 32],
    done: Result<CredentialRevoked, Trap<AttestationError>>,
)
    requires
        call_ensures(
            AttestationRegistry::revoke_credential::<I>,
            (registry, call, issuers, issuer, credential_ref),
            done,
        ),
    ensures
        ({
            let (s, found) = (old(registry)@, issuers.map());
            if !call.signed_by(issuer@) {
                done == Err::<CredentialRevoked, Trap<AttestationError>>(Trap::Unauthorized)
            } else if !found.dom().contains(s.issuer_registry) {
                done == Err::<CredentialRevoked, Trap<AttestationError>>(Trap::NoContract)
            } else if !found[s.issuer_registry].issuer_active(issuer@) {
                done == Err::<CredentialRevoked, Trap<AttestationError>>(
                    Trap::Error(AttestationError::NotAnIssuer),
                )
            } else {
                done is Ok
            }
        }),
        done is Err ==> *final(registry) == *old(registry),
        done matches Ok(event) ==> {
            let (s, t) = (old(registry)@, final(registry)@);
            &&& event.issuer@ == issuer@
            &&& event.credential_ref == credential_ref
            &&& forall|c: Seq<u8>| #[trigger]
                t.revoked.contains(c) <==> s.revoked.contains(c) || c == credential_ref@
            &&& t.attestations == s.attestations
            &&& t.verifiers == s.verifiers
            &&& t.admin == s.admin
            &&& t.issuer_registry == s.issuer_registry
        },
{
}

/// **Checking.** An address holds an attestation of a claim if and only if one
/// is recorded, has not expired, and carries a credential that is not revoked.
/// The record is found as it is.
pub proof fn lemma_check(
    registry: &AttestationRegistry,
    now: u64,
    address: &Address,
    claim_type: &ClaimType,
    held: bool,
    found: Option<&AttestationRecord>,
)
    requires
        call_ensures(
            <AttestationRegistry as Attestations>::check,
            (registry, now, address, claim_type),
            held,
        ),
        call_ensures(AttestationRegistry::get_attestation, (registry, address, claim_type), found),
    ensures
        found is Some <==> registry@.attestations.dom().contains((address@, *claim_type)),
        found matches Some(r) ==> *r == registry@.attestations[(address@, *claim_type)],
        held <==> (found matches Some(r) && now <= r.expires_at && !registry@.revoked.contains(
            r.credential_ref@,
        )),
{
}

/// **Present, check, revoke, check.** After a presentation was recorded, its
/// user holds the claim up to and at its expiry and not beyond; after its
/// credential was revoked, no longer.
pub proof fn lemma_life_of_an_attestation<V: Verifier, I: Issuers>(
    registry: &mut AttestationRegistry,
    env: &soroban_sdk::Env,
    call: &Invocation,
    issuers: &Store<Address, I>,
    verifiers: &Store<Address, V>,
    user: Address,
    proof: &Groth16Proof,
    claim_type: ClaimType,
    context: &Vec<u8>,
    issuer_key: [u8; 32],
    credential_ref: [u8; 32],
    expires_at: u64,
    done: Result<Presented, Trap<AttestationError>>,
    at: u64,
    held: bool,
    after: &mut AttestationRegistry,
    revoking: &Invocation,
    issuer: Address,
    revoked: Result<CredentialRevoked, Trap<AttestationError>>,
    held_still: bool,
)
    requires
        call_ensures(
            AttestationRegistry::present::<V, I>,
            (
                registry,
                env,
                call,
                issuers,
                verifiers,
                user,
                proof,
                claim_type,
                context,
                issuer_key,
                credential_ref,
                expires_at,
            ),
            done,
        ),
        done is Ok,
        call_ensures(
            <AttestationRegistry as Attestations>::check,
            (&*final(registry), at, &user, &claim_type),
            held,
        ),
        *old(after) == *final(registry),
        call_ensures(
            AttestationRegistry::revoke_credential::<I>,
            (after, revoking, issuers, issuer, credential_ref),
            revoked,
        ),
        revoked is Ok,
        call_ensures(
            <AttestationRegistry as Attestations>::check,
            (&*final(after), at, &user, &claim_type),
            held_still,
        ),
    ensures
        held <==> at <= expires_at,
        !held_still,
{
}

} // verus!
