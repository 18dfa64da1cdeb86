//! The compliance primitive.
//!
//! Users present ZK proofs over issuer-signed credentials without revealing
//! the credential; on success the registry records a scoped, time-boxed
//! attestation for their address. Any contract consumes attestations through
//! one call, [`Attestations::check`]. Credentials never go on-chain; what is
//! stored is the expiry and an opaque revocation handle.
//!
//! Each claim kind has its own circuit and thus its own pinned `zk_verifier`
//! instance; mapping a kind to a verifier is an admin action.

use crate::bytes::{lemma_be_bytes, lemma_pow256_sizes};
use crate::encoding::fr_encoding;
use crate::host::{address_binding, binding, binding_of, claim_to_xdr, claim_xdr, u64_to_field};
use crate::interfaces::{
    byte_views, Address, Attestations, ClaimType, Groth16Proof, Invocation, Issuers, Trap,
    Verifier, VerifierTrap,
};
use crate::store::{Key, Store};
use vstd::prelude::*;

verus! {

/// A recorded attestation.
#[derive(Clone, Copy, Debug, PartialEq, Eq)]
pub struct AttestationRecord {
    /// Ledger timestamp after which the attestation is invalid.
    pub expires_at: u64,
    /// Opaque revocation handle of the underlying credential.
    pub credential_ref: [u8; 32],
    pub presented_at: u64,
}

/// A claim kind was routed to a verifier instance.
#[derive(Debug)]
pub struct VerifierSet {
    pub claim_kind: String,
    pub verifier: Address,
}

/// An attestation was recorded. It says nothing about the credential contents
/// or which issuer verified the user.
#[derive(Debug)]
pub struct Presented {
    pub user: Address,
    pub claim_type: ClaimType,
    pub expires_at: u64,
}

/// An issuer revoked a credential; attestations that carry this ref are
/// invalid from now on.
#[derive(Debug)]
pub struct CredentialRevoked {
    pub issuer: Address,
    pub credential_ref: [u8; 32],
}

/// Errors of the registry.
#[derive(Clone, Copy, Debug, PartialEq, Eq, Structural)]
pub enum AttestationError {
    NoVerifierForClaim,
    InactiveIssuerKey,
    CredentialRevoked,
    InvalidProof,
    InvalidExpiry,
    NotAnIssuer,
}

impl AttestationError {
    /// The error's number on the ledger.
    pub fn code(&self) -> (code: u32)
        ensures
            code == match *self {
                AttestationError::NoVerifierForClaim => 1u32,
                AttestationError::InactiveIssuerKey => 2,
                AttestationError::CredentialRevoked => 3,
                AttestationError::InvalidProof => 4,
                AttestationError::InvalidExpiry => 5,
                AttestationError::NotAnIssuer => 6,
            },
    {
        match self {
            AttestationError::NoVerifierForClaim => 1,
            AttestationError::InactiveIssuerKey => 2,
            AttestationError::CredentialRevoked => 3,
            AttestationError::InvalidProof => 4,
            AttestationError::InvalidExpiry => 5,
            AttestationError::NotAnIssuer => 6,
        }
    }
}

/// Who holds an attestation, and of what.
#[derive(Debug)]
pub struct Holding {
    address: Address,
    claim_type: ClaimType,
}

impl Key for Holding {
    type Id = (Seq<u8>, ClaimType);

    closed spec fn id(&self) -> (Seq<u8>, ClaimType) {
        (self.address@, self.claim_type)
    }

    fn same(&self, other: &Holding) -> (same: bool) {
        self.address.same(&other.address) && self.claim_type.same(&other.claim_type)
    }
}

/// The registry's state, as plain values.
#[verifier::ext_equal]
pub struct AttestationState {
    pub admin: Seq<u8>,
    pub issuer_registry: Seq<u8>,
    /// The verifier instance of each claim kind.
    pub verifiers: Map<Seq<char>, Seq<u8>>,
    /// The attestations, by holder and claim.
    pub attestations: Map<(Seq<u8>, ClaimType), AttestationRecord>,
    /// The revoked credentials.
    pub revoked: Set<Seq<u8>>,
}

/// A presentation, as plain values.
pub struct Presentation {
    pub user: Seq<u8>,
    pub claim_type: ClaimType,
    /// Verifying-app-specific binding data.
    pub context: Seq<u8>,
    pub issuer_key: Seq<u8>,
    pub credential_ref: [u8; 32],
    pub expires_at: u64,
}

impl Presentation {
    /// The public inputs of the statement, in circuit order: issuer key,
    /// credential ref, claim and context binding, subject binding, expiry.
    pub open spec fn inputs(self) -> Seq<Seq<u8>> {
        seq![
            self.issuer_key,
            self.credential_ref@,
            binding_of(claim_xdr(self.claim_type) + self.context),
            binding_of(self.user),
            fr_encoding(self.expires_at as nat),
        ]
    }
}

impl AttestationState {
    /// Whether an address holds a valid, unexpired, unrevoked attestation.
    pub open spec fn attested(self, now: u64, address: Seq<u8>, claim_type: ClaimType) -> bool {
        &&& self.attestations.dom().contains((address, claim_type))
        &&& now <= self.attestations[(address, claim_type)].expires_at
        &&& !self.revoked.contains(self.attestations[(address, claim_type)].credential_ref@)
    }

    /// The state after an attestation was recorded.
    pub open spec fn recorded(self, now: u64, p: Presentation) -> AttestationState {
        AttestationState {
            attestations: self.attestations.insert(
                (p.user, p.claim_type),
                AttestationRecord {
                    expires_at: p.expires_at,
                    credential_ref: p.credential_ref,
                    presented_at: now,
                },
            ),
            ..self
        }
    }

    /// The state after a credential was revoked.
    pub open spec fn revoking(self, credential_ref: Seq<u8>) -> AttestationState {
        AttestationState { revoked: self.revoked.insert(credential_ref), ..self }
    }

    /// The state after a claim kind was routed.
    pub open spec fn routed(self, kind: Seq<char>, verifier: Seq<u8>) -> AttestationState {
        AttestationState { verifiers: self.verifiers.insert(kind, verifier), ..self }
    }

    /// Why a presentation is refused before its proof is looked at, if it is.
    /// `key_active` is the verdict of the issuer registry on the issuer key,
    /// if a contract stands at the registry's address.
    pub open spec fn refusal(
        self,
        signed: bool,
        now: u64,
        key_active: Option<bool>,
        p: Presentation,
    ) -> Option<Trap<AttestationError>> {
        if !signed {
            Some(Trap::Unauthorized)
        } else if p.expires_at <= now {
            Some(Trap::Error(AttestationError::InvalidExpiry))
        } else if key_active is None {
            Some(Trap::NoContract)
        } else if key_active == Some(false) {
            Some(Trap::Error(AttestationError::InactiveIssuerKey))
        } else if self.revoked.contains(p.credential_ref@) {
            Some(Trap::Error(AttestationError::CredentialRevoked))
        } else if !self.verifiers.dom().contains(p.claim_type.kind_name()) {
            Some(Trap::Error(AttestationError::NoVerifierForClaim))
        } else if claim_xdr(p.claim_type).len() + p.context.len() > u32::MAX || p.user.len()
            > u32::MAX {
            Some(Trap::Oversized)
        } else {
            None
        }
    }
}

/// The verdict of an issuer registry on a key, if a contract stands at its
/// address.
pub open spec fn key_verdict<I: Issuers>(
    registry: Seq<u8>,
    registries: Map<Seq<u8>, I>,
    key: Seq<u8>,
) -> Option<bool> {
    if registries.dom().contains(registry) {
        Some(registries[registry].key_active(key))
    } else {
        None
    }
}

/// Why a checked presentation is refused after its proof was looked at, if it
/// is.
pub open spec fn verdict_refusal(verdict: Result<bool, VerifierTrap>) -> Option<
    Trap<AttestationError>,
> {
    match verdict {
        Err(trap) => Some(Trap::Verifier(trap)),
        Ok(accepted) => if accepted {
            None
        } else {
            Some(Trap::Error(AttestationError::InvalidProof))
        },
    }
}

/// Why a presentation is refused, if it is.
pub open spec fn present_outcome<V: Verifier>(
    s: AttestationState,
    signed: bool,
    now: u64,
    key_active: Option<bool>,
    verifiers: Map<Seq<u8>, V>,
    proof: Groth16Proof,
    p: Presentation,
) -> Option<Trap<AttestationError>> {
    match s.refusal(signed, now, key_active, p) {
        Some(trap) => Some(trap),
        None => {
            let verifier = s.verifiers[p.claim_type.kind_name()];
            if !verifiers.dom().contains(verifier) {
                Some(Trap::NoContract)
            } else {
                verdict_refusal(verifiers[verifier].verdict(proof, p.inputs()))
            }
        },
    }
}

/// The attestation registry.
#[derive(Debug)]
pub struct AttestationRegistry {
    admin: Address,
    issuer_registry: Address,
    verifiers: Store<String, Address>,
    attestations: Store<Holding, AttestationRecord>,
    revoked: Store<[u8; 32], bool>,
}

impl View for AttestationRegistry {
    type V = AttestationState;

    closed spec fn view(&self) -> AttestationState {
        AttestationState {
            admin: self.admin@,
            issuer_registry: self.issuer_registry@,
            verifiers: self.verifiers.map().map_values(|a: Address| a@),
            attestations: self.attestations.map(),
            revoked: self.revoked.map().dom(),
        }
    }
}

impl AttestationRegistry {
    /// The stores are in order.
    pub closed spec fn wf(self) -> bool {
        &&& self.verifiers.wf()
        &&& self.attestations.wf()
        &&& self.revoked.wf()
    }

    /// A registry without attestations.
    pub fn new(admin: Address, issuer_registry: Address) -> (registry: AttestationRegistry)
        ensures
            registry.wf(),
            registry@ == (AttestationState {
                admin: admin@,
                issuer_registry: issuer_registry@,
                verifiers: Map::empty(),
                attestations: Map::empty(),
                revoked: Set::empty(),
            }),
    {
        let registry = AttestationRegistry {
            admin,
            issuer_registry,
            verifiers: Store::new(),
            attestations: Store::new(),
            revoked: Store::new(),
        };
        proof {
            assert(registry@.verifiers =~= Map::empty());
            assert(registry@.revoked =~= Set::empty());
        }
        registry
    }

    /// Routes a claim kind to the `zk_verifier` instance pinned to its
    /// circuit.
    pub fn set_verifier(&mut self, call: &Invocation, claim_kind: String, verifier: Address) -> (
        done: Result<VerifierSet, Trap<AttestationError>>)
        requires
            old(self).wf(),
        ensures
            final(self).wf(),
            match done {
                Ok(event) => {
                    &&& call.signed_by(old(self)@.admin)
                    &&& final(self)@ == old(self)@.routed(claim_kind@, verifier@)
                    &&& event.claim_kind@ == claim_kind@
                    &&& event.verifier@ == verifier@
                },
                Err(trap) => {
                    &&& !call.signed_by(old(self)@.admin)
                    &&& trap == Trap::<AttestationError>::Unauthorized
                    &&& *final(self) == *old(self)
                },
            },
    {
        if !call.is_signed_by(&self.admin) {
            return Err(Trap::Unauthorized);
        }
        let kind: String = claim_kind.clone();
        let routed = verifier.clone();
        self.verifiers.set(kind, routed);
        proof {
            assert(self@.verifiers =~= old(self)@.routed(claim_kind@, verifier@).verifiers);
        }
        Ok(VerifierSet { claim_kind, verifier })
    }

    /// The checks that a presentation passes before its proof is looked at.
    /// Returns the address of the verifier instance and the statement to
    /// prove.
    pub fn check_present<I: Issuers>(
        &self,
        env: &soroban_sdk::Env,
        call: &Invocation,
        issuers: &Store<Address, I>,
        user: &Address,
        claim_type: &ClaimType,
        context: &Vec<u8>,
        issuer_key: &[u8; 32],
        credential_ref: &[u8; 32],
        expires_at: u64,
    ) -> (checked: Result<(Address, Vec<[u8; 32]>), Trap<AttestationError>>)
        requires
            self.wf(),
            issuers.wf(),
            forall|a: Seq<u8>| #[trigger]
                issuers.map().dom().contains(a) ==> issuers.map()[a].in_order(),
        ensures
            ({
                let p = Presentation {
                    user: user@,
                    claim_type: *claim_type,
                    context: context@,
                    issuer_key: issuer_key@,
                    credential_ref: *credential_ref,
                    expires_at,
                };
                match self@.refusal(
                    call.signed_by(user@),
                    call.now,
                    key_verdict(self@.issuer_registry, issuers.map(), issuer_key@),
                    p,
                ) {
                    Some(trap) => checked == Err::<
                        (Address, Vec<[u8; 32]>),
                        Trap<AttestationError>,
                    >(trap),
                    None => {
                        &&& checked matches Ok((verifier, inputs))
                        &&& verifier@ == self@.verifiers[claim_type.kind_name()]
                        &&& byte_views(inputs@) == p.inputs()
                    },
                }
            }),
    {
        let ghost p = Presentation {
            user: user@,
            claim_type: *claim_type,
            context: context@,
            issuer_key: issuer_key@,
            credential_ref: *credential_ref,
            expires_at,
        };
        if !call.is_signed_by(user) {
            return Err(Trap::Unauthorized);
        }
        if expires_at <= call.now {
            return Err(Trap::Error(AttestationError::InvalidExpiry));
        }
        match issuers.get(&self.issuer_registry) {
            None => {
                return Err(Trap::NoContract);
            },
            Some(registry) => {
                if !registry.is_key_active(issuer_key) {
                    return Err(Trap::Error(AttestationError::InactiveIssuerKey));
                }
            },
        }
        if self.revoked.has(credential_ref) {
            return Err(Trap::Error(AttestationError::CredentialRevoked));
        }
        let kind: String = claim_type.kind().to_owned();
        let verifier: Address = match self.verifiers.get(&kind) {
            Some(address) => address.clone(),
            None => {
                return Err(Trap::Error(AttestationError::NoVerifierForClaim));
            },
        };
        let claim_bound: [u8; 32] = match claim_binding(env, claim_type, context) {
            Some(bytes) => bytes,
            None => {
                return Err(Trap::Oversized);
            },
        };
        let user_bound: [u8; 32] = match address_binding(env, user) {
            Some(bytes) => bytes,
            None => {
                return Err(Trap::Oversized);
            },
        };
        let expiry: [u8; 32] = u64_to_field(expires_at);
        let inputs: Vec<[u8; 32]> = vec![
            *issuer_key,
            *credential_ref,
            claim_bound,
            user_bound,
            expiry,
        ];
        proof {
            assert(byte_views(inputs@) =~= p.inputs());
        }
        Ok((verifier, inputs))
    }

    /// What the verdict on a checked presentation leads to: a recorded
    /// attestation, or a refusal.
    pub fn settle_present(
        &mut self,
        call: &Invocation,
        verdict: Result<bool, VerifierTrap>,
        user: Address,
        claim_type: ClaimType,
        credential_ref: [u8; 32],
        expires_at: u64,
    ) -> (done: Result<Presented, Trap<AttestationError>>)
        requires
            old(self).wf(),
        ensures
            final(self).wf(),
            match verdict_refusal(verdict) {
                Some(trap) => {
                    &&& done == Err::<Presented, Trap<AttestationError>>(trap)
                    &&& *final(self) == *old(self)
                },
                None => {
                    &&& done matches Ok(event)
                    &&& final(self)@ == (AttestationState {
                        attestations: old(self)@.attestations.insert(
                            (user@, claim_type),
                            AttestationRecord {
                                expires_at,
                                credential_ref,
                                presented_at: call.now,
                            },
                        ),
                        ..old(self)@
                    })
                    &&& event.user@ == user@
                    &&& event.claim_type == claim_type
                    &&& event.expires_at == expires_at
                },
            },
    {
        match verdict {
            Err(trap) => {
                return Err(Trap::Verifier(trap));
            },
            Ok(accepted) => {
                if !accepted {
                    return Err(Trap::Error(AttestationError::InvalidProof));
                }
            },
        }
        let record = AttestationRecord { expires_at, credential_ref, presented_at: call.now };
        let holding = Holding { address: user.clone(), claim_type };
        self.attestations.set(holding, record);
        Ok(Presented { user, claim_type, expires_at })
    }

    /// Presents a ZK proof over an issuer credential.
    ///
    /// * `user`: the address the attestation is recorded for (must authorize,
    ///   so attestations cannot be replayed onto someone else).
    /// * `claim_type`: the claim being proven, parameters included.
    /// * `context`: verifying-app-specific binding data, hashed into the
    ///   public inputs.
    /// * `issuer_key`: the issuer signing key the credential verifies against;
    ///   must be active in the issuer registry.
    /// * `credential_ref`: revocation handle derived in-circuit from the
    ///   credential.
    /// * `expires_at`: attestation expiry, constrained in-circuit to not
    ///   outlive the credential.
    pub fn present<V: Verifier, I: Issuers>(
        &mut self,
        env: &soroban_sdk::Env,
        call: &Invocation,
        issuers: &Store<Address, I>,
        verifiers: &Store<Address, V>,
        user: Address,
        proof: &Groth16Proof,
        claim_type: ClaimType,
        context: &Vec<u8>,
        issuer_key: [u8; 32],
        credential_ref: [u8; 32],
        expires_at: u64,
    ) -> (done: Result<Presented, Trap<AttestationError>>)
        requires
            old(self).wf(),
            verifiers.wf(),
            issuers.wf(),
            forall|a: Seq<u8>| #[trigger]
                issuers.map().dom().contains(a) ==> issuers.map()[a].in_order(),
        ensures
            final(self).wf(),
            ({
                let p = Presentation {
                    user: user@,
                    claim_type,
                    context: context@,
                    issuer_key: issuer_key@,
                    credential_ref,
                    expires_at,
                };
                match present_outcome(
                    old(self)@,
                    call.signed_by(user@),
                    call.now,
                    key_verdict(old(self)@.issuer_registry, issuers.map(), issuer_key@),
                    verifiers.map(),
                    *proof,
                    p,
                ) {
                    Some(trap) => {
                        &&& done == Err::<Presented, Trap<AttestationError>>(trap)
                        &&& *final(self) == *old(self)
                    },
                    None => {
                        &&& done matches Ok(event)
                        &&& final(self)@ == old(self)@.recorded(call.now, p)
                        &&& event.user@ == user@
                        &&& event.claim_type == claim_type
                        &&& event.expires_at == expires_at
                    },
                }
            }),
    {
        let (verifier, inputs): (Address, Vec<[u8; 32]>) = match self.check_present(
            env,
            call,
            issuers,
            &user,
            &claim_type,
            context,
            &issuer_key,
            &credential_ref,
            expires_at,
        ) {
            Ok(checked) => checked,
            Err(trap) => {
                return Err(trap);
            },
        };
        let verdict: Result<bool, VerifierTrap> = match verifiers.get(&verifier) {
            Some(instance) => instance.verify(env, proof, &inputs),
            None => {
                return Err(Trap::NoContract);
            },
        };
        self.settle_present(call, verdict, user, claim_type, credential_ref, expires_at)
    }

    /// Issuer-driven revocation of a credential. Every attestation that
    /// carries this `credential_ref` fails `check` from now on.
    pub fn revoke_credential<I: Issuers>(
        &mut self,
        call: &Invocation,
        issuers: &Store<Address, I>,
        issuer: Address,
        credential_ref: [u8; 32],
    ) -> (done: Result<CredentialRevoked, Trap<AttestationError>>)
        requires
            old(self).wf(),
            issuers.wf(),
            forall|a: Seq<u8>| #[trigger]
                issuers.map().dom().contains(a) ==> issuers.map()[a].in_order(),
        ensures
            final(self).wf(),
            match revoke_refusal(
                call.signed_by(issuer@),
                old(self)@.issuer_registry,
                issuers.map(),
                issuer@,
            ) {
                Some(trap) => {
                    &&& done == Err::<CredentialRevoked, Trap<AttestationError>>(trap)
                    &&& *final(self) == *old(self)
                },
                None => {
                    &&& done matches Ok(event)
                    &&& final(self)@ == old(self)@.revoking(credential_ref@)
                    &&& event.issuer@ == issuer@
                    &&& event.credential_ref == credential_ref
                },
            },
    {
        if !call.is_signed_by(&issuer) {
            return Err(Trap::Unauthorized);
        }
        match issuers.get(&self.issuer_registry) {
            None => {
                return Err(Trap::NoContract);
            },
            Some(registry) => {
                if !registry.is_issuer(&issuer) {
                    return Err(Trap::Error(AttestationError::NotAnIssuer));
                }
            },
        }
        self.revoked.set(credential_ref, true);
        proof {
            assert(self@.revoked =~= old(self)@.revoked.insert(credential_ref@));
        }
        Ok(CredentialRevoked { issuer, credential_ref })
    }

    /// The attestation record, for indexers and disclosure tooling.
    pub fn get_attestation(&self, address: &Address, claim_type: &ClaimType) -> (found: Option<
        &AttestationRecord,
    >)
        requires
            self.wf(),
        ensures
            match found {
                Some(r) => self@.attestations.dom().contains((address@, *claim_type)) && *r
                    == self@.attestations[(address@, *claim_type)],
                None => !self@.attestations.dom().contains((address@, *claim_type)),
            },
    {
        let holding = Holding { address: address.clone(), claim_type: *claim_type };
        self.attestations.get(&holding)
    }
}

/// Why a revocation is refused, if it is.
pub open spec fn revoke_refusal<I: Issuers>(
    signed: bool,
    registry: Seq<u8>,
    registries: Map<Seq<u8>, I>,
    issuer: Seq<u8>,
) -> Option<Trap<AttestationError>> {
    if !signed {
        Some(Trap::Unauthorized)
    } else if !registries.dom().contains(registry) {
        Some(Trap::NoContract)
    } else if !registries[registry].issuer_active(issuer) {
        Some(Trap::Error(AttestationError::NotAnIssuer))
    } else {
        None
    }
}

impl Attestations for AttestationRegistry {
    open spec fn attested(&self, now: u64, address: Seq<u8>, claim_type: ClaimType) -> bool {
        self@.attested(now, address, claim_type)
    }

    open spec fn in_order(&self) -> bool {
        self.wf()
    }

    /// The one-call integration for every other app.
    fn check(&self, now: u64, address: &Address, claim_type: &ClaimType) -> (held: bool) {
        match self.get_attestation(address, claim_type) {
            None => false,
            Some(record) => now <= record.expires_at && !self.revoked.has(&record.credential_ref),
        }
    }
}

/// Hashes the claim (parameters included) and app context into one field
/// element, top byte cleared for canonicity. Gives nothing where they are
/// longer than the host's byte strings can be.
fn claim_binding(env: &soroban_sdk::Env, claim_type: &ClaimType, context: &Vec<u8>) -> (out: Option<
    [u8; 32],
>)
    ensures
        out is None == (claim_xdr(*claim_type).len() + context@.len() > u32::MAX),
        out matches Some(bytes) ==> bytes@ == binding_of(claim_xdr(*claim_type) + context@),
{
    let mut data: Vec<u8> = claim_to_xdr(env, claim_type);
    let mut i: usize = 0;
    while i < context.len()
        invariant
            i <= context@.len(),
            data@ == claim_xdr(*claim_type) + context@.take(i as int),
        decreases context@.len() - i,
    {
        data.push(context[i]);
        proof {
            assert(data@ =~= claim_xdr(*claim_type) + context@.take(i + 1));
        }
        i = i + 1;
    }
    proof {
        assert(context@.take(context@.len() as int) =~= context@);
    }
    binding(env, &data)
}

/// **Present, then check.** A recorded attestation holds from the time it was
/// presented up to its expiry, unless its credential is revoked.
pub proof fn lemma_present_then_check(
    s: AttestationState,
    now: u64,
    p: Presentation,
    later: u64,
)
    requires
        !s.revoked.contains(p.credential_ref@),
    ensures
        s.recorded(now, p).attested(later, p.user, p.claim_type) == (later <= p.expires_at),
{
}

/// **Attestations are scoped.** Recording one changes nothing for another
/// address or another claim, parameters included.
pub proof fn lemma_scoped(
    s: AttestationState,
    now: u64,
    p: Presentation,
    address: Seq<u8>,
    claim_type: ClaimType,
    at: u64,
)
    requires
        (address, claim_type) != (p.user, p.claim_type),
    ensures
        s.recorded(now, p).attested(at, address, claim_type) == s.attested(
            at,
            address,
            claim_type,
        ),
{
}

/// **Expiry is final.** An attestation that does not hold for its age does not
/// hold later either.
pub proof fn lemma_expiry_final(
    s: AttestationState,
    now: u64,
    later: u64,
    address: Seq<u8>,
    claim_type: ClaimType,
)
    requires
        now <= later,
    ensures
        s.attested(later, address, claim_type) ==> s.attested(now, address, claim_type),
{
}

/// **Revocation invalidates.** Once a credential is revoked, no attestation
/// that carries it holds, at any time, for anyone, and others are untouched.
pub proof fn lemma_revocation(
    s: AttestationState,
    credential_ref: Seq<u8>,
    at: u64,
    address: Seq<u8>,
    claim_type: ClaimType,
)
    requires
        s.attestations.dom().contains((address, claim_type)),
    ensures
        s.revoking(credential_ref).attested(at, address, claim_type) == (s.attested(
            at,
            address,
            claim_type,
        ) && s.attestations[(address, claim_type)].credential_ref@ != credential_ref),
{
}

/// **Revocation is final.** No step takes a credential out of the revoked set,
/// and a revoked credential cannot be presented.
pub proof fn lemma_revocation_final(
    s: AttestationState,
    signed: bool,
    now: u64,
    key_active: Option<bool>,
    p: Presentation,
    other: Seq<u8>,
    kind: Seq<char>,
    verifier: Seq<u8>,
)
    requires
        s.revoked.contains(p.credential_ref@),
    ensures
        s.refusal(signed, now, key_active, p) is Some,
        s.recorded(now, p).revoked.contains(p.credential_ref@),
        s.revoking(other).revoked.contains(p.credential_ref@),
        s.routed(kind, verifier).revoked.contains(p.credential_ref@),
{
}

/// **No attestation without a proof.** A presentation that is not refused is
/// signed by its user, carries a credential that is not revoked and has not
/// expired, comes under an active issuer key, and has a proof that the claim
/// kind's verifier accepts for its statement.
pub proof fn lemma_recorded_only_if_proven<V: Verifier, I: Issuers>(
    s: AttestationState,
    signed: bool,
    now: u64,
    issuers: Map<Seq<u8>, I>,
    verifiers: Map<Seq<u8>, V>,
    proof: Groth16Proof,
    p: Presentation,
)
    requires
        present_outcome(
            s,
            signed,
            now,
            key_verdict(s.issuer_registry, issuers, p.issuer_key),
            verifiers,
            proof,
            p,
        ) is None,
    ensures
        signed,
        now < p.expires_at,
        issuers.dom().contains(s.issuer_registry),
        issuers[s.issuer_registry].key_active(p.issuer_key),
        !s.revoked.contains(p.credential_ref@),
        s.verifiers.dom().contains(p.claim_type.kind_name()),
        verifiers[s.verifiers[p.claim_type.kind_name()]].verdict(proof, p.inputs()) == Ok::<
            bool,
            VerifierTrap,
        >(true),
{
}

/// **The statement binds its subject.** The public inputs of two presentations
/// agree only if the issuer key, the credential, the expiry and the bindings
/// of user, claim and context do.
pub proof fn lemma_presentation_binds(a: Presentation, b: Presentation)
    requires
        a.inputs() == b.inputs(),
    ensures
        a.issuer_key == b.issuer_key,
        a.credential_ref@ == b.credential_ref@,
        a.expires_at == b.expires_at,
        binding_of(a.user) == binding_of(b.user),
        binding_of(claim_xdr(a.claim_type) + a.context) == binding_of(
            claim_xdr(b.claim_type) + b.context,
        ),
{
    assert(a.inputs()[0] == b.inputs()[0]);
    assert(a.inputs()[1] == b.inputs()[1]);
    assert(a.inputs()[2] == b.inputs()[2]);
    assert(a.inputs()[3] == b.inputs()[3]);
    assert(a.inputs()[4] == b.inputs()[4]);
    lemma_pow256_sizes();
    lemma_be_bytes(a.expires_at as nat, 32);
    lemma_be_bytes(b.expires_at as nat, 32);
}

} // verus!
