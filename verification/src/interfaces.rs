//! Types and interfaces that the contracts share.
//!
//! A contract is its state; an entry point is a method on it. What the ledger
//! adds to a call stands in [`Invocation`]: the time and the addresses that
//! authorized it. Other contracts are found by their address in a
//! [`crate::store::Store`].
//! A call that the ledger would abort returns a [`Trap`] and leaves the state
//! as it was.

use crate::bytes::same32;
use crate::encoding::{G1_LEN, G2_LEN};
use crate::store::Key;
use crate::zk_verifier::VerifierError;
use vstd::prelude::*;

pub mod fr;

verus! {

/// An account or contract address, as its XDR bytes.
#[derive(Debug, PartialEq, Eq, Hash)]
pub struct Address {
    /// The XDR encoding.
    pub xdr: Vec<u8>,
}

impl View for Address {
    type V = Seq<u8>;

    open spec fn view(&self) -> Seq<u8> {
        self.xdr@
    }
}

impl Clone for Address {
    fn clone(&self) -> (copy: Address)
        ensures
            copy@ == self@,
    {
        let mut xdr: Vec<u8> = Vec::new();
        let mut i: usize = 0;
        while i < self.xdr.len()
            invariant
                i <= self.xdr@.len(),
                xdr@ == self.xdr@.take(i as int),
            decreases self.xdr@.len() - i,
        {
            xdr.push(self.xdr[i]);
            proof {
                assert(self.xdr@.take(i + 1) =~= self.xdr@.take(i as int).push(
                    self.xdr@[i as int],
                ));
            }
            i = i + 1;
        }
        proof {
            assert(self.xdr@.take(self.xdr@.len() as int) =~= self.xdr@);
        }
        Address { xdr }
    }
}

impl Key for Address {
    type Id = Seq<u8>;

    open spec fn id(&self) -> Seq<u8> {
        self@
    }

    fn same(&self, other: &Address) -> (same: bool) {
        proof {
            assert(self.id() == self.xdr@ && other.id() == other.xdr@);
        }
        if self.xdr.len() != other.xdr.len() {
            return false;
        }
        let mut i: usize = 0;
        while i < self.xdr.len()
            invariant
                i <= self.xdr@.len(),
                self.xdr@.len() == other.xdr@.len(),
                self.id() == self.xdr@,
                other.id() == other.xdr@,
                forall|k: int| 0 <= k < i ==> self.xdr@[k] == other.xdr@[k],
            decreases self.xdr@.len() - i,
        {
            if self.xdr[i] != other.xdr[i] {
                return false;
            }
            i = i + 1;
        }
        proof {
            assert(self.xdr@ =~= other.xdr@);
        }
        true
    }
}

/// Compliance claim types.
#[derive(Clone, Copy, Debug, PartialEq, Eq, Hash)]
pub enum ClaimType {
    /// KYC verification at or above the given level.
    KycLevel(u32),
    /// Residency in one of an allowed set of jurisdictions, identified by a
    /// hash over the set that the verifying app accepts.
    Jurisdiction([u8; 32]),
    /// Monthly inflows above the given threshold (stroops of the reference
    /// asset), proven over an issuer-signed income credential.
    IncomeAbove(i128),
    /// Accredited-investor status.
    Accredited,
}

impl ClaimType {
    /// The name of the claim's kind.
    pub open spec fn kind_name(self) -> Seq<char> {
        match self {
            ClaimType::KycLevel(_) => "kyc_level"@,
            ClaimType::Jurisdiction(_) => "jurisdiction"@,
            ClaimType::IncomeAbove(_) => "income_above"@,
            ClaimType::Accredited => "accredited"@,
        }
    }

    /// The claim kind, used to route to the verifier for the matching
    /// circuit. Distinct parameters of one kind share a circuit; the
    /// parameter is a public input.
    pub fn kind(&self) -> (kind: &'static str)
        ensures
            kind@ == self.kind_name(),
    {
        match self {
            ClaimType::KycLevel(_) => "kyc_level",
            ClaimType::Jurisdiction(_) => "jurisdiction",
            ClaimType::IncomeAbove(_) => "income_above",
            ClaimType::Accredited => "accredited",
        }
    }

    /// Whether two claims are the same, parameters included.
    pub fn same(&self, other: &ClaimType) -> (same: bool)
        ensures
            same == (*self == *other),
    {
        match (self, other) {
            (ClaimType::KycLevel(a), ClaimType::KycLevel(b)) => *a == *b,
            (ClaimType::Jurisdiction(a), ClaimType::Jurisdiction(b)) => same32(a, b),
            (ClaimType::IncomeAbove(a), ClaimType::IncomeAbove(b)) => *a == *b,
            (ClaimType::Accredited, ClaimType::Accredited) => true,
            _ => false,
        }
    }
}

/// A Groth16 proof over BLS12-381, in the uncompressed affine encoding that
/// the host functions take (G1: 96 bytes, G2: 192 bytes).
#[derive(Clone, Copy, Debug, PartialEq, Eq)]
pub struct Groth16Proof {
    pub a: [u8; G1_LEN],
    pub b: [u8; G2_LEN],
    pub c: [u8; G1_LEN],
}

/// A Groth16 verifying key. Immutable per verifier instance: circuit upgrades
/// deploy a new verifier rather than mutating a key in place.
#[derive(Debug, PartialEq, Eq)]
pub struct VerificationKey {
    pub alpha: [u8; G1_LEN],
    pub beta: [u8; G2_LEN],
    pub gamma: [u8; G2_LEN],
    pub delta: [u8; G2_LEN],
    /// One G1 point per public input, plus one.
    pub ic: Vec<[u8; G1_LEN]>,
}

/// What the ledger adds to a call.
#[derive(Debug)]
pub struct Invocation {
    /// The ledger timestamp.
    pub now: u64,
    /// The addresses that authorized the call.
    pub signers: Vec<Address>,
}

impl Invocation {
    /// Whether an address authorized the call.
    pub open spec fn signed_by(self, address: Seq<u8>) -> bool {
        exists|i: int| 0 <= i < self.signers@.len() && (#[trigger] self.signers@[i])@ == address
    }

    /// Whether an address authorized the call.
    pub fn is_signed_by(&self, address: &Address) -> (signed: bool)
        ensures
            signed == self.signed_by(address@),
    {
        let mut i: usize = 0;
        while i < self.signers.len()
            invariant
                i <= self.signers@.len(),
                forall|k: int| 0 <= k < i ==> (#[trigger] self.signers@[k])@ != address@,
            decreases self.signers@.len() - i,
        {
            if self.signers[i].same(address) {
                assert(self.signers@[i as int]@ == address@);
                return true;
            }
            i = i + 1;
        }
        false
    }
}

/// Why a verifier instance gave no verdict.
#[derive(Clone, Copy, Debug, PartialEq, Eq, Structural)]
pub enum VerifierTrap {
    /// The instance reported an error.
    Error(VerifierError),
    /// A point of the proof or of the key is not one that the host takes: its
    /// encoding is malformed, or it is off the curve or out of the subgroup.
    InvalidPoint,
}

/// Why a call was aborted.
#[derive(Clone, Copy, Debug, PartialEq, Eq, Structural)]
pub enum Trap<E> {
    /// The contract reported an error.
    Error(E),
    /// An authorization is missing.
    Unauthorized,
    /// No contract stands at an address that is called.
    NoContract,
    /// An argument is longer than the ledger's byte strings can be.
    Oversized,
    /// The verifier that was called gave no verdict.
    Verifier(VerifierTrap),
}

/// The byte strings of a list.
pub open spec fn byte_views(inputs: Seq<[u8; 32]>) -> Seq<Seq<u8>> {
    Seq::new(inputs.len(), |i: int| inputs[i]@)
}

/// Every byte string is the canonical encoding of a field element.
pub open spec fn all_canonical(inputs: Seq<Seq<u8>>) -> bool {
    forall|i: int| 0 <= i < inputs.len() ==> fr::canonical_scalar(#[trigger] inputs[i])
}

/// A `zk_verifier` instance (one per circuit).
pub trait Verifier {
    /// The verdict of this instance on a statement.
    spec fn verdict(&self, proof: Groth16Proof, inputs: Seq<Seq<u8>>) -> Result<
        bool,
        VerifierTrap,
    >;

    /// Verifies `proof` against the instance's pinned verifying key with the
    /// given public inputs (big-endian scalars below the group order). A
    /// statement is accepted in its canonical encoding only.
    fn verify(
        &self,
        env: &soroban_sdk::Env,
        proof: &Groth16Proof,
        public_inputs: &Vec<[u8; 32]>,
    ) -> (verdict: Result<bool, VerifierTrap>)
        ensures
            verdict == self.verdict(*proof, byte_views(public_inputs@)),
            verdict == Ok::<bool, VerifierTrap>(true) ==> all_canonical(
                byte_views(public_inputs@),
            ),
    ;
}

/// The `attestation_registry`: the one-call integration for every other app.
pub trait Attestations {
    /// Whether an address holds a valid attestation of a claim at a time.
    spec fn attested(&self, now: u64, address: Seq<u8>, claim_type: ClaimType) -> bool;

    /// The registry's state is in order.
    spec fn in_order(&self) -> bool;

    /// Whether `address` holds a valid, unexpired, unrevoked attestation of
    /// `claim_type` at the ledger time `now`.
    fn check(&self, now: u64, address: &Address, claim_type: &ClaimType) -> (held: bool)
        requires
            self.in_order(),
        ensures
            held == self.attested(now, address@, *claim_type),
    ;
}

/// The `issuer_registry`.
pub trait Issuers {
    /// Whether an address is a registered, active issuer.
    spec fn issuer_active(&self, issuer: Seq<u8>) -> bool;

    /// Whether a key is an active signing key of an active issuer.
    spec fn key_active(&self, signing_key: Seq<u8>) -> bool;

    /// The registry's state is in order.
    spec fn in_order(&self) -> bool;

    /// Whether `issuer` is a registered, active credential issuer.
    fn is_issuer(&self, issuer: &Address) -> (active: bool)
        requires
            self.in_order(),
        ensures
            active == self.issuer_active(issuer@),
    ;

    /// Whether `signing_key` is an active signing key of an active issuer.
    /// Attestation proofs are verified against issuer keys, so rotation or
    /// removal at once invalidates presentations under the old key.
    fn is_key_active(&self, signing_key: &[u8; 32]) -> (active: bool)
        requires
            self.in_order(),
        ensures
            active == self.key_active(signing_key@),
    ;
}

} // verus!
