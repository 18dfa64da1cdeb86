//! Note commitments, spending keys, and nullifiers.
//!
//! A shielded note is `(value, owner, blinding)`: a 64-bit token amount, the
//! public key `pk = H(1, sk)` of a spending key `sk` that never leaves the
//! client, and fresh randomness that makes the commitment hiding.
//!
//! The commitment that goes into the pool's Merkle tree is
//! `cm = H(H(value, pk), blinding)`. The nullifier is
//! `nf = H(H(2, sk), leaf_index)`: the key holder alone can derive it, and the
//! pool gives each commitment a leaf index of its own, so a note has exactly
//! one nullifier. `H` is [`crate::poseidon::hash2`].

use crate::field::Fr;
use crate::poseidon::{hash2, hash2_spec, hash2_with, parameters};
use vstd::prelude::*;

pub mod gadget;

verus! {

/// Domain tag for the derivation of a public key from a spending key.
pub const DOMAIN_PK: u64 = 1;

/// Domain tag for nullifier derivation.
pub const DOMAIN_NF: u64 = 2;

/// The public key of a spending key.
pub open spec fn pk_of(sk: nat) -> nat {
    hash2_spec(1, sk)
}

/// The commitment to a note.
pub open spec fn commitment_of(value: nat, owner_pk: nat, blinding: nat) -> nat {
    hash2_spec(hash2_spec(value, owner_pk), blinding)
}

/// The nullifier of the note at a leaf.
pub open spec fn nullifier_of(sk: nat, leaf_index: nat) -> nat {
    hash2_spec(hash2_spec(2, sk), leaf_index)
}

/// A shielded note as the client knows it.
#[derive(Clone, Copy, Debug, PartialEq, Eq, Structural)]
pub struct Note {
    /// Token amount (stroops).
    pub value: u64,
    /// The owner's public key.
    pub owner_pk: Fr,
    /// Commitment randomness.
    pub blinding: Fr,
}

impl Note {
    /// The commitment to this note, as an integer.
    pub open spec fn committed(self) -> nat {
        commitment_of(self.value as nat, self.owner_pk.value(), self.blinding.value())
    }

    /// The note commitment that goes into the pool's Merkle tree.
    pub fn commitment(&self) -> (cm: Fr)
        ensures
            cm.value() == self.committed(),
    {
        let params = parameters();
        let inner = hash2_with(&params, Fr::from_u64(self.value), self.owner_pk);
        hash2_with(&params, inner, self.blinding)
    }
}

/// Derives the public key for a spending key.
pub fn derive_pk(sk: Fr) -> (pk: Fr)
    ensures
        pk.value() == pk_of(sk.value()),
{
    hash2(Fr::from_u64(DOMAIN_PK), sk)
}

/// Derives the nullifier for the note at `leaf_index` owned by `sk`.
pub fn derive_nullifier(sk: Fr, leaf_index: u64) -> (nf: Fr)
    ensures
        nf.value() == nullifier_of(sk.value(), leaf_index as nat),
{
    let params = parameters();
    let inner = hash2_with(&params, Fr::from_u64(DOMAIN_NF), sk);
    hash2_with(&params, inner, Fr::from_u64(leaf_index))
}

/// Two different pairs with one hash.
pub open spec fn collides(a: (nat, nat), b: (nat, nat)) -> bool {
    a != b && hash2_spec(a.0, a.1) == hash2_spec(b.0, b.1)
}

/// **Commitments are binding.** Two openings of one commitment are the same
/// value, owner and blinding, or one of their two hash steps collides.
pub proof fn lemma_commitment_binding(
    value: nat,
    owner_pk: nat,
    blinding: nat,
    other_value: nat,
    other_pk: nat,
    other_blinding: nat,
)
    requires
        commitment_of(value, owner_pk, blinding) == commitment_of(
            other_value,
            other_pk,
            other_blinding,
        ),
    ensures
        (value == other_value && owner_pk == other_pk && blinding == other_blinding) || collides(
            (hash2_spec(value, owner_pk), blinding),
            (hash2_spec(other_value, other_pk), other_blinding),
        ) || collides((value, owner_pk), (other_value, other_pk)),
{
}

/// **Each note has one nullifier.** Two keys that open one commitment derive
/// the same nullifier at one leaf, or a hash step of the openings or of the
/// keys collides.
pub proof fn lemma_one_nullifier(
    value: nat,
    sk: nat,
    blinding: nat,
    other_value: nat,
    other_sk: nat,
    other_blinding: nat,
    leaf_index: nat,
)
    requires
        commitment_of(value, pk_of(sk), blinding) == commitment_of(
            other_value,
            pk_of(other_sk),
            other_blinding,
        ),
    ensures
        nullifier_of(sk, leaf_index) == nullifier_of(other_sk, leaf_index) || collides(
            (hash2_spec(value, pk_of(sk)), blinding),
            (hash2_spec(other_value, pk_of(other_sk)), other_blinding),
        ) || collides((value, pk_of(sk)), (other_value, pk_of(other_sk))) || collides(
            (1, sk),
            (1, other_sk),
        ),
{
    lemma_commitment_binding(
        value,
        pk_of(sk),
        blinding,
        other_value,
        pk_of(other_sk),
        other_blinding,
    );
}

/// **Nullifiers are unique per key and leaf.** Different keys or leaves give
/// different nullifiers, or a hash step of the derivations collides.
pub proof fn lemma_nullifiers_unique(sk: nat, leaf_index: nat, other_sk: nat, other_index: nat)
    requires
        (sk, leaf_index) != (other_sk, other_index),
    ensures
        nullifier_of(sk, leaf_index) != nullifier_of(other_sk, other_index) || collides(
            (hash2_spec(2, sk), leaf_index),
            (hash2_spec(2, other_sk), other_index),
        ) || collides((2, sk), (2, other_sk)),
{
}

/// **Domains are separated.** A public key is never the inner hash of a
/// nullifier, or the two domain tags exhibit a collision.
pub proof fn lemma_domains_separated(sk: nat, other_sk: nat)
    ensures
        pk_of(sk) != hash2_spec(2, other_sk) || collides((1, sk), (2, other_sk)),
{
}

} // verus!
