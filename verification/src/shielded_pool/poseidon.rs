//! The protocol hash on encoded field elements.

use crate::bytes::be_nat;
use crate::encoding::{fr_from_bytes, fr_to_bytes};
use crate::field::fr_modulus;
use crate::interfaces::fr::canonical_scalar;
use crate::poseidon::{hash2_spec, hash2_with, parameters, Parameters};
use vstd::prelude::*;

verus! {

/// The hash of two encoded field elements: [`crate::poseidon::hash2`] of what
/// they name, encoded.
pub fn hash2(left: &[u8; 32], right: &[u8; 32]) -> (hash: [u8; 32])
    ensures
        be_nat(hash@) == hash2_spec(be_nat(left@) % fr_modulus(), be_nat(right@) % fr_modulus()),
        canonical_scalar(hash@),
{
    let params = parameters();
    hash2_bytes(&params, left, right)
}

/// The hash of two encoded field elements, with the parameters at hand.
pub(crate) fn hash2_bytes(params: &Parameters, left: &[u8; 32], right: &[u8; 32]) -> (hash: [u8;
    32])
    requires
        params.is_protocol(),
    ensures
        be_nat(hash@) == hash2_spec(be_nat(left@) % fr_modulus(), be_nat(right@) % fr_modulus()),
        canonical_scalar(hash@),
{
    let hash = hash2_with(params, fr_from_bytes(left), fr_from_bytes(right));
    proof {
        use_type_invariant(&hash);
    }
    fr_to_bytes(hash)
}

} // verus!
