//! Circuit public-input layouts shared with the contract layer.

use vstd::prelude::*;

verus! {

/// Public input count for the withdraw circuit: root, nullifier, recipient
/// binding, amount.
pub const WITHDRAW_PUBLIC_INPUTS: usize = 4;

/// Public input count for attestation circuits: issuer key, credential ref,
/// claim binding, subject binding, expiry.
pub const ATTESTATION_PUBLIC_INPUTS: usize = 5;

/// Public input count for the transfer circuit with `n_in` spent notes and
/// `n_out` created notes: root, nullifiers and commitments.
pub fn transfer_public_inputs(n_in: usize, n_out: usize) -> (n: usize)
    requires
        1 + n_in + n_out <= usize::MAX,
    ensures
        n == 1 + n_in + n_out,
{
    1 + n_in + n_out
}

} // verus!
