//! Canonicity of BLS12-381 scalar encodings.
//!
//! The host functions reduce scalar bytes by the group order silently, so `x`
//! and `x + r` are distinct byte strings that name the same field element.
//! Contracts that key state on scalar bytes (nullifier sets, commitment
//! trees) accept only the canonical encoding.

use crate::bytes::{be_nat, be_prefix, lemma_be_prefix_same};
use crate::field::fr_modulus;
use vstd::prelude::*;

verus! {

/// The BLS12-381 scalar field order minus one, big-endian: the largest
/// canonical scalar encoding.
pub const FR_MINUS_ONE: [u8; 32] = [
    0x73, 0xed, 0xa7, 0x53, 0x29, 0x9d, 0x7d, 0x48, 0x33, 0x39, 0xd8, 0x08, 0x09, 0xa1, 0xd8, 0x05,
    0x53, 0xbd, 0xa4, 0x02, 0xff, 0xfe, 0x5b, 0xfe, 0xff, 0xff, 0xff, 0xff, 0x00, 0x00, 0x00, 0x00,
];

/// A canonical encoding of a field element.
pub open spec fn canonical_scalar(bytes: Seq<u8>) -> bool {
    bytes.len() == 32 && be_nat(bytes) < fr_modulus()
}

/// The constant is what it says.
pub proof fn lemma_fr_minus_one()
    ensures
        be_nat(FR_MINUS_ONE@) == fr_modulus() - 1,
{
    reveal_with_fuel(be_prefix, 33);
}

/// Of two byte strings, the one with the smaller prefix is the smaller.
proof fn lemma_less(s: Seq<u8>, t: Seq<u8>, m: nat, n: nat)
    requires
        m <= n <= s.len(),
        n <= t.len(),
        be_prefix(s, m) < be_prefix(t, m),
    ensures
        be_prefix(s, n) < be_prefix(t, n),
    decreases n,
{
    if m < n {
        lemma_less(s, t, m, (n - 1) as nat);
    }
}

/// Whether `bytes` is a canonical big-endian field element.
pub fn is_canonical(bytes: &[u8; 32]) -> (canonical: bool)
    ensures
        canonical == canonical_scalar(bytes@),
{
    let largest: [u8; 32] = FR_MINUS_ONE;
    proof {
        lemma_fr_minus_one();
    }
    let mut i: usize = 0;
    while i < 32
        invariant
            i <= 32,
            be_nat(largest@) == fr_modulus() - 1,
            forall|k: int| 0 <= k < i ==> bytes[k] == largest[k],
        decreases 32 - i,
    {
        if bytes[i] != largest[i] {
            proof {
                lemma_be_prefix_same(bytes@, largest@, i as nat);
                if bytes[i as int] < largest[i as int] {
                    lemma_less(bytes@, largest@, (i + 1) as nat, 32);
                } else {
                    lemma_less(largest@, bytes@, (i + 1) as nat, 32);
                }
            }
            return bytes[i] < largest[i];
        }
        i = i + 1;
    }
    proof {
        lemma_be_prefix_same(bytes@, largest@, 32);
    }
    true
}

} // verus!
