//! The two prime fields of BLS12-381.
//!
//! [`Fr`] is the scalar field: spending keys, note values, blindings,
//! commitments, nullifiers and Merkle nodes are its elements. [`Fq`] is the
//! base field: the coordinates of curve points. Both hold the canonical
//! integer as little-endian 64-bit limbs; the arithmetic is that of `ark-ff`.

use crate::bytes::{be_nat, be_prefix, lemma_be_prefix_same, lemma_be_word, word_nat, word_to_be};
use ark_ff::{BigInt, Field, PrimeField};
use vstd::arithmetic::power::pow;
use vstd::prelude::*;

verus! {

/// The order of the scalar field.
pub open spec fn fr_modulus() -> nat {
    0x73eda753299d7d483339d80809a1d80553bda402fffe5bfeffffffff00000001nat
}

/// The order of the base field.
pub open spec fn fq_modulus() -> nat {
    0x1a0111ea397fe69a4b1ba7b6434bacd764774b84f38512bf6730d2a0f6b0f6241eabfffeb153ffffb9feffffffffaaabnat
}

/// An element of the BLS12-381 scalar field.
#[derive(Clone, Copy, Debug, PartialEq, Eq, Structural, Hash)]
pub struct Fr {
    pub(crate) l0: u64,
    pub(crate) l1: u64,
    pub(crate) l2: u64,
    pub(crate) l3: u64,
}

impl Fr {
    /// The integer that this element is, in `0 .. r`.
    pub closed spec fn value(self) -> nat {
        (self.l0 + 0x1_0000_0000_0000_0000 * self.l1
            + 0x1_0000_0000_0000_0000_0000_0000_0000_0000 * self.l2
            + 0x1_0000_0000_0000_0000_0000_0000_0000_0000_0000_0000_0000_0000 * self.l3) as nat
    }

    /// Every element is held by its canonical integer.
    #[verifier::type_invariant]
    pub open spec fn canonical(self) -> bool {
        self.value() < fr_modulus()
    }

    /// The element zero.
    pub fn zero() -> (x: Fr)
        ensures
            x.value() == 0,
    {
        Fr { l0: 0, l1: 0, l2: 0, l3: 0 }
    }

    /// The element that a 64-bit integer is.
    pub fn from_u64(n: u64) -> (x: Fr)
        ensures
            x.value() == n,
    {
        Fr { l0: n, l1: 0, l2: 0, l3: 0 }
    }

    /// The sum in the field.
    pub fn plus(&self, other: &Fr) -> (sum: Fr)
        ensures
            sum.value() == fr_add(self.value(), other.value()),
    {
        ark_add(self, other)
    }

    /// The product in the field.
    pub fn times(&self, other: &Fr) -> (product: Fr)
        ensures
            product.value() == fr_mul(self.value(), other.value()),
    {
        ark_mul(self, other)
    }

    /// The power in the field.
    pub fn pow(&self, exponent: u64) -> (power: Fr)
        ensures
            power.value() == fr_pow(self.value(), exponent as nat),
    {
        ark_pow(self, exponent)
    }

    /// The element as its 32 bytes, most significant first.
    pub fn to_be_bytes(&self) -> (out: [u8; 32])
        ensures
            be_nat(out@) == self.value(),
    {
        let words: [u64; 4] = [self.l3, self.l2, self.l1, self.l0];
        let mut out: [u8; 32] = [0u8; 32];
        let mut i: usize = 0;
        let ghost mut spelled: nat = 0;
        while i < 4
            invariant
                i <= 4,
                words@ == seq![self.l3, self.l2, self.l1, self.l0],
                spelled == be_prefix(out@, (8 * i) as nat),
                spelled == words_nat(words@, i as nat),
            decreases 4 - i,
        {
            let word: [u8; 8] = word_to_be(words[i]);
            let ghost before: Seq<u8> = out@;
            let mut j: usize = 0;
            while j < 8
                invariant
                    i < 4,
                    j <= 8,
                    forall|k: int| 0 <= k < 8 * i ==> out[k] == before[k],
                    forall|k: int| 0 <= k < j ==> out[8 * i + k] == word[k],
                decreases 8 - j,
            {
                out[8 * i + j] = word[j];
                j = j + 1;
            }
            proof {
                lemma_be_prefix_same(before, out@, (8 * i) as nat);
                lemma_be_word(out@, (8 * i) as nat);
                assert(word_nat(out@, 8 * i as int) == word_nat(word@, 0));
                spelled = spelled * 0x1_0000_0000_0000_0000 + words[i as int] as nat;
            }
            i = i + 1;
        }
        proof {
            reveal_with_fuel(words_nat, 5);
        }
        out
    }

    /// The element whose integer is the byte string's, reduced by the order
    /// of the field.
    pub fn from_be_bytes_mod_order(bytes: &[u8; 32]) -> (x: Fr)
        ensures
            x.value() == be_nat(bytes@) % fr_modulus(),
    {
        ark_fr_from_be_bytes(bytes)
    }
}

impl From<u64> for Fr {
    fn from(n: u64) -> (x: Fr) {
        Fr { l0: n, l1: 0, l2: 0, l3: 0 }
    }
}

impl vstd::std_specs::convert::FromSpecImpl<u64> for Fr {
    open spec fn obeys_from_spec() -> bool {
        true
    }

    open spec fn from_spec(n: u64) -> Fr {
        fr_of_u64(n)
    }
}

/// The scalar field element that a 64-bit integer is.
pub closed spec fn fr_of_u64(n: u64) -> Fr {
    Fr { l0: n, l1: 0, l2: 0, l3: 0 }
}

/// Equal integers are the same element.
pub proof fn lemma_fr_ext(a: Fr, b: Fr)
    requires
        a.value() == b.value(),
    ensures
        a == b,
{
    let base = 0x1_0000_0000_0000_0000int;
    let a2 = a.l2 + base * a.l3;
    let b2 = b.l2 + base * b.l3;
    let a1 = a.l1 + base * a2;
    let b1 = b.l1 + base * b2;
    lemma_low_word(a.l0, a1, b.l0, b1);
    lemma_low_word(a.l1, a2, b.l1, b2);
    lemma_low_word(a.l2, a.l3 as int, b.l2, b.l3 as int);
}

/// An element's integer fits 256 bits.
pub proof fn lemma_fr_fits(x: Fr)
    ensures
        x.value() < 0x1_00000000_00000000_00000000_00000000_00000000_00000000_00000000_00000000,
{
}

/// Two numbers are equal if and only if their low words and the rests are.
proof fn lemma_low_word(a: u64, above_a: int, b: u64, above_b: int)
    requires
        a + 0x1_0000_0000_0000_0000 * above_a == b + 0x1_0000_0000_0000_0000 * above_b,
    ensures
        a == b,
        above_a == above_b,
{
}

/// The integer of the element that a 64-bit integer is.
pub proof fn lemma_fr_of_u64(n: u64)
    ensures
        fr_of_u64(n).value() == n,
{
}

/// Addition in the scalar field, on canonical integers.
pub open spec fn fr_add(a: nat, b: nat) -> nat {
    (a + b) % fr_modulus()
}

/// Multiplication in the scalar field, on canonical integers.
pub open spec fn fr_mul(a: nat, b: nat) -> nat {
    (a * b) % fr_modulus()
}

/// Exponentiation in the scalar field, on canonical integers.
pub open spec fn fr_pow(a: nat, e: nat) -> nat {
    (pow(a as int, e) % fr_modulus() as int) as nat
}

/// An element of the BLS12-381 base field.
#[derive(Clone, Copy, Debug, PartialEq, Eq, Structural, Hash)]
pub struct Fq {
    pub(crate) l0: u64,
    pub(crate) l1: u64,
    pub(crate) l2: u64,
    pub(crate) l3: u64,
    pub(crate) l4: u64,
    pub(crate) l5: u64,
}

impl Fq {
    /// The integer that this element is, in `0 .. q`.
    pub closed spec fn value(self) -> nat {
        (self.l0 + 0x1_0000_0000_0000_0000 * self.l1
            + 0x1_0000_0000_0000_0000_0000_0000_0000_0000 * self.l2
            + 0x1_0000_0000_0000_0000_0000_0000_0000_0000_0000_0000_0000_0000 * self.l3
            + 0x1_0000_0000_0000_0000_0000_0000_0000_0000_0000_0000_0000_0000_0000_0000_0000_0000
            * self.l4
            + 0x1_0000_0000_0000_0000_0000_0000_0000_0000_0000_0000_0000_0000_0000_0000_0000_0000_0000_0000_0000_0000
            * self.l5) as nat
    }

    /// Every element is held by its canonical integer.
    #[verifier::type_invariant]
    pub open spec fn canonical(self) -> bool {
        self.value() < fq_modulus()
    }

    /// The element zero.
    pub fn zero() -> (x: Fq)
        ensures
            x.value() == 0,
    {
        Fq { l0: 0, l1: 0, l2: 0, l3: 0, l4: 0, l5: 0 }
    }

    /// The element as its 48 bytes, most significant first.
    pub fn to_be_bytes(&self) -> (out: [u8; 48])
        ensures
            be_nat(out@) == self.value(),
    {
        let words: [u64; 6] = [self.l5, self.l4, self.l3, self.l2, self.l1, self.l0];
        let mut out: [u8; 48] = [0u8; 48];
        let mut i: usize = 0;
        let ghost mut spelled: nat = 0;
        while i < 6
            invariant
                i <= 6,
                words@ == seq![self.l5, self.l4, self.l3, self.l2, self.l1, self.l0],
                spelled == be_prefix(out@, (8 * i) as nat),
                spelled == words_nat(words@, i as nat),
            decreases 6 - i,
        {
            let word: [u8; 8] = word_to_be(words[i]);
            let ghost before: Seq<u8> = out@;
            let mut j: usize = 0;
            while j < 8
                invariant
                    i < 6,
                    j <= 8,
                    forall|k: int| 0 <= k < 8 * i ==> out[k] == before[k],
                    forall|k: int| 0 <= k < j ==> out[8 * i + k] == word[k],
                decreases 8 - j,
            {
                out[8 * i + j] = word[j];
                j = j + 1;
            }
            proof {
                lemma_be_prefix_same(before, out@, (8 * i) as nat);
                lemma_be_word(out@, (8 * i) as nat);
                assert(word_nat(out@, 8 * i as int) == word_nat(word@, 0));
                spelled = spelled * 0x1_0000_0000_0000_0000 + words[i as int] as nat;
            }
            i = i + 1;
        }
        proof {
            reveal_with_fuel(words_nat, 7);
        }
        out
    }

    /// The element whose integer is the byte string's, reduced by the order
    /// of the field.
    pub fn from_be_bytes_mod_order(bytes: &[u8; 48]) -> (x: Fq)
        ensures
            x.value() == be_nat(bytes@) % fq_modulus(),
    {
        ark_fq_from_be_bytes(bytes)
    }
}

/// The number that the first `n` of a string of 64-bit words spells, most
/// significant word first.
spec fn words_nat(words: Seq<u64>, n: nat) -> nat
    decreases n,
{
    if n == 0 {
        0
    } else {
        words_nat(words, (n - 1) as nat) * 0x1_0000_0000_0000_0000 + words[n - 1] as nat
    }
}

/// The sum of two elements of `ark_bls12_381::Fr`: the integers' sum,
/// reduced by the order of the field.
#[verifier::external_body]
fn ark_add(a: &Fr, b: &Fr) -> (sum: Fr)
    ensures
        sum.value() == fr_add(a.value(), b.value()),
{
    let x = ark_bls12_381::Fr::from(BigInt::new([a.l0, a.l1, a.l2, a.l3]));
    let y = ark_bls12_381::Fr::from(BigInt::new([b.l0, b.l1, b.l2, b.l3]));
    let z = (x + y).into_bigint().0;
    Fr { l0: z[0], l1: z[1], l2: z[2], l3: z[3] }
}

/// The product of two elements of `ark_bls12_381::Fr`: the integers'
/// product, reduced by the order of the field.
#[verifier::external_body]
fn ark_mul(a: &Fr, b: &Fr) -> (product: Fr)
    ensures
        product.value() == fr_mul(a.value(), b.value()),
{
    let x = ark_bls12_381::Fr::from(BigInt::new([a.l0, a.l1, a.l2, a.l3]));
    let y = ark_bls12_381::Fr::from(BigInt::new([b.l0, b.l1, b.l2, b.l3]));
    let z = (x * y).into_bigint().0;
    Fr { l0: z[0], l1: z[1], l2: z[2], l3: z[3] }
}

/// `Field::pow` on `ark_bls12_381::Fr` with a one-limb exponent: the
/// integer's power, reduced by the order of the field.
#[verifier::external_body]
fn ark_pow(a: &Fr, exponent: u64) -> (power: Fr)
    ensures
        power.value() == fr_pow(a.value(), exponent as nat),
{
    let x = ark_bls12_381::Fr::from(BigInt::new([a.l0, a.l1, a.l2, a.l3]));
    let z = x.pow([exponent]).into_bigint().0;
    Fr { l0: z[0], l1: z[1], l2: z[2], l3: z[3] }
}

/// `PrimeField::from_be_bytes_mod_order` on `ark_bls12_381::Fr`: reads the
/// bytes as one big-endian integer and reduces it by the order of the field.
#[verifier::external_body]
fn ark_fr_from_be_bytes(bytes: &[u8; 32]) -> (x: Fr)
    ensures
        x.value() == be_nat(bytes@) % fr_modulus(),
{
    let z = ark_bls12_381::Fr::from_be_bytes_mod_order(bytes).into_bigint().0;
    Fr { l0: z[0], l1: z[1], l2: z[2], l3: z[3] }
}

/// `PrimeField::from_be_bytes_mod_order` on `ark_bls12_381::Fq`: reads the
/// bytes as one big-endian integer and reduces it by the order of the field.
#[verifier::external_body]
fn ark_fq_from_be_bytes(bytes: &[u8; 48]) -> (x: Fq)
    ensures
        x.value() == be_nat(bytes@) % fq_modulus(),
{
    let z = ark_bls12_381::Fq::from_be_bytes_mod_order(bytes).into_bigint().0;
    Fq { l0: z[0], l1: z[1], l2: z[2], l3: z[3], l4: z[4], l5: z[5] }
}

} // verus!
