//! Points of the two BLS12-381 groups.

use crate::field::{fq_modulus, Fq};
use ark_ff::BigInt;
use vstd::prelude::*;

verus! {

/// An element `c0 + c1 * u` of the quadratic extension of the base field.
#[derive(Clone, Copy, Debug, PartialEq, Eq, Structural)]
pub struct Fq2 {
    /// The part in the base field.
    pub c0: Fq,
    /// The part along `u`.
    pub c1: Fq,
}

/// A G1 point in affine coordinates.
#[derive(Clone, Copy, Debug, PartialEq, Eq, Structural)]
pub struct G1Affine {
    /// The first coordinate.
    pub x: Fq,
    /// The second coordinate.
    pub y: Fq,
    /// Whether this is the point at infinity.
    pub infinity: bool,
}

/// A G2 point in affine coordinates.
#[derive(Clone, Copy, Debug, PartialEq, Eq, Structural)]
pub struct G2Affine {
    /// The first coordinate.
    pub x: Fq2,
    /// The second coordinate.
    pub y: Fq2,
    /// Whether this is the point at infinity.
    pub infinity: bool,
}

/// A G1 point, as integers.
pub struct G1Point {
    pub x: nat,
    pub y: nat,
    pub infinity: bool,
}

/// A G2 point, as integers.
pub struct G2Point {
    pub x0: nat,
    pub x1: nat,
    pub y0: nat,
    pub y1: nat,
    pub infinity: bool,
}

/// The point at infinity of G1.
pub open spec fn g1_infinity() -> G1Point {
    G1Point { x: 0, y: 0, infinity: true }
}

/// The point at infinity of G2.
pub open spec fn g2_infinity() -> G2Point {
    G2Point { x0: 0, x1: 0, y0: 0, y1: 0, infinity: true }
}

impl View for G1Affine {
    type V = G1Point;

    open spec fn view(&self) -> G1Point {
        G1Point { x: self.x.value(), y: self.y.value(), infinity: self.infinity }
    }
}

impl View for G2Affine {
    type V = G2Point;

    open spec fn view(&self) -> G2Point {
        G2Point {
            x0: self.x.c0.value(),
            x1: self.x.c1.value(),
            y0: self.y.c0.value(),
            y1: self.y.c1.value(),
            infinity: self.infinity,
        }
    }
}

/// A product in the quadratic extension, where `u * u = -1`.
pub open spec fn fq2_mul(a: (int, int), b: (int, int)) -> (int, int) {
    (
        (a.0 * b.0 - a.1 * b.1) % fq_modulus() as int,
        (a.0 * b.1 + a.1 * b.0) % fq_modulus() as int,
    )
}

/// The curve of G1: `y^2 = x^3 + 4`, with the point at infinity.
pub open spec fn g1_on_curve(p: G1Point) -> bool {
    p.infinity || (p.y * p.y) % fq_modulus() == (p.x * p.x * p.x + 4) % fq_modulus()
}

/// The curve of G2: `y^2 = x^3 + 4 * (1 + u)`, with the point at infinity.
pub open spec fn g2_on_curve(p: G2Point) -> bool {
    p.infinity || {
        let x = (p.x0 as int, p.x1 as int);
        let y = (p.y0 as int, p.y1 as int);
        let cube = fq2_mul(fq2_mul(x, x), x);
        fq2_mul(y, y) == ((cube.0 + 4) % fq_modulus() as int, (cube.1 + 4) % fq_modulus() as int)
    }
}

/// Whether a point of the G1 curve lies in the subgroup of order `r`.
pub uninterp spec fn g1_in_subgroup(x: nat, y: nat, infinity: bool) -> bool;

/// Whether a point of the G2 curve lies in the subgroup of order `r`.
pub uninterp spec fn g2_in_subgroup(x: (nat, nat), y: (nat, nat), infinity: bool) -> bool;

/// A point of the G1 curve in the subgroup of order `r`.
pub open spec fn g1_valid(p: G1Point) -> bool {
    g1_on_curve(p) && g1_in_subgroup(p.x, p.y, p.infinity)
}

/// A point of the G2 curve in the subgroup of order `r`.
pub open spec fn g2_valid(p: G2Point) -> bool {
    g2_on_curve(p) && g2_in_subgroup((p.x0, p.x1), (p.y0, p.y1), p.infinity)
}

impl G1Affine {
    /// The point at infinity.
    pub fn identity() -> (p: G1Affine)
        ensures
            p@ == g1_infinity(),
    {
        G1Affine { x: Fq::zero(), y: Fq::zero(), infinity: true }
    }

    /// Whether this is a point of the curve, in the subgroup of order `r`.
    pub fn is_valid(&self) -> (valid: bool)
        ensures
            valid == g1_valid(self@),
    {
        ark_g1_is_on_curve(self) && ark_g1_is_in_subgroup(self)
    }
}

impl G2Affine {
    /// The point at infinity.
    pub fn identity() -> (p: G2Affine)
        ensures
            p@ == g2_infinity(),
    {
        let zero = Fq2 { c0: Fq::zero(), c1: Fq::zero() };
        G2Affine { x: zero, y: zero, infinity: true }
    }

    /// Whether this is a point of the curve, in the subgroup of order `r`.
    pub fn is_valid(&self) -> (valid: bool)
        ensures
            valid == g2_valid(self@),
    {
        ark_g2_is_on_curve(self) && ark_g2_is_in_subgroup(self)
    }
}

/// `Affine::is_on_curve` on `ark_bls12_381::G1Affine`: the curve equation
/// holds, or the point is the one at infinity.
#[verifier::external_body]
fn ark_g1_is_on_curve(p: &G1Affine) -> (on_curve: bool)
    ensures
        on_curve == g1_on_curve(p@),
{
    let fq = |a: &Fq| ark_bls12_381::Fq::from(BigInt::new([a.l0, a.l1, a.l2, a.l3, a.l4, a.l5]));
    let point = ark_bls12_381::G1Affine { x: fq(&p.x), y: fq(&p.y), infinity: p.infinity };
    point.is_on_curve()
}

/// `Affine::is_in_correct_subgroup_assuming_on_curve` on
/// `ark_bls12_381::G1Affine`. Its result is named [`g1_in_subgroup`] of the
/// point.
#[verifier::external_body]
fn ark_g1_is_in_subgroup(p: &G1Affine) -> (inside: bool)
    requires
        g1_on_curve(p@),
    ensures
        inside == g1_in_subgroup(p@.x, p@.y, p@.infinity),
{
    let fq = |a: &Fq| ark_bls12_381::Fq::from(BigInt::new([a.l0, a.l1, a.l2, a.l3, a.l4, a.l5]));
    let point = ark_bls12_381::G1Affine { x: fq(&p.x), y: fq(&p.y), infinity: p.infinity };
    point.is_in_correct_subgroup_assuming_on_curve()
}

/// `Affine::is_on_curve` on `ark_bls12_381::G2Affine`: the curve equation
/// holds, or the point is the one at infinity.
#[verifier::external_body]
fn ark_g2_is_on_curve(p: &G2Affine) -> (on_curve: bool)
    ensures
        on_curve == g2_on_curve(p@),
{
    let fq = |a: &Fq| ark_bls12_381::Fq::from(BigInt::new([a.l0, a.l1, a.l2, a.l3, a.l4, a.l5]));
    let fq2 = |a: &Fq2| ark_bls12_381::Fq2::new(fq(&a.c0), fq(&a.c1));
    let point = ark_bls12_381::G2Affine { x: fq2(&p.x), y: fq2(&p.y), infinity: p.infinity };
    point.is_on_curve()
}

/// `Affine::is_in_correct_subgroup_assuming_on_curve` on
/// `ark_bls12_381::G2Affine`. Its result is named [`g2_in_subgroup`] of the
/// point.
#[verifier::external_body]
fn ark_g2_is_in_subgroup(p: &G2Affine) -> (inside: bool)
    requires
        g2_on_curve(p@),
    ensures
        inside == g2_in_subgroup((p@.x0, p@.x1), (p@.y0, p@.y1), p@.infinity),
{
    let fq = |a: &Fq| ark_bls12_381::Fq::from(BigInt::new([a.l0, a.l1, a.l2, a.l3, a.l4, a.l5]));
    let fq2 = |a: &Fq2| ark_bls12_381::Fq2::new(fq(&a.c0), fq(&a.c1));
    let point = ark_bls12_381::G2Affine { x: fq2(&p.x), y: fq2(&p.y), infinity: p.infinity };
    point.is_in_correct_subgroup_assuming_on_curve()
}

} // verus!
