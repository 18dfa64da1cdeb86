//! Poseidon over the BLS12-381 scalar field: the protocol hash.
//!
//! Merkle nodes, note commitments, public keys and nullifiers are all
//! evaluations of [`hash2`], which is computed natively here and in-circuit
//! by [`gadget`].
//!
//! The instance is the standard HADES construction for a 255-bit field:
//! width 3 (capacity 1, rate 2), S-box `x^5`, 8 full rounds of which half run
//! before and half after 57 partial rounds. The round constants and the MDS
//! matrix come from the Grain LFSR procedure of `ark-crypto-primitives`.
//!
//! `hash2(l, r)` is the first lane of the permutation of `[0, l, r]`.

use crate::field::{fr_add, fr_modulus, fr_mul, fr_pow, lemma_fr_ext, Fr};
use crate::number::{lemma_fermat, lemma_power_injective};
use crate::number::scalar_order::lemma_order_prime;
use ark_ff::PrimeField;
use vstd::arithmetic::div_mod::{
    lemma_add_mod_noop, lemma_mod_bound, lemma_mod_equivalence, lemma_mod_twice,
    lemma_mul_mod_noop_left, lemma_small_mod,
};
use vstd::arithmetic::mul::{
    lemma_mul_is_distributive_add, lemma_mul_is_distributive_add_other_way,
    lemma_mul_is_distributive_sub_other_way,
};
use vstd::arithmetic::power::{lemma_pow1, lemma_pow_adds, pow};
use vstd::prelude::*;

pub mod gadget;

verus! {

/// Permutation width: capacity 1 and rate 2.
pub const WIDTH: usize = 3;

/// Full rounds: every lane goes through the S-box.
pub const FULL_ROUNDS: usize = 8;

/// Partial rounds: lane 0 alone goes through the S-box.
pub const PARTIAL_ROUNDS: usize = 57;

/// S-box exponent.
pub const ALPHA: u64 = 5;

/// All rounds of the permutation.
pub const ROUNDS: usize = 65;

/// Round constants and MDS matrix of one Poseidon instance, as integers.
#[verifier::ext_equal]
pub struct Constants {
    /// Additive round constants, one row per round.
    pub ark: Seq<Seq<nat>>,
    /// The MDS matrix, by rows.
    pub mds: Seq<Seq<nat>>,
}

/// The three lanes of a state, as integers.
pub struct Lanes {
    pub a: nat,
    pub b: nat,
    pub c: nat,
}

/// The round constants and the MDS matrix that the Grain LFSR procedure
/// yields for a prime of `prime_bits` bits, a given rate and given numbers of
/// rounds, after it skipped some candidate matrices.
pub uninterp spec fn grain_constants(
    prime_bits: u64,
    rate: nat,
    full_rounds: u64,
    partial_rounds: u64,
    skip_matrices: u64,
) -> (Seq<Seq<nat>>, Seq<Seq<nat>>);

/// The constants of the protocol's instance.
pub open spec fn protocol_constants() -> Constants {
    let grain = grain_constants(255, 2, 8, 57, 0);
    Constants { ark: grain.0, mds: grain.1 }
}

/// Whether every lane goes through the S-box in a round.
pub open spec fn is_full_round(round: nat) -> bool {
    round < 4 || round >= 61
}

/// The S-box.
pub open spec fn sbox(x: nat) -> nat {
    fr_pow(x, 5)
}

/// One output lane of the MDS layer.
pub open spec fn mix_lane(row: Seq<nat>, s: Lanes) -> nat {
    (s.a * row[0] + s.b * row[1] + s.c * row[2]) % fr_modulus()
}

/// The state after its round constants were added.
pub open spec fn add_constants(row: Seq<nat>, s: Lanes) -> Lanes {
    Lanes { a: fr_add(s.a, row[0]), b: fr_add(s.b, row[1]), c: fr_add(s.c, row[2]) }
}

/// The state after the S-box layer.
pub open spec fn sbox_layer(full: bool, s: Lanes) -> Lanes {
    if full {
        Lanes { a: sbox(s.a), b: sbox(s.b), c: sbox(s.c) }
    } else {
        Lanes { a: sbox(s.a), b: s.b, c: s.c }
    }
}

/// The state after the MDS layer.
pub open spec fn mix_layer(mds: Seq<Seq<nat>>, s: Lanes) -> Lanes {
    Lanes { a: mix_lane(mds[0], s), b: mix_lane(mds[1], s), c: mix_lane(mds[2], s) }
}

/// One round: add the constants, apply the S-boxes, mix.
pub open spec fn round_spec(k: Constants, round: nat, s: Lanes) -> Lanes {
    mix_layer(k.mds, sbox_layer(is_full_round(round), add_constants(k.ark[round as int], s)))
}

/// The state after the first `n` rounds.
pub open spec fn rounds_spec(k: Constants, s: Lanes, n: nat) -> Lanes
    decreases n,
{
    if n == 0 {
        s
    } else {
        round_spec(k, (n - 1) as nat, rounds_spec(k, s, (n - 1) as nat))
    }
}

/// The permutation of the protocol's instance.
pub open spec fn permute_spec(s: Lanes) -> Lanes {
    rounds_spec(protocol_constants(), s, 65)
}

/// The protocol hash on canonical integers.
#[verifier::opaque]
pub open spec fn hash2_spec(left: nat, right: nat) -> nat {
    permute_spec(Lanes { a: 0, b: left, c: right }).a
}

/// A hash is a canonical integer.
pub proof fn lemma_hash2_canonical(left: nat, right: nat)
    ensures
        hash2_spec(left, right) < fr_modulus(),
{
    reveal(hash2_spec);
    reveal_with_fuel(rounds_spec, 2);
}

/// The integers of a row of field elements.
pub open spec fn row_values(row: [Fr; 3]) -> Seq<nat> {
    seq![row[0].value(), row[1].value(), row[2].value()]
}

/// The integers of a state.
pub open spec fn lanes(state: [Fr; 3]) -> Lanes {
    Lanes { a: state[0].value(), b: state[1].value(), c: state[2].value() }
}

/// Round constants and MDS matrix for this instance.
#[derive(Debug)]
pub struct Parameters {
    /// Additive round constants, one row of `WIDTH` per round.
    pub ark: Vec<[Fr; WIDTH]>,
    /// The `WIDTH x WIDTH` MDS matrix.
    pub mds: [[Fr; WIDTH]; WIDTH],
}

impl View for Parameters {
    type V = Constants;

    open spec fn view(&self) -> Constants {
        Constants {
            ark: Seq::new(self.ark@.len(), |i: int| row_values(self.ark@[i])),
            mds: seq![row_values(self.mds[0]), row_values(self.mds[1]), row_values(self.mds[2])],
        }
    }
}

impl Parameters {
    /// These are the protocol's constants.
    pub open spec fn is_protocol(&self) -> bool {
        &&& self@ == protocol_constants()
        &&& self.ark@.len() == ROUNDS
    }
}

/// `ark_crypto_primitives::sponge::poseidon::find_poseidon_ark_and_mds` over
/// the scalar field. Its result is named [`grain_constants`] of its
/// arguments; it has one row of `rate + 1` constants for each round and a
/// square matrix of that width.
#[verifier::external_body]
fn find_poseidon_ark_and_mds(
    prime_bits: u64,
    rate: usize,
    full_rounds: u64,
    partial_rounds: u64,
    skip_matrices: u64,
) -> (found: (Vec<Vec<Fr>>, Vec<Vec<Fr>>))
    requires
        prime_bits == 255,
        rate == 2,
        full_rounds == 8,
        partial_rounds == 57,
        skip_matrices == 0,
    ensures
        (matrix_values(found.0@), matrix_values(found.1@)) == grain_constants(
            prime_bits,
            rate as nat,
            full_rounds,
            partial_rounds,
            skip_matrices,
        ),
        found.0@.len() == full_rounds + partial_rounds,
        found.1@.len() == rate + 1,
        forall|i: int| 0 <= i < found.0@.len() ==> (#[trigger] found.0@[i])@.len() == rate + 1,
        forall|i: int| 0 <= i < found.1@.len() ==> (#[trigger] found.1@[i])@.len() == rate + 1,
{
    let (ark, mds) = ark_crypto_primitives::sponge::poseidon::find_poseidon_ark_and_mds::<
        ark_bls12_381::Fr,
    >(prime_bits, rate, full_rounds, partial_rounds, skip_matrices);
    let own = |x: &ark_bls12_381::Fr| {
        let z = x.into_bigint().0;
        Fr { l0: z[0], l1: z[1], l2: z[2], l3: z[3] }
    };
    let rows = |m: Vec<Vec<ark_bls12_381::Fr>>| -> Vec<Vec<Fr>> {
        m.iter().map(|row| row.iter().map(own).collect()).collect()
    };
    (rows(ark), rows(mds))
}

/// The integers of a matrix of field elements.
pub open spec fn matrix_values(m: Seq<Vec<Fr>>) -> Seq<Seq<nat>> {
    Seq::new(m.len(), |i: int| Seq::new(m[i]@.len(), |j: int| m[i]@[j].value()))
}

/// The parameters of the protocol's Poseidon instance.
pub fn parameters() -> (params: Parameters)
    ensures
        params.is_protocol(),
{
    let (ark, mds) = find_poseidon_ark_and_mds(255, 2, 8, 57, 0);
    let ghost grain = grain_constants(255, 2, 8, 57, 0);
    let mut rows: Vec<[Fr; WIDTH]> = Vec::new();
    let mut i: usize = 0;
    while i < ROUNDS
        invariant
            i <= ROUNDS,
            ark@.len() == ROUNDS,
            forall|k: int| 0 <= k < ROUNDS ==> (#[trigger] ark@[k])@.len() == WIDTH,
            rows@.len() == i,
            forall|k: int| 0 <= k < i ==> row_values(#[trigger] rows@[k]) == matrix_values(ark@)[k],
        decreases ROUNDS - i,
    {
        let row: [Fr; WIDTH] = [ark[i][0], ark[i][1], ark[i][2]];
        proof {
            assert(ark@[i as int]@.len() == WIDTH);
            assert(row_values(row) =~= matrix_values(ark@)[i as int]);
        }
        rows.push(row);
        i = i + 1;
    }
    proof {
        assert(mds@[0]@.len() == WIDTH && mds@[1]@.len() == WIDTH && mds@[2]@.len() == WIDTH);
    }
    let params = Parameters {
        ark: rows,
        mds: [
            [mds[0][0], mds[0][1], mds[0][2]],
            [mds[1][0], mds[1][1], mds[1][2]],
            [mds[2][0], mds[2][1], mds[2][2]],
        ],
    };
    proof {
        assert(params@.ark =~= grain.0);
        assert(row_values(params.mds[0]) =~= grain.1[0]);
        assert(row_values(params.mds[1]) =~= grain.1[1]);
        assert(row_values(params.mds[2]) =~= grain.1[2]);
        assert(params@.mds =~= grain.1);
    }
    params
}

/// Summing the three products one by one gives the mixed lane.
proof fn lemma_mix(row: Seq<nat>, s: Lanes)
    ensures
        fr_add(
            fr_add(fr_add(0, fr_mul(s.a, row[0])), fr_mul(s.b, row[1])),
            fr_mul(s.c, row[2]),
        ) == mix_lane(row, s),
{
    let r = fr_modulus() as int;
    let x = (s.a * row[0]) as int;
    let y = (s.b * row[1]) as int;
    let z = (s.c * row[2]) as int;
    lemma_mod_twice(x, r);
    lemma_add_mod_noop(x, y, r);
    lemma_add_mod_noop(x + y, z, r);
    lemma_mod_twice(x + y, r);
    assert(fr_add(0, fr_mul(s.a, row[0])) == x % r);
    assert(fr_add(fr_add(0, fr_mul(s.a, row[0])), fr_mul(s.b, row[1])) == (x + y) % r);
}

/// One output lane of the MDS layer, natively.
fn mix_row(row: &[Fr; WIDTH], state: &[Fr; WIDTH]) -> (lane: Fr)
    ensures
        lane.value() == mix_lane(row_values(*row), lanes(*state)),
{
    proof {
        lemma_mix(row_values(*row), lanes(*state));
    }
    Fr::zero().plus(&state[0].times(&row[0])).plus(&state[1].times(&row[1])).plus(
        &state[2].times(&row[2]),
    )
}

/// The Poseidon permutation on a width-3 state, with given parameters.
pub fn permute_with(params: &Parameters, state: [Fr; WIDTH]) -> (out: [Fr; WIDTH])
    requires
        params.ark@.len() == ROUNDS,
    ensures
        lanes(out) == rounds_spec(params@, lanes(state), 65),
{
    let half_full: usize = FULL_ROUNDS / 2;
    let mut s: [Fr; WIDTH] = state;
    let mut round: usize = 0;
    while round < ROUNDS
        invariant
            half_full == 4,
            round <= ROUNDS,
            params.ark@.len() == ROUNDS,
            lanes(s) == rounds_spec(params@, lanes(state), round as nat),
        decreases ROUNDS - round,
    {
        let row: &[Fr; WIDTH] = &params.ark[round];
        let added: [Fr; WIDTH] = [s[0].plus(&row[0]), s[1].plus(&row[1]), s[2].plus(&row[2])];
        let full: bool = round < half_full || round >= half_full + PARTIAL_ROUNDS;
        let boxed: [Fr; WIDTH] = if full {
            [added[0].pow(ALPHA), added[1].pow(ALPHA), added[2].pow(ALPHA)]
        } else {
            [added[0].pow(ALPHA), added[1], added[2]]
        };
        let mixed: [Fr; WIDTH] = [
            mix_row(&params.mds[0], &boxed),
            mix_row(&params.mds[1], &boxed),
            mix_row(&params.mds[2], &boxed),
        ];
        proof {
            assert(params@.ark[round as int] == row_values(*row));
            assert(lanes(added) == add_constants(params@.ark[round as int], lanes(s)));
            assert(lanes(boxed) == sbox_layer(is_full_round(round as nat), lanes(added)));
            assert(lanes(mixed) == mix_layer(params@.mds, lanes(boxed)));
        }
        s = mixed;
        round = round + 1;
    }
    s
}

/// The Poseidon permutation on a width-3 state.
pub fn permute(state: [Fr; WIDTH]) -> (out: [Fr; WIDTH])
    ensures
        lanes(out) == permute_spec(lanes(state)),
{
    let params = parameters();
    permute_with(&params, state)
}

/// The protocol hash, with the parameters at hand.
pub fn hash2_with(params: &Parameters, left: Fr, right: Fr) -> (hash: Fr)
    requires
        params.is_protocol(),
    ensures
        hash.value() == hash2_spec(left.value(), right.value()),
{
    let out: [Fr; WIDTH] = permute_with(params, [Fr::zero(), left, right]);
    proof {
        reveal(hash2_spec);
    }
    out[0]
}

/// 2-to-1 compression: `permute([0, l, r])[0]`. This is the Merkle node hash
/// and the building block for note commitments and nullifiers.
pub fn hash2(left: Fr, right: Fr) -> (hash: Fr)
    ensures
        hash.value() == hash2_spec(left.value(), right.value()),
{
    let params = parameters();
    hash2_with(&params, left, right)
}

/// An entry of the product of two matrices.
pub open spec fn product_entry(a: Seq<Seq<nat>>, b: Seq<Seq<nat>>, i: int, k: int) -> nat {
    (a[i][0] * b[0][k] + a[i][1] * b[1][k] + a[i][2] * b[2][k]) % fr_modulus()
}

/// The product of two matrices is the identity.
pub open spec fn undoes(a: Seq<Seq<nat>>, b: Seq<Seq<nat>>) -> bool {
    forall|i: int, k: int|
        0 <= i < 3 && 0 <= k < 3 ==> #[trigger] product_entry(a, b, i, k) == (if i == k {
            1nat
        } else {
            0nat
        })
}

/// Whether a matrix has an inverse.
pub open spec fn invertible(mds: Seq<Seq<nat>>) -> bool {
    exists|inverse: Seq<Seq<nat>>| #[trigger] undoes(inverse, mds)
}

/// The terms of a determinant that count positively, and those that count
/// negatively, reduced.
pub open spec fn determinant_sides(m: Seq<Seq<nat>>) -> (nat, nat) {
    (
        (m[0][0] * m[1][1] * m[2][2] + m[0][1] * m[1][2] * m[2][0] + m[0][2] * m[1][0] * m[2][1])
            % fr_modulus(),
        (m[0][0] * m[1][2] * m[2][1] + m[0][1] * m[1][0] * m[2][2] + m[0][2] * m[1][1] * m[2][0])
            % fr_modulus(),
    )
}

/// Whether the determinant of a matrix is not zero.
pub open spec fn nonsingular(m: Seq<Seq<nat>>) -> bool {
    determinant_sides(m).0 != determinant_sides(m).1
}

/// Whether every lane is a canonical integer.
pub open spec fn canonical_lanes(s: Lanes) -> bool {
    s.a < fr_modulus() && s.b < fr_modulus() && s.c < fr_modulus()
}

/// The S-box sends different integers to different integers.
proof fn lemma_sbox_injective(x: nat, y: nat)
    requires
        x < fr_modulus(),
        y < fr_modulus(),
        sbox(x) == sbox(y),
    ensures
        x == y,
{
    let inverse = 0x2e5f0fbadd72321ce14a56699d73f002217f0e679998f19933333332cccccccdnat;
    assert(5 * inverse == 1 + (fr_modulus() - 1) as nat * 2);
    lemma_mod_bound(pow(x as int, 5), fr_modulus() as int);
    lemma_mod_bound(pow(y as int, 5), fr_modulus() as int);
    lemma_order_prime();
    lemma_power_injective(fr_modulus(), 5, inverse, 2, x, y);
}

/// A sum of three products of reduced factors, reduced.
proof fn lemma_reduced_sum(u: int, v: int, w: int, a: int, b: int, c: int, m: int)
    requires
        m > 0,
    ensures
        ((u % m) * a + (v % m) * b + (w % m) * c) % m == (u * a + v * b + w * c) % m,
{
    lemma_mul_mod_noop_left(u, a, m);
    lemma_mul_mod_noop_left(v, b, m);
    lemma_mul_mod_noop_left(w, c, m);
    lemma_add_mod_noop((u % m) * a, (v % m) * b, m);
    lemma_add_mod_noop(u * a, v * b, m);
    lemma_add_mod_noop((u % m) * a + (v % m) * b, (w % m) * c, m);
    lemma_add_mod_noop(u * a + v * b, w * c, m);
}

/// A sum of three products, scaled.
proof fn lemma_scaled(a: int, p: int, b: int, q: int, c: int, r: int, x: int)
    ensures
        (a * p + b * q + c * r) * x == a * (x * p) + b * (x * q) + c * (x * r),
        (a * p + b * q + c * r) * x == x * (a * p) + x * (b * q) + x * (c * r),
{
    lemma_mul_is_distributive_add_other_way(x, a * p + b * q, c * r);
    lemma_mul_is_distributive_add_other_way(x, a * p, b * q);
    assert(a * p * x == a * (x * p) && a * p * x == x * (a * p)) by (nonlinear_arith);
    assert(b * q * x == b * (x * q) && b * q * x == x * (b * q)) by (nonlinear_arith);
    assert(c * r * x == c * (x * r) && c * r * x == x * (c * r)) by (nonlinear_arith);
}

/// Mixing with an inverse gives a lane back.
proof fn lemma_unmixed(inverse: Seq<Seq<nat>>, mds: Seq<Seq<nat>>, s: Lanes, i: int)
    requires
        undoes(inverse, mds),
        canonical_lanes(s),
        0 <= i < 3,
    ensures
        mix_lane(inverse[i], mix_layer(mds, s)) == (if i == 0 {
            s.a
        } else if i == 1 {
            s.b
        } else {
            s.c
        }),
{
    let m = fr_modulus() as int;
    let (a, b, c) = (s.a as int, s.b as int, s.c as int);
    let (x, y, z) = (inverse[i][0] as int, inverse[i][1] as int, inverse[i][2] as int);
    let (p0, p1, p2) = (mds[0][0] as int, mds[0][1] as int, mds[0][2] as int);
    let (q0, q1, q2) = (mds[1][0] as int, mds[1][1] as int, mds[1][2] as int);
    let (r0, r1, r2) = (mds[2][0] as int, mds[2][1] as int, mds[2][2] as int);
    let u = a * p0 + b * p1 + c * p2;
    let v = a * q0 + b * q1 + c * q2;
    let w = a * r0 + b * r1 + c * r2;
    lemma_reduced_sum(u, v, w, x, y, z, m);
    let e0 = x * p0 + y * q0 + z * r0;
    let e1 = x * p1 + y * q1 + z * r1;
    let e2 = x * p2 + y * q2 + z * r2;
    lemma_scaled(a, p0, b, p1, c, p2, x);
    lemma_scaled(a, q0, b, q1, c, q2, y);
    lemma_scaled(a, r0, b, r1, c, r2, z);
    lemma_scaled(x, p0, y, q0, z, r0, a);
    lemma_scaled(x, p1, y, q1, z, r1, b);
    lemma_scaled(x, p2, y, q2, z, r2, c);
    assert(u * x + v * y + w * z == e0 * a + e1 * b + e2 * c);
    lemma_reduced_sum(e0, e1, e2, a, b, c, m);
    assert(product_entry(inverse, mds, i, 0) == e0 % m);
    assert(product_entry(inverse, mds, i, 1) == e1 % m);
    assert(product_entry(inverse, mds, i, 2) == e2 % m);
    let lane = if i == 0 {
        a
    } else if i == 1 {
        b
    } else {
        c
    };
    let (d0, d1, d2) = (e0 % m, e1 % m, e2 % m);
    assert(d0 * a + d1 * b + d2 * c == lane) by (nonlinear_arith)
        requires
            i == 0 ==> d0 == 1 && d1 == 0 && d2 == 0 && lane == a,
            i == 1 ==> d0 == 0 && d1 == 1 && d2 == 0 && lane == b,
            i == 2 ==> d0 == 0 && d1 == 0 && d2 == 1 && lane == c,
            0 <= i < 3,
    ;
    lemma_small_mod(lane as nat, fr_modulus());
    assert(mix_lane(inverse[i], mix_layer(mds, s)) == ((u % m) * x + (v % m) * y + (w % m) * z)
        % m);
}

/// The MDS layer sends different states to different states.
proof fn lemma_mix_injective(mds: Seq<Seq<nat>>, s: Lanes, t: Lanes)
    requires
        invertible(mds),
        canonical_lanes(s),
        canonical_lanes(t),
        mix_layer(mds, s) == mix_layer(mds, t),
    ensures
        s == t,
{
    let inverse = choose|inverse: Seq<Seq<nat>>| #[trigger] undoes(inverse, mds);
    lemma_unmixed(inverse, mds, s, 0);
    lemma_unmixed(inverse, mds, s, 1);
    lemma_unmixed(inverse, mds, s, 2);
    lemma_unmixed(inverse, mds, t, 0);
    lemma_unmixed(inverse, mds, t, 1);
    lemma_unmixed(inverse, mds, t, 2);
}

/// Adding a constant sends different integers to different integers.
proof fn lemma_shift_injective(k: nat, x: nat, y: nat)
    requires
        x < fr_modulus(),
        y < fr_modulus(),
        fr_add(x, k) == fr_add(y, k),
    ensures
        x == y,
{
    let m = fr_modulus() as int;
    lemma_mod_equivalence((x + k) as int, (y + k) as int, m);
    lemma_mod_equivalence(x as int, y as int, m);
    assert((x + k) - (y + k) == x - y);
    lemma_small_mod(x, fr_modulus());
    lemma_small_mod(y, fr_modulus());
}

/// A round sends different states to different states.
proof fn lemma_round_injective(k: Constants, round: nat, s: Lanes, t: Lanes)
    requires
        invertible(k.mds),
        canonical_lanes(s),
        canonical_lanes(t),
        round_spec(k, round, s) == round_spec(k, round, t),
    ensures
        s == t,
{
    let row = k.ark[round as int];
    let full = is_full_round(round);
    let (s1, t1) = (add_constants(row, s), add_constants(row, t));
    lemma_mix_injective(k.mds, sbox_layer(full, s1), sbox_layer(full, t1));
    lemma_sbox_injective(s1.a, t1.a);
    if full {
        lemma_sbox_injective(s1.b, t1.b);
        lemma_sbox_injective(s1.c, t1.c);
    }
    lemma_shift_injective(row[0], s.a, t.a);
    lemma_shift_injective(row[1], s.b, t.b);
    lemma_shift_injective(row[2], s.c, t.c);
}

/// **The rounds are injective.** With an invertible matrix, any number of
/// rounds sends different states to different states.
pub proof fn lemma_rounds_injective(k: Constants, n: nat, s: Lanes, t: Lanes)
    requires
        invertible(k.mds),
        canonical_lanes(s),
        canonical_lanes(t),
        rounds_spec(k, s, n) == rounds_spec(k, t, n),
    ensures
        s == t,
    decreases n,
{
    if n > 0 {
        let before = (n - 1) as nat;
        reveal_with_fuel(rounds_spec, 2);
        lemma_round_injective(k, before, rounds_spec(k, s, before), rounds_spec(k, t, before));
        lemma_rounds_injective(k, before, s, t);
    }
}

/// An entry of the adjugate of a matrix, times a number, reduced.
spec fn scaled_minor(a: int, b: int, c: int, d: int, w: int) -> nat {
    (((a * b - c * d) * w) % (fr_modulus() as int)) as nat
}

/// The adjugate of a matrix, times a number, reduced.
spec fn scaled_adjugate(m: Seq<Seq<nat>>, w: int) -> Seq<Seq<nat>> {
    let e = |i: int, j: int| m[i][j] as int;
    seq![
        seq![
            scaled_minor(e(1, 1), e(2, 2), e(1, 2), e(2, 1), w),
            scaled_minor(e(0, 2), e(2, 1), e(0, 1), e(2, 2), w),
            scaled_minor(e(0, 1), e(1, 2), e(0, 2), e(1, 1), w),
        ],
        seq![
            scaled_minor(e(1, 2), e(2, 0), e(1, 0), e(2, 2), w),
            scaled_minor(e(0, 0), e(2, 2), e(0, 2), e(2, 0), w),
            scaled_minor(e(0, 2), e(1, 0), e(0, 0), e(1, 2), w),
        ],
        seq![
            scaled_minor(e(1, 0), e(2, 1), e(1, 1), e(2, 0), w),
            scaled_minor(e(0, 1), e(2, 0), e(0, 0), e(2, 1), w),
            scaled_minor(e(0, 0), e(1, 1), e(0, 1), e(1, 0), w),
        ],
    ]
}

/// Three minors, scaled and reduced, times a column: the scaled sum.
proof fn lemma_minors(u: int, v: int, t: int, w: int, a: nat, b: nat, c: nat)
    ensures
        ((((u * w) % (fr_modulus() as int)) as nat) * a + (((v * w) % (fr_modulus() as int)) as nat)
            * b + (((t * w) % (fr_modulus() as int)) as nat) * c) % fr_modulus() == (w * (u * a + v
            * b + t * c)) % (fr_modulus() as int),
{
    let m = fr_modulus() as int;
    let (x, y, z) = (a as int, b as int, c as int);
    lemma_reduced_sum(u * w, v * w, t * w, x, y, z, m);
    assert(u * w * x == w * (u * x)) by (nonlinear_arith);
    assert(v * w * y == w * (v * y)) by (nonlinear_arith);
    assert(t * w * z == w * (t * z)) by (nonlinear_arith);
    lemma_mul_is_distributive_add(w, u * x + v * y, t * z);
    lemma_mul_is_distributive_add(w, u * x, v * y);
}

/// A matrix with a determinant that is not zero has an inverse: its adjugate
/// over the determinant.
proof fn lemma_nonsingular(m: Seq<Seq<nat>>)
    requires
        nonsingular(m),
    ensures
        invertible(m),
{
    let r = fr_modulus() as int;
    let (a, b, c) = (m[0][0] as int, m[0][1] as int, m[0][2] as int);
    let (d, e, f) = (m[1][0] as int, m[1][1] as int, m[1][2] as int);
    let (g, h, i) = (m[2][0] as int, m[2][1] as int, m[2][2] as int);
    let (plus, minus) = (a * e * i + b * f * g + c * d * h, a * f * h + b * d * i + c * e * g);
    let det = plus - minus;
    lemma_mod_equivalence(plus, minus, r);
    lemma_order_prime();
    let rest = (det % r) as nat;
    let w = pow(rest as int, (r - 2) as nat);
    lemma_fermat(fr_modulus(), rest);
    lemma_pow_adds(rest as int, 1, (r - 2) as nat);
    lemma_pow1(rest as int);
    lemma_mul_mod_noop_left(det, w, r);
    assert(w * det == det * w) by (nonlinear_arith);
    assert((w * det) % r == 1);
    let inverse = scaled_adjugate(m, w);
    lemma_adjugate(a, b, c, d, e, f, g, h, i);
    lemma_minors(e * i - f * h, c * h - b * i, b * f - c * e, w, m[0][0], m[1][0], m[2][0]);
    lemma_minors(e * i - f * h, c * h - b * i, b * f - c * e, w, m[0][1], m[1][1], m[2][1]);
    lemma_minors(e * i - f * h, c * h - b * i, b * f - c * e, w, m[0][2], m[1][2], m[2][2]);
    lemma_minors(f * g - d * i, a * i - c * g, c * d - a * f, w, m[0][0], m[1][0], m[2][0]);
    lemma_minors(f * g - d * i, a * i - c * g, c * d - a * f, w, m[0][1], m[1][1], m[2][1]);
    lemma_minors(f * g - d * i, a * i - c * g, c * d - a * f, w, m[0][2], m[1][2], m[2][2]);
    lemma_minors(d * h - e * g, b * g - a * h, a * e - b * d, w, m[0][0], m[1][0], m[2][0]);
    lemma_minors(d * h - e * g, b * g - a * h, a * e - b * d, w, m[0][1], m[1][1], m[2][1]);
    lemma_minors(d * h - e * g, b * g - a * h, a * e - b * d, w, m[0][2], m[1][2], m[2][2]);
    assert(w * 0 == 0);
    lemma_small_mod(0, fr_modulus());
    assert forall|x: int, y: int| 0 <= x < 3 && 0 <= y < 3 implies #[trigger] product_entry(
        inverse,
        m,
        x,
        y,
    ) == (if x == y {
        1nat
    } else {
        0nat
    }) by {
        assert(x == 0 || x == 1 || x == 2);
        assert(y == 0 || y == 1 || y == 2);
    }
    assert(undoes(inverse, m));
}

/// A minor times a number, in the orders of the factors that a determinant has.
proof fn lemma_minor_times(p: int, q: int, s: int, t: int, x: int)
    ensures
        (p * q - s * t) * x == x * p * q - x * s * t,
        (p * q - s * t) * x == p * x * q - s * x * t,
        (p * q - s * t) * x == p * q * x - s * t * x,
{
    lemma_mul_is_distributive_sub_other_way(x, p * q, s * t);
    assert(p * q * x == x * p * q && p * q * x == p * x * q) by (nonlinear_arith);
    assert(s * t * x == x * s * t && s * t * x == s * x * t) by (nonlinear_arith);
}

/// The adjugate of a matrix times the matrix is the determinant times the
/// identity.
proof fn lemma_adjugate(
    a: int,
    b: int,
    c: int,
    d: int,
    e: int,
    f: int,
    g: int,
    h: int,
    i: int,
)
    ensures
        ({
            let det = a * e * i + b * f * g + c * d * h - (a * f * h + b * d * i + c * e * g);
            let (p, q, s) = (e * i - f * h, c * h - b * i, b * f - c * e);
            let (t, u, v) = (f * g - d * i, a * i - c * g, c * d - a * f);
            let (x, y, z) = (d * h - e * g, b * g - a * h, a * e - b * d);
            &&& p * a + q * d + s * g == det
            &&& p * b + q * e + s * h == 0
            &&& p * c + q * f + s * i == 0
            &&& t * a + u * d + v * g == 0
            &&& t * b + u * e + v * h == det
            &&& t * c + u * f + v * i == 0
            &&& x * a + y * d + z * g == 0
            &&& x * b + y * e + z * h == 0
            &&& x * c + y * f + z * i == det
        }),
{
    lemma_minor_times(e, i, f, h, a);
    lemma_minor_times(c, h, b, i, d);
    lemma_minor_times(b, f, c, e, g);
    lemma_minor_times(e, i, f, h, b);
    lemma_minor_times(c, h, b, i, e);
    lemma_minor_times(b, f, c, e, h);
    lemma_minor_times(e, i, f, h, c);
    lemma_minor_times(c, h, b, i, f);
    lemma_minor_times(b, f, c, e, i);
    lemma_minor_times(f, g, d, i, a);
    lemma_minor_times(a, i, c, g, d);
    lemma_minor_times(c, d, a, f, g);
    lemma_minor_times(f, g, d, i, b);
    lemma_minor_times(a, i, c, g, e);
    lemma_minor_times(c, d, a, f, h);
    lemma_minor_times(f, g, d, i, c);
    lemma_minor_times(a, i, c, g, f);
    lemma_minor_times(c, d, a, f, i);
    lemma_minor_times(d, h, e, g, a);
    lemma_minor_times(b, g, a, h, d);
    lemma_minor_times(a, e, b, d, g);
    lemma_minor_times(d, h, e, g, b);
    lemma_minor_times(b, g, a, h, e);
    lemma_minor_times(a, e, b, d, h);
    lemma_minor_times(d, h, e, g, c);
    lemma_minor_times(b, g, a, h, f);
    lemma_minor_times(a, e, b, d, i);
}

/// **The permutation is injective.** If the determinant of the MDS matrix is
/// not zero, different states are sent to different states. Whether it is zero
/// is for [`is_injective`] to say.
pub proof fn lemma_permute_injective(s: Lanes, t: Lanes)
    requires
        nonsingular(protocol_constants().mds),
        canonical_lanes(s),
        canonical_lanes(t),
        permute_spec(s) == permute_spec(t),
    ensures
        s == t,
{
    lemma_nonsingular(protocol_constants().mds);
    lemma_rounds_injective(protocol_constants(), 65, s, t);
}

/// A sum of three products of three factors, one by one.
fn triple_sum(a: [&Fr; 3], b: [&Fr; 3], c: [&Fr; 3]) -> (sum: Fr)
    ensures
        sum.value() == (a[0].value() * a[1].value() * a[2].value() + b[0].value() * b[1].value()
            * b[2].value() + c[0].value() * c[1].value() * c[2].value()) % fr_modulus(),
{
    let x: Fr = a[0].times(a[1]);
    let y: Fr = b[0].times(b[1]);
    let z: Fr = c[0].times(c[1]);
    proof {
        let r = fr_modulus() as int;
        let (u, v, w) = (
            (a[0].value() * a[1].value()) as int,
            (b[0].value() * b[1].value()) as int,
            (c[0].value() * c[1].value()) as int,
        );
        lemma_reduced_sum(
            u,
            v,
            w,
            a[2].value() as int,
            b[2].value() as int,
            c[2].value() as int,
            r,
        );
        let row = seq![a[2].value(), b[2].value(), c[2].value()];
        lemma_mix(row, Lanes { a: x.value(), b: y.value(), c: z.value() });
    }
    Fr::zero().plus(&x.times(a[2])).plus(&y.times(b[2])).plus(&z.times(c[2]))
}

/// Whether the permutation sends different states to different states, which it
/// does if the determinant of its matrix is not zero.
pub fn is_injective() -> (injective: bool)
    ensures
        injective == nonsingular(protocol_constants().mds),
        injective ==> forall|s: Lanes, t: Lanes|
            canonical_lanes(s) && canonical_lanes(t) && #[trigger] permute_spec(s)
                == #[trigger] permute_spec(t) ==> s == t,
{
    let params = parameters();
    let m: &[[Fr; WIDTH]; WIDTH] = &params.mds;
    let plus: Fr = triple_sum(
        [&m[0][0], &m[1][1], &m[2][2]],
        [&m[0][1], &m[1][2], &m[2][0]],
        [&m[0][2], &m[1][0], &m[2][1]],
    );
    let minus: Fr = triple_sum(
        [&m[0][0], &m[1][2], &m[2][1]],
        [&m[0][1], &m[1][0], &m[2][2]],
        [&m[0][2], &m[1][1], &m[2][0]],
    );
    proof {
        let mds = protocol_constants().mds;
        assert(params@.mds == mds);
        assert(determinant_sides(mds) == (plus.value(), minus.value()));
        if plus.value() == minus.value() {
            lemma_fr_ext(plus, minus);
        }
        if nonsingular(mds) {
            assert forall|s: Lanes, t: Lanes|
                canonical_lanes(s) && canonical_lanes(t) && #[trigger] permute_spec(s)
                    == #[trigger] permute_spec(t) implies s == t by {
                lemma_permute_injective(s, t);
            }
        }
    }
    plus != minus
}

} // verus!
