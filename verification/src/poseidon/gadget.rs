//! The permutation in-circuit.

use super::{
    add_constants, hash2_spec, is_full_round, lemma_mix, mix_lane, mix_layer, permute_spec,
    protocol_constants, rounds_spec, row_values, sbox_layer, Lanes, FULL_ROUNDS, PARTIAL_ROUNDS,
    ROUNDS, WIDTH,
};
use crate::circuit::{Assignment, Circuit, Var};
use crate::field::{fr_modulus, fr_mul, fr_pow, Fr};
use vstd::arithmetic::div_mod::{lemma_mod_twice, lemma_mul_mod_noop};
use vstd::arithmetic::power::pow;
use vstd::prelude::*;

verus! {

/// The values of a state's three wires.
pub open spec fn state_vals(c: Circuit, asg: Assignment, state: [Var; 3]) -> Lanes {
    Lanes {
        a: c.val(asg, state[0].wire as int),
        b: c.val(asg, state[1].wire as int),
        c: c.val(asg, state[2].wire as int),
    }
}

/// The wires of a state exist.
pub open spec fn state_wf(c: Circuit, state: [Var; 3]) -> bool {
    forall|i: int| 0 <= i < 3 ==> (#[trigger] state[i]).wire < c.size()
}

/// Squaring twice and multiplying once gives the fifth power.
proof fn lemma_fifth_power(x: nat)
    ensures
        fr_mul(fr_mul(fr_mul(x, x), fr_mul(x, x)), x) == fr_pow(x, 5),
{
    let r = fr_modulus() as int;
    let y = x as int;
    let y2 = y * y;
    let y4 = y2 * y2;
    lemma_mul_mod_noop(y2, y2, r);
    lemma_mul_mod_noop(y4, y, r);
    lemma_mul_mod_noop(y4 % r, y, r);
    lemma_mod_twice(y4, r);
    assert(pow(y, 5) == y4 * y) by {
        reveal_with_fuel(pow, 6);
        assert(y * (y * (y * (y * (y * 1)))) == (y * y) * (y * y) * y) by (nonlinear_arith);
    }
}

/// The S-box in-circuit.
fn sbox(c: &mut Circuit, x: Var) -> (out: Var)
    requires
        old(c).wf(),
        x.wire < old(c).size(),
    ensures
        old(c).computes(*final(c)),
        out.wire < final(c).size(),
        forall|asg: Assignment| #[trigger]
            final(c).val(asg, out.wire as int) == super::sbox(old(c).val(asg, x.wire as int)),
{
    let x2 = c.square(x);
    let x4 = c.square(x2);
    let out = c.product(x4, x);
    proof {
        assert forall|asg: Assignment| #[trigger]
            c.val(asg, out.wire as int) == super::sbox(old(c).val(asg, x.wire as int)) by {
            lemma_fifth_power(old(c).val(asg, x.wire as int));
        }
    }
    out
}

/// One lane plus a constant.
fn add_constant(c: &mut Circuit, lane: Var, constant: Fr) -> (out: Var)
    requires
        old(c).wf(),
        lane.wire < old(c).size(),
    ensures
        old(c).computes(*final(c)),
        out.wire < final(c).size(),
        forall|asg: Assignment| #[trigger]
            final(c).val(asg, out.wire as int) == crate::field::fr_add(
                old(c).val(asg, lane.wire as int),
                constant.value(),
            ),
{
    let k = c.constant(constant);
    c.sum(lane, k)
}

/// One output lane of the MDS layer in-circuit.
fn mix_row(c: &mut Circuit, row: &[Fr; WIDTH], state: &[Var; WIDTH]) -> (out: Var)
    requires
        old(c).wf(),
        state_wf(*old(c), *state),
    ensures
        old(c).computes(*final(c)),
        out.wire < final(c).size(),
        forall|asg: Assignment| #[trigger]
            final(c).val(asg, out.wire as int) == mix_lane(
                row_values(*row),
                state_vals(*old(c), asg, *state),
            ),
{
    let mixed = c.constant(Fr::zero());
    let m = c.constant(row[0]);
    let p = c.product(state[0], m);
    let mixed = c.sum(mixed, p);
    let m = c.constant(row[1]);
    let p = c.product(state[1], m);
    let mixed = c.sum(mixed, p);
    let m = c.constant(row[2]);
    let p = c.product(state[2], m);
    let mixed = c.sum(mixed, p);
    proof {
        assert forall|asg: Assignment| #[trigger]
            c.val(asg, mixed.wire as int) == mix_lane(
                row_values(*row),
                state_vals(*old(c), asg, *state),
            ) by {
            lemma_mix(row_values(*row), state_vals(*old(c), asg, *state));
        }
    }
    mixed
}

/// The round constants added in-circuit.
fn add_row(c: &mut Circuit, row: &[Fr; WIDTH], state: [Var; WIDTH]) -> (out: [Var; WIDTH])
    requires
        old(c).wf(),
        state_wf(*old(c), state),
    ensures
        old(c).computes(*final(c)),
        state_wf(*final(c), out),
        forall|asg: Assignment|
            state_vals(*final(c), asg, out) == add_constants(
                row_values(*row),
                #[trigger] state_vals(*old(c), asg, state),
            ),
{
    let a = add_constant(c, state[0], row[0]);
    let b = add_constant(c, state[1], row[1]);
    let d = add_constant(c, state[2], row[2]);
    [a, b, d]
}

/// The S-box layer in-circuit.
fn sbox_row(c: &mut Circuit, full: bool, state: [Var; WIDTH]) -> (out: [Var; WIDTH])
    requires
        old(c).wf(),
        state_wf(*old(c), state),
    ensures
        old(c).computes(*final(c)),
        state_wf(*final(c), out),
        forall|asg: Assignment|
            state_vals(*final(c), asg, out) == sbox_layer(
                full,
                #[trigger] state_vals(*old(c), asg, state),
            ),
{
    if full {
        let a = sbox(c, state[0]);
        let b = sbox(c, state[1]);
        let d = sbox(c, state[2]);
        [a, b, d]
    } else {
        let a = sbox(c, state[0]);
        [a, state[1], state[2]]
    }
}

/// The MDS layer in-circuit.
fn mix(c: &mut Circuit, mds: &[[Fr; WIDTH]; WIDTH], state: [Var; WIDTH]) -> (out: [Var; WIDTH])
    requires
        old(c).wf(),
        state_wf(*old(c), state),
    ensures
        old(c).computes(*final(c)),
        state_wf(*final(c), out),
        forall|asg: Assignment|
            state_vals(*final(c), asg, out) == mix_layer(
                seq![row_values(mds[0]), row_values(mds[1]), row_values(mds[2])],
                #[trigger] state_vals(*old(c), asg, state),
            ),
{
    let a = mix_row(c, &mds[0], &state);
    let b = mix_row(c, &mds[1], &state);
    let d = mix_row(c, &mds[2], &state);
    [a, b, d]
}

/// The Poseidon permutation over circuit variables, with the same constants
/// as the native permutation.
pub fn permute(c: &mut Circuit, state: [Var; WIDTH]) -> (out: [Var; WIDTH])
    requires
        old(c).wf(),
        state_wf(*old(c), state),
    ensures
        old(c).computes(*final(c)),
        state_wf(*final(c), out),
        forall|asg: Assignment|
            #![trigger final(c).val(asg, out[0].wire as int)]
            state_vals(*final(c), asg, out) == permute_spec(state_vals(*old(c), asg, state)),
{
    let half_full: usize = FULL_ROUNDS / 2;
    let mut s: [Var; WIDTH] = state;
    let mut round: usize = 0;
    while round < ROUNDS
        invariant
            half_full == 4,
            round <= ROUNDS,
            old(c).computes(*c),
            state_wf(*c, s),
            state_wf(*old(c), state),
            forall|asg: Assignment|
                state_vals(*c, asg, s) == rounds_spec(
                    protocol_constants(),
                    #[trigger] state_vals(*old(c), asg, state),
                    round as nat,
                ),
        decreases ROUNDS - round,
    {
        let ghost before = *c;
        let ark: [Fr; WIDTH] = c.params.ark[round];
        let mds: [[Fr; WIDTH]; WIDTH] = c.params.mds;
        proof {
            assert(row_values(ark) == c.params@.ark[round as int]);
            assert(protocol_constants().mds == seq![
                row_values(mds[0]),
                row_values(mds[1]),
                row_values(mds[2]),
            ]);
        }
        let added: [Var; WIDTH] = add_row(c, &ark, s);
        let ghost c1 = *c;
        let full: bool = round < half_full || round >= half_full + PARTIAL_ROUNDS;
        let boxed: [Var; WIDTH] = sbox_row(c, full, added);
        let ghost c2 = *c;
        let mixed: [Var; WIDTH] = mix(c, &mds, boxed);
        proof {
            let c3 = *c;
            assert forall|asg: Assignment|
                state_vals(c3, asg, mixed) == rounds_spec(
                    protocol_constants(),
                    #[trigger] state_vals(*old(c), asg, state),
                    (round + 1) as nat,
                ) by {
                assert(state_vals(before, asg, s) == rounds_spec(
                    protocol_constants(),
                    state_vals(*old(c), asg, state),
                    round as nat,
                ));
                assert(state_vals(c1, asg, added) == add_constants(
                    row_values(ark),
                    state_vals(before, asg, s),
                ));
                assert(state_vals(c2, asg, boxed) == sbox_layer(
                    is_full_round(round as nat),
                    state_vals(c1, asg, added),
                ));
            }
        }
        s = mixed;
        round = round + 1;
    }
    proof {
        assert forall|asg: Assignment|
            #![trigger c.val(asg, s[0].wire as int)]
            state_vals(*c, asg, s) == permute_spec(state_vals(*old(c), asg, state)) by {
            assert(state_vals(*c, asg, s) == rounds_spec(
                protocol_constants(),
                state_vals(*old(c), asg, state),
                65,
            ));
        }
    }
    s
}

/// In-circuit 2-to-1 hash, identical to the native one.
pub fn hash2(c: &mut Circuit, left: Var, right: Var) -> (hash: Var)
    requires
        old(c).wf(),
        left.wire < old(c).size(),
        right.wire < old(c).size(),
    ensures
        old(c).computes(*final(c)),
        hash.wire < final(c).size(),
        forall|asg: Assignment| #[trigger]
            final(c).val(asg, hash.wire as int) == hash2_spec(
                old(c).val(asg, left.wire as int),
                old(c).val(asg, right.wire as int),
            ),
{
    let zero = c.constant(Fr::zero());
    let ghost mid = *c;
    let state: [Var; WIDTH] = [zero, left, right];
    let out: [Var; WIDTH] = permute(c, state);
    proof {
        assert forall|asg: Assignment| #[trigger]
            c.val(asg, out[0].wire as int) == hash2_spec(
                old(c).val(asg, left.wire as int),
                old(c).val(asg, right.wire as int),
            ) by {
            reveal(hash2_spec);
            assert(state_vals(*c, asg, out) == permute_spec(state_vals(mid, asg, state)));
        }
    }
    out[0]
}

} // verus!
