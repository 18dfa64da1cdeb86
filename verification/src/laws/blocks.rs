//! Laws of the building blocks: the permutation, the circuit's gadgets, and the
//! stores.

use crate::circuit::{Assignment, Circuit, Var};
use crate::field::{fr_modulus, Fr};
use crate::interfaces::Address;
use crate::poseidon::{
    grain_constants, hash2_spec, is_injective, lanes, permute, permute_spec, protocol_constants,
    rounds_spec,
};
use crate::store::{Key, Store};
use crate::text::is_white;
use vstd::arithmetic::div_mod::lemma_mod_equivalence;
use vstd::arithmetic::power::pow;
use vstd::prelude::*;

verus! {

/// The fifth power in the field.
pub open spec fn fifth(x: nat) -> nat {
    (pow(x as int, 5) % fr_modulus() as int) as nat
}

/// A row of the matrix times a state.
pub open spec fn times_row(row: Seq<nat>, s: (nat, nat, nat)) -> nat {
    (s.0 * row[0] + s.1 * row[1] + s.2 * row[2]) % fr_modulus()
}

/// The state after some rounds: in each, the round's constants are added, the
/// first lane, and in the first four and the last four of the 65 rounds every
/// lane, is raised to the fifth power, and the matrix is applied.
pub open spec fn stirred(
    constants: Seq<Seq<nat>>,
    matrix: Seq<Seq<nat>>,
    s: (nat, nat, nat),
    rounds: nat,
) -> (nat, nat, nat)
    decreases rounds,
{
    if rounds == 0 {
        s
    } else {
        let before = stirred(constants, matrix, s, (rounds - 1) as nat);
        let row = constants[rounds - 1];
        let a = (before.0 + row[0]) % fr_modulus();
        let b = (before.1 + row[1]) % fr_modulus();
        let c = (before.2 + row[2]) % fr_modulus();
        let boxed = if 4 < rounds <= 61 {
            (fifth(a), b, c)
        } else {
            (fifth(a), fifth(b), fifth(c))
        };
        (times_row(matrix[0], boxed), times_row(matrix[1], boxed), times_row(matrix[2], boxed))
    }
}

proof fn lemma_stirred(state: [Fr; 3], n: nat)
    ensures
        ({
            let k = protocol_constants();
            let got = rounds_spec(k, lanes(state), n);
            (got.a, got.b, got.c) == stirred(
                k.ark,
                k.mds,
                (state[0].value(), state[1].value(), state[2].value()),
                n,
            )
        }),
    decreases n,
{
    if n > 0 {
        lemma_stirred(state, (n - 1) as nat);
    }
}

/// **The permutation** is 65 rounds with the constants that the Grain procedure
/// gives for a prime of 255 bits, a rate of two, eight full and 57 partial
/// rounds.
pub proof fn lemma_permutation(state: [Fr; 3], out: [Fr; 3])
    requires
        call_ensures(permute, (state,), out),
    ensures
        ({
            let grain = grain_constants(255, 2, 8, 57, 0);
            (out[0].value(), out[1].value(), out[2].value()) == stirred(
                grain.0,
                grain.1,
                (state[0].value(), state[1].value(), state[2].value()),
                65,
            )
        }),
{
    lemma_stirred(state, 65);
    assert(lanes(out).a == out[0].value());
}

/// The determinant of a matrix with three rows, by its first row.
pub open spec fn determinant(m: Seq<Seq<nat>>) -> int {
    m[0][0] * (m[1][1] * m[2][2] - m[1][2] * m[2][1]) - m[0][1] * (m[1][0] * m[2][2] - m[1][2]
        * m[2][0]) + m[0][2] * (m[1][0] * m[2][1] - m[1][1] * m[2][0])
}

/// **Injectivity is told by the determinant** of the matrix that the Grain
/// procedure gives: the permutation is known to be injective if and only if it
/// is no multiple of the order of the field; no two canonical states then have
/// one image.
pub proof fn lemma_injectivity_told(
    injective: bool,
    s: [Fr; 3],
    t: [Fr; 3],
    s_out: [Fr; 3],
    t_out: [Fr; 3],
)
    requires
        call_ensures(is_injective, (), injective),
        call_ensures(permute, (s,), s_out),
        call_ensures(permute, (t,), t_out),
        forall|i: int| 0 <= i < 3 ==> (#[trigger] s[i]).value() < fr_modulus(),
        forall|i: int| 0 <= i < 3 ==> (#[trigger] t[i]).value() < fr_modulus(),
    ensures
        injective <==> determinant(grain_constants(255, 2, 8, 57, 0).1) % (fr_modulus() as int)
            != 0,
        injective && s_out[0].value() == t_out[0].value() && s_out[1].value() == t_out[1].value()
            && s_out[2].value() == t_out[2].value() ==> s[0].value() == t[0].value()
            && s[1].value() == t[1].value() && s[2].value() == t[2].value(),
{
    let m = protocol_constants().mds;
    let r = fr_modulus() as int;
    let plus = m[0][0] * m[1][1] * m[2][2] + m[0][1] * m[1][2] * m[2][0] + m[0][2] * m[1][0]
        * m[2][1];
    let minus = m[0][0] * m[1][2] * m[2][1] + m[0][1] * m[1][0] * m[2][2] + m[0][2] * m[1][1]
        * m[2][0];
    lemma_expanded(
        m[0][0] as int,
        m[0][1] as int,
        m[0][2] as int,
        m[1][0] as int,
        m[1][1] as int,
        m[1][2] as int,
        m[2][0] as int,
        m[2][1] as int,
        m[2][2] as int,
    );
    assert(determinant(m) == plus - minus);
    lemma_mod_equivalence(plus as int, minus as int, r);
    assert(lanes(s).a < fr_modulus() && lanes(s).b < fr_modulus() && lanes(s).c < fr_modulus());
    assert(lanes(t).a < fr_modulus() && lanes(t).b < fr_modulus() && lanes(t).c < fr_modulus());
    assert(lanes(s_out) == permute_spec(lanes(s)) && lanes(t_out) == permute_spec(lanes(t)));
}

proof fn lemma_expanded(
    a: int,
    b: int,
    c: int,
    d: int,
    e: int,
    f: int,
    g: int,
    h: int,
    i: int,
)
    ensures
        a * (e * i - f * h) - b * (d * i - f * g) + c * (d * h - e * g) == (a * e * i + b * f * g
            + c * d * h) - (a * f * h + b * d * i + c * e * g),
{
    assert(a * (e * i - f * h) == a * e * i - a * f * h) by (nonlinear_arith);
    assert(b * (d * i - f * g) == b * d * i - b * f * g) by (nonlinear_arith);
    assert(c * (d * h - e * g) == c * d * h - c * e * g) by (nonlinear_arith);
}

/// **The gadgets compute what the functions do**, whatever a prover puts in,
/// and enforce nothing: the hash, the public key, the commitment and the
/// nullifier.
pub proof fn lemma_gadgets(
    hashing: &mut Circuit,
    left: Var,
    right: Var,
    hash: Var,
    deriving: &mut Circuit,
    sk: Var,
    pk: Var,
    committing: &mut Circuit,
    value: Var,
    owner: Var,
    blinding: Var,
    commitment: Var,
    nullifying: &mut Circuit,
    key: Var,
    index: Var,
    nullifier: Var,
    asg: Assignment,
)
    requires
        call_ensures(crate::poseidon::gadget::hash2, (hashing, left, right), hash),
        call_ensures(crate::note::gadget::derive_pk, (deriving, sk), pk),
        call_ensures(
            crate::note::gadget::commitment,
            (committing, value, owner, blinding),
            commitment,
        ),
        call_ensures(crate::note::gadget::nullifier, (nullifying, key, index), nullifier),
    ensures
        final(hashing).sat(asg) == old(hashing).sat(asg),
        final(hashing).val(asg, hash.wire as int) == hash2_spec(
            old(hashing).val(asg, left.wire as int),
            old(hashing).val(asg, right.wire as int),
        ),
        final(deriving).sat(asg) == old(deriving).sat(asg),
        final(deriving).val(asg, pk.wire as int) == hash2_spec(
            1,
            old(deriving).val(asg, sk.wire as int),
        ),
        final(committing).sat(asg) == old(committing).sat(asg),
        final(committing).val(asg, commitment.wire as int) == hash2_spec(
            hash2_spec(
                old(committing).val(asg, value.wire as int),
                old(committing).val(asg, owner.wire as int),
            ),
            old(committing).val(asg, blinding.wire as int),
        ),
        final(nullifying).sat(asg) == old(nullifying).sat(asg),
        final(nullifying).val(asg, nullifier.wire as int) == hash2_spec(
            hash2_spec(2, old(nullifying).val(asg, key.wire as int)),
            old(nullifying).val(asg, index.wire as int),
        ),
{
}

/// **Stores keep what they are given.** After a key was given a value, it has
/// that value, and every other key has what it had.
pub proof fn lemma_store_set<K: Key, V>(
    store: &mut Store<K, V>,
    key: K,
    value: V,
    asked: &K,
    had: Option<&V>,
    has: Option<&V>,
    there: bool,
)
    requires
        call_ensures(Store::<K, V>::set, (store, key, value), ()),
        call_ensures(Store::<K, V>::get, (&*old(store), asked), had),
        call_ensures(Store::<K, V>::get, (&*final(store), asked), has),
        call_ensures(Store::<K, V>::has, (&*final(store), asked), there),
    ensures
        asked.id() == key.id() ==> (has matches Some(v) && *v == value),
        asked.id() != key.id() ==> (has is Some <==> had is Some),
        asked.id() != key.id() && had is Some ==> *(has->0) == *(had->0),
        there <==> has is Some,
{
}

/// **Stores forget what is taken out.** After a key was removed it has no
/// value, and every other key has what it had; a new store has none.
pub proof fn lemma_store_remove<K: Key, V>(
    store: &mut Store<K, V>,
    key: &K,
    asked: &K,
    had: Option<&V>,
    has: Option<&V>,
    fresh: Store<K, V>,
    none: Option<&V>,
)
    requires
        call_ensures(Store::<K, V>::remove, (store, key), ()),
        call_ensures(Store::<K, V>::get, (&*old(store), asked), had),
        call_ensures(Store::<K, V>::get, (&*final(store), asked), has),
        call_ensures(Store::<K, V>::new, (), fresh),
        call_ensures(Store::<K, V>::get, (&fresh, asked), none),
    ensures
        asked.id() == key.id() ==> has is None,
        asked.id() != key.id() ==> (has is Some <==> had is Some),
        asked.id() != key.id() && had is Some ==> *(has->0) == *(had->0),
        none is None,
{
}

/// **Keys are told apart** by what they are: addresses by their bytes, strings
/// by their characters, numbers and digests by themselves.
pub proof fn lemma_keys_told_apart(
    a: &Address,
    b: &Address,
    same_address: bool,
    copy: Address,
    s: &String,
    t: &String,
    same_string: bool,
    m: &u64,
    n: &u64,
    same_number: bool,
    d: &[u8; 32],
    e: &[u8; 32],
    same_digest: bool,
)
    requires
        call_ensures(<Address as Key>::same, (a, b), same_address),
        call_ensures(<Address as Clone>::clone, (a,), copy),
        call_ensures(<String as Key>::same, (s, t), same_string),
        call_ensures(<u64 as Key>::same, (m, n), same_number),
        call_ensures(<[u8; 32] as Key>::same, (d, e), same_digest),
    ensures
        same_address <==> a.xdr@ == b.xdr@,
        copy.xdr@ == a.xdr@,
        same_string <==> s@ == t@,
        same_number <==> *m == *n,
        same_digest <==> d@ == e@,
{
}

/// **White space** is what Unicode has as such: the tab to the carriage return,
/// the space, the next line, and the wider spaces and separators.
pub proof fn lemma_white_space(c: char, white: bool)
    requires
        call_ensures(is_white, (c,), white),
    ensures
        white <==> {
            ||| 0x9 <= c as u32 <= 0xd
            ||| c as u32 == 0x20
            ||| c as u32 == 0x85
            ||| c as u32 == 0xa0
            ||| c as u32 == 0x1680
            ||| 0x2000 <= c as u32 <= 0x200a
            ||| c as u32 == 0x2028
            ||| c as u32 == 0x2029
            ||| c as u32 == 0x202f
            ||| c as u32 == 0x205f
            ||| c as u32 == 0x3000
        },
{
}

} // verus!
