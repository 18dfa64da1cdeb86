//! Small shared circuit helpers.

use crate::circuit::{le_nat, le_prefix, Assignment, Bit, Circuit, Var};
use crate::field::{fr_modulus, Fr};
use crate::merkle::gadget::var_vals;
use crate::merkle::{ancestor, index_bits, MerklePath};
use vstd::arithmetic::power2::{
    lemma_pow2_pos, lemma_pow2_strictly_increases, lemma_pow2_unfold, pow2,
};
use vstd::prelude::*;

verus! {

/// `n` bits of a boolean stream, from position `at`.
pub open spec fn bits_at(bits: Seq<bool>, at: nat, n: nat) -> Seq<bool> {
    Seq::new(n, |i: int| bits[at + i])
}

/// `n` values of a field stream, from position `at`.
pub open spec fn values_at(values: Seq<nat>, at: nat, n: nat) -> Seq<nat> {
    Seq::new(n, |i: int| values[at + i])
}

/// The boolean witnesses that stand for the low `n` bits of a value.
pub open spec fn bit_stream(value: Option<u64>, n: nat) -> Seq<Option<bool>> {
    Seq::new(
        n,
        |i: int|
            match value {
                Some(v) => Some(index_bits(v as nat, n)[i]),
                None => None,
            },
    )
}

/// `n` bits spell a number below `2^n`.
pub proof fn lemma_le_bound(bits: Seq<bool>, n: nat)
    requires
        n <= bits.len(),
    ensures
        le_prefix(bits, n) < pow2(n),
    decreases n,
{
    if n == 0 {
        lemma_pow2_pos(0);
    } else {
        lemma_le_bound(bits, (n - 1) as nat);
        lemma_pow2_unfold(n);
    }
}

/// Up to 64 bits spell a canonical integer, which fits a machine word.
pub proof fn lemma_le_small(bits: Seq<bool>)
    requires
        bits.len() <= 64,
    ensures
        le_nat(bits) < pow2(bits.len()) <= 0x1_0000_0000_0000_0000,
        le_nat(bits) < fr_modulus(),
        le_nat(bits) % fr_modulus() == le_nat(bits),
{
    lemma_le_bound(bits, bits.len());
    vstd::arithmetic::power2::lemma2_to64();
    if bits.len() < 64 {
        lemma_pow2_strictly_increases(bits.len(), 64);
    }
}

/// Allocates the low `n` bits of `value` as boolean witnesses, least
/// significant first.
pub fn alloc_index_bits(c: &mut Circuit, value: Option<u64>, n: usize) -> (bits: Vec<Bit>)
    requires
        old(c).wf(),
    ensures
        old(c).extended(*final(c)),
        final(c).inputs@ == old(c).inputs@,
        final(c).witnesses@ == old(c).witnesses@,
        final(c).bits@ == old(c).bits@ + bit_stream(value, n as nat),
        bits@.len() == n,
        forall|i: int| 0 <= i < n ==> (#[trigger] bits@[i]).wire < final(c).size(),
        forall|asg: Assignment| #[trigger] final(c).sat(asg) == old(c).sat(asg),
        forall|asg: Assignment| #[trigger]
            final(c).bit_vals(asg, bits@) == bits_at(asg.bits, old(c).bits@.len(), n as nat),
{
    let mut bits: Vec<Bit> = Vec::new();
    let mut rest: u64 = match value {
        Some(v) => v,
        None => 0,
    };
    let ghost start: nat = rest as nat;
    let ghost at: nat = c.bits@.len();
    let mut i: usize = 0;
    while i < n
        invariant
            i <= n,
            at == old(c).bits@.len(),
            value matches Some(v) ==> start == v,
            rest == ancestor(start, i as nat),
            old(c).extended(*c),
            c.inputs@ == old(c).inputs@,
            c.witnesses@ == old(c).witnesses@,
            c.bits@ == old(c).bits@ + bit_stream(value, n as nat).take(i as int),
            bits@.len() == i,
            forall|k: int| 0 <= k < i ==> (#[trigger] bits@[k]).wire < c.size(),
            forall|asg: Assignment| #[trigger] c.sat(asg) == old(c).sat(asg),
            forall|asg: Assignment, k: int|
                0 <= k < i ==> (#[trigger] c.val(asg, bits@[k].wire as int) != 0)
                    == asg.bits[at + k],
        decreases n - i,
    {
        let given: Option<bool> = match value {
            Some(_) => Some(rest % 2 == 1),
            None => None,
        };
        let ghost before = *c;
        let bit: Bit = c.new_bit(given);
        let ghost kept = bits@;
        bits.push(bit);
        proof {
            assert(bit_stream(value, n as nat)[i as int] == given);
            assert(bit_stream(value, n as nat).take(i + 1) =~= bit_stream(value, n as nat).take(
                i as int,
            ).push(given));
            assert(c.bits@ =~= old(c).bits@ + bit_stream(value, n as nat).take(i + 1));
            assert forall|asg: Assignment, k: int|
                0 <= k < i + 1 implies (#[trigger] c.val(asg, bits@[k].wire as int) != 0)
                == asg.bits[at + k] by {
                if k < i {
                    assert(bits@[k] == kept[k]);
                    assert(c.val(asg, kept[k].wire as int) == before.val(
                        asg,
                        kept[k].wire as int,
                    ));
                }
            }
        }
        rest = rest / 2;
        i = i + 1;
    }
    proof {
        assert(bit_stream(value, n as nat).take(n as int) =~= bit_stream(value, n as nat));
        assert forall|asg: Assignment| #[trigger]
            c.bit_vals(asg, bits@) == bits_at(asg.bits, at, n as nat) by {
            assert(c.bit_vals(asg, bits@) =~= bits_at(asg.bits, at, n as nat));
        }
    }
    bits
}

/// Allocates a 64-bit unsigned value as its boolean witnesses, least
/// significant first, and returns the recomposed field element. The
/// decomposition is the range check: 64 booleans spell nothing from `2^64`
/// up.
pub fn alloc_u64(c: &mut Circuit, value: Option<u64>) -> (var: Var)
    requires
        old(c).wf(),
    ensures
        old(c).extended(*final(c)),
        final(c).inputs@ == old(c).inputs@,
        final(c).witnesses@ == old(c).witnesses@,
        final(c).bits@ == old(c).bits@ + bit_stream(value, 64),
        var.wire < final(c).size(),
        forall|asg: Assignment| #[trigger] final(c).sat(asg) == old(c).sat(asg),
        forall|asg: Assignment| #[trigger]
            final(c).val(asg, var.wire as int) == le_nat(
                bits_at(asg.bits, old(c).bits@.len(), 64),
            ),
{
    let bits = alloc_index_bits(c, value, 64);
    let ghost mid = *c;
    let var = c.from_bits(&bits);
    proof {
        assert forall|asg: Assignment|
            #![trigger c.val(asg, var.wire as int)]
            #![trigger c.sat(asg)]
            c.val(asg, var.wire as int) == le_nat(bits_at(asg.bits, old(c).bits@.len(), 64))
                && c.sat(asg) == old(c).sat(asg) by {
            assert(mid.bit_vals(asg, bits@) == bits_at(asg.bits, old(c).bits@.len(), 64));
            lemma_le_small(bits_at(asg.bits, old(c).bits@.len(), 64));
        }
    }
    var
}

/// The field witnesses that stand for the first `n` siblings of a path.
pub open spec fn sibling_stream(path: Option<&MerklePath>, n: nat) -> Seq<Option<Fr>> {
    Seq::new(
        n,
        |i: int|
            match path {
                Some(p) => Some(p.siblings@[i]),
                None => None,
            },
    )
}

/// Allocates the first `depth` siblings of a path as field witnesses.
pub fn alloc_siblings(c: &mut Circuit, path: Option<&MerklePath>, depth: usize) -> (vars: Vec<Var>)
    requires
        old(c).wf(),
        path matches Some(p) ==> p.siblings@.len() >= depth,
    ensures
        old(c).extended(*final(c)),
        final(c).inputs@ == old(c).inputs@,
        final(c).witnesses@ == old(c).witnesses@ + sibling_stream(path, depth as nat),
        final(c).bits@ == old(c).bits@,
        vars@.len() == depth,
        forall|i: int| 0 <= i < depth ==> (#[trigger] vars@[i]).wire < final(c).size(),
        forall|asg: Assignment| #[trigger] final(c).sat(asg) == old(c).sat(asg),
        forall|asg: Assignment| #[trigger]
            var_vals(*final(c), asg, vars@) == values_at(
                asg.witnesses,
                old(c).witnesses@.len(),
                depth as nat,
            ),
{
    let mut vars: Vec<Var> = Vec::new();
    let ghost at: nat = c.witnesses@.len();
    let ghost stream = sibling_stream(path, depth as nat);
    let mut level: usize = 0;
    while level < depth
        invariant
            level <= depth,
            at == old(c).witnesses@.len(),
            stream == sibling_stream(path, depth as nat),
            path matches Some(p) ==> p.siblings@.len() >= depth,
            old(c).extended(*c),
            c.inputs@ == old(c).inputs@,
            c.witnesses@ == old(c).witnesses@ + stream.take(level as int),
            c.bits@ == old(c).bits@,
            vars@.len() == level,
            forall|k: int| 0 <= k < level ==> (#[trigger] vars@[k]).wire < c.size(),
            forall|asg: Assignment| #[trigger] c.sat(asg) == old(c).sat(asg),
            forall|asg: Assignment, k: int|
                0 <= k < level ==> #[trigger] c.val(asg, vars@[k].wire as int)
                    == asg.witnesses[at + k],
        decreases depth - level,
    {
        let given: Option<Fr> = match path {
            Some(p) => Some(p.siblings[level]),
            None => None,
        };
        let ghost before = *c;
        let ghost kept = vars@;
        let var: Var = c.new_witness(given);
        vars.push(var);
        proof {
            assert(stream[level as int] == given);
            assert(c.witnesses@ =~= old(c).witnesses@ + stream.take(level + 1));
            assert forall|asg: Assignment, k: int|
                0 <= k < level + 1 implies #[trigger] c.val(asg, vars@[k].wire as int)
                == asg.witnesses[at + k] by {
                if k < level {
                    assert(vars@[k] == kept[k]);
                    assert(c.val(asg, kept[k].wire as int) == before.val(
                        asg,
                        kept[k].wire as int,
                    ));
                }
            }
        }
        level = level + 1;
    }
    proof {
        assert(stream.take(depth as int) =~= stream);
        assert forall|asg: Assignment| #[trigger]
            var_vals(*c, asg, vars@) == values_at(asg.witnesses, at, depth as nat) by {
            assert(var_vals(*c, asg, vars@) =~= values_at(asg.witnesses, at, depth as nat));
        }
    }
    vars
}

} // verus!
