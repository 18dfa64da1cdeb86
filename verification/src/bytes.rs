//! Big-endian byte strings as natural numbers.

use vstd::prelude::*;

verus! {

/// The number that the first `n` bytes of `s` spell, most significant
/// byte first.
pub open spec fn be_prefix(s: Seq<u8>, n: nat) -> nat
    decreases n,
{
    if n == 0 {
        0
    } else {
        be_prefix(s, (n - 1) as nat) * 256 + s[n - 1] as nat
    }
}

/// The number that a byte string spells, most significant byte first.
pub open spec fn be_nat(s: Seq<u8>) -> nat {
    be_prefix(s, s.len())
}

/// `256^n`.
pub open spec fn pow256(n: nat) -> nat
    decreases n,
{
    if n == 0 {
        1
    } else {
        256 * pow256((n - 1) as nat)
    }
}

/// A prefix's number depends on the bytes of the prefix alone.
pub proof fn lemma_be_prefix_same(s: Seq<u8>, t: Seq<u8>, n: nat)
    requires
        n <= s.len(),
        n <= t.len(),
        forall|i: int| 0 <= i < n ==> s[i] == t[i],
    ensures
        be_prefix(s, n) == be_prefix(t, n),
    decreases n,
{
    if n > 0 {
        lemma_be_prefix_same(s, t, (n - 1) as nat);
    }
}

/// `n` bytes spell a number below `256^n`.
pub proof fn lemma_be_prefix_bound(s: Seq<u8>, n: nat)
    requires
        n <= s.len(),
    ensures
        be_prefix(s, n) < pow256(n),
    decreases n,
{
    if n > 0 {
        lemma_be_prefix_bound(s, (n - 1) as nat);
    }
}

/// Byte strings of one length that spell the same number are equal.
pub proof fn lemma_be_injective(s: Seq<u8>, t: Seq<u8>)
    requires
        s.len() == t.len(),
        be_nat(s) == be_nat(t),
    ensures
        s == t,
{
    lemma_be_prefix_injective(s, t, s.len());
    assert(s =~= t);
}

proof fn lemma_be_prefix_injective(s: Seq<u8>, t: Seq<u8>, n: nat)
    requires
        n <= s.len(),
        n <= t.len(),
        be_prefix(s, n) == be_prefix(t, n),
    ensures
        forall|i: int| 0 <= i < n ==> s[i] == t[i],
    decreases n,
{
    if n > 0 {
        let m = (n - 1) as nat;
        assert(be_prefix(s, m) == be_prefix(t, m) && s[n - 1] == t[n - 1]);
        lemma_be_prefix_injective(s, t, m);
    }
}

/// A leading zero byte does not change the number.
pub proof fn lemma_be_leading_zeros(s: Seq<u8>, n: nat)
    requires
        n <= s.len(),
        forall|i: int| 0 <= i < n ==> s[i] == 0,
    ensures
        be_prefix(s, n) == 0,
    decreases n,
{
    if n > 0 {
        lemma_be_leading_zeros(s, (n - 1) as nat);
    }
}

/// The number that a concatenation spells.
pub proof fn lemma_be_concat(s: Seq<u8>, t: Seq<u8>)
    ensures
        be_nat(s + t) == be_nat(s) * pow256(t.len()) + be_nat(t),
{
    lemma_be_concat_prefix(s, t, t.len());
}

proof fn lemma_be_concat_prefix(s: Seq<u8>, t: Seq<u8>, n: nat)
    requires
        n <= t.len(),
    ensures
        be_prefix(s + t, s.len() + n) == be_nat(s) * pow256(n) + be_prefix(t, n),
    decreases n,
{
    if n == 0 {
        lemma_be_prefix_same(s + t, s, s.len());
    } else {
        let m = (n - 1) as nat;
        lemma_be_concat_prefix(s, t, m);
        assert((s + t)[s.len() + n - 1] == t[n - 1]);
        assert(be_nat(s) * pow256(m) * 256 == be_nat(s) * (256 * pow256(m))) by (nonlinear_arith);
    }
}

/// Eight bytes extend a prefix's number by one 64-bit word.
pub proof fn lemma_be_word(s: Seq<u8>, n: nat)
    requires
        n + 8 <= s.len(),
    ensures
        be_prefix(s, n + 8) == be_prefix(s, n) * 0x1_0000_0000_0000_0000 + word_nat(s, n as int),
{
    reveal_with_fuel(be_prefix, 9);
}

/// The 64-bit word that stands at `at` in `s`, most significant byte first.
pub open spec fn word_nat(s: Seq<u8>, at: int) -> nat {
    (s[at] * 0x100_0000_0000_0000 + s[at + 1] * 0x1_0000_0000_0000 + s[at + 2] * 0x100_0000_0000
        + s[at + 3] * 0x1_0000_0000 + s[at + 4] * 0x100_0000 + s[at + 5] * 0x1_0000 + s[at + 6]
        * 0x100 + s[at + 7]) as nat
}

/// A 64-bit word as its eight bytes, most significant first.
pub fn word_to_be(x: u64) -> (out: [u8; 8])
    ensures
        word_nat(out@, 0) == x,
{
    let q1: u64 = x / 256;
    let q2: u64 = q1 / 256;
    let q3: u64 = q2 / 256;
    let q4: u64 = q3 / 256;
    let q5: u64 = q4 / 256;
    let q6: u64 = q5 / 256;
    let q7: u64 = q6 / 256;
    [
        q7 as u8,
        (q6 % 256) as u8,
        (q5 % 256) as u8,
        (q4 % 256) as u8,
        (q3 % 256) as u8,
        (q2 % 256) as u8,
        (q1 % 256) as u8,
        (x % 256) as u8,
    ]
}

/// A number as `len` bytes, most significant first.
pub open spec fn be_bytes(n: nat, len: nat) -> Seq<u8>
    decreases len,
{
    if len == 0 {
        Seq::empty()
    } else {
        be_bytes(n / 256, (len - 1) as nat).push((n % 256) as u8)
    }
}

/// The bytes of a number that fits spell it.
pub proof fn lemma_be_bytes(n: nat, len: nat)
    requires
        n < pow256(len),
    ensures
        be_bytes(n, len).len() == len,
        be_nat(be_bytes(n, len)) == n,
    decreases len,
{
    if len > 0 {
        let m = (len - 1) as nat;
        lemma_be_bytes(n / 256, m);
        let s = be_bytes(n / 256, m);
        lemma_be_prefix_same(s, be_bytes(n, len), m);
    }
}

/// The bytes of a number are those that spell it.
pub proof fn lemma_be_bytes_unique(s: Seq<u8>)
    ensures
        s == be_bytes(be_nat(s), s.len()),
{
    lemma_be_prefix_bound(s, s.len());
    lemma_be_bytes(be_nat(s), s.len());
    lemma_be_injective(s, be_bytes(be_nat(s), s.len()));
}

/// The powers that bound field elements.
pub proof fn lemma_pow256_sizes()
    ensures
        pow256(16) == 0x1_0000_0000_0000_0000_0000_0000_0000_0000,
        pow256(31) == 0x1_00000000_00000000_00000000_00000000_00000000_00000000_00000000_000000,
        pow256(32) == 0x1_00000000_00000000_00000000_00000000_00000000_00000000_00000000_00000000,
        pow256(47)
            == 0x1_00000000_00000000_00000000_00000000_00000000_00000000_00000000_00000000_00000000_00000000_00000000_000000,
        pow256(48)
            == 0x1_00000000_00000000_00000000_00000000_00000000_00000000_00000000_00000000_00000000_00000000_00000000_00000000,
{
    reveal_with_fuel(pow256, 17);
    assert(pow256(16) == 0x1_0000_0000_0000_0000_0000_0000_0000_0000);
    assert(pow256(31)
        == 0x1_00000000_00000000_00000000_00000000_00000000_00000000_00000000_000000);
    assert(pow256(32)
        == 0x1_00000000_00000000_00000000_00000000_00000000_00000000_00000000_00000000);
    assert(pow256(47)
        == 0x1_00000000_00000000_00000000_00000000_00000000_00000000_00000000_00000000_00000000_00000000_00000000_000000);
}

/// Whether two 32-byte strings are equal.
pub fn same32(a: &[u8; 32], b: &[u8; 32]) -> (same: bool)
    ensures
        same == (a@ == b@),
        same == (*a == *b),
{
    let mut i: usize = 0;
    while i < 32
        invariant
            i <= 32,
            forall|j: int| 0 <= j < i ==> a[j] == b[j],
        decreases 32 - i,
    {
        if a[i] != b[i] {
            assert(a@[i as int] != b@[i as int]);
            return false;
        }
        i = i + 1;
    }
    assert(a@ =~= b@);
    assert(*a =~= *b);
    true
}

} // verus!
