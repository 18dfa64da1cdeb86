//! Arithmetic modulo a prime: what the S-box of the hash rests on.

use vstd::arithmetic::div_mod::{
    lemma_fundamental_div_mod, lemma_mod_equivalence, lemma_mod_multiples_basic,
    lemma_mul_mod_noop_general, lemma_small_mod,
};
use vstd::arithmetic::power::{
    lemma0_pow, lemma1_pow, lemma_pow0, lemma_pow1, lemma_pow_adds, lemma_pow_mod_noop,
    lemma_pow_multiplies, pow,
};
use vstd::prelude::*;
use vstd::seq_lib::{commutative_foldl, lemma_fold_left_permutation, seq_to_set_is_finite};
use vstd::set_lib::{lemma_int_range, lemma_subset_equality, set_int_range};

pub mod primality;
pub mod scalar_order;

verus! {

/// Whether a number divides another.
pub open spec fn divides(d: nat, n: nat) -> bool {
    n % d == 0
}

/// Whether a number is prime.
pub open spec fn is_prime(p: nat) -> bool {
    &&& p > 1
    &&& forall|d: nat| 1 < d < p ==> !#[trigger] divides(d, p)
}

/// **No zero divisors.** If a prime divides a product, and not its first
/// factor, it divides the second.
pub proof fn lemma_cancel(p: nat, a: nat, b: int)
    requires
        is_prime(p),
        0 < a < p,
        (a * b) % (p as int) == 0,
    ensures
        b % (p as int) == 0,
    decreases a,
{
    let m = p as int;
    if a > 1 {
        assert(!divides(a, p));
        let q = m / (a as int);
        let s = p % a;
        let k = (a * b) / m;
        lemma_fundamental_div_mod(m, a as int);
        lemma_fundamental_div_mod(a * b, m);
        assert(s * b == (b - q * k) * m) by (nonlinear_arith)
            requires
                m == a * q + s,
                a * b == m * k,
        ;
        lemma_mod_multiples_basic(b - q * k, m);
        lemma_cancel(p, s, b);
    } else {
        assert(a * b == b) by (nonlinear_arith)
            requires
                a == 1,
        ;
    }
}

/// The product of two factors, reduced.
spec fn times_mod(p: nat) -> spec_fn(int, int) -> int {
    |product: int, factor: int| (product * factor) % (p as int)
}

/// The product of a list, reduced.
spec fn product(p: nat, list: Seq<int>) -> int {
    list.fold_left(1, times_mod(p))
}

/// The numbers from one to `n`.
spec fn up_to(n: nat) -> Seq<int> {
    Seq::new(n, |i: int| i + 1)
}

/// The reduced multiples of `x` by the numbers from one to `n`.
spec fn multiples(p: nat, x: int, n: nat) -> Seq<int> {
    Seq::new(n, |i: int| (x * (i + 1)) % (p as int))
}

/// The order of the factors does not matter.
proof fn lemma_commutes(p: nat)
    requires
        p > 0,
    ensures
        commutative_foldl(times_mod(p)),
{
    let m = p as int;
    let f = times_mod(p);
    assert forall|x: int, y: int, v: int| #[trigger] f(f(v, x), y) == f(f(v, y), x) by {
        lemma_mul_mod_noop_general(v * x, y, m);
        lemma_mul_mod_noop_general(v * y, x, m);
        assert(v * x * y == v * y * x) by (nonlinear_arith);
    }
}

/// The product of the multiples is the power times the product of the numbers.
proof fn lemma_product_of_multiples(p: nat, x: int, n: nat)
    requires
        p > 1,
    ensures
        product(p, multiples(p, x, n)) == (pow(x, n) * product(p, up_to(n))) % (p as int),
    decreases n,
{
    let m = p as int;
    if n == 0 {
        lemma_pow0(x);
        lemma_small_mod(1, p);
    } else {
        let k = (n - 1) as nat;
        lemma_product_of_multiples(p, x, k);
        assert(multiples(p, x, n).drop_last() =~= multiples(p, x, k));
        assert(up_to(n).drop_last() =~= up_to(k));
        let a = product(p, up_to(k));
        let b = pow(x, k) * a;
        lemma_pow_adds(x, k, 1);
        lemma_pow1(x);
        // ((b % m) * ((x * n) % m)) % m == (b * (x * n)) % m
        lemma_mul_mod_noop_general(b, x * n, m);
        // (x^n * ((a * n) % m)) % m == (x^n * (a * n)) % m
        lemma_mul_mod_noop_general(pow(x, n), a * n, m);
        assert(b * (x * n) == pow(x, n) * (a * n)) by (nonlinear_arith)
            requires
                b == pow(x, k) * a,
                pow(x, n) == pow(x, k) * x,
        ;
    }
}

/// No product of numbers below the prime is divisible by it.
proof fn lemma_product_nonzero(p: nat, n: nat)
    requires
        is_prime(p),
        n < p,
    ensures
        0 < product(p, up_to(n)) < p,
    decreases n,
{
    let m = p as int;
    if n > 0 {
        let k = (n - 1) as nat;
        lemma_product_nonzero(p, k);
        assert(up_to(n).drop_last() =~= up_to(k));
        let a = product(p, up_to(k));
        if (a * n) % m == 0 {
            lemma_cancel(p, a as nat, n as int);
            lemma_small_mod(n, p);
        }
    }
}

/// The multiples are the numbers, in another order.
proof fn lemma_multiples_permute(p: nat, x: nat)
    requires
        is_prime(p),
        0 < x < p,
    ensures
        multiples(p, x as int, (p - 1) as nat).to_multiset() == up_to((p - 1) as nat).to_multiset(),
{
    broadcast use vstd::seq_lib::group_to_multiset_ensures;

    let m = p as int;
    let n = (p - 1) as nat;
    let a = multiples(p, x as int, n);
    let b = up_to(n);
    assert forall|i: int| 0 <= i < n implies 0 < #[trigger] a[i] < p by {
        if (x * (i + 1)) % m == 0 {
            lemma_cancel(p, x, i + 1);
            lemma_small_mod((i + 1) as nat, p);
        }
    }
    assert forall|i: int, j: int| 0 <= i < j < n implies a[i] != a[j] by {
        if a[i] == a[j] {
            let u = x * (j + 1);
            let v = x * (i + 1);
            lemma_mod_equivalence(u, v, m);
            assert(u - v == x * (j - i)) by (nonlinear_arith)
                requires
                    u == x * (j + 1),
                    v == x * (i + 1),
            ;
            lemma_cancel(p, x, j - i);
            lemma_small_mod((j - i) as nat, p);
        }
    }
    assert(a.no_duplicates());
    assert(b.no_duplicates());
    a.unique_seq_to_set();
    lemma_int_range(1, m);
    seq_to_set_is_finite(a);
    assert forall|y: int| a.to_set().contains(y) implies set_int_range(1, m).contains(y) by {
        let i = choose|i: int| 0 <= i < a.len() && a[i] == y;
        assert(0 < a[i] < p);
    }
    lemma_subset_equality(a.to_set(), set_int_range(1, m));
    a.lemma_multiset_has_no_duplicates();
    b.lemma_multiset_has_no_duplicates();
    assert forall|y: int| a.to_multiset().count(y) == #[trigger] b.to_multiset().count(y) by {
        assert(a.to_set().contains(y) <==> 1 <= y < m);
        assert(a.contains(y) <==> 1 <= y < m);
        if 1 <= y < m {
            assert(b[y - 1] == y);
            assert(b.contains(y));
        } else {
            assert(!b.contains(y));
        }
        assert(a.contains(y) <==> a.to_multiset().count(y) > 0);
        assert(b.contains(y) <==> b.to_multiset().count(y) > 0);
    }
    assert(a.to_multiset() =~= b.to_multiset());
}

/// **Fermat's little theorem.**
pub proof fn lemma_fermat(p: nat, x: nat)
    requires
        is_prime(p),
        0 < x < p,
    ensures
        pow(x as int, (p - 1) as nat) % (p as int) == 1,
{
    let m = p as int;
    let n = (p - 1) as nat;
    let a = product(p, up_to(n));
    let z = pow(x as int, n);
    lemma_multiples_permute(p, x);
    lemma_commutes(p);
    lemma_fold_left_permutation(multiples(p, x as int, n), up_to(n), times_mod(p), 1);
    lemma_product_of_multiples(p, x as int, n);
    lemma_product_nonzero(p, n);
    lemma_small_mod(a as nat, p);
    lemma_mod_equivalence(z * a, a, m);
    assert(z * a - a == a * (z - 1)) by (nonlinear_arith);
    lemma_cancel(p, a as nat, z - 1);
    lemma_mod_equivalence(z, 1, m);
    lemma_small_mod(1, p);
}

/// A number to a power that is one more than a multiple of `p - 1` is the
/// number.
proof fn lemma_power_returns(p: nat, x: nat, k: nat)
    requires
        is_prime(p),
        x < p,
    ensures
        pow(x as int, 1 + (p - 1) as nat * k) % (p as int) == x,
{
    let m = p as int;
    let n = (p - 1) as nat;
    let e = n * k;
    lemma_small_mod(x, p);
    if x == 0 {
        lemma0_pow(1 + e);
    } else {
        let z = pow(x as int, n);
        lemma_fermat(p, x);
        lemma_pow_multiplies(x as int, n, k);
        lemma_pow_mod_noop(z, k, m);
        lemma1_pow(k);
        lemma_small_mod(1, p);
        assert(pow(x as int, e) % m == 1);
        lemma_pow_adds(x as int, 1, e);
        lemma_pow1(x as int);
        lemma_mul_mod_noop_general(x as int, pow(x as int, e), m);
    }
}

/// **Powers are injective.** Modulo a prime `p`, raising to a power that has an
/// inverse modulo `p - 1` sends different numbers to different numbers.
pub proof fn lemma_power_injective(p: nat, e: nat, inverse: nat, k: nat, x: nat, y: nat)
    requires
        is_prime(p),
        e * inverse == 1 + (p - 1) as nat * k,
        x < p,
        y < p,
        pow(x as int, e) % (p as int) == pow(y as int, e) % (p as int),
    ensures
        x == y,
{
    let m = p as int;
    lemma_power_returns(p, x, k);
    lemma_power_returns(p, y, k);
    lemma_pow_multiplies(x as int, e, inverse);
    lemma_pow_multiplies(y as int, e, inverse);
    lemma_pow_mod_noop(pow(x as int, e), inverse, m);
    lemma_pow_mod_noop(pow(y as int, e), inverse, m);
}

} // verus!
