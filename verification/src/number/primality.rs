//! Proofs that numbers are prime, from what powers are modulo them.
//!
//! If `q^e` divides `n - 1`, for a prime `q`, and some `a` has
//! `a^(n - 1) = 1` modulo `n` while `a^((n - 1) / q) - 1` has an inverse, then
//! `q^e` divides `p - 1` for every prime `p` that divides `n`. A few such prime
//! powers leave no room for such a `p` but `n` itself.

use super::{divides, is_prime, lemma_cancel, lemma_fermat};
use vstd::arithmetic::div_mod::{
    lemma_fundamental_div_mod, lemma_mod_equivalence, lemma_mod_mod, lemma_mod_multiples_basic,
    lemma_mul_mod_noop_general, lemma_small_mod,
};
use vstd::arithmetic::power::{
    lemma1_pow, lemma_pow0, lemma_pow1, lemma_pow_adds, lemma_pow_mod_noop, lemma_pow_multiplies,
    lemma_pow_positive, pow,
};
use vstd::prelude::*;

verus! {

/// Every number above one has a prime divisor.
pub proof fn lemma_prime_divisor(n: nat) -> (p: nat)
    requires
        n > 1,
    ensures
        is_prime(p),
        p <= n,
        n == p * (n / p),
    decreases n,
{
    if is_prime(n) {
        lemma_fundamental_div_mod(n as int, n as int);
        assert(n as int / n as int == 1) by (nonlinear_arith)
            requires
                n > 1,
        ;
        n
    } else {
        let d = choose|d: nat| 1 < d < n && #[trigger] divides(d, n);
        let p = lemma_prime_divisor(d);
        let (u, v) = (d / p, n / d);
        lemma_fundamental_div_mod(n as int, d as int);
        assert(n == p * (u * v)) by (nonlinear_arith)
            requires
                n == d * v,
                d == p * u,
        ;
        assert(n / p == u * v) by (nonlinear_arith)
            requires
                n == p * (u * v),
                p > 1,
        ;
        p
    }
}

/// A remainder modulo a multiple tells the remainder.
proof fn lemma_remainder_of_multiple(x: int, p: nat, m: nat)
    requires
        p > 0,
        m > 0,
    ensures
        (x % ((p * m) as int)) % (p as int) == x % (p as int),
{
    assert(p * m > 0) by (nonlinear_arith)
        requires
            p > 0,
            m > 0,
    ;
    lemma_mod_mod(x, p as int, m as int);
}

/// Two powers that are one have a common divisor of their exponents for which
/// the power is one.
proof fn lemma_common_exponent(b: int, p: nat, u: nat, v: nat) -> (g: nat)
    requires
        p > 1,
        u > 0,
        pow(b, u) % (p as int) == 1,
        pow(b, v) % (p as int) == 1,
    ensures
        g > 0,
        u == g * (u / g),
        v == g * (v / g),
        pow(b, g) % (p as int) == 1,
    decreases v,
{
    let m = p as int;
    if v == 0 {
        assert(u == u * (u / u) && 0 == u * (0nat / u)) by (nonlinear_arith)
            requires
                u > 0,
        ;
        u
    } else {
        let (q, s) = (u / v, u % v);
        lemma_fundamental_div_mod(u as int, v as int);
        lemma_pow_adds(b, v * q, s);
        lemma_pow_multiplies(b, v, q);
        lemma_pow_mod_noop(pow(b, v), q, m);
        lemma1_pow(q);
        lemma_small_mod(1, p);
        lemma_mul_mod_noop_general(pow(b, v * q), pow(b, s), m);
        assert(pow(b, u) % m == pow(b, s) % m);
        let g = lemma_common_exponent(b, p, v, s);
        let (i, j) = (v / g, s / g);
        assert(u == g * (i * q + j)) by (nonlinear_arith)
            requires
                u == v * q + s,
                v == g * i,
                s == g * j,
        ;
        assert(u / g == i * q + j) by (nonlinear_arith)
            requires
                u == g * (i * q + j),
                g > 0,
        ;
        g
    }
}

/// A cofactor of a power of a prime that the prime does not divide is one.
proof fn lemma_cofactor_of_power(q: nat, e: nat, k: nat, m: nat)
    requires
        is_prime(q),
        k * m == pow(q as int, e),
        m % q != 0,
    ensures
        m == 1,
    decreases e,
{
    if e == 0 {
        lemma_pow0(q as int);
        assert(m == 1) by (nonlinear_arith)
            requires
                k * m == 1,
        ;
    } else {
        let z = q as int;
        let rest = pow(z, (e - 1) as nat);
        lemma_pow_adds(z, 1, (e - 1) as nat);
        lemma_pow1(z);
        lemma_mod_multiples_basic(rest, z);
        assert(rest * z == z * rest) by (nonlinear_arith);
        let s = m % q;
        lemma_mul_mod_noop_general(m as int, k as int, z);
        assert(m * k == k * m) by (nonlinear_arith);
        lemma_cancel(q, s, k as int);
        let l = k / q;
        lemma_fundamental_div_mod(k as int, z);
        assert(l * m == rest) by (nonlinear_arith)
            requires
                k * m == z * rest,
                k == z * l,
                z > 0,
        ;
        lemma_cofactor_of_power(q, (e - 1) as nat, l, m);
    }
}

/// A prime power in `n - 1` divides `p - 1` for every prime divisor `p` of `n`.
pub proof fn lemma_power_divides(
    n: nat,
    p: nat,
    cofactor: nat,
    a: int,
    q: nat,
    e: nat,
    f: nat,
    less: int,
    inverse: int,
)
    requires
        n > 1,
        is_prime(p),
        n == p * cofactor,
        is_prime(q),
        e > 0,
        n - 1 == f * pow(q as int, e),
        pow(a, (n - 1) as nat) % (n as int) == 1,
        pow(a, f * pow(q as int, (e - 1) as nat) as nat) % (n as int) == less,
        ((less - 1) * inverse) % (n as int) == 1,
    ensures
        (p - 1) % pow(q as int, e) == 0,
        pow(q as int, e) > 0,
{
    let m = p as int;
    let b = pow(a, f);
    let z = q as int;
    lemma_pow_positive(z, e);
    lemma_pow_positive(z, (e - 1) as nat);
    let (u, v) = (pow(z, e) as nat, pow(z, (e - 1) as nat) as nat);
    assert(cofactor > 0) by (nonlinear_arith)
        requires
            n == p * cofactor,
            n > 1,
    ;
    assert(f * u == (n - 1) as nat);
    lemma_pow_multiplies(a, f, u);
    lemma_pow_multiplies(a, f, v);
    lemma_small_mod(1, p);
    lemma_remainder_of_multiple(pow(b, u), p, cofactor);
    assert(pow(b, u) % m == 1);
    // The smaller power is not one modulo `p`.
    if pow(b, v) % m == 1 {
        let w = pow(b, v);
        lemma_remainder_of_multiple(w, p, cofactor);
        lemma_mod_equivalence(less, 1, m);
        lemma_mul_mod_noop_general(less - 1, inverse, m);
        lemma_remainder_of_multiple((less - 1) * inverse, p, cofactor);
        assert(((less - 1) % m) * inverse == 0) by (nonlinear_arith)
            requires
                (less - 1) % m == 0,
        ;
        lemma_small_mod(0, p);
    }
    // Fermat's theorem, for the remainder of `b`.
    let s = (b % m) as nat;
    lemma_pow_mod_noop(b, u, m);
    if s == 0 {
        vstd::arithmetic::power::lemma0_pow(u);
        lemma_small_mod(0, p);
    }
    lemma_fermat(p, s);
    lemma_pow_mod_noop(b, (p - 1) as nat, m);
    let g = lemma_common_exponent(b, p, u, (p - 1) as nat);
    let k = u / g;
    if k % q == 0 {
        let l = k / q;
        lemma_fundamental_div_mod(k as int, z);
        lemma_pow_adds(z, 1, (e - 1) as nat);
        lemma_pow1(z);
        assert(v == g * l) by (nonlinear_arith)
            requires
                u == g * k,
                k == z * l,
                u == z * v,
                z > 0,
        ;
        lemma_pow_multiplies(b, g, l);
        lemma_pow_mod_noop(pow(b, g), l, m);
        lemma1_pow(l);
    } else {
        lemma_cofactor_of_power(q, e, g, k);
        assert(g == u) by (nonlinear_arith)
            requires
                u == g * k,
                k == 1,
        ;
        let j = (p - 1) as nat / g;
        lemma_mod_multiples_basic(j as int, u as int);
        assert(j * u == u * j) by (nonlinear_arith);
    }
}

/// A number that two coprime numbers divide is divided by their product. That
/// they are coprime is shown by `i * x - j * y == 1`.
pub proof fn lemma_product_divides(x: nat, y: nat, i: nat, j: nat, n: nat)
    requires
        x > 0,
        y > 0,
        n % x == 0,
        n % y == 0,
        i * x - j * y == 1,
    ensures
        n % (x * y) == 0,
{
    let (u, v) = (n / x, n / y);
    lemma_fundamental_div_mod(n as int, x as int);
    lemma_fundamental_div_mod(n as int, y as int);
    assert(n == (i * v - j * u) * (x * y)) by (nonlinear_arith)
        requires
            n == x * u,
            n == y * v,
            i * x - j * y == 1,
    ;
    assert(x * y > 0) by (nonlinear_arith)
        requires
            x > 0,
            y > 0,
    ;
    lemma_mod_multiples_basic(i * v - j * u, (x * y) as int);
}

/// If `f` divides `n - 1` and `p - 1` for a divisor `p` of `n`, it divides the
/// other factor less one.
proof fn lemma_other_factor(n: nat, p: nat, cofactor: nat, f: nat)
    requires
        f > 0,
        p > 0,
        n > 0,
        n == p * cofactor,
        (p - 1) % (f as int) == 0,
        (n - 1) % (f as int) == 0,
    ensures
        cofactor > 0,
        p - 1 == f * ((p - 1) / (f as int)),
        cofactor - 1 == f * ((cofactor - 1) / (f as int)),
{
    let m = f as int;
    let (u, v) = ((p - 1) / m, (n - 1) / m);
    lemma_fundamental_div_mod(p - 1, m);
    lemma_fundamental_div_mod(n - 1, m);
    assert(cofactor > 0) by (nonlinear_arith)
        requires
            n == p * cofactor,
            n > 0,
    ;
    assert(cofactor - 1 == (v - u * cofactor) * m) by (nonlinear_arith)
        requires
            n == p * cofactor,
            p - 1 == m * u,
            n - 1 == m * v,
    ;
    lemma_mod_multiples_basic(v - u * cofactor, m);
    lemma_fundamental_div_mod(cofactor - 1, m);
}

/// The factors of `n` in terms of a number that divides both less one: `x` and
/// `y` times it, plus one. Unless the second factor is one, neither is zero.
proof fn lemma_factors(n: nat, p: nat, cofactor: nat, f: nat) -> (parts: (nat, nat))
    requires
        p > 1,
        n > 1,
        n == p * cofactor,
        f > 0,
        (p - 1) % (f as int) == 0,
        (n - 1) % (f as int) == 0,
        p != n,
    ensures
        parts.0 > 0,
        parts.1 > 0,
        p == f * parts.0 + 1,
        cofactor == f * parts.1 + 1,
{
    lemma_other_factor(n, p, cofactor, f);
    let (x, y) = ((p - 1) / (f as int), (cofactor - 1) / (f as int));
    if cofactor == 1 {
        assert(p * cofactor == p) by (nonlinear_arith)
            requires
                cofactor == 1,
        ;
    }
    assert(x > 0 && y > 0) by (nonlinear_arith)
        requires
            p - 1 == f * x,
            p > 1,
            cofactor - 1 == f * y,
            cofactor > 1,
            f > 0,
    ;
    (x as nat, y as nat)
}

/// A divisor of `n` that is one modulo a number whose square exceeds `n`, as
/// `n` is, is `n`.
pub proof fn lemma_sole_divisor(n: nat, p: nat, cofactor: nat, f: nat)
    requires
        p > 1,
        n > 1,
        n == p * cofactor,
        f > 0,
        f * f > n,
        (p - 1) % (f as int) == 0,
        (n - 1) % (f as int) == 0,
    ensures
        p == n,
{
    if p != n {
        let (x, y) = lemma_factors(n, p, cofactor, f);
        assert(n >= f * f) by (nonlinear_arith)
            requires
                n == p * cofactor,
                p == f * x + 1,
                cofactor == f * y + 1,
                x > 0,
                y > 0,
                f > 0,
        ;
    }
}

/// A divisor of `n` that is one modulo `f`, as `n` is, is `n`: with
/// `n == (x * f + 1) * (y * f + 1)`, the digits of `(n - 1) / f` to the base
/// `f` would be `x * y` and `x + y`, but `(x - y)^2` would lie between two
/// squares.
pub proof fn lemma_sole_divisor_by_digits(
    n: nat,
    p: nat,
    cofactor: nat,
    f: nat,
    high: nat,
    low: nat,
    root: nat,
)
    requires
        p > 1,
        n > 1,
        n == p * cofactor,
        f > 0,
        n - 1 == f * (high * f + low),
        high < f,
        low < f,
        root * root < low * low - 4 * high < (root + 1) * (root + 1),
        (p - 1) % (f as int) == 0,
    ensures
        p == n,
{
    let m = high * f + low;
    assert((n - 1) % (f as int) == 0) by {
        lemma_mod_multiples_basic(m as int, f as int);
        assert(m * f == f * m) by (nonlinear_arith);
    }
    if p != n {
        let (x, y) = lemma_factors(n, p, cofactor, f);
        let (s, t) = (x + y, x * y);
        assert(f * (t * f + s) == f * m) by (nonlinear_arith)
            requires
                n - 1 == f * m,
                n == p * cofactor,
                p == f * x + 1,
                cofactor == f * y + 1,
                s == x + y,
                t == x * y,
        ;
        assert(t * f + s == m) by (nonlinear_arith)
            requires
                f * (t * f + s) == f * m,
                f > 0,
        ;
        assert(s <= t + 1) by (nonlinear_arith)
            requires
                x > 0,
                y > 0,
                s == x + y,
                t == x * y,
        ;
        lemma_digits(t, s, high, low, f);
        let d = if x > y {
            (x - y) as nat
        } else {
            (y - x) as nat
        };
        assert(d * d == s * s - 4 * t) by (nonlinear_arith)
            requires
                d == x - y || d == y - x,
                s == x + y,
                t == x * y,
        ;
        if d <= root {
            assert(d * d <= root * root) by (nonlinear_arith)
                requires
                    d <= root,
            ;
        } else {
            assert(d * d >= (root + 1) * (root + 1)) by (nonlinear_arith)
                requires
                    d >= root + 1,
            ;
        }
    }
}

/// Two ways to write a number to a base, one of them with a small low digit,
/// are the same.
proof fn lemma_digits(t: nat, s: nat, high: nat, low: nat, f: nat)
    requires
        t * f + s == high * f + low,
        s <= t + 1,
        high < f,
        low < f,
        f > 0,
    ensures
        t == high,
        s == low,
{
    if t > high {
        assert(t * f >= high * f + f) by (nonlinear_arith)
            requires
                t >= high + 1,
                f > 0,
        ;
    } else if t < high {
        assert(high * f >= t * f + f) by (nonlinear_arith)
            requires
                high >= t + 1,
                f > 0,
        ;
    }
}

/// Whether no number from two to `k` divides `n`.
pub open spec fn no_divisor(n: nat, k: nat) -> bool
    decreases k,
{
    k < 2 || (n % k != 0 && no_divisor(n, (k - 1) as nat))
}

proof fn lemma_no_divisor(n: nat, k: nat, d: nat)
    requires
        no_divisor(n, k),
        2 <= d <= k,
    ensures
        n % d != 0,
    decreases k,
{
    if d < k {
        lemma_no_divisor(n, (k - 1) as nat, d);
    }
}

/// A number that no number below `k` divides is prime, if it is less than the
/// square of `k`.
pub proof fn lemma_trial_division(n: nat, k: nat)
    requires
        n > 1,
        no_divisor(n, (k - 1) as nat),
        k > 0,
        k * k > n,
    ensures
        is_prime(n),
{
    assert forall|d: nat| 1 < d < n implies !#[trigger] divides(d, n) by {
        if divides(d, n) {
            let e = n / d;
            lemma_fundamental_div_mod(n as int, d as int);
            assert(e > 1) by (nonlinear_arith)
                requires
                    n == d * e,
                    d < n,
            ;
            lemma_mod_multiples_basic(d as int, e as int);
            if d < k {
                lemma_no_divisor(n, (k - 1) as nat, d);
            } else if e < k {
                lemma_no_divisor(n, (k - 1) as nat, e);
            } else {
                assert(d * e >= k * k) by (nonlinear_arith)
                    requires
                        d >= k,
                        e >= k,
                ;
            }
        }
    }
}

/// A power times a number.
pub open spec fn scaled_power(x: int, k: nat, t: int) -> int
    decreases k,
{
    if k == 0 {
        t
    } else {
        x * scaled_power(x, (k - 1) as nat, t)
    }
}

proof fn lemma_scaled_power(x: int, k: nat, t: int)
    ensures
        scaled_power(x, k, t) == pow(x, k) * t,
    decreases k,
{
    lemma_pow0(x);
    if k > 0 {
        let before = (k - 1) as nat;
        lemma_scaled_power(x, before, t);
        lemma_pow_adds(x, 1, before);
        lemma_pow1(x);
        assert(x * (pow(x, before) * t) == x * pow(x, before) * t) by (nonlinear_arith);
    }
}

/// A reduced power, with four more binary digits of the exponent.
pub proof fn lemma_window(n: nat, a: int, e: nat, x: int, w: nat, y: int) -> (next: nat)
    requires
        n > 0,
        pow(a, e) % (n as int) == x,
        scaled_power(x, 16, scaled_power(a, w, 1)) % (n as int) == y,
    ensures
        next == 16 * e + w,
        pow(a, next) % (n as int) == y,
{
    let m = n as int;
    let b = pow(a, e);
    lemma_scaled_power(a, w, 1);
    lemma_scaled_power(x, 16, pow(a, w));
    lemma_pow_multiplies(a, e, 16);
    lemma_pow_adds(a, e * 16, w);
    lemma_pow_mod_noop(b, 16, m);
    lemma_mul_mod_noop_general(pow(x, 16), pow(a, w), m);
    lemma_mul_mod_noop_general(pow(b, 16), pow(a, w), m);
    16 * e + w
}

/// A reduced power of a reduced power.
pub proof fn lemma_compose(n: nat, a: int, e: nat, x: int, k: nat, y: int)
    requires
        n > 0,
        pow(a, e) % (n as int) == x,
        pow(x, k) % (n as int) == y,
    ensures
        pow(a, e * k) % (n as int) == y,
{
    lemma_pow_multiplies(a, e, k);
    lemma_pow_mod_noop(pow(a, e), k, n as int);
}

} // verus!
