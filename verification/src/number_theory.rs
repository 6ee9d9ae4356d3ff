//! Divisibility and greatest-common-divisor facts.
//!
//! The executable GCD in this crate is Stein's binary algorithm; its contract
//! is stated against the Euclidean definition below, and the lemmas here carry
//! the classic rewrite rules (commutativity, factors of two, subtraction) that
//! the binary algorithm is built on.

use vstd::prelude::*;

verus! {

/// `d` divides `n`.
pub open spec fn divides(d: nat, n: nat) -> bool {
    exists|k: nat| n == #[trigger] (d * k)
}

/// Euclidean greatest common divisor, the reference definition that the
/// executable GCD is proved against.
pub open spec fn gcd(a: nat, b: nat) -> nat
    decreases b,
{
    if b == 0 {
        a
    } else {
        gcd(b, a % b)
    }
}

pub proof fn lemma_divides_self(a: nat)
    ensures
        divides(a, a),
        divides(a, 0),
{
    assert(a == a * 1);
    assert(0nat == a * 0);
}

/// A common divisor of `x` and `y` divides `c * x + y`.
pub proof fn lemma_divides_add_mul(d: nat, x: nat, y: nat, c: nat)
    requires
        divides(d, x),
        divides(d, y),
    ensures
        divides(d, c * x + y),
{
    let k1 = choose|k: nat| x == #[trigger] (d * k);
    let k2 = choose|k: nat| y == #[trigger] (d * k);
    assert(c * x + y == d * (c * k1 + k2)) by (nonlinear_arith)
        requires
            x == d * k1,
            y == d * k2,
    ;
}

pub proof fn lemma_gcd_zero_left(b: nat)
    ensures
        gcd(0, b) == b,
{
    if b != 0 {
        assert(gcd(0, b) == gcd(b, 0));
    }
}

/// The GCD divides both of its arguments.
pub proof fn lemma_gcd_divides(a: nat, b: nat)
    ensures
        divides(gcd(a, b), a),
        divides(gcd(a, b), b),
    decreases b,
{
    if b == 0 {
        lemma_divides_self(a);
    } else {
        lemma_gcd_divides(b, a % b);
        let g = gcd(b, a % b);
        // a == (a / b) * b + a % b
        vstd::arithmetic::div_mod::lemma_fundamental_div_mod(a as int, b as int);
        assert(a == (a / b) * b + a % b);
        lemma_divides_add_mul(g, b, a % b, a / b);
        assert(a / b * b + a % b == a) by (nonlinear_arith)
            requires
                a == (a / b) * b + a % b,
        ;
    }
}

/// A common divisor of the arguments divides the GCD.
pub proof fn lemma_divides_gcd(d: nat, a: nat, b: nat)
    requires
        divides(d, a),
        divides(d, b),
    ensures
        divides(d, gcd(a, b)),
    decreases b,
{
    if b == 0 {
    } else {
        // d divides a % b because a % b == a - (a / b) * b.
        let k1 = choose|k: nat| a == #[trigger] (d * k);
        let k2 = choose|k: nat| b == #[trigger] (d * k);
        vstd::arithmetic::div_mod::lemma_fundamental_div_mod(a as int, b as int);
        let q = a as int / b as int;
        assert(a % b == a - q * b);
        if d == 0 {
            assert(a == 0) by (nonlinear_arith)
                requires
                    a == d * k1,
                    d == 0,
            ;
            assert(b == 0) by (nonlinear_arith)
                requires
                    b == d * k2,
                    d == 0,
            ;
        } else {
            assert(a % b == d * (k1 - q * k2)) by (nonlinear_arith)
                requires
                    a == d * k1,
                    b == d * k2,
                    a % b == a - q * b,
            ;
            assert(d * (k1 - q * k2) >= 0);
            assert(k1 - q * k2 >= 0) by (nonlinear_arith)
                requires
                    d > 0,
                    d * (k1 - q * k2) >= 0,
            ;
            assert(divides(d, (a % b) as nat)) by {
                assert((a % b) as nat == d * ((k1 - q * k2) as nat));
            }
            lemma_divides_gcd(d, b, a % b);
        }
    }
}

pub proof fn lemma_divides_le(d: nat, n: nat)
    requires
        divides(d, n),
        n > 0,
    ensures
        d <= n,
        d >= 1,
{
    let k = choose|k: nat| n == #[trigger] (d * k);
    assert(d <= n && d >= 1) by (nonlinear_arith)
        requires
            n == d * k,
            n > 0,
    ;
}

pub proof fn lemma_divides_antisymmetric(a: nat, b: nat)
    requires
        divides(a, b),
        divides(b, a),
    ensures
        a == b,
{
    if a == 0 {
        let k = choose|k: nat| b == #[trigger] (a * k);
        assert(b == 0);
    } else if b == 0 {
        let k = choose|k: nat| a == #[trigger] (b * k);
        assert(a == 0);
    } else {
        lemma_divides_le(a, b);
        lemma_divides_le(b, a);
    }
}

pub proof fn lemma_gcd_commutes(a: nat, b: nat)
    ensures
        gcd(a, b) == gcd(b, a),
{
    lemma_gcd_divides(a, b);
    lemma_gcd_divides(b, a);
    lemma_divides_gcd(gcd(a, b), b, a);
    lemma_divides_gcd(gcd(b, a), a, b);
    lemma_divides_antisymmetric(gcd(a, b), gcd(b, a));
}

/// Both arguments even: a common factor of two can be pulled out.
pub proof fn lemma_gcd_even_even(a: nat, b: nat)
    ensures
        gcd(2 * a, 2 * b) == 2 * gcd(a, b),
{
    let g = gcd(a, b);
    let h = gcd(2 * a, 2 * b);
    lemma_gcd_divides(a, b);
    // 2g divides 2a and 2b
    let ka = choose|k: nat| a == #[trigger] (g * k);
    let kb = choose|k: nat| b == #[trigger] (g * k);
    assert(2 * a == (2 * g) * ka && 2 * b == (2 * g) * kb) by (nonlinear_arith)
        requires
            a == g * ka,
            b == g * kb,
    ;
    lemma_divides_gcd(2 * g, 2 * a, 2 * b);
    // 2 divides h, and h / 2 is a common divisor of a and b
    assert(2 * a == 2 * a && divides(2, 2 * a));
    assert(divides(2, 2 * b));
    lemma_gcd_divides(2 * a, 2 * b);
    lemma_divides_gcd(2, 2 * a, 2 * b);
    let m = choose|k: nat| h == #[trigger] (2 * k);
    let ja = choose|k: nat| 2 * a == #[trigger] (h * k);
    let jb = choose|k: nat| 2 * b == #[trigger] (h * k);
    assert(a == m * ja && b == m * jb) by (nonlinear_arith)
        requires
            2 * a == h * ja,
            2 * b == h * jb,
            h == 2 * m,
    ;
    lemma_divides_gcd(m, a, b);
    let t = choose|k: nat| g == #[trigger] (m * k);
    assert(2 * g == h * t) by (nonlinear_arith)
        requires
            g == m * t,
            h == 2 * m,
    ;
    lemma_divides_antisymmetric(2 * g, h);
}

/// The first argument odd: a factor of two in the second argument is inert.
pub proof fn lemma_gcd_odd_even(a: nat, b: nat)
    requires
        a % 2 == 1,
    ensures
        gcd(a, 2 * b) == gcd(a, b),
{
    let g = gcd(a, b);
    let h = gcd(a, 2 * b);
    lemma_gcd_divides(a, b);
    let kb = choose|k: nat| b == #[trigger] (g * k);
    assert(2 * b == g * (2 * kb)) by (nonlinear_arith)
        requires
            b == g * kb,
    ;
    lemma_divides_gcd(g, a, 2 * b);
    // h divides a, which is odd, so h is odd; an odd divisor of 2b divides b.
    lemma_gcd_divides(a, 2 * b);
    let ja = choose|k: nat| a == #[trigger] (h * k);
    let jb = choose|k: nat| 2 * b == #[trigger] (h * k);
    assert(h % 2 == 1) by {
        if h % 2 != 1 {
            vstd::arithmetic::div_mod::lemma_fundamental_div_mod(h as int, 2);
            let m = h as int / 2;
            assert(h == 2 * m);
            assert(a as int == (m * ja) * 2) by (nonlinear_arith)
                requires
                    a == h * ja,
                    h == 2 * m,
            ;
            vstd::arithmetic::div_mod::lemma_mod_multiples_basic(m * ja, 2);
            assert(a % 2 == 0);
        }
    }
    assert(jb % 2 == 0) by {
        if jb % 2 != 0 {
            vstd::arithmetic::div_mod::lemma_fundamental_div_mod(jb as int, 2);
            vstd::arithmetic::div_mod::lemma_fundamental_div_mod(h as int, 2);
            let t = jb as int / 2;
            let m = h as int / 2;
            assert(jb == 2 * t + 1);
            assert(h == 2 * m + 1);
            assert(h * jb == 2 * (2 * m * t + m + t) + 1) by (nonlinear_arith)
                requires
                    jb == 2 * t + 1,
                    h == 2 * m + 1,
            ;
            vstd::arithmetic::div_mod::lemma_mod_multiples_vanish(
                2 * m * t + m + t, 1, 2);
            assert((h * jb) % 2 == 1);
            vstd::arithmetic::div_mod::lemma_mod_multiples_basic(b as int, 2);
            assert((2 * b) as int == (b as int) * 2);
            assert((2 * b) % 2 == 0);
        }
    }
    assert(b == h * (jb / 2)) by {
        vstd::arithmetic::div_mod::lemma_fundamental_div_mod(jb as int, 2);
        let t = jb as int / 2;
        assert(jb == 2 * t);
        assert(b as int == h * t) by (nonlinear_arith)
            requires
                2 * b == h * jb,
                jb == 2 * t,
        ;
        assert(jb / 2 == t);
    }
    lemma_divides_gcd(h, a, b);
    lemma_divides_antisymmetric(g, h);
}

/// Subtracting the smaller argument from the larger keeps the GCD.
pub proof fn lemma_gcd_subtract(a: nat, b: nat)
    requires
        a <= b,
    ensures
        gcd(a, (b - a) as nat) == gcd(a, b),
{
    let g = gcd(a, (b - a) as nat);
    let h = gcd(a, b);
    lemma_gcd_divides(a, (b - a) as nat);
    lemma_divides_add_mul(g, a, (b - a) as nat, 1);
    assert(1 * a + (b - a) == b);
    lemma_divides_gcd(g, a, b);
    lemma_gcd_divides(a, b);
    let ka = choose|k: nat| a == #[trigger] (h * k);
    let kb = choose|k: nat| b == #[trigger] (h * k);
    if h == 0 {
        assert(a == 0) by (nonlinear_arith)
            requires
                a == h * ka,
                h == 0,
        ;
        assert(b == 0) by (nonlinear_arith)
            requires
                b == h * kb,
                h == 0,
        ;
        lemma_divides_self(0);
    } else {
        assert(kb >= ka) by (nonlinear_arith)
            requires
                a == h * ka,
                b == h * kb,
                a <= b,
                h > 0,
        ;
        assert((b - a) as nat == h * ((kb - ka) as nat)) by (nonlinear_arith)
            requires
                a == h * ka,
                b == h * kb,
                kb >= ka,
        ;
        lemma_divides_gcd(h, a, (b - a) as nat);
    }
    lemma_divides_antisymmetric(g, h);
}

/// A nonzero GCD is positive and no larger than its nonzero arguments.
pub proof fn lemma_gcd_bounds(a: nat, b: nat)
    ensures
        (a > 0 || b > 0) ==> 1 <= gcd(a, b),
        a > 0 ==> gcd(a, b) <= a,
        b > 0 ==> gcd(a, b) <= b,
{
    lemma_gcd_divides(a, b);
    if a > 0 {
        lemma_divides_le(gcd(a, b), a);
    }
    if b > 0 {
        lemma_divides_le(gcd(a, b), b);
    }
}

} // verus!
