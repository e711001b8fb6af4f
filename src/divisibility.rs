//! Divisibility and the greatest common divisor, as used by the solver's
//! integer arithmetic.
use vstd::arithmetic::div_mod::{
    lemma_fundamental_div_mod,
    lemma_mod_multiples_basic,
    lemma_mul_mod_noop,
};
use vstd::prelude::*;

verus! {

/// `d` divides `x`.
pub open spec fn divides(d: int, x: int) -> bool {
    d > 0 && x % d == 0
}

/// The greatest common divisor, by Euclid's recursion.
pub open spec fn gcd_spec(a: nat, b: nat) -> nat
    decreases b,
{
    if b == 0 {
        a
    } else {
        gcd_spec(b, a % b)
    }
}

/// The least common multiple of two positive numbers.
pub open spec fn lcm_spec(a: nat, b: nat) -> nat {
    a * b / gcd_spec(a, b)
}

pub proof fn lemma_divides_intro(d: int, x: int, k: int)
    requires
        d > 0,
        x == d * k,
    ensures
        divides(d, x),
{
    lemma_mod_multiples_basic(k, d);
    assert(k * d == d * k) by (nonlinear_arith);
}

pub proof fn lemma_divides_elim(d: int, x: int)
    requires
        divides(d, x),
    ensures
        x == d * (x / d),
{
    lemma_fundamental_div_mod(x, d);
}

pub proof fn lemma_divides_add_sub(d: int, x: int, y: int)
    requires
        divides(d, x),
        divides(d, y),
    ensures
        divides(d, x + y),
        divides(d, x - y),
{
    lemma_divides_elim(d, x);
    lemma_divides_elim(d, y);
    let qx = x / d;
    let qy = y / d;
    assert(x + y == d * (qx + qy)) by (nonlinear_arith)
        requires
            x == d * qx,
            y == d * qy,
    ;
    assert(x - y == d * (qx - qy)) by (nonlinear_arith)
        requires
            x == d * qx,
            y == d * qy,
    ;
    lemma_divides_intro(d, x + y, qx + qy);
    lemma_divides_intro(d, x - y, qx - qy);
}

pub proof fn lemma_divides_mul(d: int, x: int, k: int)
    requires
        divides(d, x),
    ensures
        divides(d, x * k),
{
    lemma_divides_elim(d, x);
    let q = x / d;
    assert(x * k == d * (q * k)) by (nonlinear_arith)
        requires
            x == d * q,
    ;
    lemma_divides_intro(d, x * k, q * k);
}

pub proof fn lemma_divides_trans(a: int, b: int, c: int)
    requires
        divides(a, b),
        divides(b, c),
    ensures
        divides(a, c),
{
    lemma_divides_elim(a, b);
    lemma_divides_elim(b, c);
    let q1 = b / a;
    let q2 = c / b;
    assert(c == a * (q1 * q2)) by (nonlinear_arith)
        requires
            b == a * q1,
            c == b * q2,
    ;
    lemma_divides_intro(a, c, q1 * q2);
}

pub proof fn lemma_divides_antisym(x: int, y: int)
    requires
        divides(x, y),
        divides(y, x),
        x > 0,
        y > 0,
    ensures
        x == y,
{
    lemma_divides_elim(x, y);
    lemma_divides_elim(y, x);
    let q1 = y / x;
    let q2 = x / y;
    assert(x == y) by (nonlinear_arith)
        requires
            y == x * q1,
            x == y * q2,
            x > 0,
            y > 0,
    ;
}

/// A divisor is no larger than a positive multiple.
pub proof fn lemma_divides_le(d: int, x: int)
    requires
        divides(d, x),
        x > 0,
    ensures
        d <= x,
{
    lemma_divides_elim(d, x);
    let q = x / d;
    assert(d <= x) by (nonlinear_arith)
        requires
            x == d * q,
            d > 0,
            x > 0,
    ;
}

/// The greatest common divisor divides both arguments.
pub proof fn lemma_gcd_divides(a: nat, b: nat)
    requires
        a > 0 || b > 0,
    ensures
        gcd_spec(a, b) > 0,
        divides(gcd_spec(a, b) as int, a as int),
        divides(gcd_spec(a, b) as int, b as int),
    decreases b,
{
    if b == 0 {
        lemma_divides_intro(a as int, a as int, 1);
        lemma_divides_intro(a as int, 0, 0);
    } else {
        lemma_gcd_divides(b, a % b);
        let g = gcd_spec(a, b) as int;
        lemma_fundamental_div_mod(a as int, b as int);
        lemma_divides_mul(g, b as int, (a / b) as int);
        assert(b * (a / b) == (b as int) * ((a / b) as int));
        lemma_divides_add_sub(g, (b as int) * ((a / b) as int), (a % b) as int);
    }
}

/// Every common divisor divides the greatest common divisor.
pub proof fn lemma_common_divides_gcd(a: nat, b: nat, d: int)
    requires
        divides(d, a as int),
        divides(d, b as int),
    ensures
        divides(d, gcd_spec(a, b) as int),
    decreases b,
{
    if b > 0 {
        lemma_fundamental_div_mod(a as int, b as int);
        lemma_divides_mul(d, b as int, (a / b) as int);
        lemma_divides_add_sub(d, a as int, (b as int) * ((a / b) as int));
        assert((a % b) as int == a as int - (b as int) * ((a / b) as int));
        lemma_common_divides_gcd(b, a % b, d);
    }
}

pub proof fn lemma_gcd_self(a: nat)
    requires
        a > 0,
    ensures
        gcd_spec(a, a) == a,
{
    assert(a % a == 0) by {
        lemma_divides_intro(a as int, a as int, 1);
    }
    assert(gcd_spec(a, 0) == a);
}

pub proof fn lemma_gcd_sym(a: nat, b: nat)
    requires
        a > 0,
        b > 0,
    ensures
        gcd_spec(a, b) == gcd_spec(b, a),
{
    lemma_gcd_divides(a, b);
    lemma_gcd_divides(b, a);
    lemma_common_divides_gcd(b, a, gcd_spec(a, b) as int);
    lemma_common_divides_gcd(a, b, gcd_spec(b, a) as int);
    lemma_divides_antisym(gcd_spec(a, b) as int, gcd_spec(b, a) as int);
}

/// Subtracting the smaller argument from the larger keeps the gcd.
pub proof fn lemma_gcd_sub(a: nat, b: nat)
    requires
        0 < a <= b,
    ensures
        gcd_spec(a, b) == gcd_spec(a, (b - a) as nat),
{
    let c = (b - a) as nat;
    let g = gcd_spec(a, b) as int;
    let h = gcd_spec(a, c) as int;
    lemma_gcd_divides(a, b);
    lemma_gcd_divides(a, c);
    lemma_divides_add_sub(g, b as int, a as int);
    lemma_common_divides_gcd(a, c, g);
    lemma_divides_add_sub(h, c as int, a as int);
    assert(c + a == b);
    lemma_common_divides_gcd(a, b, h);
    lemma_divides_antisym(g, h);
}

/// Halving two even arguments halves the gcd.
pub proof fn lemma_gcd_halve_both(a: nat, b: nat)
    requires
        a > 0,
        b > 0,
        a % 2 == 0,
        b % 2 == 0,
    ensures
        gcd_spec(a, b) == 2 * gcd_spec(a / 2, b / 2),
{
    let g = gcd_spec(a, b) as int;
    let h = gcd_spec(a / 2, b / 2) as int;
    lemma_gcd_divides(a, b);
    lemma_gcd_divides(a / 2, b / 2);
    // 2h divides a and b, so it divides g.
    lemma_divides_elim(h, (a / 2) as int);
    lemma_divides_elim(h, (b / 2) as int);
    let qa = (a / 2) as int / h;
    let qb = (b / 2) as int / h;
    assert(a == 2 * h * qa) by (nonlinear_arith)
        requires
            (a / 2) as int == h * qa,
            a % 2 == 0,
    ;
    assert(b == 2 * h * qb) by (nonlinear_arith)
        requires
            (b / 2) as int == h * qb,
            b % 2 == 0,
    ;
    lemma_divides_intro(2 * h, a as int, qa);
    lemma_divides_intro(2 * h, b as int, qb);
    lemma_common_divides_gcd(a, b, 2 * h);
    // 2 divides g, and g / 2 divides a / 2 and b / 2, so g divides 2h.
    lemma_divides_intro(2, a as int, (a / 2) as int);
    lemma_divides_intro(2, b as int, (b / 2) as int);
    lemma_common_divides_gcd(a, b, 2);
    lemma_divides_elim(2, g);
    let q = g / 2;
    lemma_divides_elim(g, a as int);
    lemma_divides_elim(g, b as int);
    let ka = a as int / g;
    let kb = b as int / g;
    assert((a / 2) as int == q * ka) by (nonlinear_arith)
        requires
            a as int == g * ka,
            g == 2 * q,
    ;
    assert((b / 2) as int == q * kb) by (nonlinear_arith)
        requires
            b as int == g * kb,
            g == 2 * q,
    ;
    assert(q > 0);
    lemma_divides_intro(q, (a / 2) as int, ka);
    lemma_divides_intro(q, (b / 2) as int, kb);
    lemma_common_divides_gcd(a / 2, b / 2, q);
    lemma_divides_elim(q, h);
    let k = h / q;
    assert(2 * h == g * k) by (nonlinear_arith)
        requires
            h == q * k,
            g == 2 * q,
    ;
    lemma_divides_intro(g, 2 * h, k);
    lemma_divides_antisym(g, 2 * h);
}

/// Halving an even argument keeps the gcd with an odd one.
pub proof fn lemma_gcd_halve_even(a: nat, b: nat)
    requires
        a > 0,
        b > 0,
        a % 2 == 0,
        b % 2 == 1,
    ensures
        gcd_spec(a, b) == gcd_spec(a / 2, b),
{
    let g = gcd_spec(a, b) as int;
    let h = gcd_spec(a / 2, b) as int;
    lemma_gcd_divides(a, b);
    lemma_gcd_divides(a / 2, b);
    // h divides a / 2, hence a.
    lemma_divides_mul(h, (a / 2) as int, 2);
    assert((a / 2) as int * 2 == a);
    lemma_common_divides_gcd(a, b, h);
    // g is odd, as it divides b, and divides 2 * (a / 2), hence a / 2.
    lemma_divides_elim(g, b as int);
    let kb = b as int / g;
    lemma_mul_mod_noop(g, kb, 2);
    if g % 2 == 0 {
        assert((g % 2) * (kb % 2) == 0);
    }
    lemma_divides_elim(g, a as int);
    let ka = a as int / g;
    lemma_mul_mod_noop(g, ka, 2);
    assert((g % 2) * (ka % 2) == ka % 2);
    assert((a / 2) as int == g * (ka / 2)) by (nonlinear_arith)
        requires
            a as int == g * ka,
            ka % 2 == 0,
            a % 2 == 0,
    ;
    lemma_divides_intro(g, (a / 2) as int, ka / 2);
    lemma_common_divides_gcd(a / 2, b, g);
    lemma_divides_antisym(g, h);
}

} // verus!
