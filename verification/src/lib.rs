//! Exact re-notation of rhythm-game charts.
//!
//! The library turns a tempo map (beats-per-minute changes with millisecond
//! timestamps) and a note timeline (taps and holds with millisecond
//! timestamps) into a compact textual notation in which every event position
//! is an exact fraction of a musical measure.  All timing arithmetic is done
//! on exact rationals; nothing is approximated.

use vstd::prelude::*;

pub mod rat;
pub mod numfmt;
pub mod scan;
pub mod errors;
pub mod tempo;
pub mod notes;
pub mod layout;
pub mod notate;
pub mod laws;
pub mod render;
pub mod chart;

verus! {

/// `d` divides `n`.
pub open spec fn divides(d: int, n: int) -> bool {
    exists|k: int| n == #[trigger] (d * k)
}

/// Greatest common divisor of two non-negative integers.
pub open spec fn gcd_s(x: nat, y: nat) -> nat
    decreases y,
{
    if y == 0 {
        x
    } else {
        gcd_s(y, x % y)
    }
}

/// The gcd divides both of its arguments.
pub proof fn lemma_gcd_divides(x: nat, y: nat)
    ensures
        divides(gcd_s(x, y) as int, x as int),
        divides(gcd_s(x, y) as int, y as int),
    decreases y,
{
    if y == 0 {
        assert(x == x * 1) by (nonlinear_arith);
        assert(0int == x * 0) by (nonlinear_arith);
    } else {
        lemma_gcd_divides(y, x % y);
        let g = gcd_s(y, x % y) as int;
        let k1 = choose|k: int| y as int == #[trigger] (g * k);
        let k2 = choose|k: int| (x % y) as int == #[trigger] (g * k);
        vstd::arithmetic::div_mod::lemma_fundamental_div_mod(x as int, y as int);
        let q = x as int / y as int;
        assert(x as int == g * (k1 * q + k2)) by (nonlinear_arith)
            requires
                y as int == g * k1,
                (x % y) as int == g * k2,
                x as int == y as int * q + (x % y) as int,
        ;
    }
}

/// The gcd of two numbers that are not both zero is positive.
pub proof fn lemma_gcd_pos(x: nat, y: nat)
    requires
        x > 0 || y > 0,
    ensures
        gcd_s(x, y) >= 1,
    decreases y,
{
    if y != 0 {
        lemma_gcd_pos(y, x % y);
    }
}

/// Any common divisor of `x` and `y` divides their gcd.
pub proof fn lemma_gcd_greatest(x: nat, y: nat, c: int)
    requires
        divides(c, x as int),
        divides(c, y as int),
    ensures
        divides(c, gcd_s(x, y) as int),
    decreases y,
{
    if y == 0 {
    } else {
        let k1 = choose|k: int| x as int == #[trigger] (c * k);
        let k2 = choose|k: int| y as int == #[trigger] (c * k);
        vstd::arithmetic::div_mod::lemma_fundamental_div_mod(x as int, y as int);
        let q = x as int / y as int;
        assert((x % y) as int == c * (k1 - k2 * q)) by (nonlinear_arith)
            requires
                x as int == c * k1,
                y as int == c * k2,
                x as int == y as int * q + (x % y) as int,
        ;
        lemma_gcd_greatest(y, x % y, c);
    }
}

/// If `n == d * k` with positive `d`, then `n / d == k` and `n % d == 0`.
pub proof fn lemma_div_exact(n: int, d: int, k: int)
    requires
        d >= 1,
        n == d * k,
    ensures
        n / d == k,
        n % d == 0,
{
    assert(n == k * d + 0) by (nonlinear_arith)
        requires
            n == d * k,
    ;
    vstd::arithmetic::div_mod::lemma_fundamental_div_mod_converse(n, d, k, 0);
}

/// Dividing two numbers by their gcd leaves them coprime.
pub proof fn lemma_gcd_coprime(x: nat, y: nat)
    requires
        y > 0,
    ensures
        gcd_s(x, y) >= 1,
        x as int % gcd_s(x, y) as int == 0,
        y as int % gcd_s(x, y) as int == 0,
        gcd_s((x as int / gcd_s(x, y) as int) as nat, (y as int / gcd_s(x, y) as int) as nat)
            == 1,
{
    let g = gcd_s(x, y) as int;
    lemma_gcd_pos(x, y);
    lemma_gcd_divides(x, y);
    let a = choose|k: int| x as int == #[trigger] (g * k);
    let b = choose|k: int| y as int == #[trigger] (g * k);
    assert(a >= 0 && b >= 1) by (nonlinear_arith)
        requires
            g >= 1,
            x as int == g * a,
            y as int == g * b,
            x >= 0,
            y >= 1,
    ;
    lemma_div_exact(x as int, g, a);
    lemma_div_exact(y as int, g, b);
    let n = (x as int / g) as nat;
    let d = (y as int / g) as nat;
    lemma_gcd_pos(n, d);
    lemma_gcd_divides(n, d);
    let g2 = gcd_s(n, d) as int;
    let a2 = choose|k: int| n as int == #[trigger] (g2 * k);
    let b2 = choose|k: int| d as int == #[trigger] (g2 * k);
    assert(x as int == (g * g2) * a2) by (nonlinear_arith)
        requires
            x as int == g * a,
            a == n as int,
            n as int == g2 * a2,
    ;
    assert(y as int == (g * g2) * b2) by (nonlinear_arith)
        requires
            y as int == g * b,
            b == d as int,
            d as int == g2 * b2,
    ;
    lemma_gcd_greatest(x, y, g * g2);
    let t = choose|k: int| g == #[trigger] ((g * g2) * k);
    assert(g2 == 1) by (nonlinear_arith)
        requires
            g >= 1,
            g2 >= 1,
            g == (g * g2) * t,
    ;
}

/// Euclid's algorithm.
pub fn gcd(x: i128, y: i128) -> (r: i128)
    requires
        x >= 0,
        y >= 0,
    ensures
        r == gcd_s(x as nat, y as nat),
    decreases y,
{
    if y == 0 {
        x
    } else {
        gcd(y, x % y)
    }
}

/// Reduce the fraction `raw / 384` to lowest terms.
///
/// Returns `(n, d)` with `raw / 384 == n / d` exactly; `d` always divides
/// `384` and `n` is coprime with `d`.
pub fn reduce_fraction(raw: i128) -> (r: (i128, i128))
    requires
        0 <= raw,
    ensures
        ({
            let g = gcd_s(raw as nat, 384) as int;
            &&& g >= 1
            &&& r.0 == raw as int / g
            &&& r.1 == 384int / g
            &&& r.0 * 384 == raw * r.1
            &&& 384int % r.1 as int == 0
            &&& 1 <= r.1 <= 384
            &&& 0 <= r.0 <= raw
            &&& gcd_s(r.0 as nat, r.1 as nat) == 1
        }),
{
    proof {
        lemma_gcd_coprime(raw as nat, 384);
        lemma_gcd_divides(raw as nat, 384);
        let g = gcd_s(raw as nat, 384) as int;
        let a = choose|k: int| raw as int == #[trigger] (g * k);
        let b = choose|k: int| 384int == #[trigger] (g * k);
        lemma_div_exact(raw as int, g, a);
        lemma_div_exact(384, g, b);
        assert(b >= 1 && b <= 384 && a >= 0 && a <= raw && g <= 384) by (nonlinear_arith)
            requires
                g >= 1,
                raw as int == g * a,
                384int == g * b,
                raw >= 0,
        ;
        assert(a * 384 == raw * b) by (nonlinear_arith)
            requires
                raw as int == g * a,
                384int == g * b,
        ;
        assert(384int == b * g) by (nonlinear_arith)
            requires
                384int == g * b,
        ;
        lemma_div_exact(384, b, g);
    }
    let g = gcd(raw, 384);
    (raw / g, 384 / g)
}

/// Round `p / q` to the nearest integer, halves away from zero,
/// for `p >= 0` and `q >= 1`.
pub open spec fn round_div(p: int, q: int) -> int {
    (2 * p + q) / (2 * q)
}

} // verus!
