//! Rounding to the nearest integer, half away from zero.
//!
//! The same rounding scales a message bit to `q / 2` at encryption and
//! recovers it at decryption, so both sides agree on the boundary.

use vstd::prelude::*;

verus! {

/// The integer nearest to `a / b` for `b > 0`; a tie goes away from zero.
pub open spec fn round_half_away(a: int, b: int) -> int {
    if a >= 0 {
        (2 * a + b) / (2 * b)
    } else {
        -((2 * (-a) + b) / (2 * b))
    }
}

/// The integer nearest to `q / 2`: the weight of a message bit.
pub open spec fn half_modulus(q: int) -> int {
    round_half_away(q, 2)
}

/// `round_half_away` is the nearest integer: the quotient is off by at most
/// half a divisor, and by exactly half only on the side away from zero.
pub proof fn lemma_round_half_away(a: int, b: int)
    requires
        b > 0,
    ensures
        ({
            let r = round_half_away(a, b);
            &&& -b <= 2 * (a - r * b) <= b
            &&& a >= 0 ==> 2 * (a - r * b) < b && r >= 0
            &&& a < 0 ==> 2 * (a - r * b) > -b && r <= 0
        }),
{
    let m = if a >= 0 { a } else { -a };
    let t = (2 * m + b) / (2 * b);
    vstd::arithmetic::div_mod::lemma_fundamental_div_mod(2 * m + b, 2 * b);
    assert((2 * b) * t == 2 * (t * b)) by (nonlinear_arith);
    assert(t >= 0) by (nonlinear_arith)
        requires
            (2 * b) * t + (2 * m + b) % (2 * b) == 2 * m + b,
            (2 * m + b) % (2 * b) < 2 * b,
            m >= 0,
            b > 0,
    ;
    if a < 0 {
        assert((-t) * b == -(t * b)) by (nonlinear_arith);
    }
}

/// The weight of a bit is `(q + 1) / 2`.
pub proof fn lemma_half_modulus(q: int)
    requires
        q >= 0,
    ensures
        half_modulus(q) == (q + 1) / 2,
{
    lemma_nearest_formula(q, 2);
}

/// Nearest integer to `a / b`, half away from zero.
pub fn nearest_int(a: i64, b: i64) -> (r: i64)
    requires
        b > 0,
        -(i64::MAX - b / 2) <= a <= i64::MAX - b / 2,
    ensures
        r == round_half_away(a as int, b as int),
{
    if a > 0 {
        proof {
            lemma_nearest_formula(a as int, b as int);
        }
        let t: i64 = (a + b / 2) / b;
        t
    } else {
        proof {
            lemma_nearest_formula(-(a as int), b as int);
            if a == 0 {
                vstd::arithmetic::div_mod::lemma_basic_div(b as int / 2, b as int);
            }
        }
        let t: i64 = (-a + b / 2) / b;
        -t
    }
}

/// For a non-negative numerator, adding half the divisor (rounded down)
/// before dividing rounds to nearest.
proof fn lemma_nearest_formula(m: int, b: int)
    requires
        m >= 0,
        b > 0,
    ensures
        (m + b / 2) / b == (2 * m + b) / (2 * b),
        (m + b / 2) / b >= 0,
{
    let h = b / 2;
    let t = (m + h) / b;
    let rem = (m + h) % b;
    // 2m + b = 2b * t + (2 rem + b - 2h), and the last term lies in [0, 2b).
    let rest = 2 * rem + b - 2 * h;
    assert(2 * m + b == (2 * b) * t + rest) by (nonlinear_arith)
        requires
            m + h == b * t + rem,
            rest == 2 * rem + b - 2 * h,
    ;
    vstd::arithmetic::div_mod::lemma_fundamental_div_mod_converse(2 * m + b, 2 * b, t, rest);
    assert(t >= 0) by (nonlinear_arith)
        requires
            m + h == b * t + rem,
            rem < b,
            m >= 0,
            h >= 0,
            b > 0,
    ;
}

} // verus!
