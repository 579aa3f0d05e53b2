//! Integer arithmetic shared by the money-handling code.
use vstd::prelude::*;

verus! {

/// Whether a mathematical integer is representable as `i64`.
pub open spec fn fits_i64(x: int) -> bool {
    i64::MIN <= x <= i64::MAX
}

/// Whether a number is a power of two.
pub open spec fn power_of_two(n: int) -> bool
    decreases n,
{
    n == 1 || (n > 1 && n % 2 == 0 && power_of_two(n / 2))
}

/// Magnitude of an integer.
pub open spec fn magnitude(x: int) -> int {
    if x >= 0 {
        x
    } else {
        -x
    }
}

/// Quotient of `a` by `b`, truncated toward zero.
pub open spec fn tdiv(a: int, b: int) -> int {
    if b > 0 {
        if a >= 0 {
            a / b
        } else {
            -((-a) / b)
        }
    } else {
        if a >= 0 {
            -(a / (-b))
        } else {
            (-a) / (-b)
        }
    }
}

/// Quotient of `a` by a positive `b`, rounded away from zero.
pub open spec fn div_away(a: int, b: int) -> int {
    if a >= 0 {
        (a + b - 1) / b
    } else {
        -((-a + b - 1) / b)
    }
}

/// Truncating division, as the machine does it.
pub fn trunc_div(a: i128, b: i128) -> (r: i128)
    requires
        b != 0,
        !(a == i128::MIN && b == -1),
    ensures
        r == tdiv(a as int, b as int),
{
    proof {
        if b < 0 {
            lemma_div_by_negation(a as int, b as int);
            lemma_div_by_negation(-(a as int), b as int);
        }
        lemma_tdiv_bounds(a as int, b as int);
    }
    a / b
}

/// Euclidean division by a negative number.
proof fn lemma_div_by_negation(a: int, b: int)
    requires
        b < 0,
    ensures
        a / b == -(a / (-b)),
{
    let q = a / (-b);
    let r = a % (-b);
    vstd::arithmetic::div_mod::lemma_fundamental_div_mod(a, -b);
    assert(0 <= r < -b) by (nonlinear_arith)
        requires
            r == a % (-b),
            b < 0,
    ;
    assert(b * (-q) == (-b) * q) by (nonlinear_arith);
    assert(a / b == -q) by (nonlinear_arith)
        requires
            a == b * (-q) + r,
            0 <= r < -b,
            b < 0,
    ;
}

/// Narrows to `i64` when the value fits.
pub fn narrow_i64(x: i128) -> (r: Option<i64>)
    ensures
        r.is_some() == fits_i64(x as int),
        r.is_some() ==> r->0 == x,
{
    if x >= i64::MIN as i128 && x <= i64::MAX as i128 {
        Some(x as i64)
    } else {
        None
    }
}

/// A number and its negation have the same divisors.
proof fn lemma_multiple_of_negation(a: int, b: int)
    requires
        b > 0,
    ensures
        (a % b == 0) == ((-a) % b == 0),
{
    vstd::arithmetic::div_mod::lemma_fundamental_div_mod(a, b);
    vstd::arithmetic::div_mod::lemma_fundamental_div_mod(-a, b);
    let q = a / b;
    let p = (-a) / b;
    assert(b * (-q) == -(b * q) && b * (-p) == -(b * p)) by (nonlinear_arith);
    if a % b == 0 {
        vstd::arithmetic::div_mod::lemma_fundamental_div_mod_converse(-a, b, -q, 0);
    }
    if (-a) % b == 0 {
        vstd::arithmetic::div_mod::lemma_fundamental_div_mod_converse(a, b, -p, 0);
    }
}

/// Whether `a` is a multiple of the positive `b`.
pub fn is_multiple(a: i64, b: i64) -> (r: bool)
    requires
        b > 0,
    ensures
        r == (a as int % b as int == 0),
{
    proof {
        if a < 0 {
            lemma_multiple_of_negation(a as int, b as int);
        }
    }
    a % b == 0
}

/// A truncated quotient is no larger in magnitude than the dividend.
pub proof fn lemma_tdiv_bounds(a: int, b: int)
    requires
        b != 0,
    ensures
        magnitude(tdiv(a, b)) <= magnitude(a),
        a != 0 && magnitude(b) >= 2 ==> magnitude(tdiv(a, b)) < magnitude(a),
        a >= 0 && b > 0 ==> 0 <= tdiv(a, b) <= a,
        a <= 0 && b > 0 ==> a <= tdiv(a, b) <= 0,
{
    let m = magnitude(a);
    let d = magnitude(b);
    assert(0 <= m / d <= m) by (nonlinear_arith)
        requires
            d >= 1,
            m >= 0,
    ;
    if d >= 2 && m >= 1 {
        assert(m / d < m) by (nonlinear_arith)
            requires
                d >= 2,
                m >= 1,
        ;
    }
}

/// A truncated quotient by a positive number leaves less than that number.
pub proof fn lemma_tdiv_remainder(a: int, b: int)
    requires
        b > 0,
    ensures
        -b < a - b * tdiv(a, b) < b,
{
    let m = magnitude(a);
    vstd::arithmetic::div_mod::lemma_fundamental_div_mod(m, b);
    vstd::arithmetic::div_mod::lemma_mod_bound(m, b);
    assert(b * (-(m / b)) == -(b * (m / b))) by (nonlinear_arith);
}

/// A part of an amount lies between nothing and the amount.
pub proof fn lemma_part_between(amount: int, part: int, whole: int)
    requires
        0 <= part <= whole,
        whole > 0,
    ensures
        amount >= 0 ==> 0 <= tdiv(amount * part, whole) <= amount,
        amount <= 0 ==> amount <= tdiv(amount * part, whole) <= 0,
        part == whole ==> tdiv(amount * part, whole) == amount,
{
    let m = magnitude(amount);
    assert(0 <= m * part <= m * whole) by (nonlinear_arith)
        requires
            0 <= part <= whole,
            m >= 0,
    ;
    vstd::arithmetic::div_mod::lemma_div_is_ordered(m * part, m * whole, whole);
    vstd::arithmetic::div_mod::lemma_div_multiples_vanish(m, whole);
    assert(m * whole == whole * m) by (nonlinear_arith);
    vstd::arithmetic::div_mod::lemma_div_pos_is_pos(m * part, whole);
    assert((-m) * part == -(m * part)) by (nonlinear_arith);
}

} // verus!
