//! Integer helpers: bounds on products, square roots, rounded division.

use vstd::prelude::*;

verus! {

/// Absolute value of a mathematical integer.
pub open spec fn abs(x: int) -> int {
    if x < 0 {
        -x
    } else {
        x
    }
}

/// `n / d` rounded to the nearest integer, halves rounded up; `d` must be positive.
pub open spec fn div_nearest(n: int, d: int) -> int {
    (2 * n + d) / (2 * d)
}

/// The largest integer whose square does not exceed `n`.
pub open spec fn is_floor_sqrt(r: int, n: int) -> bool {
    0 <= r && r * r <= n < (r + 1) * (r + 1)
}

/// A product is bounded by the product of the bounds of its factors.
pub proof fn lemma_mul_bound(a: int, b: int, ba: int, bb: int)
    by (nonlinear_arith)
    requires
        -ba <= a <= ba,
        -bb <= b <= bb,
    ensures
        -(ba * bb) <= a * b <= ba * bb,
{
}

/// A square is bounded by the square of the bound of its root.
pub proof fn lemma_square_bound(a: int, ba: int)
    by (nonlinear_arith)
    requires
        -ba <= a <= ba,
    ensures
        0 <= a * a <= ba * ba,
{
}

/// Squaring keeps the order of numbers that are not negative.
pub proof fn lemma_square_monotone(a: int, b: int)
    by (nonlinear_arith)
    requires
        0 <= a <= b,
    ensures
        a * a <= b * b,
{
}

/// Magnitude of a signed value as an unsigned one.
pub(crate) fn magnitude(x: i128) -> (r: u128)
    requires
        x > i128::MIN,
    ensures
        r == abs(x as int),
{
    if x < 0 {
        (-x) as u128
    } else {
        x as u128
    }
}

/// Integer square root by bisection.
pub(crate) fn isqrt(n: u128) -> (r: u64)
    requires
        n < 0x4000_0000_0000_0000_0000_0000_0000_0000,
    ensures
        is_floor_sqrt(r as int, n as int),
        r <= i64::MAX,
{
    let mut lo: u128 = 0;
    let mut hi: u128 = 0x8000_0000_0000_0000;
    assert(hi * hi == 0x4000_0000_0000_0000_0000_0000_0000_0000) by (nonlinear_arith)
        requires
            hi == 0x8000_0000_0000_0000,
    ;
    while hi - lo > 1
        invariant
            lo < hi <= 0x8000_0000_0000_0000,
            lo * lo <= n < hi * hi,
        decreases hi - lo,
    {
        let mid: u128 = lo + (hi - lo) / 2;
        proof {
            lemma_square_monotone(mid as int, 0x8000_0000_0000_0000);
        }
        if mid * mid <= n {
            lo = mid;
        } else {
            hi = mid;
        }
    }
    lo as u64
}

/// Division of a signed numerator by a positive denominator, rounded to nearest.
pub(crate) fn div_round(n: i128, d: i128) -> (r: i128)
    requires
        0 < d <= 0x1000_0000_0000_0000_0000_0000_0000_0000,
        -0x1000_0000_0000_0000_0000_0000_0000_0000 <= n <= 0x1000_0000_0000_0000_0000_0000_0000_0000,
    ensures
        r == div_nearest(n as int, d as int),
{
    if n >= 0 {
        (2 * n + d) / (2 * d)
    } else {
        let m: i128 = -n;
        let q: i128 = (2 * m + d - 1) / (2 * d);
        proof {
            let a = 2 * m + d - 1;
            let dd = 2 * d;
            vstd::arithmetic::div_mod::lemma_fundamental_div_mod(a as int, dd as int);
            vstd::arithmetic::div_mod::lemma_mod_bound(a as int, dd as int);
            let rem = (a as int) % (dd as int);
            // 2n + d = -(q * dd) + (dd - 1 - rem)
            assert((2 * n + d) as int == (dd as int) * (-(q as int)) + (dd - 1 - rem)) by (nonlinear_arith)
                requires
                    a as int == (dd as int) * (q as int) + rem,
                    a == 2 * m + d - 1,
                    m == -n,
                    dd == 2 * d,
            ;
            vstd::arithmetic::div_mod::lemma_fundamental_div_mod_converse(
                (2 * n + d) as int,
                dd as int,
                -(q as int),
                dd - 1 - rem,
            );
        }
        -q
    }
}

/// The largest integer whose square does not exceed `n`; meaningful for `n` not negative.
pub open spec fn floor_sqrt(n: int) -> int {
    choose|r: int| is_floor_sqrt(r, n)
}

/// Every number that is not negative has a floor of its square root.
pub proof fn lemma_floor_sqrt_exists(n: int)
    requires
        0 <= n,
    ensures
        is_floor_sqrt(floor_sqrt(n), n),
    decreases n,
{
    if n == 0 {
        assert(is_floor_sqrt(0, 0));
    } else {
        lemma_floor_sqrt_exists(n - 1);
        let r = floor_sqrt(n - 1);
        if (r + 1) * (r + 1) <= n {
            assert((r + 2) * (r + 2) > (r + 1) * (r + 1)) by (nonlinear_arith)
                requires
                    r >= 0,
            ;
            assert(is_floor_sqrt(r + 1, n));
        } else {
            assert(is_floor_sqrt(r, n));
        }
    }
}

/// There is only one floor of a square root.
pub proof fn lemma_floor_sqrt_unique(r: int, n: int)
    requires
        is_floor_sqrt(r, n),
    ensures
        floor_sqrt(n) == r,
{
    let other = floor_sqrt(n);
    assert(is_floor_sqrt(other, n));
    if other < r {
        lemma_square_monotone(other + 1, r);
    }
    if r < other {
        lemma_square_monotone(r + 1, other);
    }
}

/// The floor of the square root of a number that is at least a square is at least its root.
pub proof fn lemma_floor_sqrt_at_least(a: int, n: int)
    requires
        0 <= a,
        a * a <= n,
        is_floor_sqrt(floor_sqrt(n), n),
    ensures
        a <= floor_sqrt(n),
{
    let r = floor_sqrt(n);
    if r < a {
        lemma_square_monotone(r + 1, a);
    }
}

/// The floor of the square root, with its name.
pub(crate) fn sqrt_floor(n: u128) -> (r: u64)
    requires
        n < 0x4000_0000_0000_0000_0000_0000_0000_0000,
    ensures
        r == floor_sqrt(n as int),
        is_floor_sqrt(r as int, n as int),
        r <= i64::MAX,
{
    let r = isqrt(n);
    proof {
        lemma_floor_sqrt_unique(r as int, n as int);
    }
    r
}

/// The square of a cross or dot product of grid differences fits comfortably in 128 bits.
pub proof fn lemma_product_square(s: int)
    by (nonlinear_arith)
    requires
        -576_460_752_303_423_488 <= s <= 576_460_752_303_423_488,
    ensures
        0 <= s * s <= 0x40_0000_0000_0000_0000_0000_0000_0000,
{
}

/// The product of two differences of grid coordinates.
pub proof fn lemma_difference_product(a: int, b: int)
    by (nonlinear_arith)
    requires
        -536_870_912 <= a <= 536_870_912,
        -536_870_912 <= b <= 536_870_912,
    ensures
        -0x400_0000_0000_0000 <= a * b <= 0x400_0000_0000_0000,
{
}

/// A vector that is not zero has a positive squared length.
pub proof fn lemma_nonzero_length(dx: int, dy: int)
    by (nonlinear_arith)
    requires
        dx != 0 || dy != 0,
    ensures
        dx * dx + dy * dy >= 1,
{
}

/// Rounded division moves the quotient at most half a step from the exact one.
pub proof fn lemma_div_nearest_close(n: int, d: int)
    requires
        d > 0,
    ensures
        abs(div_nearest(n, d)) * d <= abs(n) + d,
        abs(2 * div_nearest(n, d) * d - 2 * n) <= d,
{
    let q = (2 * n + d) / (2 * d);
    let r = (2 * n + d) % (2 * d);
    vstd::arithmetic::div_mod::lemma_fundamental_div_mod(2 * n + d, 2 * d);
    vstd::arithmetic::div_mod::lemma_mod_bound(2 * n + d, 2 * d);
    assert(2 * n + d == (2 * d) * q + r);
    assert((2 * d) * q == 2 * q * d) by (nonlinear_arith);
    assert(2 * q * d - 2 * n == d - r);
    assert(2 * q * d == 2 * (q * d)) by (nonlinear_arith);
    assert(abs(q) * d == abs(q * d)) by (nonlinear_arith)
        requires
            d > 0,
    ;
}

} // verus!
