//! Fixed-point cosine, sine and arc cosine for rotating points.
//!
//! An angle is a whole number of `1 / ONE` radians, and so are the values of cosine and sine.
//! The two are summed from their power series and then brought onto the unit circle: the
//! smaller of the two is kept and the other is made the square root of what it leaves of one,
//! so that turning a displacement keeps its length.

use crate::geo::arith::{
    abs, div_nearest, div_round, floor_sqrt, is_floor_sqrt, lemma_div_nearest_close,
    lemma_floor_sqrt_exists, lemma_floor_sqrt_unique, lemma_square_bound, magnitude, sqrt_floor,
};
use vstd::prelude::*;

verus! {

/// The fixed-point representation of one.
pub const ONE: i128 = 0x100_0000_0000_0000;

/// Half a turn: pi radians.
pub const HALF_TURN: i128 = 226_375_608_064_910_089;

/// A full turn: two pi radians.
pub const FULL_TURN: i128 = 452_751_216_129_820_178;

/// The largest magnitude of an angle whose cosine and sine are computed.
pub const ANGLE_LIMIT: i128 = 0x400_0000_0000_0000;

/// The number of terms of the power series that are summed.
pub const TERMS: u32 = 40;

/// The number of times the search for an angle halves its interval.
pub const HALVINGS: u32 = 60;

/// Term `k` of the exponential series of the angle `x`: `x^k / k!`, rounded at every step.
pub open spec fn term(x: int, k: nat) -> int
    decreases k,
{
    if k == 0 {
        ONE as int
    } else {
        div_nearest(term(x, (k - 1) as nat) * x, k * ONE)
    }
}

/// The cosine series of `x` summed up to term `k`: the even terms with alternating signs.
pub open spec fn cos_upto(x: int, k: nat) -> int
    decreases k,
{
    if k == 0 {
        ONE as int
    } else if k % 4 == 0 {
        cos_upto(x, (k - 1) as nat) + term(x, k)
    } else if k % 4 == 2 {
        cos_upto(x, (k - 1) as nat) - term(x, k)
    } else {
        cos_upto(x, (k - 1) as nat)
    }
}

/// The sine series of `x` summed up to term `k`: the odd terms with alternating signs.
pub open spec fn sin_upto(x: int, k: nat) -> int
    decreases k,
{
    if k == 0 {
        0
    } else if k % 4 == 1 {
        sin_upto(x, (k - 1) as nat) + term(x, k)
    } else if k % 4 == 3 {
        sin_upto(x, (k - 1) as nat) - term(x, k)
    } else {
        sin_upto(x, (k - 1) as nat)
    }
}

/// The square of `ONE`.
pub const ONE_SQ: i128 = 0x1_0000_0000_0000_0000_0000_0000_0000;

/// `v` held within one either way.
pub open spec fn held(v: int) -> int {
    if v > ONE {
        ONE as int
    } else if v < -ONE {
        -ONE as int
    } else {
        v
    }
}

/// The other coordinate of a point of the unit circle one of whose coordinates is `v`: the
/// square root of what `v` squared leaves of one, rounded down.
pub open spec fn beside(v: int) -> int {
    floor_sqrt(ONE_SQ - v * v)
}

/// `v` with the sign of `like`.
pub open spec fn signed(v: int, like: int) -> int {
    if like < 0 {
        -v
    } else {
        v
    }
}

/// The pair `(c, s)` brought onto the unit circle: both are held within one, the one of the
/// smaller magnitude is kept, and the other keeps its sign and gets the magnitude that the
/// first leaves it.
pub open spec fn on_circle(c: int, s: int) -> (int, int) {
    let c = held(c);
    let s = held(s);
    if abs(s) <= abs(c) {
        (signed(beside(s), c), s)
    } else {
        (c, signed(beside(c), s))
    }
}

/// The cosine of the angle `x`, in fixed point.
pub open spec fn cosine(x: int) -> int {
    on_circle(cos_upto(x, TERMS as nat), sin_upto(x, TERMS as nat)).0
}

/// The sine of the angle `x`, in fixed point.
pub open spec fn sine(x: int) -> int {
    on_circle(cos_upto(x, TERMS as nat), sin_upto(x, TERMS as nat)).1
}

/// What a coordinate within one leaves of one has a square root between nothing and one, and
/// the squares of the two add up to one, less at most what rounding the root down loses.
pub proof fn lemma_beside(v: int)
    requires
        -ONE <= v <= ONE,
    ensures
        0 <= beside(v) <= ONE,
        is_floor_sqrt(beside(v), ONE_SQ - v * v),
        ONE_SQ - 2 * ONE <= beside(v) * beside(v) + v * v <= ONE_SQ,
{
    lemma_square_bound(v, ONE as int);
    let m = ONE_SQ - v * v;
    assert(ONE * ONE == ONE_SQ) by (nonlinear_arith)
        requires
            ONE == 0x100_0000_0000_0000,
            ONE_SQ == 0x1_0000_0000_0000_0000_0000_0000_0000,
    ;
    lemma_floor_sqrt_exists(m);
    let r = beside(v);
    if r > ONE {
        crate::geo::arith::lemma_square_monotone(ONE + 1, r);
        assert((ONE + 1) * (ONE + 1) > ONE_SQ) by (nonlinear_arith)
            requires
                ONE * ONE == ONE_SQ,
                ONE > 0,
        ;
    }
    assert((r + 1) * (r + 1) == r * r + 2 * r + 1) by (nonlinear_arith);
}

/// The cosine and the sine of every angle lie within one, and their squares add up to one,
/// less at most two of the smallest steps of the fixed point.
pub proof fn lemma_unit_circle(x: int)
    ensures
        -ONE <= cosine(x) <= ONE,
        -ONE <= sine(x) <= ONE,
        ONE_SQ - 2 * ONE <= cosine(x) * cosine(x) + sine(x) * sine(x) <= ONE_SQ,
{
    let c = held(cos_upto(x, TERMS as nat));
    let s = held(sin_upto(x, TERMS as nat));
    if abs(s) <= abs(c) {
        lemma_beside(s);
        let r = beside(s);
        assert((-r) * (-r) == r * r) by (nonlinear_arith);
    } else {
        lemma_beside(c);
        let r = beside(c);
        assert((-r) * (-r) == r * r) by (nonlinear_arith);
    }
}

/// A bound on the magnitude of term `k` for angles within `ANGLE_LIMIT`.
pub open spec fn term_bound(k: nat) -> int {
    if k == 0 {
        ONE as int
    } else if k == 1 {
        4 * ONE + 1
    } else if k == 2 {
        8 * ONE + 3
    } else if k == 3 {
        11 * ONE
    } else if k == 4 {
        11 * ONE + 1
    } else {
        16 * ONE
    }
}

/// One step of the series keeps the term within its bound.
pub proof fn lemma_term_step(t: int, x: int, k: nat)
    requires
        k >= 1,
        abs(t) <= term_bound((k - 1) as nat),
        abs(x) <= ANGLE_LIMIT,
    ensures
        abs(div_nearest(t * x, k * ONE)) <= term_bound(k),
{
    let d = k * ONE;
    let q = div_nearest(t * x, d);
    let b = term_bound((k - 1) as nat);
    lemma_div_nearest_close(t * x, d);
    assert(abs(t * x) <= b * ANGLE_LIMIT) by (nonlinear_arith)
        requires
            abs(t) <= b,
            abs(x) <= ANGLE_LIMIT,
            b >= 0,
    ;
    // abs(q) * k * ONE <= 4 * b * ONE + k * ONE, so abs(q) * k <= 4 * b + k
    assert(abs(q) * k <= 4 * b + k) by (nonlinear_arith)
        requires
            abs(q) * d <= abs(t * x) + d,
            abs(t * x) <= b * ANGLE_LIMIT,
            d == k * ONE,
            ANGLE_LIMIT == 4 * ONE,
            ONE == 0x100_0000_0000_0000,
    ;
    if k >= 6 {
        assert(abs(q) <= 16 * ONE) by (nonlinear_arith)
            requires
                abs(q) * k <= 4 * b + k,
                b == 16 * ONE,
                k >= 6,
                ONE == 0x100_0000_0000_0000,
        ;
    } else if k == 5 {
        assert(abs(q) * 5 <= 4 * b + 5);
    } else if k == 4 {
        assert(abs(q) * 4 <= 4 * b + 4);
    } else if k == 3 {
        assert(abs(q) * 3 <= 4 * b + 3);
    } else if k == 2 {
        assert(abs(q) * 2 <= 4 * b + 2);
    } else {
        assert(abs(q) * 1 <= 4 * b + 1);
    }
}

/// Every term of the series of an angle within the limit is within its bound.
pub proof fn lemma_term_bounded(x: int, k: nat)
    requires
        abs(x) <= ANGLE_LIMIT,
    ensures
        abs(term(x, k)) <= term_bound(k),
        abs(term(x, k)) <= 16 * ONE,
    decreases k,
{
    if k > 0 {
        lemma_term_bounded(x, (k - 1) as nat);
        lemma_term_step(term(x, (k - 1) as nat), x, k);
    }
}

/// The sums of the series stay within `ONE + 16 * ONE * k`.
pub proof fn lemma_sums_bounded(x: int, k: nat)
    requires
        abs(x) <= ANGLE_LIMIT,
    ensures
        abs(cos_upto(x, k)) <= ONE + 16 * ONE * k,
        abs(sin_upto(x, k)) <= ONE + 16 * ONE * k,
    decreases k,
{
    if k > 0 {
        lemma_sums_bounded(x, (k - 1) as nat);
        lemma_term_bounded(x, k);
    }
}

/// The series of the angle nothing: every term after the first is nothing, so the cosine is
/// one and the sine is nothing.
pub proof fn lemma_series_of_nothing(k: nat)
    ensures
        k >= 1 ==> term(0, k) == 0,
        cos_upto(0, k) == ONE,
        sin_upto(0, k) == 0,
    decreases k,
{
    if k >= 1 {
        lemma_series_of_nothing((k - 1) as nat);
        let t = term(0, (k - 1) as nat);
        assert(t * 0 == 0) by (nonlinear_arith);
        let d = k * ONE;
        assert(d >= 1) by (nonlinear_arith)
            requires
                d == k * ONE,
                k >= 1,
                ONE == 0x100_0000_0000_0000,
        ;
        assert((2 * 0 + d) / (2 * d) == 0) by (nonlinear_arith)
            requires
                d >= 1,
        ;
    }
}

/// The cosine of nothing is one and its sine is nothing.
pub proof fn lemma_cosine_of_nothing()
    ensures
        cosine(0) == ONE,
        sine(0) == 0,
{
    lemma_series_of_nothing(TERMS as nat);
    assert(0 * 0 == 0) by (nonlinear_arith);
    assert(is_floor_sqrt(ONE as int, ONE_SQ - 0)) by (nonlinear_arith)
        requires
            ONE == 0x100_0000_0000_0000,
            ONE_SQ == 0x1_0000_0000_0000_0000_0000_0000_0000,
    ;
    lemma_floor_sqrt_unique(ONE as int, ONE_SQ as int);
}

/// `v` held within one either way.
fn hold(v: i128) -> (r: i128)
    ensures
        r == held(v as int),
        -ONE <= r <= ONE,
{
    if v > ONE {
        ONE
    } else if v < -ONE {
        -ONE
    } else {
        v
    }
}

/// The other coordinate of a point of the unit circle, with the sign of `like`.
fn other_side(v: i128, like: i128) -> (r: i128)
    requires
        -ONE <= v <= ONE,
    ensures
        r == signed(beside(v as int), like as int),
        -ONE <= r <= ONE,
{
    proof {
        lemma_beside(v as int);
        lemma_square_bound(v as int, ONE as int);
        assert(ONE * ONE == ONE_SQ) by (nonlinear_arith)
            requires
                ONE == 0x100_0000_0000_0000,
                ONE_SQ == 0x1_0000_0000_0000_0000_0000_0000_0000,
        ;
    }
    let left: i128 = ONE_SQ - v * v;
    let root: i128 = sqrt_floor(left as u128) as i128;
    if like < 0 {
        -root
    } else {
        root
    }
}

/// The cosine and the sine of an angle within `ANGLE_LIMIT`.
pub fn cos_sin(x: i128) -> (r: (i128, i128))
    requires
        -ANGLE_LIMIT <= x <= ANGLE_LIMIT,
    ensures
        r.0 == cosine(x as int),
        r.1 == sine(x as int),
        -ONE <= r.0 <= ONE,
        -ONE <= r.1 <= ONE,
{
    let mut t: i128 = ONE;
    let mut c: i128 = ONE;
    let mut s: i128 = 0;
    let mut k: u32 = 0;
    while k < TERMS
        invariant
            k <= TERMS,
            -ANGLE_LIMIT <= x <= ANGLE_LIMIT,
            t == term(x as int, k as nat),
            c == cos_upto(x as int, k as nat),
            s == sin_upto(x as int, k as nat),
        decreases TERMS - k,
    {
        proof {
            lemma_term_bounded(x as int, k as nat);
            lemma_term_bounded(x as int, (k + 1) as nat);
            lemma_sums_bounded(x as int, k as nat);
            lemma_sums_bounded(x as int, (k + 1) as nat);
            assert(abs(t * x) <= 16 * ONE * ANGLE_LIMIT) by (nonlinear_arith)
                requires
                    abs(t as int) <= 16 * ONE,
                    abs(x as int) <= ANGLE_LIMIT,
            ;
        }
        k += 1;
        t = div_round(t * x, (k as i128) * ONE);
        let phase: u32 = k % 4;
        if phase == 0 {
            c = c + t;
        } else if phase == 1 {
            s = s + t;
        } else if phase == 2 {
            c = c - t;
        } else {
            s = s - t;
        }
    }
    proof {
        lemma_sums_bounded(x as int, TERMS as nat);
    }
    let c = hold(c);
    let s = hold(s);
    if magnitude(s) <= magnitude(c) {
        (other_side(s, c), s)
    } else {
        (c, other_side(c, s))
    }
}

/// The angle the search ends at after `steps` halvings of the interval from `lo` to `hi`: an
/// angle between nothing and half a turn whose cosine is `c`, as near as the interval gets.
pub open spec fn bisect(c: int, lo: int, hi: int, steps: nat) -> int
    decreases steps,
{
    if steps == 0 {
        lo
    } else {
        let mid = lo + (hi - lo) / 2;
        if cosine(mid) > c {
            bisect(c, mid, hi, (steps - 1) as nat)
        } else {
            bisect(c, lo, mid, (steps - 1) as nat)
        }
    }
}

/// The angle between nothing and half a turn whose cosine is `c`.
pub open spec fn arc_cosine(c: int) -> int {
    bisect(c, 0, HALF_TURN as int, HALVINGS as nat)
}

/// The width of an interval after `steps` halvings in which the wider half is kept.
pub open spec fn halved(width: int, steps: nat) -> int
    decreases steps,
{
    if steps == 0 {
        width
    } else {
        halved((width + 1) / 2, (steps - 1) as nat)
    }
}

/// The angle `b` lies no more than `width` after `a`, at most at `hi`, and the cosine is at
/// most `c` there, unless `b` is `hi`.
pub open spec fn falls_by(c: int, a: int, hi: int, width: int, b: int) -> bool {
    a <= b <= hi && b - a <= width && (b == hi || cosine(b) <= c)
}

/// Between `lo` and `hi` the cosine passes the value `c` at the angle `a`, to within `width`:
/// at `a` the cosine is above `c`, unless `a` is `lo`, and no more than `width` further on it
/// is at most `c`, unless that is at `hi`.
pub open spec fn passes(c: int, lo: int, hi: int, a: int, width: int) -> bool {
    &&& lo <= a <= hi
    &&& a == lo || cosine(a) > c
    &&& exists|b: int| #[trigger] falls_by(c, a, hi, width, b)
}

/// A narrower interval is no wider after the same number of halvings.
pub proof fn lemma_halved_grows(narrow: int, wide: int, steps: nat)
    requires
        narrow <= wide,
    ensures
        halved(narrow, steps) <= halved(wide, steps),
    decreases steps,
{
    if steps > 0 {
        lemma_halved_grows((narrow + 1) / 2, (wide + 1) / 2, (steps - 1) as nat);
    }
}

/// An interval no wider than two to the power of `steps` is at most one wide after `steps`
/// halvings.
pub proof fn lemma_halved_to_one(width: int, steps: nat)
    requires
        0 <= width <= vstd::arithmetic::power2::pow2(steps),
    ensures
        0 <= halved(width, steps) <= 1,
    decreases steps,
{
    vstd::arithmetic::power2::lemma2_to64();
    if steps > 0 {
        vstd::arithmetic::power2::lemma_pow2_unfold(steps);
        lemma_halved_to_one((width + 1) / 2, (steps - 1) as nat);
    }
}

/// The search ends where the cosine passes the value sought, to within what the halvings
/// leave of the interval.
pub proof fn lemma_bisect_passes(c: int, lo: int, hi: int, steps: nat)
    requires
        lo <= hi,
    ensures
        passes(c, lo, hi, bisect(c, lo, hi, steps), halved(hi - lo, steps)),
    decreases steps,
{
    if steps == 0 {
        assert(falls_by(c, lo, hi, hi - lo, hi));
    } else {
        let mid = lo + (hi - lo) / 2;
        let a = bisect(c, lo, hi, steps);
        let rest = (steps - 1) as nat;
        if cosine(mid) > c {
            lemma_bisect_passes(c, mid, hi, rest);
            assert(hi - mid == (hi - lo + 1) / 2);
            let b = choose|b: int| #[trigger] falls_by(c, a, hi, halved(hi - mid, rest), b);
            assert(falls_by(c, a, hi, halved(hi - lo, steps), b));
        } else {
            lemma_bisect_passes(c, lo, mid, rest);
            lemma_halved_grows(mid - lo, (hi - lo + 1) / 2, rest);
            let b = choose|b: int| #[trigger] falls_by(c, a, mid, halved(mid - lo, rest), b);
            assert(falls_by(c, a, hi, halved(hi - lo, steps), b));
        }
    }
}

/// The arc cosine of `c` is an angle between nothing and half a turn at which the cosine
/// passes `c`: the cosine of that angle is above `c`, unless the angle is nothing, and the
/// cosine of that angle or of the next is at most `c`, unless that is half a turn.
pub proof fn lemma_arc_cosine_passes(c: int)
    ensures
        passes(c, 0, HALF_TURN as int, arc_cosine(c), 1),
{
    let a = arc_cosine(c);
    lemma_bisect_passes(c, 0, HALF_TURN as int, HALVINGS as nat);
    vstd::arithmetic::power2::lemma2_to64_rest();
    lemma_halved_to_one(HALF_TURN as int, HALVINGS as nat);
    let width = halved(HALF_TURN as int, HALVINGS as nat);
    let b = choose|b: int| #[trigger] falls_by(c, a, HALF_TURN as int, width, b);
    assert(falls_by(c, a, HALF_TURN as int, 1, b));
}

/// The angle between nothing and half a turn whose cosine is `c`.
pub fn angle_of_cosine(c: i128) -> (a: i128)
    ensures
        a == arc_cosine(c as int),
        0 <= a <= HALF_TURN,
        passes(c as int, 0, HALF_TURN as int, a as int, 1),
{
    proof {
        lemma_arc_cosine_passes(c as int);
    }
    let mut lo: i128 = 0;
    let mut hi: i128 = HALF_TURN;
    let mut left: u32 = HALVINGS;
    while left > 0
        invariant
            0 <= lo <= hi <= HALF_TURN,
            arc_cosine(c as int) == bisect(c as int, lo as int, hi as int, left as nat),
        decreases left,
    {
        let mid: i128 = lo + (hi - lo) / 2;
        let (cm, _) = cos_sin(mid);
        if cm > c {
            lo = mid;
        } else {
            hi = mid;
        }
        left -= 1;
    }
    lo
}

} // verus!
