//! Offset edges and tessellated arcs.

use crate::geo::arith::{
    abs, div_nearest, div_round, floor_sqrt, is_floor_sqrt, lemma_div_nearest_close,
    lemma_floor_sqrt_at_least, lemma_mul_bound, sqrt_floor,
};
use crate::geo::edge::{Edge, Seg, Turning};
use crate::geo::intersect::{on_grid, GeometryError};
use crate::geo::shape::SIZE_LIMIT;
use crate::geo::trig::{
    angle_of_cosine, arc_cosine, cos_sin, cosine, sine, ANGLE_LIMIT,
    FULL_TURN, HALF_TURN, ONE,
};
use crate::geo::{dist_sq, dist_sq_of, dot, Point, Pt, COORD_LIMIT, EPSILON};
use vstd::prelude::*;

verus! {

/// The factor by which a length is scaled up before its square root is taken.
pub const NORM: i128 = 16_777_216;

/// The square of `NORM`.
pub const NORM_SQ: i128 = 281_474_976_710_656;

/// A displacement with integer components.
pub struct Shift {
    pub x: int,
    pub y: int,
}

/// The length of `(dx, dy)` scaled by `NORM`, rounded down.
pub open spec fn scaled_len(dx: int, dy: int) -> int {
    floor_sqrt((dx * dx + dy * dy) * NORM_SQ)
}

/// The displacement of length `num / den` in the direction of `(dx, dy)`, each component
/// rounded to the grid. The direction must not be zero.
pub open spec fn stretched(dx: int, dy: int, num: int, den: int) -> Shift {
    let len = scaled_len(dx, dy);
    Shift {
        x: div_nearest(dx * num * NORM, den * len),
        y: div_nearest(dy * num * NORM, den * len),
    }
}

/// The displacement `v` turned counter-clockwise by the angle `a`.
pub open spec fn turned(v: Shift, a: int) -> Shift {
    Shift {
        x: div_nearest(cosine(a) * v.x - sine(a) * v.y, ONE as int),
        y: div_nearest(sine(a) * v.x + cosine(a) * v.y, ONE as int),
    }
}

/// Turning by nothing leaves a displacement as it is.
pub proof fn lemma_turned_by_nothing(v: Shift)
    ensures
        turned(v, 0) == v,
{
    crate::geo::trig::lemma_cosine_of_nothing();
    assert(ONE * v.x - 0 * v.y == ONE * v.x) by (nonlinear_arith);
    assert(0 * v.x + ONE * v.y == ONE * v.y) by (nonlinear_arith);
    assert((2 * (ONE * v.x) + ONE) / (2 * ONE) == v.x) by (nonlinear_arith)
        requires
            ONE == 0x100_0000_0000_0000,
    ;
    assert((2 * (ONE * v.y) + ONE) / (2 * ONE) == v.y) by (nonlinear_arith)
        requires
            ONE == 0x100_0000_0000_0000,
    ;
}

/// The angle `a` of a full circle brought into the half turn either side of nothing.
pub open spec fn wrapped(a: int) -> int {
    if a > HALF_TURN {
        a - FULL_TURN
    } else {
        a
    }
}

/// The point `p` moved by `v`.
pub open spec fn moved(p: Pt, v: Shift) -> Pt {
    Pt { x: p.x + v.x, y: p.y + v.y }
}

/// A displacement in machine integers.
#[derive(Clone, Copy, Debug)]
pub struct Offset {
    pub x: i64,
    pub y: i64,
}

impl View for Offset {
    type V = Shift;

    open spec fn view(&self) -> Shift {
        Shift { x: self.x as int, y: self.y as int }
    }
}

/// The largest magnitude of a component of a displacement that is stretched or turned.
pub const REACH: i64 = 2_147_483_648;

/// The largest magnitude of a component of a turned displacement.
pub const WIDE: i128 = 4_294_967_297;

/// The scaled length is positive for a direction that is not zero and is at least the
/// scaled magnitude of either component.
pub proof fn lemma_scaled_len(dx: int, dy: int)
    requires
        dx != 0 || dy != 0,
    ensures
        is_floor_sqrt(scaled_len(dx, dy), (dx * dx + dy * dy) * NORM_SQ),
        scaled_len(dx, dy) >= NORM,
        scaled_len(dx, dy) >= abs(dx) * NORM,
        scaled_len(dx, dy) >= abs(dy) * NORM,
{
    let n = (dx * dx + dy * dy) * NORM_SQ;
    assert(n >= 0) by (nonlinear_arith)
        requires
            n == (dx * dx + dy * dy) * NORM_SQ,
            NORM_SQ == 281_474_976_710_656,
    ;
    crate::geo::arith::lemma_floor_sqrt_exists(n);
    assert((abs(dx) * NORM) * (abs(dx) * NORM) <= n) by (nonlinear_arith)
        requires
            n == (dx * dx + dy * dy) * NORM_SQ,
            NORM_SQ == NORM * NORM,
    ;
    assert((abs(dy) * NORM) * (abs(dy) * NORM) <= n) by (nonlinear_arith)
        requires
            n == (dx * dx + dy * dy) * NORM_SQ,
            NORM_SQ == NORM * NORM,
    ;
    assert(abs(dx) * NORM >= 0) by (nonlinear_arith);
    assert(abs(dy) * NORM >= 0) by (nonlinear_arith);
    lemma_floor_sqrt_at_least(abs(dx) * NORM, n);
    lemma_floor_sqrt_at_least(abs(dy) * NORM, n);
    assert(abs(dx) >= 1 || abs(dy) >= 1);
    assert(abs(dx) >= 1 ==> abs(dx) * NORM >= NORM) by (nonlinear_arith);
    assert(abs(dy) >= 1 ==> abs(dy) * NORM >= NORM) by (nonlinear_arith);
}

/// A component stretched to the length `num / den` is at most `num + 1` long.
pub proof fn lemma_stretched_bound(d: int, num: int, den: int, len: int)
    requires
        0 <= num,
        1 <= den,
        len >= 1,
        len >= abs(d) * NORM,
    ensures
        abs(div_nearest(d * num * NORM, den * len)) <= num + 1,
{
    let n = d * num * NORM;
    let dd = den * len;
    assert(dd >= 1) by (nonlinear_arith)
        requires
            dd == den * len,
            den >= 1,
            len >= 1,
    ;
    lemma_div_nearest_close(n, dd);
    let q = div_nearest(n, dd);
    assert(abs(n) <= num * len) by (nonlinear_arith)
        requires
            n == d * num * NORM,
            len >= abs(d) * NORM,
            0 <= num,
    ;
    assert(abs(q) <= num + 1) by (nonlinear_arith)
        requires
            abs(q) * dd <= abs(n) + dd,
            abs(n) <= num * len,
            dd == den * len,
            den >= 1,
            len >= 1,
            0 <= num,
    ;
}

/// A displacement stretched along a direction runs along it: the cross product of the two is
/// no more than the rounding of the components allows.
pub proof fn lemma_stretched_runs_along(dx: int, dy: int, num: int, den: int)
    requires
        dx != 0 || dy != 0,
        0 <= num,
        1 <= den,
    ensures
        2 * abs(stretched(dx, dy, num, den).x * dy - stretched(dx, dy, num, den).y * dx) <= abs(dx)
            + abs(dy),
{
    lemma_scaled_len(dx, dy);
    let len = scaled_len(dx, dy);
    let d = den * len;
    assert(d >= 1) by (nonlinear_arith)
        requires
            d == den * len,
            den >= 1,
            len >= 1,
    ;
    let nx = dx * num * NORM;
    let ny = dy * num * NORM;
    let vx = div_nearest(nx, d);
    let vy = div_nearest(ny, d);
    lemma_div_nearest_close(nx, d);
    lemma_div_nearest_close(ny, d);
    let rx = 2 * vx * d - 2 * nx;
    let ry = 2 * vy * d - 2 * ny;
    let c = vx * dy - vy * dx;
    assert(nx * dy - ny * dx == 0) by (nonlinear_arith)
        requires
            nx == dx * num * NORM,
            ny == dy * num * NORM,
    ;
    assert(rx * dy == 2 * (d * (vx * dy)) - 2 * (nx * dy)) by (nonlinear_arith)
        requires
            rx == 2 * vx * d - 2 * nx,
    ;
    assert(ry * dx == 2 * (d * (vy * dx)) - 2 * (ny * dx)) by (nonlinear_arith)
        requires
            ry == 2 * vy * d - 2 * ny,
    ;
    assert(d * c == d * (vx * dy) - d * (vy * dx)) by (nonlinear_arith)
        requires
            c == vx * dy - vy * dx,
    ;
    assert(2 * (d * c) == rx * dy - ry * dx);
    assert(abs(rx * dy) <= d * abs(dy)) by (nonlinear_arith)
        requires
            abs(rx) <= d,
    ;
    assert(abs(ry * dx) <= d * abs(dx)) by (nonlinear_arith)
        requires
            abs(ry) <= d,
    ;
    assert(d * (2 * abs(c)) == abs(2 * (d * c))) by (nonlinear_arith)
        requires
            d >= 1,
    ;
    assert(2 * abs(c) <= abs(dx) + abs(dy)) by (nonlinear_arith)
        requires
            d * (2 * abs(c)) <= d * abs(dx) + d * abs(dy),
            d >= 1,
    ;
}

/// A displacement stretched to the length `num / den` is that long, give or take two grid
/// steps and the part of the length that the rounded square root loses.
pub proof fn lemma_stretched_length(dx: int, dy: int, num: int, den: int)
    requires
        dx != 0 || dy != 0,
        0 <= num,
        1 <= den,
    ensures
        ({
            let v = stretched(dx, dy, num, den);
            let len = scaled_len(dx, dy);
            let d = den * len;
            &&& d * d * (v.x * v.x + v.y * v.y) <= (num * (len + 1) + d) * (num * (len + 1) + d)
            &&& num >= 4 * den ==> (num * len - 2 * d) * (num * len - 2 * d) <= d * d * (v.x * v.x + v.y
                * v.y)
        }),
{
    lemma_scaled_len(dx, dy);
    let len = scaled_len(dx, dy);
    let d = den * len;
    assert(d >= 1) by (nonlinear_arith)
        requires
            d == den * len,
            den >= 1,
            len >= 1,
    ;
    let nx = dx * num * NORM;
    let ny = dy * num * NORM;
    let vx = div_nearest(nx, d);
    let vy = div_nearest(ny, d);
    lemma_div_nearest_close(nx, d);
    lemma_div_nearest_close(ny, d);
    let rx = 2 * vx * d - 2 * nx;
    let ry = 2 * vy * d - 2 * ny;
    let m = (dx * dx + dy * dy) * NORM_SQ;
    let nn = nx * nx + ny * ny;
    let top = num * (len + 1);
    let low = num * len;
    // The exact displacement, scaled by `d`, is as long as `num` times the scaled length.
    assert(nn == num * num * m) by (nonlinear_arith)
        requires
            nx == dx * num * NORM,
            ny == dy * num * NORM,
            m == (dx * dx + dy * dy) * NORM_SQ,
            NORM_SQ == NORM * NORM,
            nn == nx * nx + ny * ny,
    ;
    assert(low * low <= nn <= top * top) by (nonlinear_arith)
        requires
            nn == num * num * m,
            len * len <= m < (len + 1) * (len + 1),
            low == num * len,
            top == num * (len + 1),
            num >= 0,
            len >= 0,
    ;
    assert(top >= 0) by (nonlinear_arith)
        requires
            top == num * (len + 1),
            num >= 0,
            len >= 0,
    ;
    assert(abs(nx) <= top && abs(ny) <= top) by {
        assert(nx * nx <= top * top && ny * ny <= top * top) by (nonlinear_arith)
            requires
                nn == nx * nx + ny * ny,
                nn <= top * top,
        ;
        if abs(nx) > top {
            crate::geo::arith::lemma_square_monotone(top + 1, abs(nx));
            assert(abs(nx) * abs(nx) == nx * nx) by (nonlinear_arith);
            assert((top + 1) * (top + 1) > top * top) by (nonlinear_arith)
                requires
                    top >= 0,
            ;
        }
        if abs(ny) > top {
            crate::geo::arith::lemma_square_monotone(top + 1, abs(ny));
            assert(abs(ny) * abs(ny) == ny * ny) by (nonlinear_arith);
            assert((top + 1) * (top + 1) > top * top) by (nonlinear_arith)
                requires
                    top >= 0,
            ;
        }
    }
    let td = top * d;
    let dd = d * d;
    assert(abs(nx * rx) <= td) by (nonlinear_arith)
        requires
            abs(nx) <= top,
            abs(rx) <= d,
            td == top * d,
    ;
    assert(abs(ny * ry) <= td) by (nonlinear_arith)
        requires
            abs(ny) <= top,
            abs(ry) <= d,
            td == top * d,
    ;
    assert(0 <= rx * rx <= dd) by (nonlinear_arith)
        requires
            abs(rx) <= d,
            dd == d * d,
    ;
    assert(0 <= ry * ry <= dd) by (nonlinear_arith)
        requires
            abs(ry) <= d,
            dd == d * d,
    ;
    let wx = 2 * vx * d;
    let wy = 2 * vy * d;
    assert(wx * wx == 4 * (dd * (vx * vx))) by (nonlinear_arith)
        requires
            wx == 2 * vx * d,
            dd == d * d,
    ;
    assert(wy * wy == 4 * (dd * (vy * vy))) by (nonlinear_arith)
        requires
            wy == 2 * vy * d,
            dd == d * d,
    ;
    assert(wx * wx == 4 * (nx * nx) + 4 * (nx * rx) + rx * rx) by (nonlinear_arith)
        requires
            wx == 2 * nx + rx,
    ;
    assert(wy * wy == 4 * (ny * ny) + 4 * (ny * ry) + ry * ry) by (nonlinear_arith)
        requires
            wy == 2 * ny + ry,
    ;
    let vv = vx * vx + vy * vy;
    assert(dd * vv == dd * (vx * vx) + dd * (vy * vy)) by (nonlinear_arith)
        requires
            vv == vx * vx + vy * vy,
    ;
    let size = dd * vv;
    assert(4 * size == 4 * nn + 4 * (nx * rx) + 4 * (ny * ry) + rx * rx + ry * ry);
    assert((top + d) * (top + d) == top * top + 2 * td + dd) by (nonlinear_arith)
        requires
            td == top * d,
            dd == d * d,
    ;
    assert(size <= (top + d) * (top + d));
    assert(d * d * (vx * vx + vy * vy) == size);
    if num >= 4 * den {
        let ld = low * d;
        assert((low - 2 * d) * (low - 2 * d) == low * low - 4 * ld + 4 * dd) by (nonlinear_arith)
            requires
                ld == low * d,
                dd == d * d,
        ;
        // Twice the scaled length lost to rounding is made up by the length itself.
        assert(2 * ld - 2 * dd >= td) by (nonlinear_arith)
            requires
                ld == (num * len) * d,
                td == (num * (len + 1)) * d,
                dd == d * d,
                d == den * len,
                num >= 4 * den,
                den >= 1,
                len >= 2,
        ;
        assert((low - 2 * d) * (low - 2 * d) <= size);
    }
}

/// The displacement of length `num / den` in the direction of `(dx, dy)`.
pub(crate) fn stretch(dx: i64, dy: i64, num: i64, den: i64) -> (v: Offset)
    requires
        dx != 0 || dy != 0,
        -2 * COORD_LIMIT <= dx <= 2 * COORD_LIMIT,
        -2 * COORD_LIMIT <= dy <= 2 * COORD_LIMIT,
        0 <= num <= SIZE_LIMIT,
        1 <= den <= 2,
    ensures
        v@ == stretched(dx as int, dy as int, num as int, den as int),
        -REACH <= v.x <= REACH,
        -REACH <= v.y <= REACH,
{
    proof {
        crate::geo::arith::lemma_difference_product(dx as int, dx as int);
        crate::geo::arith::lemma_difference_product(dy as int, dy as int);
        crate::geo::arith::lemma_nonzero_length(dx as int, dy as int);
    }
    let l: i128 = (dx as i128) * (dx as i128) + (dy as i128) * (dy as i128);
    assert(1 <= l <= 0x800_0000_0000_0000);
    let len: i128 = sqrt_floor((l * NORM_SQ) as u128) as i128;
    proof {
        lemma_scaled_len(dx as int, dy as int);
        lemma_mul_bound(dx as int, num as int, 2 * COORD_LIMIT, SIZE_LIMIT as int);
        lemma_mul_bound(dy as int, num as int, 2 * COORD_LIMIT, SIZE_LIMIT as int);
        lemma_stretched_bound(dx as int, num as int, den as int, len as int);
        lemma_stretched_bound(dy as int, num as int, den as int, len as int);
        assert(len < 0x8000_0000_0000_0000);
        assert(1 <= den * len <= 0x1_0000_0000_0000_0000) by (nonlinear_arith)
            requires
                1 <= den <= 2,
                1 <= len < 0x8000_0000_0000_0000,
        ;
        assert(-0x8_0000_0000_0000_0000_0000 <= dx * num * NORM <= 0x8_0000_0000_0000_0000_0000)
            by (nonlinear_arith)
            requires
                -0x2000_0000 <= dx <= 0x2000_0000,
                0 <= num <= 0x4000_0000,
                NORM == 16_777_216,
        ;
        assert(-0x8_0000_0000_0000_0000_0000 <= dy * num * NORM <= 0x8_0000_0000_0000_0000_0000)
            by (nonlinear_arith)
            requires
                -0x2000_0000 <= dy <= 0x2000_0000,
                0 <= num <= 0x4000_0000,
                NORM == 16_777_216,
        ;
    }
    let x: i128 = div_round((dx as i128) * (num as i128) * NORM, (den as i128) * len);
    let y: i128 = div_round((dy as i128) * (num as i128) * NORM, (den as i128) * len);
    Offset { x: x as i64, y: y as i64 }
}

/// A turned component is at most as long as the two components of the displacement together,
/// and half a grid step.
pub proof fn lemma_turned_bound(c: int, s: int, x: int, y: int)
    requires
        abs(c) <= ONE,
        abs(s) <= ONE,
        abs(x) <= REACH,
        abs(y) <= REACH,
    ensures
        abs(c * x - s * y) <= 2 * ONE * REACH,
        abs(s * x + c * y) <= 2 * ONE * REACH,
        abs(div_nearest(c * x - s * y, ONE as int)) <= WIDE,
        abs(div_nearest(s * x + c * y, ONE as int)) <= WIDE,
{
    lemma_mul_bound(c, x, ONE as int, REACH as int);
    lemma_mul_bound(s, y, ONE as int, REACH as int);
    lemma_mul_bound(s, x, ONE as int, REACH as int);
    lemma_mul_bound(c, y, ONE as int, REACH as int);
    lemma_div_nearest_close(c * x - s * y, ONE as int);
    lemma_div_nearest_close(s * x + c * y, ONE as int);
}

/// The product of two squares is the square of the product.
proof fn lemma_square_of_product(a: int, b: int)
    ensures
        (a * b) * (a * b) == (a * a) * (b * b),
{
    let ab = a * b;
    assert(ab * ab == a * (b * ab)) by (nonlinear_arith)
        requires
            ab == a * b,
    ;
    assert(b * ab == a * (b * b)) by (nonlinear_arith)
        requires
            ab == a * b,
    ;
    assert(a * (a * (b * b)) == (a * a) * (b * b)) by (nonlinear_arith);
}

/// Turning by a pair `(c, s)` multiplies the squared length of `(x, y)` by the squared
/// length of the pair.
proof fn lemma_turning_identity(c: int, s: int, x: int, y: int)
    ensures
        (c * x - s * y) * (c * x - s * y) + (s * x + c * y) * (s * x + c * y) == (c * c + s * s) * (x * x
            + y * y),
{
    let p = c * x;
    let q = s * y;
    let r = s * x;
    let t = c * y;
    lemma_square_of_product(c, x);
    lemma_square_of_product(s, y);
    lemma_square_of_product(s, x);
    lemma_square_of_product(c, y);
    let cc = c * c;
    let ss = s * s;
    let xx = x * x;
    let yy = y * y;
    assert((p - q) * (p - q) == p * p - 2 * (p * q) + q * q) by (nonlinear_arith);
    assert((r + t) * (r + t) == r * r + 2 * (r * t) + t * t) by (nonlinear_arith);
    assert(p * q == r * t) by {
        let cs = c * s;
        assert(p * q == cs * (x * y)) by (nonlinear_arith)
            requires
                p == c * x,
                q == s * y,
                cs == c * s,
        ;
        assert(r * t == cs * (x * y)) by (nonlinear_arith)
            requires
                r == s * x,
                t == c * y,
                cs == c * s,
        ;
    }
    assert((cc + ss) * (xx + yy) == cc * xx + cc * yy + ss * xx + ss * yy) by (nonlinear_arith);
}

/// The squared length of a displacement.
pub open spec fn length_sq(v: Shift) -> int {
    v.x * v.x + v.y * v.y
}

/// The two components of a displacement together, each taken as a length.
pub open spec fn span(v: Shift) -> int {
    abs(v.x) + abs(v.y)
}

/// Turning keeps the length of a displacement, whatever the angle: the squared length grows
/// by no more than twice the span, and shrinks by no more than that and what the cosine and
/// the sine lack of the unit circle. In lengths, that is less than two grid steps either way
/// for a displacement within `REACH`.
pub proof fn lemma_turned_length(v: Shift, a: int)
    ensures
        length_sq(turned(v, a)) <= length_sq(v) + 2 * span(v),
        ONE * length_sq(v) <= ONE * length_sq(turned(v, a)) + 2 * length_sq(v) + 2 * ONE * span(v),
{
    crate::geo::trig::lemma_unit_circle(a);
    let c = cosine(a);
    let s = sine(a);
    let o = ONE as int;
    let oo = crate::geo::trig::ONE_SQ as int;
    let x = c * v.x - s * v.y;
    let y = s * v.x + c * v.y;
    let n = c * c + s * s;
    let vv = length_sq(v);
    let w = turned(v, a);
    let ww = length_sq(w);
    let reach = span(v);
    assert(o * o == oo) by (nonlinear_arith)
        requires
            o == 0x100_0000_0000_0000,
            oo == 0x1_0000_0000_0000_0000_0000_0000_0000,
    ;
    // Turning by the exact pair multiplies the squared length by what the pair has of one.
    lemma_turning_identity(c, s, v.x, v.y);
    assert(vv >= 0) by (nonlinear_arith)
        requires
            vv == v.x * v.x + v.y * v.y,
    ;
    assert((oo - 2 * o) * vv <= n * vv <= oo * vv) by (nonlinear_arith)
        requires
            oo - 2 * o <= n <= oo,
            vv >= 0,
    ;
    lemma_mul_bound(c, v.x, o, abs(v.x));
    lemma_mul_bound(s, v.y, o, abs(v.y));
    lemma_mul_bound(s, v.x, o, abs(v.x));
    lemma_mul_bound(c, v.y, o, abs(v.y));
    let far = o * reach;
    assert(far == o * abs(v.x) + o * abs(v.y)) by (nonlinear_arith)
        requires
            far == o * reach,
            reach == abs(v.x) + abs(v.y),
    ;
    assert(abs(x) <= far && abs(y) <= far);
    lemma_div_nearest_close(x, o);
    lemma_div_nearest_close(y, o);
    let rx = 2 * w.x * o - 2 * x;
    let ry = 2 * w.y * o - 2 * y;
    let slack = o * far;
    assert(abs(x * rx) <= slack) by (nonlinear_arith)
        requires
            abs(x) <= far,
            abs(rx) <= o,
            slack == o * far,
    ;
    assert(abs(y * ry) <= slack) by (nonlinear_arith)
        requires
            abs(y) <= far,
            abs(ry) <= o,
            slack == o * far,
    ;
    assert(0 <= rx * rx <= oo) by (nonlinear_arith)
        requires
            abs(rx) <= o,
            oo == o * o,
    ;
    assert(0 <= ry * ry <= oo) by (nonlinear_arith)
        requires
            abs(ry) <= o,
            oo == o * o,
    ;
    let px = 2 * w.x * o;
    let py = 2 * w.y * o;
    assert(px * px == 4 * (oo * (w.x * w.x))) by (nonlinear_arith)
        requires
            px == 2 * w.x * o,
            oo == o * o,
    ;
    assert(py * py == 4 * (oo * (w.y * w.y))) by (nonlinear_arith)
        requires
            py == 2 * w.y * o,
            oo == o * o,
    ;
    assert(px * px == 4 * (x * x) + 4 * (x * rx) + rx * rx) by (nonlinear_arith)
        requires
            px == 2 * x + rx,
    ;
    assert(py * py == 4 * (y * y) + 4 * (y * ry) + ry * ry) by (nonlinear_arith)
        requires
            py == 2 * y + ry,
    ;
    assert(oo * ww == oo * (w.x * w.x) + oo * (w.y * w.y)) by (nonlinear_arith)
        requires
            ww == w.x * w.x + w.y * w.y,
    ;
    let size = oo * ww;
    assert(4 * size == 4 * (n * vv) + 4 * (x * rx) + 4 * (y * ry) + rx * rx + ry * ry);
    assert(slack == oo * reach) by (nonlinear_arith)
        requires
            slack == o * far,
            far == o * reach,
            oo == o * o,
    ;
    // Above: 4 oo ww <= 4 oo vv + 8 oo reach + 2 oo.
    assert(2 * ww <= 2 * vv + 4 * reach + 1) by (nonlinear_arith)
        requires
            4 * (oo * ww) <= 4 * (oo * vv) + 8 * (oo * reach) + 2 * oo,
            oo > 0,
    ;
    // Below: 4 oo ww >= 4 (oo - 2 o) vv - 8 oo reach.
    assert((oo - 2 * o) * vv == o * (o * vv) - o * (2 * vv)) by (nonlinear_arith)
        requires
            oo == o * o,
    ;
    assert(o * vv <= o * ww + 2 * vv + 2 * (o * reach)) by (nonlinear_arith)
        requires
            oo * ww >= o * (o * vv) - o * (2 * vv) - 2 * (oo * reach),
            oo == o * o,
            o > 0,
    ;
    assert(2 * ONE * span(v) == 2 * (o * reach)) by (nonlinear_arith)
        requires
            o == ONE,
            reach == span(v),
    ;
}

/// The displacement turned counter-clockwise by the angle `a`, as wide integers.
pub(crate) fn turn(v: Offset, a: i128) -> (r: (i128, i128))
    requires
        -ANGLE_LIMIT <= a <= ANGLE_LIMIT,
        -REACH <= v.x <= REACH,
        -REACH <= v.y <= REACH,
    ensures
        r.0 == turned(v@, a as int).x,
        r.1 == turned(v@, a as int).y,
        -WIDE <= r.0 <= WIDE,
        -WIDE <= r.1 <= WIDE,
{
    let (c, s) = cos_sin(a);
    proof {
        lemma_turned_bound(c as int, s as int, v.x as int, v.y as int);
        lemma_mul_bound(c as int, v.x as int, ONE as int, REACH as int);
        lemma_mul_bound(s as int, v.y as int, ONE as int, REACH as int);
        lemma_mul_bound(s as int, v.x as int, ONE as int, REACH as int);
        lemma_mul_bound(c as int, v.y as int, ONE as int, REACH as int);
    }
    let x: i128 = div_round(c * (v.x as i128) - s * (v.y as i128), ONE);
    let y: i128 = div_round(s * (v.x as i128) + c * (v.y as i128), ONE);
    (x, y)
}

/// The grid point at `p` moved by wide components, if it lies in range.
pub(crate) fn shifted(p: &Point, x: i128, y: i128) -> (r: Result<Point, GeometryError>)
    requires
        -2 * WIDE <= x <= 2 * WIDE,
        -2 * WIDE <= y <= 2 * WIDE,
    ensures
        match r {
            Ok(q) => on_grid(moved(p@, Shift { x: x as int, y: y as int })) == Ok::<Pt, GeometryError>(q@)
                && q == Point::on(moved(p@, Shift { x: x as int, y: y as int })),
            Err(e) => on_grid(moved(p@, Shift { x: x as int, y: y as int })) == Err::<Pt, GeometryError>(e),
        },
{
    let px: i128 = (p.x() as i128) + x;
    let py: i128 = (p.y() as i128) + y;
    let lim: i128 = COORD_LIMIT as i128;
    if -lim <= px && px <= lim && -lim <= py && py <= lim {
        let q = Point::at(px as i64, py as i64);
        proof {
            q.lemma_on_view();
        }
        Ok(q)
    } else {
        Err(GeometryError::OutOfRange)
    }
}

impl Seg {
    /// The displacement of the given length to the right of the segment's direction.
    pub open spec fn rightward(self, num: int, den: int) -> Shift {
        stretched(self.end.y - self.start.y, self.start.x - self.end.x, num, den)
    }

    /// The displacement of the given length to the left of the segment's direction.
    pub open spec fn leftward(self, num: int, den: int) -> Shift {
        stretched(self.start.y - self.end.y, self.end.x - self.start.x, num, den)
    }

    /// The segment moved to its right by `num / den`, if both ends stay in range.
    pub open spec fn shifted_right(self, num: int, den: int) -> Result<Seg, GeometryError> {
        let v = self.rightward(num, den);
        if moved(self.start, v).in_range() && moved(self.end, v).in_range() {
            Ok(Seg { start: moved(self.start, v), end: moved(self.end, v) })
        } else {
            Err(GeometryError::OutOfRange)
        }
    }

    /// The cosine of the angle between the directions of two segments, in fixed point.
    pub open spec fn cos_between(self, other: Seg) -> int {
        let d = dot(
            Pt { x: 0, y: 0 },
            Pt { x: self.end.x - self.start.x, y: self.end.y - self.start.y },
            Pt { x: other.end.x - other.start.x, y: other.end.y - other.start.y },
        );
        div_nearest(d * ONE, floor_sqrt(self.len_sq() * other.len_sq()))
    }

    /// The angle between the directions of two segments, between nothing and half a turn.
    pub open spec fn angle_to(self, other: Seg) -> int {
        arc_cosine(self.cos_between(other))
    }
}

/// An edge is moved to its right squarely: the displacement is at right angles to the edge, as
/// nearly as the rounding of its components allows, and as long as asked, give or take two
/// grid steps and the part of the length that the rounded square root loses.
pub proof fn lemma_moved_squarely(s: Seg, num: int, den: int)
    requires
        s.start != s.end,
        0 <= num,
        1 <= den,
    ensures
        ({
            let v = s.rightward(num, den);
            let dx = s.end.x - s.start.x;
            let dy = s.end.y - s.start.y;
            let len = scaled_len(dy, -dx);
            let d = den * len;
            &&& 2 * abs(v.x * dx + v.y * dy) <= abs(dx) + abs(dy)
            &&& d * d * (v.x * v.x + v.y * v.y) <= (num * (len + 1) + d) * (num * (len + 1) + d)
            &&& num >= 4 * den ==> (num * len - 2 * d) * (num * len - 2 * d) <= d * d * (v.x * v.x + v.y
                * v.y)
        }),
{
    let dx = s.end.x - s.start.x;
    let dy = s.end.y - s.start.y;
    lemma_stretched_runs_along(dy, -dx, num, den);
    lemma_stretched_length(dy, -dx, num, den);
    let v = s.rightward(num, den);
    assert(v.x * (-dx) - v.y * dy == -(v.x * dx + v.y * dy)) by (nonlinear_arith);
}

impl Edge {
    /// The displacement of length `num / den` to the right of the edge.
    pub(crate) fn rightward(&self, num: i64, den: i64) -> (v: Offset)
        requires
            0 <= num <= SIZE_LIMIT,
            1 <= den <= 2,
        ensures
            v@ == self@.rightward(num as int, den as int),
            -REACH <= v.x <= REACH,
            -REACH <= v.y <= REACH,
    {
        proof {
            use_type_invariant(self);
        }
        let n = self.right();
        stretch(n.x, n.y, num, den)
    }

    /// The displacement of length `num / den` to the left of the edge.
    pub(crate) fn leftward(&self, num: i64, den: i64) -> (v: Offset)
        requires
            0 <= num <= SIZE_LIMIT,
            1 <= den <= 2,
        ensures
            v@ == self@.leftward(num as int, den as int),
            -REACH <= v.x <= REACH,
            -REACH <= v.y <= REACH,
    {
        proof {
            use_type_invariant(self);
        }
        let n = self.left();
        stretch(n.x, n.y, num, den)
    }

    /// The edge moved to its right by `distance`.
    ///
    /// Fails with `BadDimension` when the distance is negative or beyond `SIZE_LIMIT`, and with
    /// `OutOfRange` when an end leaves the coordinate range.
    pub fn translate_right(&self, distance: i64) -> (r: Result<Edge, GeometryError>)
        ensures
            match r {
                Ok(e) => 0 <= distance <= SIZE_LIMIT && self@.shifted_right(distance as int, 1) == Ok::<
                    Seg,
                    GeometryError,
                >(e@),
                Err(e) => if 0 <= distance <= SIZE_LIMIT {
                    self@.shifted_right(distance as int, 1) == Err::<Seg, GeometryError>(e)
                } else {
                    e == GeometryError::BadDimension
                },
            },
    {
        if distance < 0 || distance > SIZE_LIMIT {
            return Err(GeometryError::BadDimension);
        }
        self.shift_right(distance, 1)
    }

    /// The edge moved to its right by `num / den`.
    pub(crate) fn shift_right(&self, num: i64, den: i64) -> (r: Result<Edge, GeometryError>)
        requires
            0 <= num <= SIZE_LIMIT,
            1 <= den <= 2,
        ensures
            match r {
                Ok(e) => self@.shifted_right(num as int, den as int) == Ok::<Seg, GeometryError>(e@),
                Err(e) => self@.shifted_right(num as int, den as int) == Err::<Seg, GeometryError>(e),
            },
    {
        proof {
            use_type_invariant(self);
        }
        let v = self.rightward(num, den);
        let a = shifted(self.start(), v.x as i128, v.y as i128);
        let b = shifted(self.end(), v.x as i128, v.y as i128);
        match a {
            Ok(p) => match b {
                // Both ends moved by the same displacement, so they still do not coincide.
                Ok(q) => Ok(Edge::new(p, q).unwrap()),
                Err(e) => Err(e),
            },
            Err(e) => Err(e),
        }
    }

    /// The angle between the directions of the two edges, between nothing and half a turn,
    /// in fixed point.
    pub fn angle(&self, other: &Edge) -> (a: i128)
        ensures
            a == self@.angle_to(other@),
            0 <= a <= HALF_TURN,
    {
        let l1: i128 = dist_sq_of(self.start(), self.end());
        let l2: i128 = dist_sq_of(other.start(), other.end());
        let sdx: i64 = self.end().x() - self.start().x();
        let sdy: i64 = self.end().y() - self.start().y();
        let odx: i64 = other.end().x() - other.start().x();
        let ody: i64 = other.end().y() - other.start().y();
        proof {
            use_type_invariant(self);
            use_type_invariant(other);
            lemma_mul_bound(sdx as int, odx as int, 2 * COORD_LIMIT, 2 * COORD_LIMIT);
            lemma_mul_bound(sdy as int, ody as int, 2 * COORD_LIMIT, 2 * COORD_LIMIT);
            lemma_mul_bound(l1 as int, l2 as int, 576_460_752_303_423_488, 576_460_752_303_423_488);
            crate::geo::arith::lemma_nonzero_length(sdx as int, sdy as int);
            crate::geo::arith::lemma_nonzero_length(odx as int, ody as int);
            assert(l1 * l2 >= 1) by (nonlinear_arith)
                requires
                    l1 >= 1,
                    l2 >= 1,
            ;
        }
        let d: i128 = (sdx as i128) * (odx as i128) + (sdy as i128) * (ody as i128);
        let den: i128 = sqrt_floor((l1 * l2) as u128) as i128;
        proof {
            lemma_floor_sqrt_at_least(1, l1 * l2);
        }
        let c: i128 = div_round(d * ONE, den);
        angle_of_cosine(c)
    }
}

/// A length that is positive and at most `SIZE_LIMIT`.
pub open spec fn is_size(v: int) -> bool {
    0 < v <= SIZE_LIMIT
}

/// The number of segments of an arc of the angle `theta` with the radius `num / den`: the arc
/// length divided by the resolution, rounded up, and at least one.
pub open spec fn arc_segments(num: int, den: int, theta: int, resolution: int) -> int {
    let n = (num * theta + den * ONE * resolution - 1) / (den * ONE * resolution);
    if n < 1 {
        1
    } else {
        n
    }
}

/// The number of segments is at least one and at most a few billion.
pub proof fn lemma_arc_segments_bound(num: int, den: int, theta: int, resolution: int)
    requires
        0 <= num <= SIZE_LIMIT,
        1 <= den <= 2,
        0 <= theta <= FULL_TURN,
        is_size(resolution),
    ensures
        1 <= arc_segments(num, den, theta, resolution) <= 0x4_0000_0000,
{
    let d = den * ONE * resolution;
    let a = num * theta + d - 1;
    assert(d >= ONE) by (nonlinear_arith)
        requires
            d == den * ONE * resolution,
            den >= 1,
            resolution >= 1,
            ONE == 0x100_0000_0000_0000,
    ;
    assert(0 <= num * theta <= SIZE_LIMIT * FULL_TURN) by (nonlinear_arith)
        requires
            0 <= num <= SIZE_LIMIT,
            0 <= theta <= FULL_TURN,
    ;
    let q = a / d;
    vstd::arithmetic::div_mod::lemma_fundamental_div_mod(a, d);
    vstd::arithmetic::div_mod::lemma_mod_bound(a, d);
    assert(d * q <= a);
    if q > 0x4_0000_0000 {
        assert(d * q >= d * 0x4_0000_0001) by (nonlinear_arith)
            requires
                q >= 0x4_0000_0001,
                d >= 1,
        ;
        assert(d * 0x4_0000_0001 > num * theta + d) by (nonlinear_arith)
            requires
                d >= ONE,
                num * theta <= SIZE_LIMIT * FULL_TURN,
                ONE == 0x100_0000_0000_0000,
                SIZE_LIMIT == 1_073_741_824,
                FULL_TURN == 452_751_216_129_820_178,
        ;
    }
}

/// The number of segments is the least that keeps every segment of the arc within the
/// resolution: the arc length `num / den * theta / ONE`, shared out among them, is no more
/// than the resolution, and with one segment fewer it would be more, unless there is only one.
pub proof fn lemma_arc_segments_suffice(num: int, den: int, theta: int, resolution: int)
    requires
        0 <= num,
        1 <= den,
        0 <= theta,
        1 <= resolution,
    ensures
        num * theta <= arc_segments(num, den, theta, resolution) * (den * ONE * resolution),
        arc_segments(num, den, theta, resolution) > 1 ==> (arc_segments(num, den, theta, resolution) - 1) * (
        den * ONE * resolution) < num * theta,
{
    let d = den * ONE * resolution;
    let load = num * theta;
    let a = load + d - 1;
    let q = a / d;
    let n = arc_segments(num, den, theta, resolution);
    assert(d >= 1) by (nonlinear_arith)
        requires
            d == den * ONE * resolution,
            den >= 1,
            resolution >= 1,
            ONE == 0x100_0000_0000_0000,
    ;
    assert(load >= 0) by (nonlinear_arith)
        requires
            load == num * theta,
            num >= 0,
            theta >= 0,
    ;
    vstd::arithmetic::div_mod::lemma_fundamental_div_mod(a, d);
    vstd::arithmetic::div_mod::lemma_mod_bound(a, d);
    assert(q * d == d * q) by (nonlinear_arith);
    assert((q - 1) * d == q * d - d) by (nonlinear_arith);
    if q < 1 {
        assert(q * d <= 0) by (nonlinear_arith)
            requires
                q <= 0,
                d >= 1,
        ;
        assert(1 * d == d);
    }
}

/// The number of segments of an arc.
pub(crate) fn count_segments(num: i64, den: i64, theta: i128, resolution: i64) -> (n: u64)
    requires
        0 <= num <= SIZE_LIMIT,
        1 <= den <= 2,
        0 <= theta <= FULL_TURN,
        is_size(resolution as int),
    ensures
        n == arc_segments(num as int, den as int, theta as int, resolution as int),
        1 <= n <= 0x4_0000_0000,
{
    proof {
        lemma_arc_segments_bound(num as int, den as int, theta as int, resolution as int);
        assert(0 <= num * theta <= SIZE_LIMIT * FULL_TURN) by (nonlinear_arith)
            requires
                0 <= num <= SIZE_LIMIT,
                0 <= theta <= FULL_TURN,
        ;
        assert(ONE <= den * ONE * resolution <= 2 * ONE * SIZE_LIMIT) by (nonlinear_arith)
            requires
                1 <= den <= 2,
                1 <= resolution <= SIZE_LIMIT,
                ONE == 0x100_0000_0000_0000,
        ;
    }
    let d: i128 = (den as i128) * ONE * (resolution as i128);
    let a: i128 = (num as i128) * theta + d - 1;
    let q: i128 = a / d;
    if q < 1 {
        1
    } else {
        q as u64
    }
}

/// The angle of step `k` of `n` equal steps through the angle `a` stays within the angle limit.
pub proof fn lemma_step_angle(a: int, n: int, k: int)
    requires
        1 <= n <= 0x4_0000_0000,
        0 <= k <= n,
    ensures
        abs(k * div_nearest(a, n)) <= abs(a) + n,
{
    let q = div_nearest(a, n);
    lemma_div_nearest_close(a, n);
    assert(abs(k * q) <= abs(q) * n) by (nonlinear_arith)
        requires
            0 <= k <= n,
    ;
}

impl Seg {
    /// The point around which the arcs from the end of this segment turn: the point at the
    /// distance `num / den` to the left of the end.
    pub open spec fn pivot(self, num: int, den: int) -> Pt {
        moved(self.end, self.leftward(num, den))
    }

    /// Point `k` of the arc around the point to the left of the segment's end: the end itself
    /// turned by `k` steps around that point.
    pub open spec fn arc_point(self, num: int, den: int, step: int, k: int) -> Pt {
        let l = self.leftward(num, den);
        let t = turned(Shift { x: -l.x, y: -l.y }, k * step);
        moved(self.end, Shift { x: l.x + t.x, y: l.y + t.y })
    }

    /// The angle through which the arc from this segment to `other` turns: the angle between
    /// the two, counter-clockwise when `other` starts to the left and clockwise when it starts
    /// to the right.
    pub open spec fn turn_to(self, other: Seg) -> int {
        if self.turning(other.start) == Turning::Left {
            self.angle_to(other)
        } else {
            -self.angle_to(other)
        }
    }

    /// The points of the arc of radius `num / den` that leads from the end of this segment
    /// towards the start of `other`, if they all lie in range.
    ///
    /// When the start of `other` is collinear with this segment the arc has no side to turn
    /// to, and there is none.
    pub open spec fn arc(self, other: Seg, num: int, den: int, resolution: int) -> Result<Seq<Point>, GeometryError> {
        if !is_size(num) || !is_size(resolution) {
            Err(GeometryError::BadDimension)
        } else if self.turning(other.start) == Turning::Collinear {
            Err(GeometryError::NoTurn)
        } else {
            let a = self.turn_to(other);
            let n = arc_segments(num, den, self.angle_to(other), resolution);
            let step = div_nearest(a, n);
            if forall|k: int| 0 <= k <= n ==> (#[trigger] self.arc_point(num, den, step, k)).in_range() {
                Ok(Seq::new((n + 1) as nat, |k: int| Point::on(self.arc_point(num, den, step, k))))
            } else {
                Err(GeometryError::OutOfRange)
            }
        }
    }
}

/// Squares can be compared after a common positive factor is taken out of their roots.
proof fn lemma_scaled_squares(f: int, x: int, u: int)
    requires
        f >= 1,
    ensures
        (f * u) * (f * u) == (f * f) * (u * u),
        (f * f) * x <= (f * u) * (f * u) ==> x <= u * u,
        (f * u) * (f * u) <= (f * f) * x ==> u * u <= x,
{
    lemma_square_of_product(f, u);
    let ff = f * f;
    let uu = u * u;
    assert(ff >= 1) by (nonlinear_arith)
        requires
            f >= 1,
            ff == f * f,
    ;
    assert(ff * x <= ff * uu ==> x <= uu) by (nonlinear_arith)
        requires
            ff >= 1,
    ;
    assert(ff * uu <= ff * x ==> uu <= x) by (nonlinear_arith)
        requires
            ff >= 1,
    ;
}

/// The distance from `c` to `p` is `num / den`, give or take the tolerance.
pub open spec fn at_radius(c: Pt, p: Pt, num: int, den: int) -> bool {
    let far = dist_sq(c, p);
    &&& den * den * far <= (num + den * EPSILON) * (num + den * EPSILON)
    &&& num >= den * EPSILON ==> (num - den * EPSILON) * (num - den * EPSILON) <= den * den * far
}

/// The displacement the other way.
pub open spec fn opposite(v: Shift) -> Shift {
    Shift { x: -v.x, y: -v.y }
}

/// A point moved by a displacement that was stretched to the length `num / den`, taken
/// either way and turned by any angle, lies at that distance from where it was, within the
/// tolerance.
pub proof fn lemma_turned_stretch_radius(c: Pt, dx: int, dy: int, num: int, den: int, m: Shift, angle: int)
    requires
        dx != 0 || dy != 0,
        is_size(num),
        1 <= den <= 2,
        m == stretched(dx, dy, num, den) || m == opposite(stretched(dx, dy, num, den)),
    ensures
        at_radius(c, moved(c, turned(m, angle)), num, den),
{
    let l = stretched(dx, dy, num, den);
    let t = turned(m, angle);
    let far = dist_sq(c, moved(c, t));
    let tt = length_sq(t);
    let ll = length_sq(l);
    let a = span(l);
    assert(far == tt);
    assert(length_sq(m) == ll) by (nonlinear_arith)
        requires
            (m.x == -l.x && m.y == -l.y) || (m.x == l.x && m.y == l.y),
            ll == l.x * l.x + l.y * l.y,
    ;
    assert(span(m) == a);
    lemma_turned_length(m, angle);
    lemma_stretched_length(dx, dy, num, den);
    lemma_scaled_len(dx, dy);
    let len = scaled_len(dx, dy);
    lemma_stretched_bound(dx, num, den, len);
    lemma_stretched_bound(dy, num, den, len);
    assert(a <= 2 * num + 2);
    let d = den * len;
    let sized = den * den * ll;
    lemma_square_of_product(den, len);
    assert(d * d * ll == (len * len) * sized) by (nonlinear_arith)
        requires
            d * d == (den * den) * (len * len),
            sized == den * den * ll,
    ;
    // From above: the stretched displacement is no longer than asked, and a little.
    let u = num + den + 64;
    let top = num * (len + 1) + d;
    assert(0 <= top <= len * u) by (nonlinear_arith)
        requires
            top == num * (len + 1) + d,
            d == den * len,
            u == num + den + 64,
            len >= NORM,
            0 < num <= SIZE_LIMIT,
            1 <= den,
            NORM == 16_777_216,
            SIZE_LIMIT == 1_073_741_824,
    ;
    crate::geo::arith::lemma_square_monotone(top, len * u);
    lemma_scaled_squares(len, sized, u);
    assert(sized <= u * u);
    let scale = den * den;
    let slack = den * EPSILON;
    let grown = den * den * far;
    assert(scale == (if den == 1 { 1int } else { 4int })) by (nonlinear_arith)
        requires
            scale == den * den,
            1 <= den <= 2,
    ;
    assert(sized == (if den == 1 { ll } else { 4 * ll })) by (nonlinear_arith)
        requires
            sized == scale * ll,
            scale == (if den == 1 { 1int } else { 4int }),
    ;
    assert(grown == (if den == 1 { tt } else { 4 * tt })) by (nonlinear_arith)
        requires
            grown == scale * tt,
            scale == (if den == 1 { 1int } else { 4int }),
    ;
    assert(slack == (if den == 1 { 100int } else { 200int })) by (nonlinear_arith)
        requires
            slack == den * EPSILON,
            EPSILON == 100,
            1 <= den <= 2,
    ;
    if den == 1 {
        assert(u * u == num * num + 130 * num + 4225) by (nonlinear_arith)
            requires
                u == num + 65,
        ;
        assert((num + slack) * (num + slack) == num * num + 200 * num + 10000) by (nonlinear_arith)
            requires
                slack == 100,
        ;
    } else {
        assert(u * u == num * num + 132 * num + 4356) by (nonlinear_arith)
            requires
                u == num + 66,
        ;
        assert((num + slack) * (num + slack) == num * num + 400 * num + 40000) by (nonlinear_arith)
            requires
                slack == 200,
        ;
    }
    assert(grown <= (num + slack) * (num + slack));
    if num >= den * EPSILON {
        // From below: it is no shorter than asked, less two grid steps.
        let v = num - 2 * den;
        assert(num * len - 2 * d == len * v) by (nonlinear_arith)
            requires
                d == den * len,
                v == num - 2 * den,
        ;
        lemma_scaled_squares(len, sized, v);
        assert(v * v <= sized);
        crate::geo::arith::lemma_square_bound(l.x, num + 1);
        crate::geo::arith::lemma_square_bound(l.y, num + 1);
        assert((num + 1) * (num + 1) <= 1_152_921_506_754_330_625) by (nonlinear_arith)
            requires
                0 < num <= 1_073_741_824,
        ;
        assert(2 * ll <= 65 * ONE);
        assert(ll <= tt + 65 + 2 * a);
        if den == 1 {
            assert(v * v == num * num - 4 * num + 4) by (nonlinear_arith)
                requires
                    v == num - 2,
            ;
            assert((num - slack) * (num - slack) == num * num - 200 * num + 10000) by (nonlinear_arith)
                requires
                    slack == 100,
            ;
        } else {
            assert(v * v == num * num - 8 * num + 16) by (nonlinear_arith)
                requires
                    v == num - 4,
            ;
            assert((num - slack) * (num - slack) == num * num - 400 * num + 40000) by (nonlinear_arith)
                requires
                    slack == 200,
            ;
        }
        assert((num - slack) * (num - slack) <= grown);
    }
}

/// Every point of an arc lies at the arc's radius from the pivot, within the tolerance,
/// whatever the step and the number of the point.
pub proof fn lemma_arc_point_radius(s: Seg, num: int, den: int, step: int, k: int)
    requires
        s.start != s.end,
        is_size(num),
        1 <= den <= 2,
    ensures
        at_radius(s.pivot(num, den), s.arc_point(num, den, step, k), num, den),
{
    let l = s.leftward(num, den);
    lemma_turned_stretch_radius(
        s.pivot(num, den),
        s.start.y - s.end.y,
        s.end.x - s.start.x,
        num,
        den,
        opposite(l),
        k * step,
    );
}

/// The points of an arc all lie at its radius from the pivot, within the tolerance.
pub proof fn lemma_arc_radius(s: Seg, other: Seg, num: int, den: int, resolution: int)
    requires
        s.start != s.end,
        1 <= den <= 2,
    ensures
        s.arc(other, num, den, resolution) matches Ok(points) ==> forall|i: int|
            0 <= i < points.len() ==> at_radius(s.pivot(num, den), (#[trigger] points[i])@, num, den),
{
    if let Ok(points) = s.arc(other, num, den, resolution) {
        let n = arc_segments(num, den, s.angle_to(other), resolution);
        let step = div_nearest(s.turn_to(other), n);
        assert forall|i: int| 0 <= i < points.len() implies at_radius(
            s.pivot(num, den),
            (#[trigger] points[i])@,
            num,
            den,
        ) by {
            let p = s.arc_point(num, den, step, i);
            assert(p.in_range());
            Point::lemma_view_on(p);
            lemma_arc_point_radius(s, num, den, step, i);
        }
    }
}

/// An arc starts at the end of the segment it leads away from.
pub proof fn lemma_arc_starts_at_end(s: Seg, num: int, den: int, step: int)
    ensures
        s.arc_point(num, den, step, 0) == s.end,
{
    let l = s.leftward(num, den);
    assert(0 * step == 0) by (nonlinear_arith);
    lemma_turned_by_nothing(Shift { x: -l.x, y: -l.y });
}

impl Edge {
    /// The points of the arc of the given step that starts at the end of the edge, appended
    /// to `out`; stops at the first point out of range.
    fn lay_arc(&self, num: i64, den: i64, a: i128, n: u64, out: &mut Vec<Point>) -> (r: Result<(), GeometryError>)
        requires
            0 <= num <= SIZE_LIMIT,
            1 <= den <= 2,
            -HALF_TURN <= a <= HALF_TURN,
            1 <= n <= 0x4_0000_0000,
        ensures
            match r {
                Ok(_) => (forall|k: int|
                    0 <= k <= n ==> (#[trigger] self@.arc_point(
                        num as int,
                        den as int,
                        div_nearest(a as int, n as int),
                        k,
                    )).in_range()) && final(out)@ == old(out)@ + Seq::new(
                    (n + 1) as nat,
                    |k: int|
                        Point::on(
                            self@.arc_point(num as int, den as int, div_nearest(a as int, n as int), k),
                        ),
                ),
                Err(e) => e == GeometryError::OutOfRange && !(forall|k: int|
                    0 <= k <= n ==> (#[trigger] self@.arc_point(
                        num as int,
                        den as int,
                        div_nearest(a as int, n as int),
                        k,
                    )).in_range()),
            },
    {
        let step: i128 = div_round(a, n as i128);
        let l = self.leftward(num, den);
        let back = Offset { x: -l.x, y: -l.y };
        let ghost base = out@;
        let ghost goal = Seq::new(
            (n + 1) as nat,
            |k: int| Point::on(self@.arc_point(num as int, den as int, step as int, k)),
        );
        let mut k: u64 = 0;
        while k <= n
            invariant
                k <= n + 1,
                1 <= n <= 0x4_0000_0000,
                -HALF_TURN <= a <= HALF_TURN,
                step == div_nearest(a as int, n as int),
                goal.len() == n + 1,
                forall|j: int|
                    0 <= j <= n ==> #[trigger] goal[j] == Point::on(
                        self@.arc_point(num as int, den as int, step as int, j),
                    ),
                l@ == self@.leftward(num as int, den as int),
                back@ == (Shift { x: -l@.x, y: -l@.y }),
                -REACH <= l.x <= REACH,
                -REACH <= l.y <= REACH,
                forall|j: int|
                    0 <= j < k ==> (#[trigger] self@.arc_point(num as int, den as int, step as int, j)).in_range(),
                out@ == base + goal.subrange(0, k as int),
            decreases n + 1 - k,
        {
            proof {
                lemma_step_angle(a as int, n as int, k as int);
            }
            let angle: i128 = (k as i128) * step;
            let (tx, ty) = turn(back, angle);
            match shifted(self.end(), (l.x as i128) + tx, (l.y as i128) + ty) {
                Ok(p) => {
                    out.push(p);
                    assert(goal.subrange(0, k + 1) =~= goal.subrange(0, k as int).push(goal[k as int]));
                },
                Err(_) => {
                    assert(!self@.arc_point(num as int, den as int, step as int, k as int).in_range());
                    return Err(GeometryError::OutOfRange);
                },
            }
            k += 1;
        }
        assert(goal.subrange(0, (n + 1) as int) =~= goal);
        Ok(())
    }

    /// The points of the arc of radius `num / den` from the end of this edge towards the
    /// start of `other`, appended to `out`.
    pub(crate) fn arc_into(&self, other: &Edge, num: i64, den: i64, resolution: i64, out: &mut Vec<Point>) -> (r:
        Result<(), GeometryError>)
        requires
            1 <= den <= 2,
        ensures
            match r {
                Ok(_) => self@.arc(other@, num as int, den as int, resolution as int) is Ok && final(out)@
                    == old(out)@ + self@.arc(other@, num as int, den as int, resolution as int)->Ok_0,
                Err(e) => self@.arc(other@, num as int, den as int, resolution as int) == Err::<
                    Seq<Point>,
                    GeometryError,
                >(e),
            },
    {
        if num <= 0 || num > SIZE_LIMIT || resolution <= 0 || resolution > SIZE_LIMIT {
            return Err(GeometryError::BadDimension);
        }
        let t = self.turning(other.start());
        match t {
            Turning::Collinear => Err(GeometryError::NoTurn),
            _ => {
                let theta = self.angle(other);
                let a: i128 = if t == Turning::Left {
                    theta
                } else {
                    -theta
                };
                let n = count_segments(num, den, theta, resolution);
                self.lay_arc(num, den, a, n, out)
            },
        }
    }

    /// Finds the points that smoothly connect the end of this edge to the start of `other`
    /// around the point at distance `radius` to the left of this edge's end. Every one of them
    /// lies at that distance from that point, within the tolerance.
    ///
    /// Fails with `BadDimension` unless the radius and the resolution are positive and within
    /// the size limit, with `NoTurn` when the start of `other` is collinear with this edge, and
    /// with `OutOfRange` when a point of the arc leaves the coordinate range.
    pub fn find_arc(&self, other: &Edge, radius: i64, resolution: i64) -> (r: Result<Vec<Point>, GeometryError>)
        ensures
            match r {
                Ok(points) => self@.arc(other@, radius as int, 1, resolution as int) == Ok::<
                    Seq<Point>,
                    GeometryError,
                >(points@),
                Err(e) => self@.arc(other@, radius as int, 1, resolution as int) == Err::<
                    Seq<Point>,
                    GeometryError,
                >(e),
            },
            r matches Ok(points) ==> forall|i: int|
                0 <= i < points.len() ==> at_radius(
                    self@.pivot(radius as int, 1),
                    (#[trigger] points[i])@,
                    radius as int,
                    1,
                ),
    {
        let mut out: Vec<Point> = Vec::new();
        match self.arc_into(other, radius, 1, resolution, &mut out) {
            Ok(_) => {
                assert(out@ =~= self@.arc(other@, radius as int, 1, resolution as int)->Ok_0);
                proof {
                    use_type_invariant(self);
                    lemma_arc_radius(self@, other@, radius as int, 1, resolution as int);
                }
                Ok(out)
            },
            Err(e) => Err(e),
        }
    }
}

} // verus!
