//! The point where the lines through two edges meet.

use crate::geo::arith::{abs, div_nearest, div_round, lemma_mul_bound, magnitude};
use crate::geo::arith::lemma_div_nearest_close;
use crate::geo::edge::{Edge, Seg, Turning};
use crate::geo::{cross_of, dist_sq_of, dot_of, near, Point, Pt, COORD_LIMIT, EPSILON, SCALE};
use vstd::prelude::*;

verus! {

/// Why a point, an edge or an outline cannot be computed.
#[derive(Clone, Copy, Debug, PartialEq, Eq, Structural)]
pub enum GeometryError {
    /// Two lines are parallel and do not lie on each other.
    Parallel,
    /// A point lies outside the coordinate range.
    OutOfRange,
    /// A radius, a distance or a resolution that is not positive or is beyond the size limit.
    BadDimension,
    /// Two neighbouring points coincide, so there is no edge between them.
    ZeroLengthEdge,
    /// An arc was asked for where the next edge starts on the line of the edge before it: the
    /// arc has no side to turn to.
    NoTurn,
}

/// `n / d` rounded to the nearest integer, for a divisor of either sign.
pub open spec fn ratio(n: int, d: int) -> int {
    if d > 0 {
        div_nearest(n, d)
    } else {
        div_nearest(-n, -d)
    }
}

/// The grid point nearest to the middle between `a` and `b`.
pub open spec fn midpoint(a: Pt, b: Pt) -> Pt {
    Pt { x: div_nearest(a.x + b.x, 2), y: div_nearest(a.y + b.y, 2) }
}

/// The point itself if it lies within the coordinate range.
pub open spec fn on_grid(p: Pt) -> Result<Pt, GeometryError> {
    if p.in_range() {
        Ok(p)
    } else {
        Err(GeometryError::OutOfRange)
    }
}

impl Seg {
    /// Extent along the first axis.
    pub open spec fn dx(self) -> int {
        self.end.x - self.start.x
    }

    /// Extent along the second axis.
    pub open spec fn dy(self) -> int {
        self.end.y - self.start.y
    }

    /// Horizontal within the tolerance.
    pub open spec fn is_flat(self) -> bool {
        near(self.dy(), 0)
    }

    /// Vertical within the tolerance.
    pub open spec fn is_steep(self) -> bool {
        near(self.dx(), 0)
    }

    /// `p` is strictly closer to the segment than `q` is.
    pub open spec fn closer(self, p: Pt, q: Pt) -> bool {
        self.dist_num(p) * self.dist_den(q) < self.dist_num(q) * self.dist_den(p)
    }

    /// The end of `of` that is closer to this segment; its far end when neither is closer.
    pub open spec fn nearest_end(self, of: Seg) -> Pt {
        if self.closer(of.start, of.end) {
            of.start
        } else {
            of.end
        }
    }

    /// Middle between the ends of the two segments that are closest to the other segment.
    pub open spec fn closest_center(self, other: Seg) -> Pt {
        midpoint(other.nearest_end(self), self.nearest_end(other))
    }

    /// The slopes differ by less than a thousandth; neither segment may be vertical.
    pub open spec fn slopes_agree(self, other: Seg) -> bool {
        abs(self.dy() * other.dx() - other.dy() * self.dx()) * SCALE < EPSILON * abs(
            self.dx() * other.dx(),
        )
    }

    /// The lines meet the second axis within the tolerance of each other; neither segment may
    /// be vertical.
    pub open spec fn intercepts_agree(self, other: Seg) -> bool {
        abs(
            (self.start.y * self.dx() - self.start.x * self.dy()) * other.dx() - (other.start.y
                * other.dx() - other.start.x * other.dy()) * self.dx(),
        ) < EPSILON * abs(self.dx() * other.dx())
    }

    /// Ordinate of the segment's line at abscissa `x`, rounded to the grid; the segment must
    /// not be vertical.
    pub open spec fn line_y_at(self, x: int) -> int {
        self.start.y + ratio((x - self.start.x) * self.dy(), self.dx())
    }

    /// Meeting point of two lines that are not parallel, each coordinate rounded to the grid:
    /// `start + t * (end - start)` with `t` the quotient of two cross products.
    pub open spec fn crossing_point(self, other: Seg) -> Pt {
        let t = -other.side(self.start);
        let d = self.dy() * other.dx() - other.dy() * self.dx();
        Pt {
            x: self.start.x + ratio(self.dx() * t, d),
            y: self.start.y + ratio(self.dy() * t, d),
        }
    }

    /// Where the infinite lines through the two segments meet.
    ///
    /// Two horizontal, two vertical or two equally sloped lines meet only if they lie on each
    /// other within the tolerance, and then the answer is the closest center; otherwise the
    /// answer is the computed meeting point, provided it lies within the coordinate range.
    pub open spec fn intersection(self, other: Seg) -> Result<Pt, GeometryError> {
        if self.is_flat() && other.is_flat() {
            if near(self.start.y, other.start.y) {
                Ok(self.closest_center(other))
            } else {
                Err(GeometryError::Parallel)
            }
        } else if self.is_steep() && other.is_steep() {
            if near(self.start.x, other.start.x) {
                Ok(self.closest_center(other))
            } else {
                Err(GeometryError::Parallel)
            }
        } else if self.is_steep() {
            on_grid(Pt { x: self.start.x, y: other.line_y_at(self.start.x) })
        } else if other.is_steep() {
            on_grid(Pt { x: other.start.x, y: self.line_y_at(other.start.x) })
        } else if self.slopes_agree(other) {
            if self.intercepts_agree(other) {
                Ok(self.closest_center(other))
            } else {
                Err(GeometryError::Parallel)
            }
        } else {
            on_grid(self.crossing_point(other))
        }
    }
}

/// Twice a rounded quotient times its divisor is within the divisor of twice the dividend.
pub proof fn lemma_ratio_close(n: int, d: int)
    requires
        d != 0,
    ensures
        abs(2 * (ratio(n, d) * d) - 2 * n) <= abs(d),
{
    let q = ratio(n, d);
    if d > 0 {
        lemma_div_nearest_close(n, d);
        assert(2 * q * d == 2 * (q * d)) by (nonlinear_arith);
    } else {
        lemma_div_nearest_close(-n, -d);
        assert(2 * q * (-d) - 2 * (-n) == -(2 * (q * d) - 2 * n)) by (nonlinear_arith);
    }
}

/// The meeting point of two lines that are not parallel lies on both lines, as nearly as the
/// rounding of its coordinates allows: its cross product with either segment is no more than
/// half the sum of that segment's extents.
pub proof fn lemma_crossing_point_on_both_lines(s: Seg, o: Seg)
    requires
        s.dy() * o.dx() - o.dy() * s.dx() != 0,
    ensures
        2 * abs(s.side(s.crossing_point(o))) <= abs(s.dx()) + abs(s.dy()),
        2 * abs(o.side(s.crossing_point(o))) <= abs(o.dx()) + abs(o.dy()),
{
    let t = -o.side(s.start);
    let d = s.dy() * o.dx() - o.dy() * s.dx();
    let sdx = s.dx();
    let sdy = s.dy();
    let odx = o.dx();
    let ody = o.dy();
    let qx = ratio(sdx * t, d);
    let qy = ratio(sdy * t, d);
    let p = s.crossing_point(o);
    lemma_ratio_close(sdx * t, d);
    lemma_ratio_close(sdy * t, d);
    let rx = 2 * (qx * d) - 2 * (sdx * t);
    let ry = 2 * (qy * d) - 2 * (sdy * t);
    let ad = abs(d);

    // On the line through `s`: the point is the start moved by `(qx, qy)`.
    let cs = sdx * qy - sdy * qx;
    assert(s.side(p) == cs) by (nonlinear_arith)
        requires
            s.side(p) == sdx * (p.y - s.start.y) - sdy * (p.x - s.start.x),
            p.x == s.start.x + qx,
            p.y == s.start.y + qy,
            cs == sdx * qy - sdy * qx,
    ;
    assert(sdx * ry == 2 * (d * (sdx * qy)) - 2 * (sdx * (sdy * t))) by (nonlinear_arith)
        requires
            ry == 2 * (qy * d) - 2 * (sdy * t),
    ;
    assert(sdy * rx == 2 * (d * (sdy * qx)) - 2 * (sdx * (sdy * t))) by (nonlinear_arith)
        requires
            rx == 2 * (qx * d) - 2 * (sdx * t),
    ;
    assert(d * cs == d * (sdx * qy) - d * (sdy * qx)) by (nonlinear_arith)
        requires
            cs == sdx * qy - sdy * qx,
    ;
    assert(2 * (d * cs) == sdx * ry - sdy * rx);
    lemma_small_cross(d, cs, sdx, sdy, ry, rx);

    // On the line through `o`: the exact meeting point lies on it, and the rounding moves the
    // point by no more than half a step along either axis.
    let co = odx * qy - ody * qx;
    let base = o.side(s.start);
    assert(o.side(p) == base + co) by (nonlinear_arith)
        requires
            o.side(p) == odx * (p.y - o.start.y) - ody * (p.x - o.start.x),
            base == odx * (s.start.y - o.start.y) - ody * (s.start.x - o.start.x),
            p.x == s.start.x + qx,
            p.y == s.start.y + qy,
            co == odx * qy - ody * qx,
    ;
    assert(odx * ry == 2 * (d * (odx * qy)) - 2 * (t * (odx * sdy))) by (nonlinear_arith)
        requires
            ry == 2 * (qy * d) - 2 * (sdy * t),
    ;
    assert(ody * rx == 2 * (d * (ody * qx)) - 2 * (t * (ody * sdx))) by (nonlinear_arith)
        requires
            rx == 2 * (qx * d) - 2 * (sdx * t),
    ;
    assert(d * co == d * (odx * qy) - d * (ody * qx)) by (nonlinear_arith)
        requires
            co == odx * qy - ody * qx,
    ;
    assert(t * d == t * (odx * sdy) - t * (ody * sdx)) by (nonlinear_arith)
        requires
            d == sdy * odx - ody * sdx,
    ;
    let whole = base + co;
    assert(d * whole == d * base + d * co) by (nonlinear_arith)
        requires
            whole == base + co,
    ;
    assert(d * base == -(t * d)) by (nonlinear_arith)
        requires
            t == -base,
    ;
    assert(2 * (d * whole) == odx * ry - ody * rx);
    lemma_small_cross(d, whole, odx, ody, ry, rx);
}

/// The point of a line at a given abscissa lies on the line, as nearly as the rounding of its
/// ordinate allows.
pub proof fn lemma_line_y_on_line(o: Seg, x: int)
    requires
        o.dx() != 0,
    ensures
        2 * abs(o.side(Pt { x, y: o.line_y_at(x) })) <= abs(o.dx()),
{
    let n = (x - o.start.x) * o.dy();
    let q = ratio(n, o.dx());
    lemma_ratio_close(n, o.dx());
    let p = Pt { x, y: o.line_y_at(x) };
    assert(o.side(p) == q * o.dx() - n) by (nonlinear_arith)
        requires
            o.side(p) == o.dx() * (p.y - o.start.y) - o.dy() * (p.x - o.start.x),
            p.x == x,
            p.y == o.start.y + q,
            n == (x - o.start.x) * o.dy(),
    ;
}

/// A point whose cross product with a segment is no more than half the sum of the segment's
/// extents is classified collinear with it.
pub proof fn lemma_small_side_is_collinear(s: Seg, p: Pt)
    requires
        s.start != s.end,
        2 * abs(s.side(p)) <= abs(s.dx()) + abs(s.dy()),
    ensures
        s.hugs(p),
        s.turning(p) == Turning::Collinear,
{
    let c = abs(s.side(p));
    let dx = abs(s.dx());
    let dy = abs(s.dy());
    let l = s.len_sq();
    assert(l == dx * dx + dy * dy) by (nonlinear_arith)
        requires
            l == (s.end.x - s.start.x) * (s.end.x - s.start.x) + (s.end.y - s.start.y) * (s.end.y
                - s.start.y),
            dx == abs(s.end.x - s.start.x),
            dy == abs(s.end.y - s.start.y),
    ;
    assert(l >= 1) by (nonlinear_arith)
        requires
            l == dx * dx + dy * dy,
            dx >= 1 || dy >= 1,
            dx >= 0,
            dy >= 0,
    ;
    assert(4 * (c * c) <= 2 * l) by (nonlinear_arith)
        requires
            0 <= 2 * c <= dx + dy,
            l == dx * dx + dy * dy,
    ;
    assert(s.side(p) * s.side(p) == c * c) by (nonlinear_arith)
        requires
            c == abs(s.side(p)),
    ;
    assert(EPSILON * EPSILON * l == 10_000 * l);
}

/// Where two lines are told apart by their slopes, the point where they meet is classified
/// collinear with both segments. Where one of them is vertical within the tolerance, the
/// point is classified collinear with the other.
pub proof fn lemma_intersection_is_collinear(s: Seg, o: Seg)
    requires
        s.start != s.end,
        o.start != o.end,
        !(s.is_flat() && o.is_flat()),
        !(s.is_steep() && o.is_steep()),
    ensures
        s.intersection(o) matches Ok(p) ==> {
            &&& !s.is_steep() && !o.is_steep() && !s.slopes_agree(o) ==> s.turning(p)
                == Turning::Collinear && o.turning(p) == Turning::Collinear
            &&& s.is_steep() ==> o.turning(p) == Turning::Collinear
            &&& o.is_steep() ==> s.turning(p) == Turning::Collinear
        },
{
    if let Ok(p) = s.intersection(o) {
        if s.is_steep() {
            lemma_line_y_on_line(o, s.start.x);
            lemma_small_side_is_collinear(o, p);
        } else if o.is_steep() {
            lemma_line_y_on_line(s, o.start.x);
            lemma_small_side_is_collinear(s, p);
        } else if !s.slopes_agree(o) {
            let d = s.dy() * o.dx() - o.dy() * s.dx();
            assert(d != 0) by (nonlinear_arith)
                requires
                    abs(d) * SCALE >= EPSILON * abs(s.dx() * o.dx()),
                    s.dx() != 0,
                    o.dx() != 0,
                    SCALE == 100_000,
                    EPSILON == 100,
            ;
            lemma_crossing_point_on_both_lines(s, o);
            lemma_small_side_is_collinear(s, p);
            lemma_small_side_is_collinear(o, p);
        }
    }
}

/// A number whose double, times `d`, is a cross product with residues no larger than `d` is
/// itself no larger than half the sum of the extents.
proof fn lemma_small_cross(d: int, c: int, dx: int, dy: int, ry: int, rx: int)
    requires
        d != 0,
        2 * (d * c) == dx * ry - dy * rx,
        abs(rx) <= abs(d),
        abs(ry) <= abs(d),
    ensures
        2 * abs(c) <= abs(dx) + abs(dy),
{
    let ad = abs(d);
    assert(abs(dx * ry) <= ad * abs(dx)) by (nonlinear_arith)
        requires
            abs(ry) <= ad,
    ;
    assert(abs(dy * rx) <= ad * abs(dy)) by (nonlinear_arith)
        requires
            abs(rx) <= ad,
    ;
    assert(abs(d * c) == ad * abs(c)) by (nonlinear_arith)
        requires
            ad == abs(d),
    ;
    assert(ad * (2 * abs(c)) <= ad * abs(dx) + ad * abs(dy)) by (nonlinear_arith)
        requires
            2 * (ad * abs(c)) <= ad * abs(dx) + ad * abs(dy),
    ;
    assert(2 * abs(c) <= abs(dx) + abs(dy)) by (nonlinear_arith)
        requires
            ad * (2 * abs(c)) <= ad * abs(dx) + ad * abs(dy),
            ad >= 1,
    ;
}

/// Quotient rounded to nearest for a non-zero divisor of either sign.
fn ratio_of(n: i128, d: i128) -> (r: i128)
    requires
        d != 0,
        -0x1000_0000_0000_0000_0000_0000_0000_0000 <= d <= 0x1000_0000_0000_0000_0000_0000_0000_0000,
        -0x1000_0000_0000_0000_0000_0000_0000_0000 <= n <= 0x1000_0000_0000_0000_0000_0000_0000_0000,
    ensures
        r == ratio(n as int, d as int),
        -0x1000_0000_0000_0000_0000_0000_0000_0000 - 1 <= r <= 0x1000_0000_0000_0000_0000_0000_0000_0000 + 1,
{
    let q: i128 = if d > 0 {
        div_round(n, d)
    } else {
        div_round(-n, -d)
    };
    proof {
        lemma_ratio_bound(n as int, d as int);
    }
    q
}

/// Rounded division never grows the magnitude of the numerator by more than one.
proof fn lemma_ratio_bound(n: int, d: int)
    requires
        d != 0,
    ensures
        -abs(n) - 1 <= ratio(n, d) <= abs(n) + 1,
{
    let (m, e) = if d > 0 {
        (n, d)
    } else {
        (-n, -d)
    };
    let q = (2 * m + e) / (2 * e);
    vstd::arithmetic::div_mod::lemma_fundamental_div_mod(2 * m + e, 2 * e);
    vstd::arithmetic::div_mod::lemma_mod_bound(2 * m + e, 2 * e);
    let r = (2 * m + e) % (2 * e);
    assert(2 * m + e == (2 * e) * q + r);
    assert(q <= abs(m) + 1) by (nonlinear_arith)
        requires
            2 * m + e == (2 * e) * q + r,
            0 <= r < 2 * e,
            e >= 1,
    ;
    assert(q >= -abs(m) - 1) by (nonlinear_arith)
        requires
            2 * m + e == (2 * e) * q + r,
            0 <= r < 2 * e,
            e >= 1,
    ;
}

/// A grid point from wide coordinates, if they are in range.
fn point_from_wide(x: i128, y: i128) -> (r: Result<Point, GeometryError>)
    ensures
        match r {
            Ok(p) => on_grid(Pt { x: x as int, y: y as int }) == Ok::<Pt, GeometryError>(p@),
            Err(e) => on_grid(Pt { x: x as int, y: y as int }) == Err::<Pt, GeometryError>(e),
        },
{
    let lim: i128 = COORD_LIMIT as i128;
    if -lim <= x && x <= lim && -lim <= y && y <= lim {
        match Point::new(x as i64, y as i64) {
            Some(p) => Ok(p),
            None => Err(GeometryError::OutOfRange),
        }
    } else {
        Err(GeometryError::OutOfRange)
    }
}

/// The grid point nearest to the middle between two grid points.
fn midpoint_of(a: &Point, b: &Point) -> (r: Point)
    ensures
        r@ == midpoint(a@, b@),
{
    let sx: i128 = (a.x() as i128) + (b.x() as i128);
    let sy: i128 = (a.y() as i128) + (b.y() as i128);
    let mx: i128 = div_round(sx, 2);
    let my: i128 = div_round(sy, 2);
    assert(mx == (2 * sx + 2) / 4);
    assert(my == (2 * sy + 2) / 4);
    Point::at(mx as i64, my as i64)
}

/// Whether `p` is strictly closer than `q` to the segment from `a` to `b`.
fn closer_of(a: &Point, b: &Point, p: &Point, q: &Point) -> (r: bool)
    ensures
        r == (Seg { start: a@, end: b@ }).closer(p@, q@),
{
    let c2: i128 = dist_sq_of(a, b);
    let (np, fp) = dist_parts(a, b, p);
    let (nq, fq) = dist_parts(a, b, q);
    if fp == fq {
        proof {
            if fp {
                assert((np * c2 < nq * c2) == (np < nq)) by (nonlinear_arith)
                    requires
                        c2 > 0,
                ;
            }
        }
        np < nq
    } else if fp {
        proof {
            lemma_mul_bound(nq as int, c2 as int, 576_460_752_303_423_488, 576_460_752_303_423_488);
        }
        np < nq * c2
    } else {
        proof {
            lemma_mul_bound(np as int, c2 as int, 576_460_752_303_423_488, 576_460_752_303_423_488);
        }
        np * c2 < nq
    }
}

/// Numerator of the squared distance from `p` to the segment from `a` to `b`, and whether the
/// denominator is the squared length rather than one.
fn dist_parts(a: &Point, b: &Point, p: &Point) -> (r: (i128, bool))
    ensures
        r.0 == (Seg { start: a@, end: b@ }).dist_num(p@),
        (Seg { start: a@, end: b@ }).dist_den(p@) == if r.1 {
            dist_sq(a@, b@)
        } else {
            1
        },
        r.1 ==> dist_sq(a@, b@) > 0,
        0 <= r.0,
        !r.1 ==> r.0 <= 576_460_752_303_423_488,
        r.0 <= 576_460_752_303_423_488 * 576_460_752_303_423_488,
{
    let c1: i128 = dot_of(a, b, p);
    let c2: i128 = dist_sq_of(a, b);
    if c1 <= 0 {
        (dist_sq_of(a, p), false)
    } else if c1 >= c2 {
        (dist_sq_of(b, p), false)
    } else {
        let s: i128 = cross_of(a, b, p);
        proof {
            crate::geo::arith::lemma_product_square(s as int);
        }
        (s * s, true)
    }
}

use crate::geo::dist_sq;

impl Edge {
    /// Middle between the ends of the two edges that are closest to the other edge.
    fn closest_center(&self, other: &Edge) -> (r: Point)
        ensures
            r@ == self@.closest_center(other@),
    {
        let mine: &Point = if closer_of(other.start(), other.end(), self.start(), self.end()) {
            self.start()
        } else {
            self.end()
        };
        let theirs: &Point = if closer_of(self.start(), self.end(), other.start(), other.end()) {
            other.start()
        } else {
            other.end()
        };
        midpoint_of(mine, theirs)
    }

    /// Finds the point where the lines through `self` and `other` meet.
    ///
    /// Fails with `Parallel` when the lines are parallel without lying on each other, and with
    /// `OutOfRange` when the meeting point is not representable.
    pub fn find_intersection(&self, other: &Edge) -> (r: Result<Point, GeometryError>)
        ensures
            match r {
                Ok(p) => self@.intersection(other@) == Ok::<Pt, GeometryError>(p@),
                Err(e) => self@.intersection(other@) == Err::<Pt, GeometryError>(e),
            },
    {
        let sx0: i128 = self.start().x() as i128;
        let sy0: i128 = self.start().y() as i128;
        let ox0: i128 = other.start().x() as i128;
        let oy0: i128 = other.start().y() as i128;
        let sdx: i128 = (self.end().x() as i128) - sx0;
        let sdy: i128 = (self.end().y() as i128) - sy0;
        let odx: i128 = (other.end().x() as i128) - ox0;
        let ody: i128 = (other.end().y() as i128) - oy0;
        let e: i128 = EPSILON as i128;
        let s_flat = -e < sdy && sdy < e;
        let o_flat = -e < ody && ody < e;
        let s_steep = -e < sdx && sdx < e;
        let o_steep = -e < odx && odx < e;

        if s_flat && o_flat {
            let gap: i128 = sy0 - oy0;
            if -e < gap && gap < e {
                return Ok(self.closest_center(other));
            }
            return Err(GeometryError::Parallel);
        }
        if s_steep && o_steep {
            let gap: i128 = sx0 - ox0;
            if -e < gap && gap < e {
                return Ok(self.closest_center(other));
            }
            return Err(GeometryError::Parallel);
        }
        if s_steep {
            proof {
                lemma_mul_bound((sx0 - ox0) as int, ody as int, 2 * COORD_LIMIT, 2 * COORD_LIMIT);
            }
            let y: i128 = oy0 + ratio_of((sx0 - ox0) * ody, odx);
            return point_from_wide(sx0, y);
        }
        if o_steep {
            proof {
                lemma_mul_bound((ox0 - sx0) as int, sdy as int, 2 * COORD_LIMIT, 2 * COORD_LIMIT);
            }
            let y: i128 = sy0 + ratio_of((ox0 - sx0) * sdy, sdx);
            return point_from_wide(ox0, y);
        }
        proof {
            lemma_mul_bound(sdy as int, odx as int, 2 * COORD_LIMIT, 2 * COORD_LIMIT);
            lemma_mul_bound(ody as int, sdx as int, 2 * COORD_LIMIT, 2 * COORD_LIMIT);
            lemma_mul_bound(sdx as int, odx as int, 2 * COORD_LIMIT, 2 * COORD_LIMIT);
        }
        let d: i128 = sdy * odx - ody * sdx;
        let w: i128 = sdx * odx;
        let d_abs: u128 = magnitude(d);
        let w_abs: u128 = magnitude(w);
        assert(w_abs <= 0x400_0000_0000_0000);
        assert(w != 0) by (nonlinear_arith)
            requires
                w == sdx * odx,
                sdx != 0,
                odx != 0,
        ;
        if d_abs * (SCALE as u128) < (EPSILON as u128) * w_abs {
            proof {
                lemma_mul_bound(sy0 as int, sdx as int, COORD_LIMIT as int, 2 * COORD_LIMIT);
                lemma_mul_bound(sx0 as int, sdy as int, COORD_LIMIT as int, 2 * COORD_LIMIT);
                lemma_mul_bound(oy0 as int, odx as int, COORD_LIMIT as int, 2 * COORD_LIMIT);
                lemma_mul_bound(ox0 as int, ody as int, COORD_LIMIT as int, 2 * COORD_LIMIT);
            }
            let si: i128 = sy0 * sdx - sx0 * sdy;
            let oi: i128 = oy0 * odx - ox0 * ody;
            proof {
                lemma_mul_bound(si as int, odx as int, 4 * COORD_LIMIT * COORD_LIMIT, 2 * COORD_LIMIT);
                lemma_mul_bound(oi as int, sdx as int, 4 * COORD_LIMIT * COORD_LIMIT, 2 * COORD_LIMIT);
            }
            let gap: i128 = si * odx - oi * sdx;
            if magnitude(gap) < (EPSILON as u128) * w_abs {
                return Ok(self.closest_center(other));
            }
            return Err(GeometryError::Parallel);
        }
        let t: i128 = -cross_of(other.start(), other.end(), self.start());
        proof {
            lemma_mul_bound(sdx as int, t as int, 2 * COORD_LIMIT, 576_460_752_303_423_488);
            lemma_mul_bound(sdy as int, t as int, 2 * COORD_LIMIT, 576_460_752_303_423_488);
        }
        let x: i128 = sx0 + ratio_of(sdx * t, d);
        let y: i128 = sy0 + ratio_of(sdy * t, d);
        point_from_wide(x, y)
    }
}

} // verus!
