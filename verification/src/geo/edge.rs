//! Directed edges and the predicates on them: turning, crossing, touching, distance.

use crate::geo::arith::{is_floor_sqrt, isqrt, lemma_product_square, lemma_square_bound};
use crate::geo::{cross, cross_of, dist_sq, dist_sq_of, dot, dot_of, Point, Pt, EPSILON};
use vstd::prelude::*;

verus! {

/// How a point deviates from the line through an edge.
#[derive(Clone, Copy, Debug, PartialEq, Eq, Structural)]
pub enum Turning {
    Left,
    Collinear,
    Right,
}

/// A directed segment of the mathematical plane.
pub struct Seg {
    pub start: Pt,
    pub end: Pt,
}

impl Seg {
    /// Squared length.
    pub open spec fn len_sq(self) -> int {
        dist_sq(self.start, self.end)
    }

    /// Signed area spanned with `p`; positive when `p` lies to the left.
    pub open spec fn side(self, p: Pt) -> int {
        cross(self.start, self.end, p)
    }

    /// Position of the projection of `p` along the segment, scaled by the squared length.
    pub open spec fn along(self, p: Pt) -> int {
        dot(self.start, self.end, p)
    }

    /// The same segment walked backwards.
    pub open spec fn reversed(self) -> Seg {
        Seg { start: self.end, end: self.start }
    }

    /// The distance from `p` to the line through the segment is below the tolerance.
    pub open spec fn hugs(self, p: Pt) -> bool {
        self.side(p) * self.side(p) < EPSILON * EPSILON * self.len_sq()
    }

    /// Classification of `p` against the line through the segment: the sign of the cross
    /// product, unless the distance to the line is below the tolerance.
    pub open spec fn turning(self, p: Pt) -> Turning {
        if self.hugs(p) {
            Turning::Collinear
        } else if self.side(p) > 0 {
            Turning::Left
        } else {
            Turning::Right
        }
    }

    /// Numerator of the squared distance from `p` to the segment.
    pub open spec fn dist_num(self, p: Pt) -> int {
        if self.along(p) <= 0 {
            dist_sq(self.start, p)
        } else if self.along(p) >= self.len_sq() {
            dist_sq(self.end, p)
        } else {
            self.side(p) * self.side(p)
        }
    }

    /// Denominator of the squared distance from `p` to the segment; always positive.
    pub open spec fn dist_den(self, p: Pt) -> int {
        if 0 < self.along(p) < self.len_sq() {
            self.len_sq()
        } else {
            1
        }
    }

    /// The distance from `p` to the segment is less than `d`.
    pub open spec fn nearer_than(self, p: Pt, d: int) -> bool {
        self.dist_num(p) < d * d * self.dist_den(p)
    }

    /// The distance from `p` to the segment, rounded down, is `d`.
    pub open spec fn distance_is(self, p: Pt, d: int) -> bool {
        &&& 0 <= d
        &&& d * d * self.dist_den(p) <= self.dist_num(p)
        &&& self.dist_num(p) < (d + 1) * (d + 1) * self.dist_den(p)
    }

    /// Proper transversal intersection: the ends of each segment lie strictly on opposite
    /// sides of the other.
    pub open spec fn crosses(self, other: Seg) -> bool {
        let t1 = self.turning(other.start);
        let t2 = self.turning(other.end);
        let t3 = other.turning(self.start);
        let t4 = other.turning(self.end);
        &&& t1 != Turning::Collinear
        &&& t2 != Turning::Collinear
        &&& t3 != Turning::Collinear
        &&& t4 != Turning::Collinear
        &&& t1 != t2
        &&& t3 != t4
    }

    /// Some end of one segment lies within the tolerance of the other segment.
    pub open spec fn overlaps(self, other: Seg) -> bool {
        ||| self.nearer_than(other.start, EPSILON as int)
        ||| self.nearer_than(other.end, EPSILON as int)
        ||| other.nearer_than(self.start, EPSILON as int)
        ||| other.nearer_than(self.end, EPSILON as int)
    }

    /// Contact without a transversal crossing: a shared vertex, a T-junction, or a
    /// collinear overlap.
    pub open spec fn touches(self, other: Seg) -> bool {
        let t1 = self.turning(other.start);
        let t2 = self.turning(other.end);
        let t3 = other.turning(self.start);
        let t4 = other.turning(self.end);
        if t1 == Turning::Collinear && t2 == Turning::Collinear && t3 == Turning::Collinear && t4
            == Turning::Collinear {
            self.overlaps(other)
        } else {
            &&& (t1 == Turning::Collinear || t2 == Turning::Collinear || t3 == Turning::Collinear
                || t4 == Turning::Collinear)
            &&& t1 != t2
            &&& t3 != t4
        }
    }

    /// The segments cross or touch.
    pub open spec fn meets(self, other: Seg) -> bool {
        self.crosses(other) || self.touches(other)
    }
}

/// A displacement on the grid.
#[derive(Clone, Copy, Debug, PartialEq, Eq, Structural)]
pub struct Vector {
    pub x: i64,
    pub y: i64,
}

/// A directed edge between two distinct grid points.
#[derive(Clone, Copy, Debug)]
pub struct Edge {
    start: Point,
    end: Point,
}

impl View for Edge {
    type V = Seg;

    closed spec fn view(&self) -> Seg {
        Seg { start: self.start@, end: self.end@ }
    }
}

/// Classification of `p` against the line from `a` through `b`.
pub fn turning_of(a: &Point, b: &Point, p: &Point) -> (t: Turning)
    ensures
        t == (Seg { start: a@, end: b@ }).turning(p@),
{
    let s: i128 = cross_of(a, b, p);
    let l: i128 = dist_sq_of(a, b);
    proof {
        lemma_product_square(s as int);
    }
    let band: i128 = 10_000 * l;
    assert(band == EPSILON * EPSILON * l);
    if s * s < band {
        Turning::Collinear
    } else if s > 0 {
        Turning::Left
    } else {
        Turning::Right
    }
}

/// Whether the distance from `p` to the segment from `a` to `b` is less than `d`.
pub(crate) fn nearer_than_of(a: &Point, b: &Point, p: &Point, d: i64) -> (r: bool)
    requires
        0 <= d <= 0x4000_0000,
    ensures
        r == (Seg { start: a@, end: b@ }).nearer_than(p@, d as int),
{
    let c1: i128 = dot_of(a, b, p);
    let c2: i128 = dist_sq_of(a, b);
    proof {
        lemma_square_bound(d as int, 0x4000_0000);
    }
    let dd: i128 = (d as i128) * (d as i128);
    assert(d * d * 1 == dd) by (nonlinear_arith)
        requires
            dd == d * d,
    ;
    if c1 <= 0 {
        dist_sq_of(a, p) < dd
    } else if c1 >= c2 {
        dist_sq_of(b, p) < dd
    } else {
        let s: i128 = cross_of(a, b, p);
        proof {
            lemma_product_square(s as int);
            crate::geo::arith::lemma_mul_bound(
                dd as int,
                c2 as int,
                0x1000_0000_0000_0000,
                576_460_752_303_423_488,
            );
        }
        s * s < dd * c2
    }
}

impl Edge {
    /// Both ends lie in range and do not coincide.
    #[verifier::type_invariant]
    pub open spec fn inv(self) -> bool {
        &&& self@.start.in_range()
        &&& self@.end.in_range()
        &&& !self@.start.coincides(self@.end)
    }

    /// The edge from `start` to `end`; meaningful when the two do not coincide.
    pub closed spec fn between(start: Point, end: Point) -> Edge {
        Edge { start, end }
    }

    /// The first point of the edge.
    pub closed spec fn first(self) -> Point {
        self.start
    }

    /// The last point of the edge.
    pub closed spec fn last(self) -> Point {
        self.end
    }

    /// The edge between two points starts at the first and ends at the second, and it stands
    /// for the segment between their positions.
    pub proof fn lemma_between(start: Point, end: Point)
        ensures
            Edge::between(start, end).first() == start,
            Edge::between(start, end).last() == end,
            Edge::between(start, end)@ == (Seg { start: start@, end: end@ }),
    {
    }

    /// The first and the last point of an edge lie at the ends of the segment it stands for,
    /// and the edge is the edge between the two.
    pub proof fn lemma_ends(self)
        ensures
            self.first()@ == self@.start,
            self.last()@ == self@.end,
            Edge::between(self.first(), self.last()) == self,
    {
    }

    /// Two edges that stand for the same segment are the same edge.
    pub proof fn lemma_same_segment(self, other: Edge)
        ensures
            self@ == other@ <==> self == other,
    {
        self.first().lemma_same_position(other.first());
        self.last().lemma_same_position(other.last());
    }

    /// The edge from `start` to `end`, or `None` when the two coincide within the tolerance.
    pub fn new(start: Point, end: Point) -> (r: Option<Edge>)
        ensures
            r is Some <==> !start@.coincides(end@),
            r matches Some(e) ==> e == Edge::between(start, end) && e@ == (Seg {
                start: start@,
                end: end@,
            }),
    {
        proof {
            use_type_invariant(start);
            use_type_invariant(end);
        }
        if start.coincides(&end) {
            None
        } else {
            Some(Edge { start, end })
        }
    }

    /// The point the edge starts at.
    pub fn start(&self) -> (p: &Point)
        ensures
            *p == self.first(),
            p@ == self@.start,
    {
        &self.start
    }

    /// The point the edge ends at.
    pub fn end(&self) -> (p: &Point)
        ensures
            *p == self.last(),
            p@ == self@.end,
    {
        &self.end
    }

    /// The same edge walked backwards.
    pub fn reverse(&self) -> (r: Edge)
        ensures
            r@ == self@.reversed(),
    {
        proof {
            use_type_invariant(self);
        }
        Edge { start: self.end, end: self.start }
    }

    /// The edge's direction turned a quarter turn counter-clockwise.
    pub fn left(&self) -> (v: Vector)
        ensures
            v.x == self@.start.y - self@.end.y,
            v.y == self@.end.x - self@.start.x,
    {
        Vector { x: self.start.y() - self.end.y(), y: self.end.x() - self.start.x() }
    }

    /// The edge's direction turned a quarter turn clockwise.
    pub fn right(&self) -> (v: Vector)
        ensures
            v.x == self@.end.y - self@.start.y,
            v.y == self@.start.x - self@.end.x,
    {
        Vector { x: self.end.y() - self.start.y(), y: self.start.x() - self.end.x() }
    }

    /// On which side of the edge's line `next` lies.
    pub fn turning(&self, next: &Point) -> (t: Turning)
        ensures
            t == self@.turning(next@),
    {
        turning_of(&self.start, &self.end, next)
    }

    /// Whether the two edges intersect transversally.
    pub fn crosses(&self, other: &Edge) -> (r: bool)
        ensures
            r == self@.crosses(other@),
    {
        let t1 = self.turning(&other.start);
        let t2 = self.turning(&other.end);
        let t3 = other.turning(&self.start);
        let t4 = other.turning(&self.end);
        if t1 == Turning::Collinear || t2 == Turning::Collinear || t3 == Turning::Collinear || t4
            == Turning::Collinear {
            return false;
        }
        t1 != t2 && t3 != t4
    }

    /// Whether the two edges are in contact without crossing.
    pub fn touches(&self, other: &Edge) -> (r: bool)
        ensures
            r == self@.touches(other@),
    {
        let t1 = self.turning(&other.start);
        let t2 = self.turning(&other.end);
        let t3 = other.turning(&self.start);
        let t4 = other.turning(&self.end);
        if t1 == Turning::Collinear && t2 == Turning::Collinear && t3 == Turning::Collinear && t4
            == Turning::Collinear {
            return nearer_than_of(&self.start, &self.end, &other.start, EPSILON) || nearer_than_of(
                &self.start,
                &self.end,
                &other.end,
                EPSILON,
            ) || nearer_than_of(&other.start, &other.end, &self.start, EPSILON) || nearer_than_of(
                &other.start,
                &other.end,
                &self.end,
                EPSILON,
            );
        }
        let collinear = t1 == Turning::Collinear || t2 == Turning::Collinear || t3
            == Turning::Collinear || t4 == Turning::Collinear;
        collinear && t1 != t2 && t3 != t4
    }

    /// Whether the two edges cross or touch.
    pub fn meets(&self, other: &Edge) -> (r: bool)
        ensures
            r == self@.meets(other@),
    {
        self.crosses(other) || self.touches(other)
    }

    /// Length of the edge in grid steps, rounded down.
    pub fn length(&self) -> (d: i64)
        ensures
            is_floor_sqrt(d as int, self@.len_sq()),
    {
        let l: i128 = dist_sq_of(&self.start, &self.end);
        isqrt(l as u128) as i64
    }

    /// Distance from `p` to the edge in grid steps, rounded down.
    pub fn distance(&self, p: &Point) -> (d: i64)
        ensures
            self@.distance_is(p@, d as int),
    {
        distance_of(&self.start, &self.end, p)
    }
}

/// Distance from `p` to the segment from `a` to `b` in grid steps, rounded down.
pub fn distance_of(a: &Point, b: &Point, p: &Point) -> (d: i64)
    ensures
        (Seg { start: a@, end: b@ }).distance_is(p@, d as int),
{
    let c1: i128 = dot_of(a, b, p);
    let c2: i128 = dist_sq_of(a, b);
    if c1 <= 0 {
        isqrt(dist_sq_of(a, p) as u128) as i64
    } else if c1 >= c2 {
        isqrt(dist_sq_of(b, p) as u128) as i64
    } else {
        let s: i128 = cross_of(a, b, p);
        proof {
            lemma_product_square(s as int);
        }
        let num: u128 = (s * s) as u128;
        let den: u128 = c2 as u128;
        let q: u128 = num / den;
        let r: u64 = isqrt(q);
        proof {
            lemma_floor_sqrt_of_quotient(num as int, den as int, r as int);
        }
        r as i64
    }
}

/// The floor of the square root of a quotient bounds the quotient itself.
pub proof fn lemma_floor_sqrt_of_quotient(num: int, den: int, r: int)
    requires
        0 <= num,
        0 < den,
        is_floor_sqrt(r, num / den),
    ensures
        r * r * den <= num < (r + 1) * (r + 1) * den,
{
    let q = num / den;
    vstd::arithmetic::div_mod::lemma_fundamental_div_mod(num, den);
    vstd::arithmetic::div_mod::lemma_mod_bound(num, den);
    assert(r * r * den <= q * den) by (nonlinear_arith)
        requires
            r * r <= q,
            0 < den,
    ;
    assert((q + 1) * den <= (r + 1) * (r + 1) * den) by (nonlinear_arith)
        requires
            q + 1 <= (r + 1) * (r + 1),
            0 < den,
    ;
    assert(den * q == q * den) by (nonlinear_arith);
    assert((q + 1) * den == q * den + den) by (nonlinear_arith);
}

/// Two segments meet each other or neither meets the other: crossing, touching and
/// overlapping do not depend on which segment is asked.
pub proof fn lemma_meets_symmetric(s: Seg, o: Seg)
    ensures
        s.crosses(o) == o.crosses(s),
        s.overlaps(o) == o.overlaps(s),
        s.touches(o) == o.touches(s),
        s.meets(o) == o.meets(s),
{
}

/// Two segments never both cross and touch.
pub proof fn lemma_cross_excludes_touch(s: Seg, o: Seg)
    ensures
        !(s.crosses(o) && s.touches(o)),
{
}

} // verus!
