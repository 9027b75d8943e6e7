//! The three kinds of shape: thick line, convex polygon, circle.

use crate::geo::arith::{lemma_mul_bound, lemma_square_bound};
use crate::geo::edge::{turning_of, Edge, Seg, Turning};
use crate::geo::intersect::GeometryError;
use crate::geo::outline::{close_loop, closed_loop};
use crate::geo::{cross_of, dist_sq, dist_sq_of, dot_of, Point, Pt, EPSILON};
use vstd::prelude::*;

verus! {

/// Largest thickness or radius a shape may have, in grid steps.
pub const SIZE_LIMIT: i64 = 1_073_741_824;

/// Why a shape could not be built or changed.
#[derive(Clone, Copy, Debug, PartialEq, Eq, Structural)]
pub enum ShapeError {
    /// Fewer points than the shape needs.
    TooFewPoints,
    /// A thickness or radius that is not positive.
    NonPositiveSize,
    /// A thickness or radius beyond `SIZE_LIMIT`.
    OutOfRange,
    /// Two neighbouring points of a closed boundary coincide.
    ZeroLengthEdge,
    /// The boundary turns right even after its winding was corrected.
    NotConvex,
    /// The outline of the shape cannot be laid out.
    Outline(GeometryError),
}

/// The verdict on a thickness or radius.
pub open spec fn size_fault(size: int) -> Option<ShapeError> {
    if size <= 0 {
        Some(ShapeError::NonPositiveSize)
    } else if size > SIZE_LIMIT {
        Some(ShapeError::OutOfRange)
    } else {
        None
    }
}

fn check_size(size: i64) -> (r: Option<ShapeError>)
    ensures
        r == size_fault(size as int),
{
    if size <= 0 {
        Some(ShapeError::NonPositiveSize)
    } else if size > SIZE_LIMIT {
        Some(ShapeError::OutOfRange)
    } else {
        None
    }
}

/// The slack, in grid steps, by which a thick line reaches beyond half its thickness: a tenth of
/// the tolerance. It allows for the few grid steps by which rounding moves the points of the
/// line's own outline.
pub const LINE_SLACK: i64 = 10;

impl Seg {
    /// The distance from `p` to the segment is less than half of `t` plus the slack.
    pub open spec fn covers(self, p: Pt, t: int) -> bool {
        4 * self.dist_num(p) < (t + 2 * LINE_SLACK) * (t + 2 * LINE_SLACK) * self.dist_den(p)
    }
}

/// Whether the distance from `p` to the segment from `a` to `b` is less than half of `t` plus
/// the slack.
fn covers_of(a: &Point, b: &Point, p: &Point, t: i64) -> (r: bool)
    requires
        0 <= t <= SIZE_LIMIT,
    ensures
        r == (Seg { start: a@, end: b@ }).covers(p@, t as int),
{
    let c1: i128 = dot_of(a, b, p);
    let c2: i128 = dist_sq_of(a, b);
    let w: i128 = (t as i128) + 2 * (LINE_SLACK as i128);
    proof {
        lemma_square_bound(w as int, SIZE_LIMIT + 20);
    }
    let tt: i128 = w * w;
    assert(w * w * 1 == tt) by (nonlinear_arith)
        requires
            tt == w * w,
    ;
    assert(tt <= 0x2000_0000_0000_0000);
    if c1 <= 0 {
        4 * dist_sq_of(a, p) < tt
    } else if c1 >= c2 {
        4 * dist_sq_of(b, p) < tt
    } else {
        let s: i128 = cross_of(a, b, p);
        proof {
            crate::geo::arith::lemma_product_square(s as int);
            lemma_mul_bound(
                tt as int,
                c2 as int,
                0x2000_0000_0000_0000,
                576_460_752_303_423_488,
            );
        }
        4 * (s * s) < tt * c2
    }
}

/// A thick stroke: every point within half the thickness, and the slack, of an open polyline.
pub struct LineModel {
    pub points: Seq<Point>,
    pub thickness: int,
    pub resolution: int,
}

impl LineModel {
    /// Segment `i` of the polyline.
    pub open spec fn segment(self, i: int) -> Seg {
        Seg { start: self.points[i]@, end: self.points[i + 1]@ }
    }

    /// `p` lies within half the thickness, and the slack, of some segment.
    pub open spec fn contains(self, p: Pt) -> bool {
        exists|i: int| 0 <= i < self.points.len() - 1 && #[trigger] self.segment(i).covers(p, self.thickness)
    }

    /// The same line with its thickness changed by twice `offset`.
    pub open spec fn grown(self, offset: int) -> LineModel {
        LineModel { thickness: self.thickness + 2 * offset, ..self }
    }

    /// This line continued by `other`, when their thicknesses agree within the tolerance and
    /// two of their ends coincide.
    pub open spec fn connected(self, other: LineModel) -> Option<LineModel> {
        if !crate::geo::near(self.thickness, other.thickness) {
            None
        } else {
            match joined(self.points, other.points) {
                Some(points) => Some(LineModel { points, ..self }),
                None => None,
            }
        }
    }
}

/// A disc.
pub struct CircleModel {
    pub center: Point,
    pub radius: int,
    pub resolution: int,
}

impl CircleModel {
    /// `p` is no farther from the center than the radius.
    pub open spec fn contains(self, p: Pt) -> bool {
        dist_sq(self.center@, p) <= self.radius * self.radius
    }

    /// The same circle with its radius changed by `offset`.
    pub open spec fn grown(self, offset: int) -> CircleModel {
        CircleModel { radius: self.radius + offset, ..self }
    }
}

/// The points of two polylines joined where an end of one coincides with an end of the
/// other, the shared point taken once; `None` when no two ends coincide.
pub open spec fn joined(a: Seq<Point>, b: Seq<Point>) -> Option<Seq<Point>> {
    if a.first()@.coincides(b.first()@) {
        Some(reversed(a) + b.subrange(1, b.len() as int))
    } else if a.first()@.coincides(b.last()@) {
        Some(reversed(a) + reversed(b).subrange(1, b.len() as int))
    } else if a.last()@.coincides(b.first()@) {
        Some(a + b.subrange(1, b.len() as int))
    } else if a.last()@.coincides(b.last()@) {
        Some(a + reversed(b).subrange(1, b.len() as int))
    } else {
        None
    }
}

/// The first `n` points of `src` after its first one, appended to `dst`.
fn extend_skipping_first(dst: &mut Vec<Point>, src: &Vec<Point>)
    requires
        src.len() >= 1,
    ensures
        final(dst)@ == old(dst)@ + src@.subrange(1, src.len() as int),
{
    let mut i: usize = 1;
    while i < src.len()
        invariant
            1 <= i <= src.len(),
            dst@ == old(dst)@ + src@.subrange(1, i as int),
        decreases src.len() - i,
    {
        dst.push(src[i]);
        assert(src@.subrange(1, i + 1) =~= src@.subrange(1, i as int).push(src@[i as int]));
        i += 1;
    }
}

/// A thick stroke along an open polyline.
#[derive(Debug)]
pub struct Line {
    points: Vec<Point>,
    thickness: i64,
    resolution: i64,
}

impl View for Line {
    type V = LineModel;

    closed spec fn view(&self) -> LineModel {
        LineModel {
            points: self.points@,
            thickness: self.thickness as int,
            resolution: self.resolution as int,
        }
    }
}

/// A copy of a vector of points.
pub fn copy_points(v: &Vec<Point>) -> (r: Vec<Point>)
    ensures
        r@ == v@,
{
    let mut out: Vec<Point> = Vec::new();
    let mut i: usize = 0;
    while i < v.len()
        invariant
            i <= v.len(),
            out@ == v@.subrange(0, i as int),
        decreases v.len() - i,
    {
        out.push(v[i]);
        assert(v@.subrange(0, i + 1) == v@.subrange(0, i as int).push(v@[i as int]));
        i += 1;
    }
    assert(v@.subrange(0, v.len() as int) == v@);
    out
}

impl Line {
    /// At least two points and a thickness that is positive and within the size limit.
    #[verifier::type_invariant]
    pub open spec fn inv(self) -> bool {
        &&& self@.points.len() >= 2
        &&& 0 < self@.thickness <= SIZE_LIMIT
    }

    /// A line through `points` with the given thickness.
    ///
    /// Fails with `TooFewPoints` for fewer than two points, else with the verdict on the
    /// thickness.
    pub fn new(points: Vec<Point>, thickness: i64, resolution: i64) -> (r: Result<Line, ShapeError>)
        ensures
            match r {
                Ok(l) => points.len() >= 2 && size_fault(thickness as int) is None && l@ == (
                LineModel {
                    points: points@,
                    thickness: thickness as int,
                    resolution: resolution as int,
                }),
                Err(e) => if points.len() < 2 {
                    e == ShapeError::TooFewPoints
                } else {
                    size_fault(thickness as int) == Some(e)
                },
            },
    {
        if points.len() < 2 {
            return Err(ShapeError::TooFewPoints);
        }
        match check_size(thickness) {
            Some(e) => Err(e),
            None => Ok(Line { points, thickness, resolution }),
        }
    }

    /// The point the line starts at.
    pub fn point_first(&self) -> (p: &Point)
        ensures
            *p == self@.points[0],
    {
        proof {
            use_type_invariant(self);
        }
        &self.points[0]
    }

    /// The point the line ends at.
    pub fn point_last(&self) -> (p: &Point)
        ensures
            *p == self@.points[self@.points.len() - 1],
    {
        proof {
            use_type_invariant(self);
        }
        &self.points[self.points.len() - 1]
    }

    /// The points the line runs through.
    pub fn points(&self) -> (r: &Vec<Point>)
        ensures
            r@ == self@.points,
            r@.len() >= 2,
    {
        proof {
            use_type_invariant(self);
        }
        &self.points
    }

    /// The thickness of the stroke, in grid steps.
    pub fn thickness(&self) -> (r: i64)
        ensures
            r == self@.thickness,
            0 < r <= SIZE_LIMIT,
    {
        proof {
            use_type_invariant(self);
        }
        self.thickness
    }

    /// The longest segment, in grid steps, that a tessellated arc of the shape may have.
    pub fn resolution(&self) -> (r: i64)
        ensures
            r == self@.resolution,
    {
        self.resolution
    }

    /// An independent copy.
    pub fn duplicate(&self) -> (r: Line)
        ensures
            r@ == self@,
    {
        proof {
            use_type_invariant(self);
        }
        Line { points: copy_points(&self.points), thickness: self.thickness, resolution: self.resolution }
    }

    /// The segments of the polyline as edges, or `None` when two neighbouring points
    /// coincide.
    pub fn segments(&self) -> (r: Option<Vec<Edge>>)
        ensures
            r is Some <==> is_spaced(self@.points),
            r matches Some(edges) ==> edges.len() == self@.points.len() - 1 && forall|i: int|
                0 <= i < edges.len() ==> (#[trigger] edges@[i])@ == self@.segment(i),
    {
        proof {
            use_type_invariant(self);
        }
        let n = self.points.len();
        let mut edges: Vec<Edge> = Vec::new();
        let mut i: usize = 0;
        while i + 1 < n
            invariant
                n == self.points.len(),
                n >= 2,
                i + 1 <= n,
                edges.len() == i,
                forall|j: int| 0 <= j < i ==> #[trigger] apart(self@.points, j),
                forall|j: int| 0 <= j < i ==> (#[trigger] edges@[j])@ == self@.segment(j),
            decreases n - i,
        {
            match Edge::new(self.points[i], self.points[i + 1]) {
                Some(e) => {
                    assert(apart(self@.points, i as int));
                    edges.push(e);
                },
                None => {
                    assert(!apart(self@.points, i as int));
                    return None;
                },
            }
            i += 1;
        }
        Some(edges)
    }

    /// Tries to connect `other` to this line, end to end.
    ///
    /// The lines connect when their thicknesses agree within the tolerance and an end of one
    /// coincides with an end of the other; this line then runs through the points of both and
    /// keeps its thickness. Otherwise `other` is handed back and this line stays as it was.
    pub fn try_merge(&mut self, other: Line) -> (r: Option<Line>)
        ensures
            match old(self)@.connected(other@) {
                Some(m) => r is None && final(self)@ == m,
                None => r == Some(other) && final(self)@ == old(self)@,
            },
    {
        proof {
            use_type_invariant(&*self);
            use_type_invariant(&other);
        }
        let gap: i64 = self.thickness - other.thickness;
        if !(-EPSILON < gap && gap < EPSILON) {
            return Some(other);
        }
        let n = self.points.len();
        let m = other.points.len();
        let s_first = self.points[0];
        let s_last = self.points[n - 1];
        let o_first = other.points[0];
        let o_last = other.points[m - 1];
        if s_first.coincides(&o_first) {
            let mut pts = reverse_points(&self.points);
            extend_skipping_first(&mut pts, &other.points);
            self.points = pts;
            None
        } else if s_first.coincides(&o_last) {
            let mut pts = reverse_points(&self.points);
            let back = reverse_points(&other.points);
            extend_skipping_first(&mut pts, &back);
            self.points = pts;
            None
        } else if s_last.coincides(&o_first) {
            let mut pts = copy_points(&self.points);
            extend_skipping_first(&mut pts, &other.points);
            self.points = pts;
            None
        } else if s_last.coincides(&o_last) {
            let mut pts = copy_points(&self.points);
            let back = reverse_points(&other.points);
            extend_skipping_first(&mut pts, &back);
            self.points = pts;
            None
        } else {
            Some(other)
        }
    }

    /// Thickens the stroke by `offset` on each side.
    ///
    /// Fails, leaving the line as it was, when the new thickness would not be positive or
    /// would exceed `SIZE_LIMIT`.
    pub fn grow(&mut self, offset: i64) -> (r: Result<(), ShapeError>)
        ensures
            match r {
                Ok(_) => size_fault(old(self)@.thickness + 2 * offset) is None && final(self)@
                    == old(self)@.grown(offset as int),
                Err(e) => size_fault(old(self)@.thickness + 2 * offset) == Some(e) && final(self)@
                    == old(self)@,
            },
            offset == 0 ==> r is Ok && final(self)@ == old(self)@,
    {
        proof {
            use_type_invariant(&*self);
        }
        let wide: i128 = (self.thickness as i128) + 2 * (offset as i128);
        if wide <= 0 {
            return Err(ShapeError::NonPositiveSize);
        }
        if wide > SIZE_LIMIT as i128 {
            return Err(ShapeError::OutOfRange);
        }
        self.thickness = wide as i64;
        Ok(())
    }

    /// Whether `p` lies within half the thickness, and the slack, of the polyline.
    pub fn contains(&self, p: &Point) -> (r: bool)
        ensures
            r == self@.contains(p@),
    {
        proof {
            use_type_invariant(self);
        }
        let mut i: usize = 0;
        while i + 1 < self.points.len()
            invariant
                i + 1 <= self.points.len(),
                0 < self.thickness <= SIZE_LIMIT,
                forall|j: int| 0 <= j < i ==> !(#[trigger] self@.segment(j)).covers(p@, self@.thickness),
            decreases self.points.len() - i,
        {
            if covers_of(&self.points[i], &self.points[i + 1], p, self.thickness) {
                assert(self@.segment(i as int).covers(p@, self@.thickness));
                return true;
            }
            i += 1;
        }
        false
    }
}

/// A disc around a center.
#[derive(Clone, Copy, Debug)]
pub struct Circle {
    center: Point,
    radius: i64,
    resolution: i64,
}

impl View for Circle {
    type V = CircleModel;

    closed spec fn view(&self) -> CircleModel {
        CircleModel {
            center: self.center,
            radius: self.radius as int,
            resolution: self.resolution as int,
        }
    }
}

impl Circle {
    /// A radius that is positive and within the size limit.
    #[verifier::type_invariant]
    pub open spec fn inv(self) -> bool {
        0 < self@.radius <= SIZE_LIMIT
    }

    /// A circle around `center`; fails with the verdict on the radius.
    pub fn new(center: Point, radius: i64, resolution: i64) -> (r: Result<Circle, ShapeError>)
        ensures
            match r {
                Ok(c) => size_fault(radius as int) is None && c@ == (CircleModel {
                    center,
                    radius: radius as int,
                    resolution: resolution as int,
                }),
                Err(e) => size_fault(radius as int) == Some(e),
            },
    {
        match check_size(radius) {
            Some(e) => Err(e),
            None => Ok(Circle { center, radius, resolution }),
        }
    }

    /// The center of the circle.
    pub fn center(&self) -> (p: Point)
        ensures
            p == self@.center,
    {
        self.center
    }

    /// The radius, in grid steps.
    pub fn radius(&self) -> (r: i64)
        ensures
            r == self@.radius,
            0 < r <= SIZE_LIMIT,
    {
        proof {
            use_type_invariant(self);
        }
        self.radius
    }

    /// The longest segment, in grid steps, that a tessellated arc of the shape may have.
    pub fn resolution(&self) -> (r: i64)
        ensures
            r == self@.resolution,
    {
        self.resolution
    }

    /// Enlarges the radius by `offset`.
    ///
    /// Fails, leaving the circle as it was, when the new radius would not be positive or would
    /// exceed `SIZE_LIMIT`.
    pub fn grow(&mut self, offset: i64) -> (r: Result<(), ShapeError>)
        ensures
            match r {
                Ok(_) => size_fault(old(self)@.radius + offset) is None && final(self)@ == old(self)@.grown(offset as int),
                Err(e) => size_fault(old(self)@.radius + offset) == Some(e) && final(self)@ == old(self)@,
            },
            offset == 0 ==> r is Ok && final(self)@ == old(self)@,
    {
        proof {
            use_type_invariant(&*self);
        }
        let wide: i128 = (self.radius as i128) + (offset as i128);
        if wide <= 0 {
            return Err(ShapeError::NonPositiveSize);
        }
        if wide > SIZE_LIMIT as i128 {
            return Err(ShapeError::OutOfRange);
        }
        self.radius = wide as i64;
        Ok(())
    }

    /// Whether `p` is no farther from the center than the radius.
    pub fn contains(&self, p: &Point) -> (r: bool)
        ensures
            r == self@.contains(p@),
    {
        proof {
            use_type_invariant(self);
            lemma_square_bound(self.radius as int, SIZE_LIMIT as int);
        }
        let rr: i128 = (self.radius as i128) * (self.radius as i128);
        dist_sq_of(&self.center, p) <= rr
    }
}

/// Index `i` brought back into a ring of `n` points after stepping past its end once.
pub open spec fn wrap(i: int, n: int) -> int {
    if i >= n {
        i - n
    } else {
        i
    }
}

/// Edge `i` of the closed ring through `ring`: from point `i` to the point after it.
pub open spec fn ring_edge(ring: Seq<Point>, i: int) -> Seg {
    Seg { start: ring[i]@, end: ring[wrap(i + 1, ring.len() as int)]@ }
}

/// Point `i` of the sequence does not coincide with the point after it.
pub open spec fn apart(points: Seq<Point>, i: int) -> bool {
    !points[i]@.coincides(points[i + 1]@)
}

/// No point of the sequence coincides with the one after it.
pub open spec fn is_spaced(points: Seq<Point>) -> bool {
    forall|i: int| 0 <= i < points.len() - 1 ==> #[trigger] apart(points, i)
}

/// Point `i` of the ring does not coincide with the point after it, so edge `i` exists.
pub open spec fn has_edge(ring: Seq<Point>, i: int) -> bool {
    !ring[i]@.coincides(ring[wrap(i + 1, ring.len() as int)]@)
}

/// No two neighbouring points of the ring coincide, so every edge of it exists.
pub open spec fn ring_is_proper(ring: Seq<Point>) -> bool {
    forall|i: int| 0 <= i < ring.len() ==> #[trigger] has_edge(ring, i)
}

/// How the ring turns at the corner after edge `i`: the classification of the point after
/// next against that edge.
pub open spec fn corner(ring: Seq<Point>, i: int) -> Turning {
    ring_edge(ring, i).turning(ring[wrap(i + 2, ring.len() as int)]@)
}

/// Some corner of the ring is classified `t`.
pub open spec fn ring_turns(ring: Seq<Point>, t: Turning) -> bool {
    exists|i: int| 0 <= i < ring.len() && #[trigger] corner(ring, i) == t
}

/// The sequence back to front.
pub open spec fn reversed(s: Seq<Point>) -> Seq<Point> {
    Seq::new(s.len(), |i: int| s[s.len() - 1 - i])
}

/// At least three points, every edge of positive length, no corner turning right.
pub open spec fn ring_is_convex(ring: Seq<Point>) -> bool {
    &&& ring.len() >= 3
    &&& ring_is_proper(ring)
    &&& !ring_turns(ring, Turning::Right)
}

/// The boundary a polygon through `points` gets, or why there is no such polygon.
///
/// A ring without a right turn is kept. A ring with right turns only is reversed, and must
/// then be free of right turns. Any other ring is not convex.
pub open spec fn polygon_ring(points: Seq<Point>) -> Result<Seq<Point>, ShapeError> {
    if points.len() < 3 {
        Err(ShapeError::TooFewPoints)
    } else if !ring_is_proper(points) {
        Err(ShapeError::ZeroLengthEdge)
    } else if !ring_turns(points, Turning::Right) {
        Ok(points)
    } else if ring_turns(points, Turning::Left) || ring_turns(reversed(points), Turning::Right) {
        Err(ShapeError::NotConvex)
    } else {
        Ok(reversed(points))
    }
}

/// The region to the left of every edge of a closed ring.
pub struct PolygonModel {
    pub boundary: Seq<Point>,
    pub resolution: int,
}

impl PolygonModel {
    /// At least three points, every edge of positive length, no corner turning right.
    pub open spec fn is_convex(self) -> bool {
        ring_is_convex(self.boundary)
    }

    /// The corner of the grown polygon after edge `i`: the arc from that edge, moved outward
    /// by `offset`, to the next edge, moved likewise.
    pub open spec fn corner_arc(self, i: int, offset: int) -> Result<Seq<Point>, GeometryError> {
        match ring_edge(self.boundary, i).shifted_right(offset, 1) {
            Err(e) => Err(e),
            Ok(a) => match ring_edge(self.boundary, wrap(i + 1, self.boundary.len() as int)).shifted_right(
                offset,
                1,
            ) {
                Err(e) => Err(e),
                Ok(b) => a.arc(b, offset, 1, self.resolution),
            },
        }
    }

    /// The arcs around the corners after the first `upto` edges, in order.
    pub open spec fn rounded(self, offset: int, upto: int) -> Result<Seq<Point>, GeometryError>
        decreases upto,
    {
        if upto <= 0 {
            Ok(Seq::empty())
        } else {
            match self.rounded(offset, upto - 1) {
                Err(e) => Err(e),
                Ok(acc) => match self.corner_arc(upto - 1, offset) {
                    Err(e) => Err(e),
                    Ok(more) => Ok(acc + more),
                },
            }
        }
    }

    /// The polygon with every edge moved outward by `offset` and every corner rounded by an
    /// arc; the polygon itself when the offset is nothing.
    pub open spec fn grown(self, offset: int) -> Result<PolygonModel, ShapeError> {
        if offset == 0 {
            Ok(self)
        } else if !crate::geo::arc::is_size(offset) || !crate::geo::arc::is_size(self.resolution) {
            Err(ShapeError::Outline(GeometryError::BadDimension))
        } else {
            match self.rounded(offset, self.boundary.len() as int) {
                Err(e) => Err(ShapeError::Outline(e)),
                Ok(raw) => match polygon_ring(closed_loop(raw)) {
                    Ok(boundary) => Ok(PolygonModel { boundary, ..self }),
                    Err(e) => Err(e),
                },
            }
        }
    }

    /// No edge has `p` on its right.
    pub open spec fn contains(self, p: Pt) -> bool {
        forall|i: int|
            0 <= i < self.boundary.len() ==> (#[trigger] ring_edge(self.boundary, i)).turning(p)
                != Turning::Right
    }
}

/// Reversing a ring keeps its edges of positive length.
pub proof fn lemma_reversed_is_proper(ring: Seq<Point>)
    requires
        ring_is_proper(ring),
    ensures
        ring_is_proper(reversed(ring)),
{
    let n = ring.len() as int;
    let rev = reversed(ring);
    assert forall|i: int| 0 <= i < rev.len() implies #[trigger] has_edge(rev, i) by {
        // Edge `i` of the reversed ring is edge `k` of the ring walked backwards.
        let k = if i == n - 1 {
            n - 1
        } else {
            n - 2 - i
        };
        assert(has_edge(ring, k));
        assert(rev[i] == ring[wrap(k + 1, n)]);
        assert(rev[wrap(i + 1, n)] == ring[k]);
    }
}

/// Whether every edge of the ring has positive length.
pub fn ring_check(ring: &Vec<Point>) -> (r: bool)
    ensures
        r == ring_is_proper(ring@),
{
    let n = ring.len();
    let mut i: usize = 0;
    while i < n
        invariant
            i <= n,
            n == ring.len(),
            forall|j: int| 0 <= j < i ==> #[trigger] has_edge(ring@, j),
        decreases n - i,
    {
        let k: usize = if i + 1 >= n {
            i + 1 - n
        } else {
            i + 1
        };
        if ring[i].coincides(&ring[k]) {
            assert(!has_edge(ring@, i as int));
            return false;
        }
        assert(has_edge(ring@, i as int));
        i += 1;
    }
    true
}

/// Whether the ring has a corner turning left, and whether it has one turning right.
fn scan_turns(ring: &Vec<Point>) -> (r: (bool, bool))
    requires
        ring.len() >= 3,
    ensures
        r.0 == ring_turns(ring@, Turning::Left),
        r.1 == ring_turns(ring@, Turning::Right),
{
    let n = ring.len();
    let mut left = false;
    let mut right = false;
    let mut i: usize = 0;
    while i < n
        invariant
            i <= n,
            n == ring.len(),
            n >= 3,
            left == (exists|j: int| 0 <= j < i && #[trigger] corner(ring@, j) == Turning::Left),
            right == (exists|j: int| 0 <= j < i && #[trigger] corner(ring@, j) == Turning::Right),
        decreases n - i,
    {
        let k: usize = if i + 1 >= n {
            i + 1 - n
        } else {
            i + 1
        };
        let m: usize = if k + 1 >= n {
            k + 1 - n
        } else {
            k + 1
        };
        let t = turning_of(&ring[i], &ring[k], &ring[m]);
        assert(t == corner(ring@, i as int));
        match t {
            Turning::Left => {
                left = true;
            },
            Turning::Right => {
                right = true;
            },
            Turning::Collinear => {},
        }
        i += 1;
    }
    (left, right)
}

/// The points back to front.
pub fn reverse_points(v: &Vec<Point>) -> (r: Vec<Point>)
    ensures
        r@ == reversed(v@),
{
    let n = v.len();
    let mut out: Vec<Point> = Vec::new();
    let mut i: usize = 0;
    while i < n
        invariant
            i <= n,
            n == v.len(),
            out.len() == i,
            forall|j: int| 0 <= j < i ==> out@[j] == v@[n - 1 - j],
        decreases n - i,
    {
        out.push(v[n - 1 - i]);
        i += 1;
    }
    assert(out@ =~= reversed(v@));
    out
}

/// The boundary a polygon through the points gets: the points themselves, or reversed when
/// they are wound clockwise.
fn wind(boundary: Vec<Point>) -> (r: Result<Vec<Point>, ShapeError>)
    ensures
        match r {
            Ok(ring) => polygon_ring(boundary@) == Ok::<Seq<Point>, ShapeError>(ring@) && ring_is_convex(
                ring@,
            ),
            Err(e) => polygon_ring(boundary@) == Err::<Seq<Point>, ShapeError>(e),
        },
{
    if boundary.len() < 3 {
        return Err(ShapeError::TooFewPoints);
    }
    if !ring_check(&boundary) {
        return Err(ShapeError::ZeroLengthEdge);
    }
    let (left, right) = scan_turns(&boundary);
    if !right {
        return Ok(boundary);
    }
    if left {
        return Err(ShapeError::NotConvex);
    }
    let flipped = reverse_points(&boundary);
    let (_, still_right) = scan_turns(&flipped);
    if still_right {
        return Err(ShapeError::NotConvex);
    }
    proof {
        lemma_reversed_is_proper(boundary@);
    }
    Ok(flipped)
}

/// Once rounding the corners has failed, it stays failed.
pub proof fn lemma_rounded_failure_stays(p: PolygonModel, offset: int, at: int, upto: int)
    requires
        at <= upto,
        p.rounded(offset, at) is Err,
    ensures
        p.rounded(offset, upto) == p.rounded(offset, at),
    decreases upto - at,
{
    if at < upto {
        lemma_rounded_failure_stays(p, offset, at, upto - 1);
    }
}

/// Appends the arc around the corner between two neighbouring edges, both moved outward by
/// `offset`, to `out`.
fn lay_corner(a: &Edge, b: &Edge, offset: i64, resolution: i64, out: &mut Vec<Point>) -> (r: Result<(), GeometryError>)
    requires
        0 < offset <= SIZE_LIMIT,
    ensures
        match r {
            Ok(_) => match a@.shifted_right(offset as int, 1) {
                Ok(prev) => match b@.shifted_right(offset as int, 1) {
                    Ok(next) => prev.arc(next, offset as int, 1, resolution as int) is Ok && final(out)@
                        == old(out)@ + prev.arc(next, offset as int, 1, resolution as int)->Ok_0,
                    Err(_) => false,
                },
                Err(_) => false,
            },
            Err(e) => match a@.shifted_right(offset as int, 1) {
                Ok(prev) => match b@.shifted_right(offset as int, 1) {
                    Ok(next) => prev.arc(next, offset as int, 1, resolution as int) == Err::<
                        Seq<Point>,
                        GeometryError,
                    >(e),
                    Err(f) => e == f,
                },
                Err(f) => e == f,
            },
        },
{
    let prev = match a.shift_right(offset, 1) {
        Ok(e) => e,
        Err(e) => {
            return Err(e);
        },
    };
    let next = match b.shift_right(offset, 1) {
        Ok(e) => e,
        Err(e) => {
            return Err(e);
        },
    };
    prev.arc_into(&next, offset, 1, resolution, out)
}

/// A convex polygon, wound counter-clockwise.
#[derive(Debug)]
pub struct ConvexPolygon {
    boundary: Vec<Point>,
    resolution: i64,
}

impl View for ConvexPolygon {
    type V = PolygonModel;

    closed spec fn view(&self) -> PolygonModel {
        PolygonModel { boundary: self.boundary@, resolution: self.resolution as int }
    }
}

impl ConvexPolygon {
    /// The boundary is that of a convex polygon.
    #[verifier::type_invariant]
    pub open spec fn inv(self) -> bool {
        self@.is_convex()
    }

    /// A polygon with the given boundary.
    ///
    /// A boundary wound clockwise is reversed. Fails with `TooFewPoints` for fewer than three
    /// points, with `ZeroLengthEdge` when neighbouring points coincide, and with `NotConvex`
    /// when the boundary turns both ways or still turns right once reversed. A polygon that
    /// is built has no corner that turns right.
    pub fn new(boundary: Vec<Point>, resolution: i64) -> (r: Result<ConvexPolygon, ShapeError>)
        ensures
            match r {
                Ok(p) => polygon_ring(boundary@) == Ok::<Seq<Point>, ShapeError>(p@.boundary)
                    && p@.resolution == resolution && p@.is_convex(),
                Err(e) => polygon_ring(boundary@) == Err::<Seq<Point>, ShapeError>(e),
            },
    {
        match wind(boundary) {
            Ok(ring) => Ok(ConvexPolygon { boundary: ring, resolution }),
            Err(e) => Err(e),
        }
    }

    /// Moves every edge outward by `offset` and rounds every corner by an arc.
    ///
    /// Growing by nothing changes nothing. Otherwise fails, leaving the polygon as it was,
    /// unless the offset and the resolution are positive and within the size limit, the
    /// boundary turns at every corner, every point of the new boundary lies in range, and the
    /// new boundary is a convex polygon.
    pub fn grow(&mut self, offset: i64) -> (r: Result<(), ShapeError>)
        ensures
            match r {
                Ok(_) => old(self)@.grown(offset as int) == Ok::<PolygonModel, ShapeError>(final(self)@),
                Err(e) => old(self)@.grown(offset as int) == Err::<PolygonModel, ShapeError>(e)
                    && final(self)@ == old(self)@,
            },
            offset == 0 ==> r is Ok && final(self)@ == old(self)@,
    {
        if offset == 0 {
            return Ok(());
        }
        if offset < 0 || offset > SIZE_LIMIT || self.resolution <= 0 || self.resolution > SIZE_LIMIT {
            return Err(ShapeError::Outline(GeometryError::BadDimension));
        }
        proof {
            use_type_invariant(&*self);
        }
        let ghost model = self@;
        let n = self.boundary.len();
        let edges = get_boundary_edges(&self.boundary).unwrap();
        let mut raw: Vec<Point> = Vec::new();
        let mut i: usize = 0;
        while i < n
            invariant
                i <= n,
                n == self.boundary.len(),
                n >= 3,
                model == self@,
                model == old(self)@,
                crate::geo::arc::is_size(model.resolution),
                self.resolution == model.resolution,
                0 < offset <= SIZE_LIMIT,
                edges.len() == n,
                forall|j: int| 0 <= j < n ==> (#[trigger] edges@[j])@ == ring_edge(model.boundary, j),
                model.rounded(offset as int, i as int) == Ok::<Seq<Point>, GeometryError>(raw@),
            decreases n - i,
        {
            let k: usize = if i + 1 >= n {
                i + 1 - n
            } else {
                i + 1
            };
            match lay_corner(&edges[i], &edges[k], offset, self.resolution, &mut raw) {
                Ok(_) => {},
                Err(e) => {
                    proof {
                        lemma_rounded_failure_stays(model, offset as int, i + 1, n as int);
                    }
                    return Err(ShapeError::Outline(e));
                },
            }
            i += 1;
        }
        match wind(close_loop(&raw)) {
            Ok(ring) => {
                self.boundary = ring;
                Ok(())
            },
            Err(e) => Err(e),
        }
    }

    /// The boundary, counter-clockwise.
    pub fn points(&self) -> (r: &Vec<Point>)
        ensures
            r@ == self@.boundary,
            self@.is_convex(),
    {
        proof {
            use_type_invariant(self);
        }
        &self.boundary
    }

    /// A copy of the boundary, counter-clockwise.
    pub fn boundary(&self) -> (r: Vec<Point>)
        ensures
            r@ == self@.boundary,
    {
        copy_points(&self.boundary)
    }

    /// The longest segment, in grid steps, that a tessellated arc of the shape may have.
    pub fn resolution(&self) -> (r: i64)
        ensures
            r == self@.resolution,
    {
        self.resolution
    }

    /// An independent copy.
    pub fn duplicate(&self) -> (r: ConvexPolygon)
        ensures
            r@ == self@,
    {
        proof {
            use_type_invariant(self);
        }
        ConvexPolygon { boundary: copy_points(&self.boundary), resolution: self.resolution }
    }

    /// Whether no edge has `p` on its right.
    pub fn contains(&self, p: &Point) -> (r: bool)
        ensures
            r == self@.contains(p@),
    {
        proof {
            use_type_invariant(self);
        }
        let n = self.boundary.len();
        let mut i: usize = 0;
        while i < n
            invariant
                i <= n,
                n == self.boundary.len(),
                forall|j: int|
                    0 <= j < i ==> (#[trigger] ring_edge(self@.boundary, j)).turning(p@)
                        != Turning::Right,
            decreases n - i,
        {
            let k: usize = if i + 1 >= n {
                i + 1 - n
            } else {
                i + 1
            };
            if turning_of(&self.boundary[i], &self.boundary[k], p) == Turning::Right {
                assert(ring_edge(self@.boundary, i as int).turning(p@) == Turning::Right);
                return false;
            }
            i += 1;
        }
        true
    }
}

/// Any of the three shapes.
pub enum ShapeModel {
    Line(LineModel),
    Poly(PolygonModel),
    Circ(CircleModel),
}

impl ShapeModel {
    /// Containment by whichever shape this is.
    pub open spec fn contains(self, p: Pt) -> bool {
        match self {
            ShapeModel::Line(s) => s.contains(p),
            ShapeModel::Poly(s) => s.contains(p),
            ShapeModel::Circ(s) => s.contains(p),
        }
    }

    /// The shape as its constructor leaves it: a line or a circle of usable size, a polygon
    /// that is convex.
    pub open spec fn is_valid(self) -> bool {
        match self {
            ShapeModel::Line(s) => s.points.len() >= 2 && size_fault(s.thickness) is None,
            ShapeModel::Poly(s) => s.is_convex(),
            ShapeModel::Circ(s) => size_fault(s.radius) is None,
        }
    }

    /// The shape grown by `offset`: a line thickened by twice the offset, a polygon with its
    /// edges moved outward and its corners rounded, a circle with its radius enlarged.
    pub open spec fn grown(self, offset: int) -> Result<ShapeModel, ShapeError> {
        match self {
            ShapeModel::Line(s) => match size_fault(s.thickness + 2 * offset) {
                Some(e) => Err(e),
                None => Ok(ShapeModel::Line(s.grown(offset))),
            },
            ShapeModel::Poly(s) => match s.grown(offset) {
                Ok(p) => Ok(ShapeModel::Poly(p)),
                Err(e) => Err(e),
            },
            ShapeModel::Circ(s) => match size_fault(s.radius + offset) {
                Some(e) => Err(e),
                None => Ok(ShapeModel::Circ(s.grown(offset))),
            },
        }
    }

    /// The closed outline of the shape, counter-clockwise: tessellated for a line and a
    /// circle, the boundary itself for a polygon.
    pub open spec fn outline(self) -> Result<Seq<Point>, GeometryError> {
        match self {
            ShapeModel::Line(s) => s.outline(),
            ShapeModel::Poly(s) => Ok(s.boundary),
            ShapeModel::Circ(s) => s.outline(),
        }
    }
}

/// Growing a shape by nothing gives the shape itself, and so leaves its outline as it was.
pub proof fn lemma_growing_by_nothing(shape: ShapeModel)
    requires
        shape.is_valid(),
    ensures
        shape.grown(0) == Ok::<ShapeModel, ShapeError>(shape),
        shape.grown(0)->Ok_0.outline() == shape.outline(),
{
    match shape {
        ShapeModel::Line(s) => {
            assert(s.grown(0) == s);
        },
        ShapeModel::Poly(s) => {},
        ShapeModel::Circ(s) => {
            assert(s.grown(0) == s);
        },
    }
}

/// Any of the three shapes.
#[derive(Debug)]
pub enum ShapeE {
    Line(Line),
    Poly(ConvexPolygon),
    Circ(Circle),
}

impl View for ShapeE {
    type V = ShapeModel;

    open spec fn view(&self) -> ShapeModel {
        match self {
            ShapeE::Line(s) => ShapeModel::Line(s@),
            ShapeE::Poly(s) => ShapeModel::Poly(s@),
            ShapeE::Circ(s) => ShapeModel::Circ(s@),
        }
    }
}

impl ShapeE {
    /// Grows the shape by `offset`; on failure the shape stays as it was.
    pub fn grow(&mut self, offset: i64) -> (r: Result<(), ShapeError>)
        ensures
            match r {
                Ok(_) => old(self)@.grown(offset as int) == Ok::<ShapeModel, ShapeError>(final(self)@),
                Err(e) => old(self)@.grown(offset as int) == Err::<ShapeModel, ShapeError>(e)
                    && final(self)@ == old(self)@,
            },
            offset == 0 ==> r is Ok && final(self)@ == old(self)@,
    {
        match self {
            ShapeE::Line(s) => s.grow(offset),
            ShapeE::Poly(s) => s.grow(offset),
            ShapeE::Circ(s) => s.grow(offset),
        }
    }

    /// The closed outline of the shape, counter-clockwise.
    pub fn boundary(&self) -> (r: Result<Vec<Point>, GeometryError>)
        ensures
            match r {
                Ok(points) => self@.outline() == Ok::<Seq<Point>, GeometryError>(points@),
                Err(e) => self@.outline() == Err::<Seq<Point>, GeometryError>(e),
            },
    {
        match self {
            ShapeE::Line(s) => s.boundary(),
            ShapeE::Poly(s) => Ok(s.boundary()),
            ShapeE::Circ(s) => s.boundary(),
        }
    }

    /// Whether the shape contains `p`.
    pub fn contains(&self, p: &Point) -> (r: bool)
        ensures
            r == self@.contains(p@),
    {
        match self {
            ShapeE::Line(s) => s.contains(p),
            ShapeE::Poly(s) => s.contains(p),
            ShapeE::Circ(s) => s.contains(p),
        }
    }

    /// An independent copy.
    pub fn duplicate(&self) -> (r: ShapeE)
        ensures
            r@ == self@,
    {
        match self {
            ShapeE::Line(s) => ShapeE::Line(s.duplicate()),
            ShapeE::Poly(s) => ShapeE::Poly(s.duplicate()),
            ShapeE::Circ(s) => ShapeE::Circ(*s),
        }
    }
}

/// The views of a sequence of shapes.
pub open spec fn shape_models(shapes: Seq<ShapeE>) -> Seq<ShapeModel> {
    Seq::new(shapes.len(), |i: int| shapes[i]@)
}

/// Independent copies of all the shapes.
pub fn copy_shapes(shapes: &Vec<ShapeE>) -> (r: Vec<ShapeE>)
    ensures
        shape_models(r@) == shape_models(shapes@),
{
    let mut out: Vec<ShapeE> = Vec::new();
    let mut i: usize = 0;
    while i < shapes.len()
        invariant
            i <= shapes.len(),
            out.len() == i,
            forall|j: int| 0 <= j < i ==> (#[trigger] out@[j])@ == shapes@[j]@,
        decreases shapes.len() - i,
    {
        out.push(shapes[i].duplicate());
        i += 1;
    }
    assert(shape_models(out@) =~= shape_models(shapes@));
    out
}

/// The edges of the closed ring through `boundary`, or `None` when the ring is empty or two
/// neighbouring points coincide.
pub fn get_boundary_edges(boundary: &Vec<Point>) -> (r: Option<Vec<Edge>>)
    ensures
        r is Some <==> boundary.len() > 0 && ring_is_proper(boundary@),
        r matches Some(edges) ==> edges.len() == boundary.len() && forall|i: int|
            0 <= i < edges.len() ==> (#[trigger] edges@[i])@ == ring_edge(boundary@, i),
{
    let n = boundary.len();
    if n == 0 {
        return None;
    }
    let mut edges: Vec<Edge> = Vec::new();
    let mut i: usize = 0;
    while i < n
        invariant
            i <= n,
            n == boundary.len(),
            edges.len() == i,
            forall|j: int| 0 <= j < i ==> #[trigger] has_edge(boundary@, j),
            forall|j: int| 0 <= j < i ==> (#[trigger] edges@[j])@ == ring_edge(boundary@, j),
        decreases n - i,
    {
        let k: usize = if i + 1 >= n {
            i + 1 - n
        } else {
            i + 1
        };
        match Edge::new(boundary[i], boundary[k]) {
            Some(e) => {
                assert(has_edge(boundary@, i as int));
                edges.push(e);
            },
            None => {
                assert(!has_edge(boundary@, i as int));
                return None;
            },
        }
        i += 1;
    }
    Some(edges)
}

/// Each edge of the closed ring paired with the edge after it, or `None` when the ring is
/// empty or two neighbouring points coincide.
pub fn get_boundary_edge_pairs(boundary: &Vec<Point>) -> (r: Option<Vec<(Edge, Edge)>>)
    ensures
        r is Some <==> boundary.len() > 0 && ring_is_proper(boundary@),
        r matches Some(pairs) ==> pairs.len() == boundary.len() && forall|i: int|
            0 <= i < pairs.len() ==> (#[trigger] pairs@[i]).0@ == ring_edge(boundary@, i)
                && pairs@[i].1@ == ring_edge(boundary@, wrap(i + 1, boundary.len() as int)),
{
    let n = boundary.len();
    match get_boundary_edges(boundary) {
        None => None,
        Some(edges) => {
            let mut pairs: Vec<(Edge, Edge)> = Vec::new();
            let mut i: usize = 0;
            while i < n
                invariant
                    i <= n,
                    n == boundary.len(),
                    n == edges.len(),
                    pairs.len() == i,
                    forall|j: int| 0 <= j < n ==> (#[trigger] edges@[j])@ == ring_edge(boundary@, j),
                    forall|j: int|
                        0 <= j < i ==> (#[trigger] pairs@[j]).0@ == ring_edge(boundary@, j)
                            && pairs@[j].1@ == ring_edge(boundary@, wrap(j + 1, n as int)),
                decreases n - i,
            {
                let k: usize = if i + 1 >= n {
                    i + 1 - n
                } else {
                    i + 1
                };
                pairs.push((edges[i], edges[k]));
                i += 1;
            }
            Some(pairs)
        },
    }
}

/// What every shape can do: grow, give its outline, and say whether it contains a point.
pub trait Shape {
    /// The shape as the contracts see it.
    spec fn shape(&self) -> ShapeModel;

    /// Grows the shape by `offset`; on failure the shape stays as it was.
    fn grow(&mut self, offset: i64) -> (r: Result<(), ShapeError>)
        ensures
            match r {
                Ok(_) => old(self).shape().grown(offset as int) == Ok::<ShapeModel, ShapeError>(
                    final(self).shape(),
                ),
                Err(e) => old(self).shape().grown(offset as int) == Err::<ShapeModel, ShapeError>(e)
                    && final(self).shape() == old(self).shape(),
            },
    ;

    /// The closed outline of the shape, counter-clockwise.
    fn boundary(&self) -> (r: Result<Vec<Point>, GeometryError>)
        ensures
            match r {
                Ok(points) => self.shape().outline() == Ok::<Seq<Point>, GeometryError>(points@),
                Err(e) => self.shape().outline() == Err::<Seq<Point>, GeometryError>(e),
            },
    ;

    /// Whether the shape contains `p`.
    fn contains(&self, p: &Point) -> (r: bool)
        ensures
            r == self.shape().contains(p@),
    ;
}

impl Shape for Line {
    open spec fn shape(&self) -> ShapeModel {
        ShapeModel::Line(self@)
    }

    fn grow(&mut self, offset: i64) -> (r: Result<(), ShapeError>) {
        Line::grow(self, offset)
    }

    fn boundary(&self) -> (r: Result<Vec<Point>, GeometryError>) {
        Line::boundary(self)
    }

    fn contains(&self, p: &Point) -> (r: bool) {
        Line::contains(self, p)
    }
}

impl Shape for ConvexPolygon {
    open spec fn shape(&self) -> ShapeModel {
        ShapeModel::Poly(self@)
    }

    fn grow(&mut self, offset: i64) -> (r: Result<(), ShapeError>) {
        ConvexPolygon::grow(self, offset)
    }

    fn boundary(&self) -> (r: Result<Vec<Point>, GeometryError>) {
        Ok(ConvexPolygon::boundary(self))
    }

    fn contains(&self, p: &Point) -> (r: bool) {
        ConvexPolygon::contains(self, p)
    }
}

impl Shape for Circle {
    open spec fn shape(&self) -> ShapeModel {
        ShapeModel::Circ(self@)
    }

    fn grow(&mut self, offset: i64) -> (r: Result<(), ShapeError>) {
        Circle::grow(self, offset)
    }

    fn boundary(&self) -> (r: Result<Vec<Point>, GeometryError>) {
        Circle::boundary(self)
    }

    fn contains(&self, p: &Point) -> (r: bool) {
        Circle::contains(self, p)
    }
}

impl Shape for ShapeE {
    open spec fn shape(&self) -> ShapeModel {
        self@
    }

    fn grow(&mut self, offset: i64) -> (r: Result<(), ShapeError>) {
        ShapeE::grow(self, offset)
    }

    fn boundary(&self) -> (r: Result<Vec<Point>, GeometryError>) {
        ShapeE::boundary(self)
    }

    fn contains(&self, p: &Point) -> (r: bool) {
        ShapeE::contains(self, p)
    }
}

} // verus!
