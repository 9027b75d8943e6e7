//! Closed boundary loops with the shapes that produced them.

use crate::geo::edge::{Edge, Seg};
use crate::geo::shape::{
    copy_points, has_edge, ring_check, ring_edge, ring_is_proper, shape_models, wrap, ConvexPolygon,
    ShapeE,
    ShapeError, ShapeModel,
};
use crate::geo::{Point, Pt};
use vstd::prelude::*;

verus! {

/// A closed boundary and the shapes whose union it outlines.
pub struct ContourModel {
    pub boundary: Seq<Point>,
    pub area: Seq<ShapeModel>,
}

/// Why a sequence of points is no closed boundary, if it is none.
pub open spec fn ring_fault(points: Seq<Point>) -> Option<ShapeError> {
    if points.len() < 3 {
        Some(ShapeError::TooFewPoints)
    } else if !ring_is_proper(points) {
        Some(ShapeError::ZeroLengthEdge)
    } else {
        None
    }
}

/// The boundary of the contour of a shape: the outline of the shape, which must have at least
/// three points and no neighbouring points that coincide.
pub open spec fn contour_of(shape: ShapeModel) -> Result<Seq<Point>, ShapeError> {
    match shape.outline() {
        Err(e) => Err(ShapeError::Outline(e)),
        Ok(boundary) => match ring_fault(boundary) {
            Some(e) => Err(e),
            None => Ok(boundary),
        },
    }
}

impl ContourModel {
    /// Edge `i` of the boundary.
    pub open spec fn edge(self, i: int) -> Seg {
        ring_edge(self.boundary, i)
    }

    /// Some constituent shape contains `p`.
    pub open spec fn contains(self, p: Pt) -> bool {
        exists|i: int| 0 <= i < self.area.len() && (#[trigger] self.area[i]).contains(p)
    }

    /// Every boundary point of `other` is contained in this contour.
    pub open spec fn is_superset_of(self, other: ContourModel) -> bool {
        forall|i: int| 0 <= i < other.boundary.len() ==> self.contains((#[trigger] other.boundary[i])@)
    }

    /// Edge `i` of this boundary crosses or touches edge `j` of the other.
    pub open spec fn meets_at(self, other: ContourModel, i: int, j: int) -> bool {
        self.edge(i).meets(other.edge(j))
    }

    /// Some edge of this boundary crosses or touches some edge of the other.
    pub open spec fn is_mergeable(self, other: ContourModel) -> bool {
        exists|i: int, j: int|
            0 <= i < self.boundary.len() && 0 <= j < other.boundary.len() && #[trigger] self.meets_at(
                other,
                i,
                j,
            )
    }
}

/// A closed boundary loop together with its constituent shapes.
#[derive(Debug)]
pub struct Contour {
    boundary: Vec<Point>,
    area: Vec<ShapeE>,
}

impl View for Contour {
    type V = ContourModel;

    closed spec fn view(&self) -> ContourModel {
        ContourModel { boundary: self.boundary@, area: shape_models(self.area@) }
    }
}

impl Contour {
    /// The boundary has at least three points, and no two neighbours coincide.
    #[verifier::type_invariant]
    pub open spec fn inv(self) -> bool {
        ring_fault(self@.boundary) is None
    }

    /// The contour of one shape: its outline and the shape itself.
    ///
    /// Fails with `Outline` when the outline cannot be laid out, and with `TooFewPoints` when
    /// the outline has fewer than three points.
    pub fn new(shape: ShapeE) -> (r: Result<Contour, ShapeError>)
        ensures
            match r {
                Ok(c) => c@ == (ContourModel { boundary: c@.boundary, area: seq![shape@] })
                    && contour_of(shape@) == Ok::<Seq<Point>, ShapeError>(c@.boundary),
                Err(e) => contour_of(shape@) == Err::<Seq<Point>, ShapeError>(e),
            },
    {
        match shape.boundary() {
            Ok(boundary) => Contour::with_boundary(shape, boundary),
            Err(e) => Err(ShapeError::Outline(e)),
        }
    }

    /// The contour of one shape with a given outline.
    ///
    /// Fails with `TooFewPoints` for fewer than three points and with `ZeroLengthEdge` when
    /// neighbouring points of the outline coincide.
    pub fn with_boundary(shape: ShapeE, boundary: Vec<Point>) -> (r: Result<Contour, ShapeError>)
        ensures
            match r {
                Ok(c) => ring_fault(boundary@) is None && c@ == (ContourModel {
                    boundary: boundary@,
                    area: seq![shape@],
                }),
                Err(e) => ring_fault(boundary@) == Some(e),
            },
    {
        if boundary.len() < 3 {
            return Err(ShapeError::TooFewPoints);
        }
        if !ring_check(&boundary) {
            return Err(ShapeError::ZeroLengthEdge);
        }
        let mut area: Vec<ShapeE> = Vec::new();
        area.push(shape);
        assert(shape_models(area@) =~= seq![shape@]);
        Ok(Contour { boundary, area })
    }

    /// The contour of a polygon: its own boundary.
    pub fn from_polygon(polygon: ConvexPolygon) -> (c: Contour)
        ensures
            c@ == (ContourModel {
                boundary: polygon@.boundary,
                area: seq![ShapeModel::Poly(polygon@)],
            }),
    {
        let boundary = copy_points(polygon.points());
        let mut area: Vec<ShapeE> = Vec::new();
        let ghost model = polygon@;
        let shape = ShapeE::Poly(polygon);
        area.push(shape);
        assert(shape_models(area@) =~= seq![ShapeModel::Poly(model)]);
        Contour { boundary, area }
    }

    /// A contour from parts already known to be well formed.
    pub(crate) fn assemble(boundary: Vec<Point>, area: Vec<ShapeE>) -> (c: Contour)
        requires
            ring_fault(boundary@) is None,
        ensures
            c@ == (ContourModel { boundary: boundary@, area: shape_models(area@) }),
    {
        Contour { boundary, area }
    }

    /// The contour taken apart.
    pub(crate) fn dismantle(self) -> (r: (Vec<Point>, Vec<ShapeE>))
        ensures
            self@ == (ContourModel { boundary: r.0@, area: shape_models(r.1@) }),
            ring_fault(r.0@) is None,
    {
        proof {
            use_type_invariant(&self);
        }
        (self.boundary, self.area)
    }

    /// The boundary points in order, counter-clockwise.
    pub fn points(&self) -> (r: &Vec<Point>)
        ensures
            r@ == self@.boundary,
            ring_fault(r@) is None,
    {
        proof {
            use_type_invariant(self);
        }
        &self.boundary
    }

    /// The constituent shapes.
    pub fn area(&self) -> (r: &Vec<ShapeE>)
        ensures
            shape_models(r@) == self@.area,
    {
        &self.area
    }

    /// Edge `i` of the boundary: from point `i` to the point after it.
    pub fn edge(&self, i: usize) -> (e: Edge)
        requires
            i < self@.boundary.len(),
        ensures
            e@ == self@.edge(i as int),
            e == Edge::between(
                self@.boundary[i as int],
                self@.boundary[wrap(i + 1, self@.boundary.len() as int)],
            ),
    {
        proof {
            use_type_invariant(self);
        }
        let n = self.boundary.len();
        let k: usize = if i + 1 >= n {
            i + 1 - n
        } else {
            i + 1
        };
        assert(has_edge(self@.boundary, i as int));
        Edge::new(self.boundary[i], self.boundary[k]).unwrap()
    }

    /// The edges of the boundary in order.
    pub fn edges(&self) -> (r: Vec<Edge>)
        ensures
            r.len() == self@.boundary.len(),
            forall|i: int| 0 <= i < r.len() ==> (#[trigger] r@[i])@ == self@.edge(i),
            forall|i: int|
                0 <= i < r.len() ==> #[trigger] r@[i] == Edge::between(
                    self@.boundary[i],
                    self@.boundary[wrap(i + 1, self@.boundary.len() as int)],
                ),
    {
        let n = self.boundary.len();
        let mut out: Vec<Edge> = Vec::new();
        let mut i: usize = 0;
        while i < n
            invariant
                i <= n,
                n == self@.boundary.len(),
                out.len() == i,
                forall|j: int| 0 <= j < i ==> (#[trigger] out@[j])@ == self@.edge(j),
                forall|j: int|
                    0 <= j < i ==> #[trigger] out@[j] == Edge::between(
                        self@.boundary[j],
                        self@.boundary[wrap(j + 1, n as int)],
                    ),
            decreases n - i,
        {
            out.push(self.edge(i));
            i += 1;
        }
        out
    }

    /// Whether some constituent shape contains `p`.
    pub fn contains(&self, p: &Point) -> (r: bool)
        ensures
            r == self@.contains(p@),
    {
        let mut i: usize = 0;
        while i < self.area.len()
            invariant
                i <= self.area.len(),
                forall|j: int| 0 <= j < i ==> !(#[trigger] self@.area[j]).contains(p@),
            decreases self.area.len() - i,
        {
            if self.area[i].contains(p) {
                assert(self@.area[i as int].contains(p@));
                return true;
            }
            i += 1;
        }
        false
    }

    /// Whether every boundary point of `other` lies in this contour.
    pub fn is_superset_of(&self, other: &Contour) -> (r: bool)
        ensures
            r == self@.is_superset_of(other@),
    {
        let pts = other.points();
        let mut i: usize = 0;
        while i < pts.len()
            invariant
                i <= pts.len(),
                pts@ == other@.boundary,
                forall|j: int| 0 <= j < i ==> self@.contains((#[trigger] other@.boundary[j])@),
            decreases pts.len() - i,
        {
            if !self.contains(&pts[i]) {
                return false;
            }
            i += 1;
        }
        true
    }

    /// Whether some edge of this boundary crosses or touches some edge of the other.
    pub fn is_mergeable(&self, other: &Contour) -> (r: bool)
        ensures
            r == self@.is_mergeable(other@),
    {
        let mine = self.edges();
        let theirs = other.edges();
        let mut i: usize = 0;
        while i < mine.len()
            invariant
                i <= mine.len(),
                mine.len() == self@.boundary.len(),
                theirs.len() == other@.boundary.len(),
                forall|k: int| 0 <= k < mine.len() ==> (#[trigger] mine@[k])@ == self@.edge(k),
                forall|k: int| 0 <= k < theirs.len() ==> (#[trigger] theirs@[k])@ == other@.edge(k),
                forall|a: int, b: int|
                    0 <= a < i && 0 <= b < theirs.len() ==> !#[trigger] self@.meets_at(other@, a, b),
            decreases mine.len() - i,
        {
            let mut j: usize = 0;
            while j < theirs.len()
                invariant
                    i < mine.len(),
                    j <= theirs.len(),
                    mine.len() == self@.boundary.len(),
                    theirs.len() == other@.boundary.len(),
                    forall|k: int| 0 <= k < mine.len() ==> (#[trigger] mine@[k])@ == self@.edge(k),
                    forall|k: int|
                        0 <= k < theirs.len() ==> (#[trigger] theirs@[k])@ == other@.edge(k),
                    forall|a: int, b: int|
                        0 <= a < i && 0 <= b < theirs.len() ==> !#[trigger] self@.meets_at(
                            other@,
                            a,
                            b,
                        ),
                    forall|b: int| 0 <= b < j ==> !#[trigger] self@.meets_at(other@, i as int, b),
                decreases theirs.len() - j,
            {
                if mine[i].meets(&theirs[j]) {
                    assert(self@.meets_at(other@, i as int, j as int));
                    return true;
                }
                j += 1;
            }
            i += 1;
        }
        false
    }
}

/// Mergeability is symmetric: one boundary meets the other exactly when the other meets it.
pub proof fn lemma_mergeable_symmetric(a: ContourModel, b: ContourModel)
    ensures
        a.is_mergeable(b) == b.is_mergeable(a),
{
    if a.is_mergeable(b) {
        let (i, j) = choose|i: int, j: int|
            0 <= i < a.boundary.len() && 0 <= j < b.boundary.len() && #[trigger] a.meets_at(b, i, j);
        crate::geo::edge::lemma_meets_symmetric(a.edge(i), b.edge(j));
        assert(b.meets_at(a, j, i));
    }
    if b.is_mergeable(a) {
        let (j, i) = choose|j: int, i: int|
            0 <= j < b.boundary.len() && 0 <= i < a.boundary.len() && #[trigger] b.meets_at(a, j, i);
        crate::geo::edge::lemma_meets_symmetric(b.edge(j), a.edge(i));
        assert(a.meets_at(b, i, j));
    }
}

/// A contour over the shapes of two contours contains exactly what either of them contains.
pub proof fn lemma_contains_union(a: ContourModel, b: ContourModel, boundary: Seq<Point>, p: Pt)
    ensures
        (ContourModel { boundary, area: a.area + b.area }).contains(p) <==> a.contains(p) || b.contains(p),
{
    let c = ContourModel { boundary, area: a.area + b.area };
    if c.contains(p) {
        let k = choose|k: int| 0 <= k < c.area.len() && (#[trigger] c.area[k]).contains(p);
        if k < a.area.len() {
            assert(a.area[k].contains(p));
        } else {
            assert(b.area[k - a.area.len()].contains(p));
        }
    }
    if a.contains(p) {
        let k = choose|k: int| 0 <= k < a.area.len() && (#[trigger] a.area[k]).contains(p);
        assert(c.area[k].contains(p));
    }
    if b.contains(p) {
        let k = choose|k: int| 0 <= k < b.area.len() && (#[trigger] b.area[k]).contains(p);
        assert(c.area[a.area.len() + k].contains(p));
    }
}

} // verus!
