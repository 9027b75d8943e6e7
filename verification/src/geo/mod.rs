//! Fixed-point plane geometry: points, tolerances, and the modules built on them.

pub mod arc;
pub mod arith;
pub mod contour;
pub mod edge;
pub mod intersect;
pub mod outline;
pub mod path;
pub mod repository;
pub mod shape;
pub mod split;
pub mod stitch;
pub mod trig;

use crate::geo::arith::lemma_difference_product;
use vstd::prelude::*;

verus! {

/// Number of grid steps in one working unit.
pub const SCALE: i64 = 100_000;

/// Tolerance, in grid steps, below which two lengths count as equal.
pub const EPSILON: i64 = 100;

/// Largest magnitude a coordinate may have, in grid steps.
pub const COORD_LIMIT: i64 = 268_435_456;

/// Bound on the magnitude of a cross or dot product formed from three grid points.
pub const PRODUCT_LIMIT: i128 = 576_460_752_303_423_488;

/// A point of the mathematical plane with integer coordinates.
pub struct Pt {
    pub x: int,
    pub y: int,
}

/// True when `a` and `b` differ by less than the tolerance.
pub open spec fn near(a: int, b: int) -> bool {
    -(EPSILON as int) < a - b < EPSILON as int
}

impl Pt {
    /// Both coordinates lie within the representable range.
    pub open spec fn in_range(self) -> bool {
        &&& -(COORD_LIMIT as int) <= self.x <= COORD_LIMIT as int
        &&& -(COORD_LIMIT as int) <= self.y <= COORD_LIMIT as int
    }

    /// Tolerant equality: each axis differs by less than the tolerance.
    pub open spec fn coincides(self, other: Pt) -> bool {
        near(self.x, other.x) && near(self.y, other.y)
    }
}

/// Cross product of `b - a` and `p - a`: positive when `p` lies to the left of the ray from `a`
/// through `b`.
pub open spec fn cross(a: Pt, b: Pt, p: Pt) -> int {
    (b.x - a.x) * (p.y - a.y) - (b.y - a.y) * (p.x - a.x)
}

/// Dot product of `b - a` and `p - a`.
pub open spec fn dot(a: Pt, b: Pt, p: Pt) -> int {
    (b.x - a.x) * (p.x - a.x) + (b.y - a.y) * (p.y - a.y)
}

/// Squared Euclidean distance between `a` and `b`.
pub open spec fn dist_sq(a: Pt, b: Pt) -> int {
    (b.x - a.x) * (b.x - a.x) + (b.y - a.y) * (b.y - a.y)
}

/// A point on the fixed-point grid.
#[derive(Clone, Copy, Debug)]
pub struct Point {
    x: i64,
    y: i64,
}

impl View for Point {
    type V = Pt;

    closed spec fn view(&self) -> Pt {
        Pt { x: self.x as int, y: self.y as int }
    }
}

impl Point {
    /// Both coordinates lie within the coordinate range.
    #[verifier::type_invariant]
    pub open spec fn inv(self) -> bool {
        self@.in_range()
    }

    /// The grid point at the mathematical point `p`, which must be in range.
    pub closed spec fn on(p: Pt) -> Point {
        Point { x: p.x as i64, y: p.y as i64 }
    }

    /// A grid point is determined by its position.
    pub proof fn lemma_on_view(self)
        ensures
            Point::on(self@) == self,
    {
    }

    /// The grid point at a position in range lies at that position.
    pub proof fn lemma_view_on(p: Pt)
        requires
            p.in_range(),
        ensures
            Point::on(p)@ == p,
    {
    }

    /// Two grid points at the same position are the same point.
    pub proof fn lemma_same_position(self, other: Point)
        ensures
            self@ == other@ <==> self == other,
    {
    }

    /// The point `(x, y)`, or `None` when a coordinate is out of range.
    pub fn new(x: i64, y: i64) -> (r: Option<Point>)
        ensures
            r is Some <==> (Pt { x: x as int, y: y as int }).in_range(),
            r matches Some(p) ==> p@ == (Pt { x: x as int, y: y as int }),
    {
        if -COORD_LIMIT <= x && x <= COORD_LIMIT && -COORD_LIMIT <= y && y <= COORD_LIMIT {
            Some(Point { x, y })
        } else {
            None
        }
    }

    /// The point `(x, y)` for coordinates known to be in range.
    pub(crate) fn at(x: i64, y: i64) -> (r: Point)
        requires
            (Pt { x: x as int, y: y as int }).in_range(),
        ensures
            r@ == (Pt { x: x as int, y: y as int }),
    {
        Point { x, y }
    }

    /// The first coordinate, in grid steps.
    pub fn x(&self) -> (r: i64)
        ensures
            r == self@.x,
            -COORD_LIMIT <= r <= COORD_LIMIT,
    {
        proof {
            use_type_invariant(self);
        }
        self.x
    }

    /// The second coordinate, in grid steps.
    pub fn y(&self) -> (r: i64)
        ensures
            r == self@.y,
            -COORD_LIMIT <= r <= COORD_LIMIT,
    {
        proof {
            use_type_invariant(self);
        }
        self.y
    }

    /// Tolerant equality of two grid points.
    pub fn coincides(&self, other: &Point) -> (r: bool)
        ensures
            r == self@.coincides(other@),
    {
        proof {
            use_type_invariant(self);
            use_type_invariant(other);
        }
        let dx: i64 = self.x - other.x;
        let dy: i64 = self.y - other.y;
        -EPSILON < dx && dx < EPSILON && -EPSILON < dy && dy < EPSILON
    }
}

/// Cross product of `b - a` and `p - a` on grid points.
pub fn cross_of(a: &Point, b: &Point, p: &Point) -> (r: i128)
    ensures
        r == cross(a@, b@, p@),
        -PRODUCT_LIMIT <= r <= PRODUCT_LIMIT,
{
    let dx: i64 = b.x() - a.x();
    let dy: i64 = b.y() - a.y();
    let px: i64 = p.x() - a.x();
    let py: i64 = p.y() - a.y();
    proof {
        lemma_difference_product(dx as int, py as int);
        lemma_difference_product(dy as int, px as int);
    }
    (dx as i128) * (py as i128) - (dy as i128) * (px as i128)
}

/// Dot product of `b - a` and `p - a` on grid points.
pub fn dot_of(a: &Point, b: &Point, p: &Point) -> (r: i128)
    ensures
        r == dot(a@, b@, p@),
        -PRODUCT_LIMIT <= r <= PRODUCT_LIMIT,
{
    let dx: i64 = b.x() - a.x();
    let dy: i64 = b.y() - a.y();
    let px: i64 = p.x() - a.x();
    let py: i64 = p.y() - a.y();
    proof {
        lemma_difference_product(dx as int, px as int);
        lemma_difference_product(dy as int, py as int);
    }
    (dx as i128) * (px as i128) + (dy as i128) * (py as i128)
}

/// Squared distance between two grid points.
pub fn dist_sq_of(a: &Point, b: &Point) -> (r: i128)
    ensures
        r == dist_sq(a@, b@),
        0 <= r <= PRODUCT_LIMIT,
{
    let dx: i64 = b.x() - a.x();
    let dy: i64 = b.y() - a.y();
    proof {
        lemma_difference_product(dx as int, dx as int);
        lemma_difference_product(dy as int, dy as int);
        assert(dx * dx >= 0) by (nonlinear_arith);
        assert(dy * dy >= 0) by (nonlinear_arith);
    }
    (dx as i128) * (dx as i128) + (dy as i128) * (dy as i128)
}

} // verus!
