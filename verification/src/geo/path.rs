//! Collecting the points of a path before it becomes a shape.

use crate::geo::shape::{ConvexPolygon, Line, ShapeError};
use crate::geo::{Point, Pt};
use vstd::prelude::*;

verus! {

/// Why a path command was refused.
#[derive(Clone, Copy, Debug, PartialEq, Eq, Structural)]
pub enum PathError {
    /// A move that is not the first command.
    MoveAfterStart,
    /// A line before any move.
    LineBeforeStart,
    /// A relative step that leads outside the coordinate range.
    OutOfRange,
}

/// The position reached from `from` after the first `upto` steps.
pub open spec fn walked(from: Pt, steps: Seq<Point>, upto: int) -> Pt
    decreases upto,
{
    if upto <= 0 {
        from
    } else {
        let before = walked(from, steps, upto - 1);
        Pt { x: before.x + steps[upto - 1]@.x, y: before.y + steps[upto - 1]@.y }
    }
}

/// Every position reached on the way from `from` through the steps lies in range.
pub open spec fn trail_fits(from: Pt, steps: Seq<Point>) -> bool {
    forall|k: int| 1 <= k <= steps.len() ==> (#[trigger] walked(from, steps, k)).in_range()
}

/// The positions reached after each step, as grid points.
pub open spec fn trail(from: Pt, steps: Seq<Point>) -> Seq<Point> {
    Seq::new(steps.len(), |k: int| Point::on(walked(from, steps, k + 1)))
}

/// The last point of the path, or the origin for an empty path.
pub open spec fn position_of(points: Seq<Point>) -> Pt {
    if points.len() == 0 {
        Pt { x: 0, y: 0 }
    } else {
        points.last()@
    }
}

/// The points of a path under construction.
#[derive(Debug)]
pub struct PathBuilder {
    points: Vec<Point>,
}

impl View for PathBuilder {
    type V = Seq<Point>;

    closed spec fn view(&self) -> Seq<Point> {
        self.points@
    }
}

/// The positions reached from `from` after each of the steps, or `None` when one of them lies
/// out of range.
fn follow(from: Point, steps: &Vec<Point>) -> (r: Option<Vec<Point>>)
    ensures
        r is Some <==> trail_fits(from@, steps@),
        r matches Some(v) ==> v@ == trail(from@, steps@),
{
    let mut out: Vec<Point> = Vec::new();
    let mut pos: Point = from;
    let mut i: usize = 0;
    while i < steps.len()
        invariant
            i <= steps.len(),
            out.len() == i,
            pos@ == walked(from@, steps@, i as int),
            forall|k: int| 1 <= k <= i ==> (#[trigger] walked(from@, steps@, k)).in_range(),
            forall|k: int| 0 <= k < i ==> out@[k] == Point::on(#[trigger] walked(from@, steps@, k + 1)),
        decreases steps.len() - i,
    {
        let step = steps[i];
        let x: i64 = pos.x() + step.x();
        let y: i64 = pos.y() + step.y();
        match Point::new(x, y) {
            Some(p) => {
                proof {
                    p.lemma_on_view();
                }
                out.push(p);
                pos = p;
            },
            None => {
                assert(!walked(from@, steps@, i + 1).in_range());
                return None;
            },
        }
        i += 1;
    }
    assert(out@ =~= trail(from@, steps@));
    Some(out)
}

impl PathBuilder {
    /// An empty path.
    pub fn new() -> (r: PathBuilder)
        ensures
            r@.len() == 0,
    {
        PathBuilder { points: Vec::new() }
    }

    /// The points collected so far.
    pub fn points(&self) -> (r: &Vec<Point>)
        ensures
            r@ == self@,
    {
        &self.points
    }

    /// The last point of the path, or the origin for an empty path.
    pub fn get_position(&self) -> (p: Point)
        ensures
            p@ == position_of(self@),
    {
        if self.points.len() == 0 {
            Point::at(0, 0)
        } else {
            self.points[self.points.len() - 1]
        }
    }

    /// Starts the path at the given points. Refused unless the path is empty.
    pub fn add_moveto(&mut self, pts: Vec<Point>) -> (r: Result<(), PathError>)
        ensures
            match r {
                Ok(_) => old(self)@.len() == 0 && final(self)@ == pts@,
                Err(e) => old(self)@.len() != 0 && e == PathError::MoveAfterStart && final(self)@
                    == old(self)@,
            },
    {
        if self.points.len() != 0 {
            return Err(PathError::MoveAfterStart);
        }
        self.points = pts;
        Ok(())
    }

    /// Starts the path with steps taken from the origin, each relative to the one before.
    /// Refused unless the path is empty and every position reached lies in range.
    pub fn add_moveby(&mut self, pts: Vec<Point>) -> (r: Result<(), PathError>)
        ensures
            match r {
                Ok(_) => old(self)@.len() == 0 && trail_fits(Pt { x: 0, y: 0 }, pts@) && final(self)@ == trail(Pt { x: 0, y: 0 }, pts@),
                Err(e) => final(self)@ == old(self)@ && if old(self)@.len() != 0 {
                    e == PathError::MoveAfterStart
                } else {
                    e == PathError::OutOfRange && !trail_fits(Pt { x: 0, y: 0 }, pts@)
                },
            },
    {
        if self.points.len() != 0 {
            return Err(PathError::MoveAfterStart);
        }
        match follow(Point::at(0, 0), &pts) {
            Some(v) => {
                self.points = v;
                Ok(())
            },
            None => Err(PathError::OutOfRange),
        }
    }

    /// The path started at `p`.
    pub fn do_moveto(self, p: Point) -> (r: Result<PathBuilder, PathError>)
        ensures
            match r {
                Ok(b) => self@.len() == 0 && b@ == seq![p],
                Err(e) => self@.len() != 0 && e == PathError::MoveAfterStart,
            },
    {
        let mut this = self;
        let mut pts: Vec<Point> = Vec::new();
        pts.push(p);
        match this.add_moveto(pts) {
            Ok(_) => Ok(this),
            Err(e) => Err(e),
        }
    }

    /// Continues the path through the given points. Refused while the path is empty.
    pub fn add_lineto(&mut self, pts: Vec<Point>) -> (r: Result<(), PathError>)
        ensures
            match r {
                Ok(_) => old(self)@.len() > 0 && final(self)@ == old(self)@ + pts@,
                Err(e) => old(self)@.len() == 0 && e == PathError::LineBeforeStart && final(self)@
                    == old(self)@,
            },
    {
        if self.points.len() == 0 {
            return Err(PathError::LineBeforeStart);
        }
        let mut pts = pts;
        self.points.append(&mut pts);
        Ok(())
    }

    /// Continues the path by steps, each relative to the position before it. Refused while
    /// the path is empty or when a position reached lies out of range.
    pub fn add_lineby(&mut self, pts: Vec<Point>) -> (r: Result<(), PathError>)
        ensures
            match r {
                Ok(_) => old(self)@.len() > 0 && trail_fits(position_of(old(self)@), pts@)
                    && final(self)@ == old(self)@ + trail(position_of(old(self)@), pts@),
                Err(e) => final(self)@ == old(self)@ && if old(self)@.len() == 0 {
                    e == PathError::LineBeforeStart
                } else {
                    e == PathError::OutOfRange && !trail_fits(position_of(old(self)@), pts@)
                },
            },
    {
        if self.points.len() == 0 {
            return Err(PathError::LineBeforeStart);
        }
        match follow(self.get_position(), &pts) {
            Some(v) => {
                let mut v = v;
                self.points.append(&mut v);
                Ok(())
            },
            None => Err(PathError::OutOfRange),
        }
    }

    /// The path continued to `p`.
    pub fn do_lineto(self, p: Point) -> (r: Result<PathBuilder, PathError>)
        ensures
            match r {
                Ok(b) => self@.len() > 0 && b@ == self@.push(p),
                Err(e) => self@.len() == 0 && e == PathError::LineBeforeStart,
            },
    {
        let mut this = self;
        let mut pts: Vec<Point> = Vec::new();
        pts.push(p);
        match this.add_lineto(pts) {
            Ok(_) => {
                assert(self@ + seq![p] =~= self@.push(p));
                Ok(this)
            },
            Err(e) => Err(e),
        }
    }

    /// The closed path as a convex polygon.
    pub fn into_convex_polygon(self, resolution: i64) -> (r: Result<ConvexPolygon, ShapeError>)
        ensures
            match r {
                Ok(p) => crate::geo::shape::polygon_ring(self@) == Ok::<Seq<Point>, ShapeError>(
                    p@.boundary,
                ) && p@.resolution == resolution && p@.is_convex(),
                Err(e) => crate::geo::shape::polygon_ring(self@) == Err::<Seq<Point>, ShapeError>(e),
            },
    {
        ConvexPolygon::new(self.points, resolution)
    }

    /// The open path as a thick line.
    pub fn into_line(self, thickness: i64, resolution: i64) -> (r: Result<Line, ShapeError>)
        ensures
            match r {
                Ok(l) => self@.len() >= 2 && crate::geo::shape::size_fault(thickness as int) is None
                    && l@ == (crate::geo::shape::LineModel {
                    points: self@,
                    thickness: thickness as int,
                    resolution: resolution as int,
                }),
                Err(e) => if self@.len() < 2 {
                    e == ShapeError::TooFewPoints
                } else {
                    crate::geo::shape::size_fault(thickness as int) == Some(e)
                },
            },
    {
        Line::new(self.points, thickness, resolution)
    }
}

} // verus!
