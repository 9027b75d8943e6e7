//! The tessellated outlines of the shapes.

use crate::geo::arc::{
    arc_segments, at_radius, count_segments, is_size, lemma_step_angle, lemma_turned_length,
    lemma_turned_stretch_radius, length_sq, moved, shifted, stretched, turn, turned, wrapped, Offset,
    Shift,
};
use crate::geo::arith::div_nearest;
use crate::geo::arith::div_round;
use crate::geo::edge::{Edge, Seg};
use crate::geo::intersect::GeometryError;
use crate::geo::shape::{
    apart, has_edge, is_spaced, reversed, ring_is_proper, Circle, CircleModel, Line, LineModel,
    SIZE_LIMIT,
};
use crate::geo::trig::{FULL_TURN, HALF_TURN, ONE};
use crate::geo::{dist_sq, Point, Pt};
use vstd::prelude::*;

verus! {

/// The first `upto` points with every point left out that coincides with the last one kept.
pub open spec fn compacted(raw: Seq<Point>, upto: int) -> Seq<Point>
    decreases upto,
{
    if upto <= 0 {
        Seq::empty()
    } else {
        let kept = compacted(raw, upto - 1);
        if kept.len() > 0 && kept.last()@.coincides(raw[upto - 1]@) {
            kept
        } else {
            kept.push(raw[upto - 1])
        }
    }
}

/// The points without those at the end that coincide with the first.
pub open spec fn trimmed(points: Seq<Point>) -> Seq<Point>
    decreases points.len(),
{
    if points.len() > 1 && points.last()@.coincides(points[0]@) {
        trimmed(points.drop_last())
    } else {
        points
    }
}

/// The points as a closed loop: no point coincides with the one before it, and the last does
/// not coincide with the first.
pub open spec fn closed_loop(raw: Seq<Point>) -> Seq<Point> {
    trimmed(compacted(raw, raw.len() as int))
}

/// Compaction leaves no point that coincides with the one after it.
pub proof fn lemma_compacted_spaced(raw: Seq<Point>, upto: int)
    ensures
        is_spaced(compacted(raw, upto)),
    decreases upto,
{
    if upto > 0 {
        lemma_compacted_spaced(raw, upto - 1);
        let kept = compacted(raw, upto - 1);
        let next = compacted(raw, upto);
        assert forall|i: int| 0 <= i < next.len() - 1 implies #[trigger] apart(next, i) by {
            if i < kept.len() - 1 {
                assert(apart(kept, i));
            }
        }
    }
}

/// Trimming keeps the spacing and leaves a ring whose every edge has positive length, unless
/// a single point is left.
pub proof fn lemma_trimmed_proper(points: Seq<Point>)
    requires
        is_spaced(points),
    ensures
        is_spaced(trimmed(points)),
        trimmed(points).len() >= 2 ==> ring_is_proper(trimmed(points)),
    decreases points.len(),
{
    if points.len() > 1 && points.last()@.coincides(points[0]@) {
        let shorter = points.drop_last();
        assert forall|i: int| 0 <= i < shorter.len() - 1 implies #[trigger] apart(shorter, i) by {
            assert(apart(points, i));
        }
        lemma_trimmed_proper(shorter);
    } else if points.len() >= 2 {
        let n = points.len() as int;
        assert forall|i: int| 0 <= i < n implies #[trigger] has_edge(points, i) by {
            if i < n - 1 {
                assert(apart(points, i));
            }
        }
    }
}

/// A closed loop of at least two points is a ring whose every edge has positive length.
pub proof fn lemma_closed_loop_proper(raw: Seq<Point>)
    ensures
        closed_loop(raw).len() >= 2 ==> ring_is_proper(closed_loop(raw)),
{
    lemma_compacted_spaced(raw, raw.len() as int);
    lemma_trimmed_proper(compacted(raw, raw.len() as int));
}

/// Every point that compaction keeps is one of the first `upto` points.
pub proof fn lemma_compacted_from(raw: Seq<Point>, upto: int)
    requires
        upto <= raw.len(),
    ensures
        forall|i: int|
            0 <= i < compacted(raw, upto).len() ==> raw.contains(#[trigger] compacted(raw, upto)[i]),
    decreases upto,
{
    if upto > 0 {
        lemma_compacted_from(raw, upto - 1);
        let kept = compacted(raw, upto - 1);
        let next = compacted(raw, upto);
        assert forall|i: int| 0 <= i < next.len() implies raw.contains(#[trigger] next[i]) by {
            if i < kept.len() {
                assert(next[i] == kept[i]);
            } else {
                assert(next[i] == raw[upto - 1]);
            }
        }
    }
}

/// Trimming leaves the points it keeps where they were.
pub proof fn lemma_trimmed_from(points: Seq<Point>)
    ensures
        trimmed(points).len() <= points.len(),
        forall|i: int| 0 <= i < trimmed(points).len() ==> #[trigger] trimmed(points)[i] == points[i],
    decreases points.len(),
{
    if points.len() > 1 && points.last()@.coincides(points[0]@) {
        lemma_trimmed_from(points.drop_last());
    }
}

/// Every point of a closed loop is one of the points it was made from.
pub proof fn lemma_closed_loop_from(raw: Seq<Point>)
    ensures
        forall|i: int| 0 <= i < closed_loop(raw).len() ==> raw.contains(#[trigger] closed_loop(raw)[i]),
{
    let kept = compacted(raw, raw.len() as int);
    lemma_compacted_from(raw, raw.len() as int);
    lemma_trimmed_from(kept);
    assert forall|i: int| 0 <= i < closed_loop(raw).len() implies raw.contains(
        #[trigger] closed_loop(raw)[i],
    ) by {
        assert(closed_loop(raw)[i] == kept[i]);
    }
}

/// The points as a closed loop.
pub fn close_loop(raw: &Vec<Point>) -> (r: Vec<Point>)
    ensures
        r@ == closed_loop(raw@),
        r.len() >= 2 ==> ring_is_proper(r@),
{
    let mut out: Vec<Point> = Vec::new();
    let mut i: usize = 0;
    while i < raw.len()
        invariant
            i <= raw.len(),
            out@ == compacted(raw@, i as int),
        decreases raw.len() - i,
    {
        let p = raw[i];
        if out.len() > 0 && out[out.len() - 1].coincides(&p) {
        } else {
            out.push(p);
        }
        i += 1;
    }
    while out.len() > 1 && out[out.len() - 1].coincides(&out[0])
        invariant
            trimmed(out@) == closed_loop(raw@),
        decreases out.len(),
    {
        let ghost before = out@;
        out.pop();
        assert(out@ == before.drop_last());
    }
    proof {
        lemma_closed_loop_proper(raw@);
    }
    out
}

impl CircleModel {
    /// The angle between neighbouring points of the outline of `n` points.
    pub open spec fn step(n: int) -> int {
        div_nearest(FULL_TURN as int, n)
    }

    /// Point `k` of the outline of `n` points: the point above the center turned
    /// counter-clockwise by `k` steps.
    pub open spec fn outline_point(self, n: int, k: int) -> Pt {
        moved(self.center@, turned(Shift { x: 0, y: self.radius }, wrapped(k * Self::step(n))))
    }

    /// The number of points of the outline: the circumference divided by the resolution,
    /// rounded up.
    pub open spec fn outline_len(self) -> int {
        arc_segments(self.radius, 1, FULL_TURN as int, self.resolution)
    }

    /// The outline before it is closed: the points in order, counter-clockwise.
    pub open spec fn raw_outline(self) -> Seq<Point> {
        Seq::new(
            self.outline_len() as nat,
            |k: int| Point::on(self.outline_point(self.outline_len(), k)),
        )
    }

    /// `p` lies on the rim: at the radius from the center, give or take two grid steps.
    pub open spec fn on_rim(self, p: Pt) -> bool {
        let far = dist_sq(self.center@, p);
        &&& far <= (self.radius + 1) * (self.radius + 1)
        &&& self.radius >= 2 ==> (self.radius - 2) * (self.radius - 2) <= far
    }

    /// The tessellated outline, counter-clockwise, as a closed loop.
    pub open spec fn outline(self) -> Result<Seq<Point>, GeometryError> {
        if !is_size(self.resolution) {
            Err(GeometryError::BadDimension)
        } else if forall|k: int|
            0 <= k < self.outline_len() ==> (#[trigger] self.outline_point(self.outline_len(), k)).in_range() {
            Ok(closed_loop(self.raw_outline()))
        } else {
            Err(GeometryError::OutOfRange)
        }
    }
}

/// Every point of the outline of a circle lies on its rim, however many points the outline
/// has.
pub proof fn lemma_outline_point_on_rim(c: CircleModel, n: int, k: int)
    requires
        is_size(c.radius),
    ensures
        c.on_rim(c.outline_point(n, k)),
{
    let r = c.radius;
    let v = Shift { x: 0, y: r };
    let a = wrapped(k * CircleModel::step(n));
    let t = turned(v, a);
    let tt = length_sq(t);
    let rr = r * r;
    assert(dist_sq(c.center@, c.outline_point(n, k)) == tt);
    lemma_turned_length(v, a);
    assert(length_sq(v) == rr);
    assert(0 < rr <= 1_152_921_504_606_846_976) by (nonlinear_arith)
        requires
            0 < r <= 1_073_741_824,
            rr == r * r,
    ;
    assert((r + 1) * (r + 1) == rr + 2 * r + 1) by (nonlinear_arith)
        requires
            rr == r * r,
    ;
    assert((r - 2) * (r - 2) == rr - 4 * r + 4) by (nonlinear_arith)
        requires
            rr == r * r,
    ;
    assert(ONE * rr <= ONE * tt + 2 * rr + 2 * ONE * r);
    if r < 18 {
        assert(rr <= 17 * 17) by (nonlinear_arith)
            requires
                0 < r < 18,
                rr == r * r,
        ;
    }
}

/// Every point of the outline of a circle lies on its rim.
pub proof fn lemma_outline_on_rim(c: CircleModel)
    requires
        is_size(c.radius),
    ensures
        c.outline() matches Ok(points) ==> forall|i: int|
            0 <= i < points.len() ==> c.on_rim((#[trigger] points[i])@),
{
    if let Ok(points) = c.outline() {
        let raw = c.raw_outline();
        let n = c.outline_len();
        lemma_closed_loop_from(raw);
        assert forall|i: int| 0 <= i < points.len() implies c.on_rim((#[trigger] points[i])@) by {
            assert(raw.contains(points[i]));
            let k = choose|k: int| 0 <= k < raw.len() && raw[k] == points[i];
            let p = c.outline_point(n, k);
            assert(p.in_range());
            Point::lemma_view_on(p);
            lemma_outline_point_on_rim(c, n, k);
        }
    }
}

impl Circle {
    /// The tessellated outline of the circle, counter-clockwise. Every point of it lies on
    /// the rim of the circle.
    ///
    /// Fails with `BadDimension` unless the resolution is positive and within the size limit,
    /// and with `OutOfRange` when a point leaves the coordinate range.
    pub fn boundary(&self) -> (r: Result<Vec<Point>, GeometryError>)
        ensures
            match r {
                Ok(points) => self@.outline() == Ok::<Seq<Point>, GeometryError>(points@),
                Err(e) => self@.outline() == Err::<Seq<Point>, GeometryError>(e),
            },
            r matches Ok(points) ==> forall|i: int|
                0 <= i < points.len() ==> self@.on_rim((#[trigger] points[i])@),
    {
        let resolution = self.resolution();
        if resolution <= 0 || resolution > SIZE_LIMIT {
            return Err(GeometryError::BadDimension);
        }
        let radius = self.radius();
        let center = self.center();
        let n: u64 = count_segments(radius, 1, FULL_TURN, resolution);
        let step: i128 = div_round(FULL_TURN, n as i128);
        let up = Offset { x: 0, y: radius };
        let ghost goal = self@.raw_outline();
        let mut raw: Vec<Point> = Vec::new();
        let mut k: u64 = 0;
        while k < n
            invariant
                k <= n,
                1 <= n <= 0x4_0000_0000,
                is_size(self@.resolution),
                n == self@.outline_len(),
                step == CircleModel::step(n as int),
                up@ == (Shift { x: 0, y: self@.radius }),
                0 < up.y <= SIZE_LIMIT,
                up.x == 0,
                center == self@.center,
                goal == self@.raw_outline(),
                forall|j: int| 0 <= j < k ==> (#[trigger] self@.outline_point(n as int, j)).in_range(),
                raw@ == goal.subrange(0, k as int),
            decreases n - k,
        {
            proof {
                lemma_step_angle(FULL_TURN as int, n as int, k as int);
            }
            let full: i128 = (k as i128) * step;
            let angle: i128 = if full > HALF_TURN {
                full - FULL_TURN
            } else {
                full
            };
            let (tx, ty) = turn(up, angle);
            match shifted(&center, tx, ty) {
                Ok(p) => {
                    raw.push(p);
                    assert(goal.subrange(0, k + 1) =~= goal.subrange(0, k as int).push(goal[k as int]));
                },
                Err(_) => {
                    assert(!self@.outline_point(n as int, k as int).in_range());
                    return Err(GeometryError::OutOfRange);
                },
            }
            k += 1;
        }
        assert(goal.subrange(0, n as int) =~= goal);
        let out = close_loop(&raw);
        proof {
            use_type_invariant(self);
            lemma_outline_on_rim(self@);
            let points = self@.outline()->Ok_0;
            assert(points == out@);
            assert forall|i: int| 0 <= i < out.len() implies self@.on_rim((#[trigger] out[i])@) by {
                assert(self@.on_rim(points[i]@));
            }
        }
        Ok(out)
    }
}

/// Point `k` of the fan around `center`: the displacement `v` turned by `k` steps.
pub open spec fn fan_point(center: Pt, v: Shift, step: int, k: int) -> Pt {
    moved(center, turned(v, k * step))
}

/// The points of a fan of `n` equal steps through the angle `a`, if they all lie in range.
pub open spec fn fan(center: Pt, v: Shift, a: int, n: int) -> Result<Seq<Point>, GeometryError> {
    let step = div_nearest(a, n);
    if forall|k: int| 0 <= k <= n ==> (#[trigger] fan_point(center, v, step, k)).in_range() {
        Ok(Seq::new((n + 1) as nat, |k: int| Point::on(fan_point(center, v, step, k))))
    } else {
        Err(GeometryError::OutOfRange)
    }
}

/// A fan starts at the center moved by the displacement, and the outline of a circle at the
/// point above its center.
pub proof fn lemma_fan_starts(center: Pt, v: Shift, step: int, c: CircleModel, n: int)
    ensures
        fan_point(center, v, step, 0) == moved(center, v),
        c.outline_point(n, 0) == (Pt { x: c.center@.x, y: c.center@.y + c.radius }),
{
    assert(0 * step == 0) by (nonlinear_arith);
    assert(0 * CircleModel::step(n) == 0) by (nonlinear_arith);
    crate::geo::arc::lemma_turned_by_nothing(v);
    crate::geo::arc::lemma_turned_by_nothing(Shift { x: 0, y: c.radius });
}

/// The points of a fan whose displacement was stretched to the length `num / den` all lie at
/// that distance from the center, within the tolerance.
pub proof fn lemma_fan_radius(center: Pt, dx: int, dy: int, num: int, den: int, a: int, n: int)
    requires
        dx != 0 || dy != 0,
        is_size(num),
        1 <= den <= 2,
        0 <= n,
    ensures
        fan(center, stretched(dx, dy, num, den), a, n) matches Ok(points) ==> forall|i: int|
            0 <= i < points.len() ==> at_radius(center, (#[trigger] points[i])@, num, den),
{
    let v = stretched(dx, dy, num, den);
    if let Ok(points) = fan(center, v, a, n) {
        let step = div_nearest(a, n);
        assert forall|i: int| 0 <= i < points.len() implies at_radius(
            center,
            (#[trigger] points[i])@,
            num,
            den,
        ) by {
            let p = fan_point(center, v, step, i);
            assert(p.in_range());
            Point::lemma_view_on(p);
            lemma_turned_stretch_radius(center, dx, dy, num, den, v, i * step);
        }
    }
}

/// Appends the points of a fan to `out`.
fn lay_fan(center: &Point, v: Offset, a: i128, n: u64, out: &mut Vec<Point>) -> (r: Result<(), GeometryError>)
    requires
        -HALF_TURN <= a <= HALF_TURN,
        1 <= n <= 0x4_0000_0000,
        -crate::geo::arc::REACH <= v.x <= crate::geo::arc::REACH,
        -crate::geo::arc::REACH <= v.y <= crate::geo::arc::REACH,
    ensures
        match r {
            Ok(_) => fan(center@, v@, a as int, n as int) is Ok && final(out)@ == old(out)@ + fan(
                center@,
                v@,
                a as int,
                n as int,
            )->Ok_0,
            Err(e) => fan(center@, v@, a as int, n as int) == Err::<Seq<Point>, GeometryError>(e),
        },
{
    let step: i128 = div_round(a, n as i128);
    let ghost base = out@;
    let ghost goal = Seq::new(
        (n + 1) as nat,
        |k: int| Point::on(fan_point(center@, v@, step as int, k)),
    );
    let mut k: u64 = 0;
    while k <= n
        invariant
            k <= n + 1,
            1 <= n <= 0x4_0000_0000,
            -HALF_TURN <= a <= HALF_TURN,
            -crate::geo::arc::REACH <= v.x <= crate::geo::arc::REACH,
            -crate::geo::arc::REACH <= v.y <= crate::geo::arc::REACH,
            step == div_nearest(a as int, n as int),
            goal.len() == n + 1,
            forall|j: int|
                0 <= j <= n ==> #[trigger] goal[j] == Point::on(fan_point(center@, v@, step as int, j)),
            forall|j: int| 0 <= j < k ==> (#[trigger] fan_point(center@, v@, step as int, j)).in_range(),
            out@ == base + goal.subrange(0, k as int),
        decreases n + 1 - k,
    {
        proof {
            lemma_step_angle(a as int, n as int, k as int);
        }
        let (tx, ty) = turn(v, (k as i128) * step);
        match shifted(center, tx, ty) {
            Ok(p) => {
                out.push(p);
                assert(goal.subrange(0, k + 1) =~= goal.subrange(0, k as int).push(goal[k as int]));
            },
            Err(_) => {
                assert(!fan_point(center@, v@, step as int, k as int).in_range());
                return Err(GeometryError::OutOfRange);
            },
        }
        k += 1;
    }
    assert(goal.subrange(0, (n + 1) as int) =~= goal);
    Ok(())
}

/// The join between two neighbouring segments of a path along its rail at the distance
/// `num / 2`: the meeting point of the two offset segments if they cross, else the arc from
/// the one to the other. There is no join where the path runs straight on.
pub open spec fn join(a: Seg, b: Seg, num: int, resolution: int) -> Result<Seq<Point>, GeometryError> {
    match a.shifted_right(num, 2) {
        Err(e) => Err(e),
        Ok(prev) => match b.shifted_right(num, 2) {
            Err(e) => Err(e),
            Ok(next) => if prev.crosses(next) {
                match prev.intersection(next) {
                    Ok(p) => Ok(seq![Point::on(p)]),
                    Err(e) => Err(e),
                }
            } else {
                prev.arc(next, num, 2, resolution)
            },
        },
    }
}

/// The joins along the rail of a path at the vertices between its first `upto` segments.
pub open spec fn rail(segs: Seq<Seg>, num: int, resolution: int, upto: int) -> Result<Seq<Point>, GeometryError>
    decreases upto,
{
    if upto <= 1 {
        Ok(Seq::empty())
    } else {
        match rail(segs, num, resolution, upto - 1) {
            Err(e) => Err(e),
            Ok(acc) => match join(segs[upto - 2], segs[upto - 1], num, resolution) {
                Err(e) => Err(e),
                Ok(more) => Ok(acc + more),
            },
        }
    }
}

/// Once laying a rail has failed, it stays failed.
pub proof fn lemma_rail_failure_stays(segs: Seq<Seg>, num: int, resolution: int, at: int, upto: int)
    requires
        at <= upto,
        rail(segs, num, resolution, at) is Err,
    ensures
        rail(segs, num, resolution, upto) == rail(segs, num, resolution, at),
    decreases upto - at,
{
    if at < upto {
        lemma_rail_failure_stays(segs, num, resolution, at, upto - 1);
    }
}

/// The views of the edges.
pub open spec fn seg_views(edges: Seq<Edge>) -> Seq<Seg> {
    Seq::new(edges.len(), |i: int| edges[i]@)
}

/// Appends the join between two neighbouring edges to `out`.
fn lay_join(a: &Edge, b: &Edge, num: i64, resolution: i64, out: &mut Vec<Point>) -> (r: Result<(), GeometryError>)
    requires
        0 < num <= SIZE_LIMIT,
    ensures
        match r {
            Ok(_) => join(a@, b@, num as int, resolution as int) is Ok && final(out)@ == old(out)@ + join(
                a@,
                b@,
                num as int,
                resolution as int,
            )->Ok_0,
            Err(e) => join(a@, b@, num as int, resolution as int) == Err::<Seq<Point>, GeometryError>(e),
        },
{
    let prev = match a.shift_right(num, 2) {
        Ok(e) => e,
        Err(e) => {
            return Err(e);
        },
    };
    let next = match b.shift_right(num, 2) {
        Ok(e) => e,
        Err(e) => {
            return Err(e);
        },
    };
    if prev.crosses(&next) {
        match prev.find_intersection(&next) {
            Ok(p) => {
                proof {
                    p.lemma_on_view();
                }
                out.push(p);
                assert(out@ =~= old(out)@ + seq![p]);
                Ok(())
            },
            Err(e) => Err(e),
        }
    } else {
        prev.arc_into(&next, num, 2, resolution, out)
    }
}

/// Appends the joins along the rail of a path to `out`.
fn lay_rail(segs: &Vec<Edge>, num: i64, resolution: i64, out: &mut Vec<Point>) -> (r: Result<(), GeometryError>)
    requires
        0 < num <= SIZE_LIMIT,
    ensures
        match r {
            Ok(_) => rail(seg_views(segs@), num as int, resolution as int, segs.len() as int) is Ok
                && final(out)@ == old(out)@ + rail(
                seg_views(segs@),
                num as int,
                resolution as int,
                segs.len() as int,
            )->Ok_0,
            Err(e) => rail(seg_views(segs@), num as int, resolution as int, segs.len() as int) == Err::<
                Seq<Point>,
                GeometryError,
            >(e),
        },
{
    let ghost base = out@;
    let ghost views = seg_views(segs@);
    let n = segs.len();
    if n <= 1 {
        assert(out@ =~= base + Seq::<Point>::empty());
        return Ok(());
    }
    let mut i: usize = 1;
    assert(out@ =~= base + Seq::<Point>::empty());
    while i < n
        invariant
            1 <= i <= n,
            n == segs.len(),
            0 < num <= SIZE_LIMIT,
            views == seg_views(segs@),
            rail(views, num as int, resolution as int, i as int) is Ok,
            out@ == base + rail(views, num as int, resolution as int, i as int)->Ok_0,
        decreases n - i,
    {
        let ghost so_far = rail(views, num as int, resolution as int, i as int)->Ok_0;
        match lay_join(&segs[i - 1], &segs[i], num, resolution, out) {
            Ok(_) => {
                let ghost more = join(views[i - 1], views[i as int], num as int, resolution as int)->Ok_0;
                assert(base + so_far + more =~= base + (so_far + more));
            },
            Err(e) => {
                proof {
                    lemma_rail_failure_stays(views, num as int, resolution as int, i + 1, n as int);
                }
                return Err(e);
            },
        }
        i += 1;
    }
    Ok(())
}

/// The segments of a path as mathematical segments.
pub open spec fn path_segs(points: Seq<Point>) -> Seq<Seg> {
    Seq::new(
        if points.len() == 0 {
            0nat
        } else {
            (points.len() - 1) as nat
        },
        |i: int| Seg { start: points[i]@, end: points[i + 1]@ },
    )
}

impl LineModel {
    /// The number of segments of each cap: half the circumference of the cap divided by the
    /// resolution, rounded up.
    pub open spec fn cap_len(self) -> int {
        arc_segments(self.thickness, 2, HALF_TURN as int, self.resolution)
    }

    /// The cap at the start: half a turn around the first point, from its left to its right.
    pub open spec fn start_cap(self) -> Result<Seq<Point>, GeometryError> {
        fan(
            self.points[0]@,
            self.segment(0).leftward(self.thickness, 2),
            HALF_TURN as int,
            self.cap_len(),
        )
    }

    /// The cap at the end: half a turn around the last point, from the right of the last
    /// segment to its left.
    pub open spec fn end_cap(self) -> Result<Seq<Point>, GeometryError> {
        fan(
            self.points[self.points.len() - 1]@,
            self.segment(self.points.len() - 2).rightward(self.thickness, 2),
            HALF_TURN as int,
            self.cap_len(),
        )
    }

    /// The outline before it is closed: the cap at the start, the joins along the right
    /// rail, the cap at the end, the joins along the left rail.
    pub open spec fn raw_outline(self) -> Result<Seq<Point>, GeometryError> {
        let forth = path_segs(self.points);
        let back = path_segs(reversed(self.points));
        match self.start_cap() {
            Err(e) => Err(e),
            Ok(c1) => match rail(forth, self.thickness, self.resolution, forth.len() as int) {
                Err(e) => Err(e),
                Ok(r1) => match self.end_cap() {
                    Err(e) => Err(e),
                    Ok(c2) => match rail(back, self.thickness, self.resolution, back.len() as int) {
                        Err(e) => Err(e),
                        Ok(r2) => Ok(c1 + r1 + c2 + r2),
                    },
                },
            },
        }
    }

    /// The tessellated outline, counter-clockwise, as a closed loop.
    pub open spec fn outline(self) -> Result<Seq<Point>, GeometryError> {
        if !is_size(self.resolution) {
            Err(GeometryError::BadDimension)
        } else if !is_spaced(self.points) {
            Err(GeometryError::ZeroLengthEdge)
        } else {
            match self.raw_outline() {
                Ok(raw) => Ok(closed_loop(raw)),
                Err(e) => Err(e),
            }
        }
    }
}

/// The points of the caps of a thick line lie at half its thickness from its first and its
/// last point, within the tolerance.
pub proof fn lemma_caps_radius(line: LineModel)
    requires
        line.points.len() >= 2,
        is_size(line.thickness),
        is_spaced(line.points),
    ensures
        line.start_cap() matches Ok(cap) ==> forall|i: int|
            0 <= i < cap.len() ==> at_radius(line.points[0]@, (#[trigger] cap[i])@, line.thickness, 2),
        line.end_cap() matches Ok(cap) ==> forall|i: int|
            0 <= i < cap.len() ==> at_radius(
                line.points[line.points.len() - 1]@,
                (#[trigger] cap[i])@,
                line.thickness,
                2,
            ),
{
    let last = line.points.len() - 1;
    let first = line.segment(0);
    let end = line.segment(last - 1);
    assert(apart(line.points, 0));
    assert(apart(line.points, last - 1));
    lemma_fan_radius(
        line.points[0]@,
        first.start.y - first.end.y,
        first.end.x - first.start.x,
        line.thickness,
        2,
        HALF_TURN as int,
        line.cap_len(),
    );
    lemma_fan_radius(
        line.points[last]@,
        end.end.y - end.start.y,
        end.start.x - end.end.x,
        line.thickness,
        2,
        HALF_TURN as int,
        line.cap_len(),
    );
}

/// The edges back to front, each walked backwards.
fn reverse_edges(edges: &Vec<Edge>) -> (r: Vec<Edge>)
    ensures
        r.len() == edges.len(),
        forall|i: int| 0 <= i < r.len() ==> (#[trigger] r@[i])@ == edges@[edges.len() - 1 - i]@.reversed(),
{
    let n = edges.len();
    let mut out: Vec<Edge> = Vec::new();
    let mut i: usize = 0;
    while i < n
        invariant
            i <= n,
            n == edges.len(),
            out.len() == i,
            forall|j: int| 0 <= j < i ==> (#[trigger] out@[j])@ == edges@[n - 1 - j]@.reversed(),
        decreases n - i,
    {
        out.push(edges[n - 1 - i].reverse());
        i += 1;
    }
    out
}

impl Line {
    /// The tessellated outline of the thick line, counter-clockwise.
    ///
    /// Fails with `BadDimension` unless the resolution is positive and within the size limit,
    /// with `ZeroLengthEdge` when two neighbouring points of the line coincide, and with the
    /// error of the first cap or join that cannot be laid out: `NoTurn` where the line runs
    /// straight on through one of its inner points, `OutOfRange` where the outline leaves the
    /// coordinate range.
    pub fn boundary(&self) -> (r: Result<Vec<Point>, GeometryError>)
        ensures
            match r {
                Ok(points) => self@.outline() == Ok::<Seq<Point>, GeometryError>(points@),
                Err(e) => self@.outline() == Err::<Seq<Point>, GeometryError>(e),
            },
    {
        let resolution = self.resolution();
        if resolution <= 0 || resolution > SIZE_LIMIT {
            return Err(GeometryError::BadDimension);
        }
        let forth = match self.segments() {
            Some(edges) => edges,
            None => {
                return Err(GeometryError::ZeroLengthEdge);
            },
        };
        let back = reverse_edges(&forth);
        let thickness = self.thickness();
        let points = self.points();
        let n = points.len();
        proof {
            assert(seg_views(forth@) =~= path_segs(self@.points));
            assert(seg_views(back@) =~= path_segs(reversed(self@.points)));
        }
        let caps: u64 = count_segments(thickness, 2, HALF_TURN, resolution);
        let mut raw: Vec<Point> = Vec::new();
        let first = &forth[0];
        let last = &forth[n - 2];
        match lay_fan(&points[0], first.leftward(thickness, 2), HALF_TURN, caps, &mut raw) {
            Ok(_) => {},
            Err(e) => {
                return Err(e);
            },
        }
        match lay_rail(&forth, thickness, resolution, &mut raw) {
            Ok(_) => {},
            Err(e) => {
                return Err(e);
            },
        }
        match lay_fan(&points[n - 1], last.rightward(thickness, 2), HALF_TURN, caps, &mut raw) {
            Ok(_) => {},
            Err(e) => {
                return Err(e);
            },
        }
        match lay_rail(&back, thickness, resolution, &mut raw) {
            Ok(_) => {},
            Err(e) => {
                return Err(e);
            },
        }
        assert(raw@ =~= self@.raw_outline()->Ok_0);
        Ok(close_loop(&raw))
    }
}

} // verus!
