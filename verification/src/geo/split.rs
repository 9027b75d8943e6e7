//! Breaking the edges of one contour against another.

use crate::geo::contour::{Contour, ContourModel};
use crate::geo::edge::{Edge, Seg};
use crate::geo::intersect::GeometryError;
use crate::geo::shape::{ring_edge, wrap};
use crate::geo::{dist_sq, dist_sq_of, Point, Pt};
use vstd::prelude::*;

verus! {

/// The points where `tseg` crosses or touches the first `upto` edges of the ring, in the order
/// of those edges; the first meeting point that cannot be found fails the whole.
pub open spec fn hits(tseg: Seg, ring: Seq<Point>, upto: int) -> Result<Seq<Point>, GeometryError>
    decreases upto,
{
    if upto <= 0 {
        Ok(Seq::empty())
    } else {
        match hits(tseg, ring, upto - 1) {
            Err(e) => Err(e),
            Ok(found) => {
                let oseg = ring_edge(ring, upto - 1);
                if tseg.meets(oseg) {
                    match tseg.intersection(oseg) {
                        Ok(p) => Ok(found.push(Point::on(p))),
                        Err(e) => Err(e),
                    }
                } else {
                    Ok(found)
                }
            },
        }
    }
}

/// Once the search for meeting points has failed, it stays failed.
pub proof fn lemma_hits_failure_stays(tseg: Seg, ring: Seq<Point>, at: int, upto: int)
    requires
        at <= upto,
        hits(tseg, ring, at) is Err,
    ensures
        hits(tseg, ring, upto) == hits(tseg, ring, at),
    decreases upto - at,
{
    if at < upto {
        lemma_hits_failure_stays(tseg, ring, at, upto - 1);
    }
}

/// `sorted` with `p` put behind the last point that is no farther from `origin` than `p`.
pub open spec fn insert_sorted(sorted: Seq<Point>, origin: Pt, p: Point) -> Seq<Point>
    decreases sorted.len(),
{
    if sorted.len() == 0 {
        seq![p]
    } else if dist_sq(origin, sorted.last()@) <= dist_sq(origin, p@) {
        sorted.push(p)
    } else {
        insert_sorted(sorted.drop_last(), origin, p).push(sorted.last())
    }
}

/// The first `upto` points ordered by their distance from `origin`, points at equal distance
/// staying in their given order.
pub open spec fn sorted_by_distance(points: Seq<Point>, origin: Pt, upto: int) -> Seq<Point>
    decreases upto,
{
    if upto <= 0 {
        Seq::empty()
    } else {
        insert_sorted(sorted_by_distance(points, origin, upto - 1), origin, points[upto - 1])
    }
}

/// Inserting at the position behind which every point is farther than `p`, and before which
/// the neighbour is not, is the sorted insertion.
pub proof fn lemma_insert_position(sorted: Seq<Point>, origin: Pt, p: Point, k: int)
    requires
        0 <= k <= sorted.len(),
        forall|j: int| k <= j < sorted.len() ==> dist_sq(origin, (#[trigger] sorted[j])@) > dist_sq(origin, p@),
        k > 0 ==> dist_sq(origin, sorted[k - 1]@) <= dist_sq(origin, p@),
    ensures
        insert_sorted(sorted, origin, p) == sorted.insert(k, p),
    decreases sorted.len() - k,
{
    if sorted.len() == 0 {
        assert(sorted.insert(k, p) =~= seq![p]);
    } else if k == sorted.len() {
        assert(sorted.insert(k, p) =~= sorted.push(p));
    } else {
        lemma_insert_position(sorted.drop_last(), origin, p, k);
        assert(sorted.insert(k, p) =~= sorted.drop_last().insert(k, p).push(sorted.last()));
    }
}

/// The squared distance of point `i` from `origin`.
pub open spec fn gap(points: Seq<Point>, origin: Pt, i: int) -> int {
    dist_sq(origin, points[i]@)
}

/// No point is nearer to `origin` than a point before it.
pub open spec fn is_ordered(points: Seq<Point>, origin: Pt) -> bool {
    forall|i: int, j: int|
        0 <= i <= j < points.len() ==> #[trigger] gap(points, origin, i) <= #[trigger] gap(
            points,
            origin,
            j,
        )
}

/// Sorted insertion keeps the order, and adds the point and nothing else.
pub proof fn lemma_insert_keeps_order(sorted: Seq<Point>, origin: Pt, p: Point)
    requires
        is_ordered(sorted, origin),
    ensures
        is_ordered(insert_sorted(sorted, origin, p), origin),
        insert_sorted(sorted, origin, p).to_multiset() == sorted.to_multiset().insert(p),
        insert_sorted(sorted, origin, p).len() == sorted.len() + 1,
    decreases sorted.len(),
{
    broadcast use vstd::seq_lib::to_multiset_build;

    let out = insert_sorted(sorted, origin, p);
    if sorted.len() == 0 {
        assert(sorted =~= Seq::<Point>::empty());
        assert(out =~= Seq::<Point>::empty().push(p));
    } else if dist_sq(origin, sorted.last()@) <= dist_sq(origin, p@) {
        assert forall|i: int, j: int| 0 <= i <= j < out.len() implies #[trigger] gap(out, origin, i)
            <= #[trigger] gap(out, origin, j) by {
            if j < sorted.len() {
                assert(gap(sorted, origin, i) <= gap(sorted, origin, j));
            } else if i < sorted.len() {
                assert(gap(sorted, origin, i) <= gap(sorted, origin, sorted.len() - 1));
            }
        }
    } else {
        let front = sorted.drop_last();
        assert forall|i: int, j: int| 0 <= i <= j < front.len() implies #[trigger] gap(front, origin, i)
            <= #[trigger] gap(front, origin, j) by {
            assert(gap(sorted, origin, i) <= gap(sorted, origin, j));
        }
        lemma_insert_keeps_order(front, origin, p);
        let inner = insert_sorted(front, origin, p);
        assert(sorted =~= front.push(sorted.last()));
        // Every point of `inner` is `p` or a point of `front`, so none is farther than the last.
        assert forall|i: int| 0 <= i < inner.len() implies gap(inner, origin, i) <= dist_sq(
            origin,
            sorted.last()@,
        ) by {
            vstd::seq_lib::to_multiset_contains(inner, inner[i]);
            vstd::seq_lib::to_multiset_contains(front, inner[i]);
            assert(inner.contains(inner[i]));
            if inner[i] != p {
                assert(front.to_multiset().insert(p).count(inner[i]) > 0);
                assert(front.contains(inner[i]));
                let k = choose|k: int| 0 <= k < front.len() && front[k] == inner[i];
                assert(gap(sorted, origin, k) <= gap(sorted, origin, sorted.len() - 1));
            }
        }
        assert forall|i: int, j: int| 0 <= i <= j < out.len() implies #[trigger] gap(out, origin, i)
            <= #[trigger] gap(out, origin, j) by {
            if j < inner.len() {
                assert(gap(inner, origin, i) <= gap(inner, origin, j));
            } else if i < inner.len() {
                assert(gap(inner, origin, i) <= dist_sq(origin, sorted.last()@));
            }
        }
        assert(out.to_multiset() =~= sorted.to_multiset().insert(p));
    }
}

/// Sorting by distance orders the points and neither loses nor adds one.
pub proof fn lemma_sorted_by_distance(points: Seq<Point>, origin: Pt, upto: int)
    requires
        0 <= upto <= points.len(),
    ensures
        is_ordered(sorted_by_distance(points, origin, upto), origin),
        sorted_by_distance(points, origin, upto).to_multiset() == points.subrange(0, upto).to_multiset(),
        sorted_by_distance(points, origin, upto).len() == upto,
    decreases upto,
{
    broadcast use vstd::seq_lib::to_multiset_build;

    if upto <= 0 {
        assert(points.subrange(0, upto) =~= Seq::<Point>::empty());
    } else {
        lemma_sorted_by_distance(points, origin, upto - 1);
        lemma_insert_keeps_order(sorted_by_distance(points, origin, upto - 1), origin, points[upto - 1]);
        assert(points.subrange(0, upto) =~= points.subrange(0, upto - 1).push(points[upto - 1]));
    }
}

/// The sub-edges that survive when the chain from `prev` through `stops[from..]` is cut:
/// a stop that coincides with the previous point is skipped, a step with both ends inside
/// `other` is dropped, every other step is kept.
pub open spec fn pieces(prev: Point, stops: Seq<Point>, from: int, other: ContourModel) -> Seq<Edge>
    decreases stops.len() - from,
{
    if from < 0 || from >= stops.len() {
        Seq::empty()
    } else {
        let end = stops[from];
        if prev@.coincides(end@) {
            pieces(prev, stops, from + 1, other)
        } else if other.contains(prev@) && other.contains(end@) {
            pieces(end, stops, from + 1, other)
        } else {
            seq![Edge::between(prev, end)] + pieces(end, stops, from + 1, other)
        }
    }
}

/// The surviving sub-edges of edge `i` of `a`, broken against `b`.
pub open spec fn edge_pieces(a: ContourModel, i: int, b: ContourModel) -> Result<Seq<Edge>, GeometryError> {
    match hits(a.edge(i), b.boundary, b.boundary.len() as int) {
        Err(e) => Err(e),
        Ok(found) => Ok(
            pieces(
                a.boundary[i],
                sorted_by_distance(found, a.boundary[i]@, found.len() as int).push(
                    a.boundary[wrap(i + 1, a.boundary.len() as int)],
                ),
                0,
                b,
            ),
        ),
    }
}

/// The surviving sub-edges of the first `upto` edges of `a`, broken against `b`, in order.
pub open spec fn broken(a: ContourModel, b: ContourModel, upto: int) -> Result<Seq<Edge>, GeometryError>
    decreases upto,
{
    if upto <= 0 {
        Ok(Seq::empty())
    } else {
        match broken(a, b, upto - 1) {
            Err(e) => Err(e),
            Ok(acc) => match edge_pieces(a, upto - 1, b) {
                Err(e) => Err(e),
                Ok(more) => Ok(acc + more),
            },
        }
    }
}

/// Once breaking has failed, it stays failed.
pub proof fn lemma_broken_failure_stays(a: ContourModel, b: ContourModel, at: int, upto: int)
    requires
        at <= upto,
        broken(a, b, at) is Err,
    ensures
        broken(a, b, upto) == broken(a, b, at),
    decreases upto - at,
{
    if at < upto {
        lemma_broken_failure_stays(a, b, at, upto - 1);
    }
}

/// The sub-edge is one that is kept: its ends are apart and do not both lie inside `other`.
pub open spec fn survives(e: Edge, other: ContourModel) -> bool {
    &&& !e@.start.coincides(e@.end)
    &&& !(other.contains(e@.start) && other.contains(e@.end))
}

/// The sub-edge leads from `prev` or one of the stops to one of the stops.
pub open spec fn runs_between(e: Edge, prev: Point, stops: Seq<Point>) -> bool {
    &&& e.first() == prev || stops.contains(e.first())
    &&& stops.contains(e.last())
}

/// Every sub-edge that cutting a chain keeps leads from the starting point or a stop to a
/// stop, between two points that are apart and do not both lie inside `other`.
pub proof fn lemma_pieces_survive(prev: Point, stops: Seq<Point>, from: int, other: ContourModel)
    ensures
        forall|k: int|
            0 <= k < pieces(prev, stops, from, other).len() ==> {
                &&& survives(#[trigger] pieces(prev, stops, from, other)[k], other)
                &&& runs_between(pieces(prev, stops, from, other)[k], prev, stops)
            },
    decreases stops.len() - from,
{
    if 0 <= from < stops.len() {
        let end = stops[from];
        let all = pieces(prev, stops, from, other);
        assert(stops.contains(end));
        if prev@.coincides(end@) {
            lemma_pieces_survive(prev, stops, from + 1, other);
            assert(all == pieces(prev, stops, from + 1, other));
        } else {
            lemma_pieces_survive(end, stops, from + 1, other);
            let rest = pieces(end, stops, from + 1, other);
            Edge::lemma_between(prev, end);
            assert forall|k: int| 0 <= k < all.len() implies survives(#[trigger] all[k], other)
                && runs_between(all[k], prev, stops) by {
                if other.contains(prev@) && other.contains(end@) {
                    assert(all[k] == rest[k]);
                    assert(runs_between(rest[k], end, stops));
                } else if k > 0 {
                    assert(all[k] == rest[k - 1]);
                    assert(runs_between(rest[k - 1], end, stops));
                } else {
                    assert(all[k] == Edge::between(prev, end));
                }
            }
        }
    }
}

/// Every sub-edge that breaking a contour against another keeps has ends that are apart and
/// do not both lie inside the other.
pub proof fn lemma_broken_survive(a: ContourModel, b: ContourModel, upto: int)
    ensures
        broken(a, b, upto) matches Ok(kept) ==> forall|k: int|
            0 <= k < kept.len() ==> survives(#[trigger] kept[k], b),
    decreases upto,
{
    if upto > 0 {
        lemma_broken_survive(a, b, upto - 1);
        if let Ok(kept) = broken(a, b, upto) {
            let acc = broken(a, b, upto - 1)->Ok_0;
            let more = edge_pieces(a, upto - 1, b)->Ok_0;
            let found = hits(a.edge(upto - 1), b.boundary, b.boundary.len() as int)->Ok_0;
            let prev = a.boundary[upto - 1];
            let stops = sorted_by_distance(found, prev@, found.len() as int).push(
                a.boundary[wrap(upto - 1 + 1, a.boundary.len() as int)],
            );
            lemma_pieces_survive(prev, stops, 0, b);
            assert forall|k: int| 0 <= k < kept.len() implies survives(#[trigger] kept[k], b) by {
                if k < acc.len() {
                    assert(kept[k] == acc[k]);
                } else {
                    assert(kept[k] == more[k - acc.len()]);
                }
            }
        }
    }
}

/// The points where `tseg` crosses or touches the edges of `other`, in the order of those
/// edges.
fn collect_hits(tseg: &Edge, theirs: &Vec<Edge>, Ghost(ring): Ghost<Seq<Point>>) -> (r: Result<
    Vec<Point>,
    GeometryError,
>)
    requires
        theirs.len() == ring.len(),
        forall|k: int| 0 <= k < theirs.len() ==> (#[trigger] theirs@[k])@ == ring_edge(ring, k),
    ensures
        match r {
            Ok(v) => hits(tseg@, ring, ring.len() as int) == Ok::<Seq<Point>, GeometryError>(v@),
            Err(e) => hits(tseg@, ring, ring.len() as int) == Err::<Seq<Point>, GeometryError>(e),
        },
{
    let mut found: Vec<Point> = Vec::new();
    let mut j: usize = 0;
    while j < theirs.len()
        invariant
            j <= theirs.len(),
            theirs.len() == ring.len(),
            forall|k: int| 0 <= k < theirs.len() ==> (#[trigger] theirs@[k])@ == ring_edge(ring, k),
            hits(tseg@, ring, j as int) == Ok::<Seq<Point>, GeometryError>(found@),
        decreases theirs.len() - j,
    {
        let oseg = &theirs[j];
        if tseg.meets(oseg) {
            match tseg.find_intersection(oseg) {
                Ok(p) => {
                    proof {
                        p.lemma_on_view();
                    }
                    found.push(p);
                },
                Err(e) => {
                    proof {
                        lemma_hits_failure_stays(tseg@, ring, j + 1, ring.len() as int);
                    }
                    return Err(e);
                },
            }
        }
        j += 1;
    }
    Ok(found)
}

/// The points ordered by their distance from `origin`, ties in the given order.
pub fn sort_by_distance(points: &Vec<Point>, origin: &Point) -> (r: Vec<Point>)
    ensures
        r@ == sorted_by_distance(points@, origin@, points.len() as int),
{
    let mut out: Vec<Point> = Vec::new();
    let mut i: usize = 0;
    while i < points.len()
        invariant
            i <= points.len(),
            out.len() == i,
            out@ == sorted_by_distance(points@, origin@, i as int),
        decreases points.len() - i,
    {
        let p = points[i];
        let key: i128 = dist_sq_of(origin, &p);
        let mut k: usize = out.len();
        while k > 0 && dist_sq_of(origin, &out[k - 1]) > key
            invariant
                k <= out.len(),
                key == dist_sq(origin@, p@),
                forall|j: int| k <= j < out.len() ==> dist_sq(origin@, (#[trigger] out@[j])@) > key,
            decreases k,
        {
            k -= 1;
        }
        proof {
            lemma_insert_position(out@, origin@, p, k as int);
        }
        out.insert(k, p);
        i += 1;
    }
    out
}

/// Cuts the chain from `start` through `stops` and appends the surviving sub-edges to `out`.
pub fn cut_chain(start: Point, stops: &Vec<Point>, other: &Contour, out: &mut Vec<Edge>)
    ensures
        final(out)@ == old(out)@ + pieces(start, stops@, 0, other@),
{
    let ghost before = out@;
    let mut prev: Point = start;
    let mut i: usize = 0;
    assert(before + pieces(start, stops@, 0, other@) == out@ + pieces(prev, stops@, 0, other@));
    while i < stops.len()
        invariant
            i <= stops.len(),
            before + pieces(start, stops@, 0, other@) == out@ + pieces(prev, stops@, i as int, other@),
        decreases stops.len() - i,
    {
        let end = stops[i];
        let ghost rest = pieces(end, stops@, i + 1, other@);
        if prev.coincides(&end) {
        } else if other.contains(&prev) && other.contains(&end) {
            prev = end;
        } else {
            let e = Edge::new(prev, end).unwrap();
            assert(out@ + (seq![e] + rest) =~= out@.push(e) + rest);
            out.push(e);
            prev = end;
        }
        i += 1;
    }
    assert(out@ + Seq::<Edge>::empty() =~= out@);
}

impl Contour {
    /// Breaks every edge of this contour at the points where it crosses or touches the other
    /// contour, and keeps the sub-edges that do not lie inside the other.
    ///
    /// Fails when a meeting point cannot be found: with `Parallel` for edges that count as
    /// touching although their lines are apart, with `OutOfRange` for a point off the grid.
    pub fn break_edges(&self, other: &Contour) -> (r: Result<Vec<Edge>, GeometryError>)
        ensures
            match r {
                Ok(v) => broken(self@, other@, self@.boundary.len() as int) == Ok::<
                    Seq<Edge>,
                    GeometryError,
                >(v@),
                Err(e) => broken(self@, other@, self@.boundary.len() as int) == Err::<
                    Seq<Edge>,
                    GeometryError,
                >(e),
            },
            r matches Ok(v) ==> forall|k: int| 0 <= k < v.len() ==> survives(#[trigger] v@[k], other@),
    {
        let pts = self.points();
        let n = pts.len();
        let theirs = other.edges();
        let mut out: Vec<Edge> = Vec::new();
        let mut i: usize = 0;
        while i < n
            invariant
                i <= n,
                n == self@.boundary.len(),
                n >= 3,
                pts@ == self@.boundary,
                theirs.len() == other@.boundary.len(),
                forall|k: int|
                    0 <= k < theirs.len() ==> (#[trigger] theirs@[k])@ == ring_edge(
                        other@.boundary,
                        k,
                    ),
                broken(self@, other@, i as int) == Ok::<Seq<Edge>, GeometryError>(out@),
            decreases n - i,
        {
            let tseg = self.edge(i);
            let k: usize = if i + 1 >= n {
                i + 1 - n
            } else {
                i + 1
            };
            match collect_hits(&tseg, &theirs, Ghost(other@.boundary)) {
                Err(e) => {
                    proof {
                        lemma_broken_failure_stays(self@, other@, i + 1, n as int);
                    }
                    return Err(e);
                },
                Ok(found) => {
                    let mut stops = sort_by_distance(&found, &pts[i]);
                    stops.push(pts[k]);
                    cut_chain(pts[i], &stops, other, &mut out);
                },
            }
            i += 1;
        }
        proof {
            lemma_broken_survive(self@, other@, n as int);
            let kept = broken(self@, other@, n as int)->Ok_0;
            assert(kept == out@);
            assert forall|k: int| 0 <= k < out.len() implies survives(#[trigger] out@[k], other@) by {
                assert(survives(kept[k], other@));
            }
        }
        Ok(out)
    }
}

} // verus!
