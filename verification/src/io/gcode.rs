//! Turning a planned job into the ordered log of motion commands.

use crate::fab::{as_ints, FabContourData, FabData, FabHoleData, FabOperation, Hole, PlanModel};
use crate::geo::contour::{Contour, ContourModel};
use crate::geo::repository::contour_models;
use crate::geo::shape::wrap;
use crate::geo::{dist_sq, dist_sq_of, Point, Pt};
use crate::io::gcode_generator::{Command, GCodeGenerator, GCodeState, GeneratorModel};
use vstd::prelude::*;

verus! {

/// The nearest machine integer.
pub open spec fn clamped(v: int) -> i64 {
    if v < i64::MIN {
        i64::MIN
    } else if v > i64::MAX {
        i64::MAX
    } else {
        v as i64
    }
}

fn clamp(v: i128) -> (r: i64)
    ensures
        r == clamped(v as int),
{
    if v < i64::MIN as i128 {
        i64::MIN
    } else if v > i64::MAX as i128 {
        i64::MAX
    } else {
        v as i64
    }
}

/// Position within `pending` of the entry, among the first `upto`, whose point is nearest to
/// `now`; the earliest one when several are equally near.
pub open spec fn nearest(starts: Seq<Point>, pending: Seq<int>, now: Pt, upto: int) -> int
    decreases upto,
{
    if upto <= 1 {
        0
    } else {
        let best = nearest(starts, pending, now, upto - 1);
        if dist_sq(now, starts[pending[upto - 1]]@) < dist_sq(now, starts[pending[best]]@) {
            upto - 1
        } else {
            best
        }
    }
}

/// The order in which the pending entries are visited: always the one nearest to where the
/// tool is, which then is where the tool is.
pub open spec fn visit_order(starts: Seq<Point>, pending: Seq<int>, now: Pt) -> Seq<int>
    decreases pending.len(),
{
    if pending.len() == 0 {
        Seq::empty()
    } else {
        let k = nearest(starts, pending, now, pending.len() as int);
        if 0 <= k < pending.len() {
            seq![pending[k]] + visit_order(starts, pending.remove(k), starts[pending[k]]@)
        } else {
            Seq::empty()
        }
    }
}

/// The numbers from zero up to, but not including, `n`.
pub open spec fn all_indices(n: nat) -> Seq<int> {
    Seq::new(n, |i: int| i)
}

/// The position chosen by `nearest` lies among the entries considered.
pub proof fn lemma_nearest_in_range(starts: Seq<Point>, pending: Seq<int>, now: Pt, upto: int)
    requires
        1 <= upto,
    ensures
        0 <= nearest(starts, pending, now, upto) < upto,
    decreases upto,
{
    if upto > 1 {
        lemma_nearest_in_range(starts, pending, now, upto - 1);
    }
}

/// The order visits each pending entry: it is as long as the pending list and holds only
/// entries of it.
pub proof fn lemma_visit_order_complete(starts: Seq<Point>, pending: Seq<int>, now: Pt)
    ensures
        visit_order(starts, pending, now).len() == pending.len(),
        forall|k: int|
            0 <= k < pending.len() ==> pending.contains(#[trigger] visit_order(starts, pending, now)[k]),
    decreases pending.len(),
{
    if pending.len() > 0 {
        let k = nearest(starts, pending, now, pending.len() as int);
        lemma_nearest_in_range(starts, pending, now, pending.len() as int);
        let rest = pending.remove(k);
        lemma_visit_order_complete(starts, rest, starts[pending[k]]@);
        let order = visit_order(starts, pending, now);
        let tail = visit_order(starts, rest, starts[pending[k]]@);
        assert forall|j: int| 0 <= j < pending.len() implies pending.contains(#[trigger] order[j]) by {
            if j == 0 {
                assert(order[0] == pending[k]);
            } else {
                assert(order[j] == tail[j - 1]);
                assert(rest.contains(tail[j - 1]));
                let w = choose|w: int| 0 <= w < rest.len() && rest[w] == tail[j - 1];
                if w < k {
                    assert(pending[w] == rest[w]);
                } else {
                    assert(pending[w + 1] == rest[w]);
                }
            }
        }
    }
}

/// The order in which to visit the points, starting from the origin and always going to the
/// nearest point not yet visited.
pub fn plan_order(starts: &Vec<Point>) -> (r: Vec<usize>)
    ensures
        r.len() == starts.len(),
        forall|k: int| 0 <= k < r.len() ==> (#[trigger] r@[k]) < starts.len(),
        forall|k: int|
            0 <= k < r.len() ==> (#[trigger] r@[k]) as int == visit_order(
                starts@,
                all_indices(starts@.len()),
                Pt { x: 0, y: 0 },
            )[k],
{
    let n = starts.len();
    let mut pending: Vec<usize> = Vec::new();
    let mut i: usize = 0;
    while i < n
        invariant
            i <= n,
            pending.len() == i,
            forall|k: int| 0 <= k < i ==> (#[trigger] pending@[k]) == k,
        decreases n - i,
    {
        pending.push(i);
        i += 1;
    }
    let ghost goal = visit_order(starts@, all_indices(n as nat), Pt { x: 0, y: 0 });
    let ghost mut left: Seq<int> = all_indices(n as nat);
    assert(left =~= Seq::new(pending@.len(), |k: int| pending@[k] as int));
    let mut order: Vec<usize> = Vec::new();
    let mut now: Point = Point::at(0, 0);
    proof {
        lemma_visit_order_complete(starts@, left, now@);
    }
    while pending.len() > 0
        invariant
            n == starts.len(),
            order.len() + pending.len() == n,
            left == Seq::new(pending@.len(), |k: int| pending@[k] as int),
            forall|k: int| 0 <= k < pending.len() ==> (#[trigger] pending@[k]) < n,
            forall|k: int| 0 <= k < order.len() ==> (#[trigger] order@[k]) < n,
            goal.len() == n,
            forall|k: int| 0 <= k < order.len() ==> (#[trigger] order@[k]) as int == goal[k],
            forall|k: int|
                0 <= k < pending.len() ==> #[trigger] visit_order(starts@, left, now@)[k] == goal[order.len()
                    + k],
            visit_order(starts@, left, now@).len() == pending.len(),
        decreases pending.len(),
    {
        let m = pending.len();
        let mut best: usize = 0;
        let mut j: usize = 1;
        while j < m
            invariant
                1 <= j <= m,
                m == pending.len(),
                best < j,
                n == starts.len(),
                left == Seq::new(pending@.len(), |k: int| pending@[k] as int),
                forall|k: int| 0 <= k < pending.len() ==> (#[trigger] pending@[k]) < n,
                best as int == nearest(starts@, left, now@, j as int),
            decreases m - j,
        {
            if dist_sq_of(&now, &starts[pending[j]]) < dist_sq_of(&now, &starts[pending[best]]) {
                best = j;
            }
            j += 1;
        }
        let ghost before = left;
        let ghost here = now@;
        let ghost whole = visit_order(starts@, before, here);
        let chosen = pending.remove(best);
        proof {
            left = before.remove(best as int);
            assert(left =~= Seq::new(pending@.len(), |k: int| pending@[k] as int));
        }
        now = starts[chosen];
        proof {
            let tail = visit_order(starts@, left, now@);
            assert(whole == seq![before[best as int]] + tail);
            lemma_visit_order_complete(starts@, left, now@);
            assert(whole[0] == chosen as int);
            assert forall|k: int| 0 <= k < pending.len() implies #[trigger] tail[k] == goal[order.len()
                + 1 + k] by {
                assert(whole[k + 1] == tail[k]);
            }
        }
        order.push(chosen);
    }
    order
}

/// The commands every program starts with.
pub open spec fn preamble(feed: i64, rpm: i64, safe: i64) -> Seq<Command> {
    seq![Command::Absolute, Command::Feed(feed), Command::Speed(rpm), Command::RapidZ(safe)]
}

/// The height of a cut at the given depth below the surface.
pub open spec fn below(depth: int) -> i64 {
    clamped(-depth)
}

/// The cutting moves once around a closed boundary: to every point after the first, and back
/// to the first.
pub open spec fn around(boundary: Seq<Point>) -> Seq<Command> {
    Seq::new(
        boundary.len(),
        |k: int|
            Command::LinearXY {
                x: boundary[wrap(k + 1, boundary.len() as int)]@.x as i64,
                y: boundary[wrap(k + 1, boundary.len() as int)]@.y as i64,
            },
    )
}

/// One pass around a boundary at one depth: position above the first point, plunge to the
/// surface and on to the depth, cut around, retract.
pub open spec fn loop_pass(boundary: Seq<Point>, depth: int, safe: i64) -> Seq<Command> {
    seq![
        Command::RapidXY { x: boundary[0]@.x as i64, y: boundary[0]@.y as i64 },
        Command::LinearZ(0),
        Command::LinearZ(below(depth)),
    ] + around(boundary) + seq![Command::LinearZ(safe)]
}

/// The passes around one boundary at the first `upto` depths, in order.
pub open spec fn loop_passes(boundary: Seq<Point>, depths: Seq<int>, safe: i64, upto: int) -> Seq<Command>
    decreases upto,
{
    if upto <= 0 {
        Seq::empty()
    } else {
        loop_passes(boundary, depths, safe, upto - 1) + loop_pass(boundary, depths[upto - 1], safe)
    }
}

/// The passes around the first `upto` contours of the order.
pub open spec fn contour_tour(
    contours: Seq<ContourModel>,
    order: Seq<int>,
    depths: Seq<int>,
    safe: i64,
    upto: int,
) -> Seq<Command>
    decreases upto,
{
    if upto <= 0 {
        Seq::empty()
    } else {
        contour_tour(contours, order, depths, safe, upto - 1) + loop_passes(
            contours[order[upto - 1]].boundary,
            depths,
            safe,
            depths.len() as int,
        )
    }
}

/// The first points of the contours.
pub open spec fn contour_starts(contours: Seq<ContourModel>) -> Seq<Point> {
    Seq::new(contours.len(), |i: int| contours[i].boundary[0])
}

/// The program that follows every contour at every depth: spindle on clockwise, the contours
/// nearest first, spindle off, end.
pub open spec fn contour_program(
    contours: Seq<ContourModel>,
    depths: Seq<int>,
    feed: i64,
    rpm: i64,
    safe: i64,
) -> Seq<Command> {
    let order = visit_order(contour_starts(contours), all_indices(contours.len()), Pt { x: 0, y: 0 });
    preamble(feed, rpm, safe) + seq![Command::SpindleCw] + contour_tour(
        contours,
        order,
        depths,
        safe,
        contours.len() as int,
    ) + seq![Command::SpindleOff, Command::End]
}

/// Drilling one hole: position above it, plunge to the surface and on to the depth, retract.
pub open spec fn drill_hole(hole: Hole, depth: int, safe: i64) -> Seq<Command> {
    seq![
        Command::RapidXY { x: hole.center@.x as i64, y: hole.center@.y as i64 },
        Command::LinearZ(0),
        Command::LinearZ(below(depth)),
        Command::LinearZ(safe),
    ]
}

/// Drilling the first `upto` holes of the order.
pub open spec fn drill_tour(holes: Seq<Hole>, order: Seq<int>, depth: int, safe: i64, upto: int) -> Seq<Command>
    decreases upto,
{
    if upto <= 0 {
        Seq::empty()
    } else {
        drill_tour(holes, order, depth, safe, upto - 1) + drill_hole(holes[order[upto - 1]], depth, safe)
    }
}

/// The centers of the holes.
pub open spec fn hole_starts(holes: Seq<Hole>) -> Seq<Point> {
    Seq::new(holes.len(), |i: int| holes[i].center)
}

/// The program that drills every hole: spindle on clockwise, the holes nearest first,
/// spindle off, end.
pub open spec fn drilling_program(holes: Seq<Hole>, depth: int, feed: i64, rpm: i64, safe: i64) -> Seq<Command> {
    let order = visit_order(hole_starts(holes), all_indices(holes.len()), Pt { x: 0, y: 0 });
    preamble(feed, rpm, safe) + seq![Command::SpindleCw] + drill_tour(
        holes,
        order,
        depth,
        safe,
        holes.len() as int,
    ) + seq![Command::SpindleOff, Command::End]
}

/// The number of whole turns of a helix that sinks `per_turn` a turn down to `depth`.
pub open spec fn turns_for(depth: int, per_turn: int) -> usize {
    if per_turn > 0 && depth >= 0 && depth / per_turn <= usize::MAX {
        (depth / per_turn) as usize
    } else {
        0
    }
}

/// Boring one hole: position on its wall, plunge to the surface, sink along a helix around
/// the center, clean the floor with a full circle, retract.
pub open spec fn bore_hole(hole: Hole, depth: int, per_turn: int, bit_radius: int, safe: i64) -> Seq<Command> {
    let offset = clamped(hole.radius - bit_radius);
    let x = clamped(hole.center@.x + offset);
    let y = hole.center@.y as i64;
    seq![
        Command::RapidXY { x, y },
        Command::LinearZ(0),
        Command::PlaneXY,
        Command::HelixCcw {
            x,
            y,
            z: below(depth),
            i: clamped(-offset),
            j: 0,
            turns: turns_for(depth, per_turn),
        },
        Command::PlaneXY,
        Command::ArcCcw { x, y, i: clamped(-offset), j: 0 },
        Command::LinearZ(safe),
    ]
}

/// Boring the first `upto` holes of the order.
pub open spec fn bore_tour(
    holes: Seq<Hole>,
    order: Seq<int>,
    depth: int,
    per_turn: int,
    bit_radius: int,
    safe: i64,
    upto: int,
) -> Seq<Command>
    decreases upto,
{
    if upto <= 0 {
        Seq::empty()
    } else {
        bore_tour(holes, order, depth, per_turn, bit_radius, safe, upto - 1) + bore_hole(
            holes[order[upto - 1]],
            depth,
            per_turn,
            bit_radius,
            safe,
        )
    }
}

/// The program that bores every hole: spindle on counter-clockwise, the holes nearest first,
/// spindle off, end.
pub open spec fn boring_program(
    holes: Seq<Hole>,
    depth: int,
    per_turn: int,
    bit_radius: int,
    feed: i64,
    rpm: i64,
    safe: i64,
) -> Seq<Command> {
    let order = visit_order(hole_starts(holes), all_indices(holes.len()), Pt { x: 0, y: 0 });
    preamble(feed, rpm, safe) + seq![Command::SpindleCcw] + bore_tour(
        holes,
        order,
        depth,
        per_turn,
        bit_radius,
        safe,
        holes.len() as int,
    ) + seq![Command::SpindleOff, Command::End]
}

/// The program of a planned job.
pub open spec fn program(plan: PlanModel, feed: i64, rpm: i64, safe: i64) -> Seq<Command> {
    match plan {
        PlanModel::Engrave { contours, depths } => contour_program(contours, depths, feed, rpm, safe),
        PlanModel::Cut { contours, depths } => contour_program(contours, depths, feed, rpm, safe),
        PlanModel::Drilling { holes, depth } => drilling_program(holes, depth, feed, rpm, safe),
        PlanModel::Boring { holes, depth, depth_per_turn, bit_radius } => boring_program(
            holes,
            depth,
            depth_per_turn,
            bit_radius,
            feed,
            rpm,
            safe,
        ),
    }
}

/// The machine, spindle turning and tool up, with `log` behind it.
pub open spec fn ready(m: GeneratorModel, safe: i64, log: Seq<Command>) -> bool {
    m == (GeneratorModel {
        safe_height: safe as int,
        state: GCodeState::SpinningDisengaged,
        actions: log,
    })
}

/// One pass around the contour at one depth.
fn pass_around(gcode: &mut GCodeGenerator, points: &Vec<Point>, depth: i64, Ghost(safe): Ghost<i64>)
    requires
        ready(old(gcode)@, safe, old(gcode)@.actions),
        points.len() >= 1,
    ensures
        ready(final(gcode)@, safe, old(gcode)@.actions + loop_pass(points@, depth as int, safe)),
{
    let ghost base = gcode@.actions;
    let n = points.len();
    let p0 = points[0];
    gcode.rapid(p0.x(), p0.y()).unwrap();
    gcode.engage().unwrap();
    gcode.move_z(clamp(-(depth as i128))).unwrap();
    let ghost head = seq![
        Command::RapidXY { x: p0@.x as i64, y: p0@.y as i64 },
        Command::LinearZ(0),
        Command::LinearZ(below(depth as int)),
    ];
    assert(gcode@.actions =~= base + head);
    let mut k: usize = 0;
    while k < n
        invariant
            k <= n,
            n == points.len(),
            n >= 1,
            gcode@.safe_height == safe,
            gcode@.state == GCodeState::SpinningEngaged,
            gcode@.actions == base + head + around(points@).subrange(0, k as int),
        decreases n - k,
    {
        let t: usize = if k + 1 >= n {
            k + 1 - n
        } else {
            k + 1
        };
        let p = points[t];
        let ghost so_far = gcode@.actions;
        gcode.move_xy(p.x(), p.y()).unwrap();
        assert(around(points@).subrange(0, k + 1) =~= around(points@).subrange(0, k as int).push(
            around(points@)[k as int],
        ));
        assert(gcode@.actions =~= base + head + around(points@).subrange(0, k + 1));
        k += 1;
    }
    assert(around(points@).subrange(0, n as int) =~= around(points@));
    gcode.disengage().unwrap();
    assert(gcode@.actions =~= base + loop_pass(points@, depth as int, safe));
}

/// All the passes around one contour.
fn passes_around(gcode: &mut GCodeGenerator, contour: &Contour, depths: &Vec<i64>, Ghost(safe): Ghost<i64>)
    requires
        ready(old(gcode)@, safe, old(gcode)@.actions),
    ensures
        ready(
            final(gcode)@,
            safe,
            old(gcode)@.actions + loop_passes(
                contour@.boundary,
                as_ints(depths@),
                safe,
                depths.len() as int,
            ),
        ),
{
    let ghost base = gcode@.actions;
    let points = contour.points();
    let mut d: usize = 0;
    assert(base + loop_passes(points@, as_ints(depths@), safe, 0) =~= base);
    while d < depths.len()
        invariant
            d <= depths.len(),
            points@ == contour@.boundary,
            points.len() >= 3,
            ready(gcode@, safe, base + loop_passes(points@, as_ints(depths@), safe, d as int)),
        decreases depths.len() - d,
    {
        let ghost so_far = gcode@.actions;
        pass_around(gcode, points, depths[d], Ghost(safe));
        assert(so_far + loop_pass(points@, depths@[d as int] as int, safe) =~= base + loop_passes(
            points@,
            as_ints(depths@),
            safe,
            d + 1,
        ));
        d += 1;
    }
}

/// The log of the program that follows every contour at every depth.
pub fn make_gcode_contours(safe_height: i64, data: &FabContourData, feed: i64, rpm: i64) -> (log: Vec<Command>)
    ensures
        log@ == contour_program(
            contour_models(data.contours@),
            as_ints(data.depths@),
            feed,
            rpm,
            safe_height,
        ),
{
    let ghost models = contour_models(data.contours@);
    let ghost depths = as_ints(data.depths@);
    let n = data.contours.len();
    let mut starts: Vec<Point> = Vec::new();
    let mut i: usize = 0;
    while i < n
        invariant
            i <= n,
            n == data.contours.len(),
            starts.len() == i,
            forall|k: int| 0 <= k < i ==> starts@[k] == (#[trigger] data.contours@[k])@.boundary[0],
        decreases n - i,
    {
        let pts = data.contours[i].points();
        starts.push(pts[0]);
        i += 1;
    }
    assert(starts@ =~= contour_starts(models));
    let order = plan_order(&starts);
    let ghost route = visit_order(contour_starts(models), all_indices(models.len()), Pt { x: 0, y: 0 });
    proof {
        lemma_visit_order_complete(contour_starts(models), all_indices(models.len()), Pt { x: 0, y: 0 });
    }
    let mut gcode = GCodeGenerator::new(feed, rpm, safe_height);
    gcode.spindle_start_cwise().unwrap();
    let ghost head = preamble(feed, rpm, safe_height) + seq![Command::SpindleCw];
    assert(gcode@.actions =~= head + contour_tour(models, route, depths, safe_height, 0));
    let mut k: usize = 0;
    while k < n
        invariant
            k <= n,
            n == data.contours.len(),
            n == order.len(),
            models == contour_models(data.contours@),
            depths == as_ints(data.depths@),
            route.len() == n,
            forall|j: int| 0 <= j < n ==> (#[trigger] order@[j]) < n,
            forall|j: int| 0 <= j < n ==> (#[trigger] order@[j]) as int == route[j],
            ready(gcode@, safe_height, head + contour_tour(models, route, depths, safe_height, k as int)),
        decreases n - k,
    {
        let ghost so_far = gcode@.actions;
        passes_around(&mut gcode, &data.contours[order[k]], &data.depths, Ghost(safe_height));
        assert(so_far + loop_passes(
            models[route[k as int]].boundary,
            depths,
            safe_height,
            depths.len() as int,
        ) =~= head + contour_tour(models, route, depths, safe_height, k + 1));
        k += 1;
    }
    gcode.spindle_stop().unwrap();
    let log = gcode.into_commands().unwrap();
    assert(log@ =~= contour_program(models, depths, feed, rpm, safe_height));
    log
}

/// The centers of the holes.
fn centers(holes: &Vec<Hole>) -> (r: Vec<Point>)
    ensures
        r@ == hole_starts(holes@),
{
    let mut out: Vec<Point> = Vec::new();
    let mut i: usize = 0;
    while i < holes.len()
        invariant
            i <= holes.len(),
            out.len() == i,
            forall|k: int| 0 <= k < i ==> out@[k] == (#[trigger] holes@[k]).center,
        decreases holes.len() - i,
    {
        out.push(holes[i].center);
        i += 1;
    }
    assert(out@ =~= hole_starts(holes@));
    out
}

/// The log of the program that drills every hole.
pub fn make_gcode_drilling(safe_height: i64, data: &FabHoleData, feed: i64, rpm: i64) -> (log: Vec<Command>)
    ensures
        log@ == drilling_program(data.holes@, data.depth as int, feed, rpm, safe_height),
{
    let ghost holes = data.holes@;
    let ghost depth = data.depth as int;
    let n = data.holes.len();
    let starts = centers(&data.holes);
    let order = plan_order(&starts);
    let ghost route = visit_order(hole_starts(holes), all_indices(holes.len()), Pt { x: 0, y: 0 });
    proof {
        lemma_visit_order_complete(hole_starts(holes), all_indices(holes.len()), Pt { x: 0, y: 0 });
    }
    let mut gcode = GCodeGenerator::new(feed, rpm, safe_height);
    gcode.spindle_start_cwise().unwrap();
    let ghost head = preamble(feed, rpm, safe_height) + seq![Command::SpindleCw];
    assert(gcode@.actions =~= head + drill_tour(holes, route, depth, safe_height, 0));
    let mut k: usize = 0;
    while k < n
        invariant
            k <= n,
            n == data.holes.len(),
            n == order.len(),
            holes == data.holes@,
            depth == data.depth as int,
            route.len() == n,
            forall|j: int| 0 <= j < n ==> (#[trigger] order@[j]) < n,
            forall|j: int| 0 <= j < n ==> (#[trigger] order@[j]) as int == route[j],
            ready(gcode@, safe_height, head + drill_tour(holes, route, depth, safe_height, k as int)),
        decreases n - k,
    {
        let ghost so_far = gcode@.actions;
        let hole = data.holes[order[k]];
        gcode.rapid(hole.center.x(), hole.center.y()).unwrap();
        gcode.engage().unwrap();
        gcode.move_z(clamp(-(data.depth as i128))).unwrap();
        gcode.disengage().unwrap();
        assert(gcode@.actions =~= so_far + drill_hole(hole, depth, safe_height));
        assert(so_far + drill_hole(holes[route[k as int]], depth, safe_height) =~= head + drill_tour(
            holes,
            route,
            depth,
            safe_height,
            k + 1,
        ));
        k += 1;
    }
    gcode.spindle_stop().unwrap();
    let log = gcode.into_commands().unwrap();
    assert(log@ =~= drilling_program(holes, depth, feed, rpm, safe_height));
    log
}

/// The number of whole turns of a helix that sinks `per_turn` a turn down to `depth`.
fn count_turns(depth: i64, per_turn: i64) -> (r: usize)
    ensures
        r == turns_for(depth as int, per_turn as int),
{
    if per_turn > 0 && depth >= 0 {
        let q: i64 = depth / per_turn;
        proof {
            vstd::arithmetic::div_mod::lemma_div_pos_is_pos(depth as int, per_turn as int);
            vstd::arithmetic::div_mod::lemma_div_nonincreasing(depth as int, per_turn as int);
        }
        if q as u64 as u128 <= usize::MAX as u128 {
            q as usize
        } else {
            0
        }
    } else {
        0
    }
}

/// The log of the program that bores every hole.
pub fn make_gcode_boring(
    safe_height: i64,
    data: &FabHoleData,
    depth_per_turn: i64,
    bit_radius: i64,
    feed: i64,
    rpm: i64,
) -> (log: Vec<Command>)
    ensures
        log@ == boring_program(
            data.holes@,
            data.depth as int,
            depth_per_turn as int,
            bit_radius as int,
            feed,
            rpm,
            safe_height,
        ),
{
    let ghost holes = data.holes@;
    let ghost depth = data.depth as int;
    let ghost per_turn = depth_per_turn as int;
    let ghost bit = bit_radius as int;
    let n = data.holes.len();
    let starts = centers(&data.holes);
    let order = plan_order(&starts);
    let ghost route = visit_order(hole_starts(holes), all_indices(holes.len()), Pt { x: 0, y: 0 });
    proof {
        lemma_visit_order_complete(hole_starts(holes), all_indices(holes.len()), Pt { x: 0, y: 0 });
    }
    let mut gcode = GCodeGenerator::new(feed, rpm, safe_height);
    gcode.spindle_start_ccwise().unwrap();
    let ghost head = preamble(feed, rpm, safe_height) + seq![Command::SpindleCcw];
    assert(gcode@.actions =~= head + bore_tour(holes, route, depth, per_turn, bit, safe_height, 0));
    let turns = count_turns(data.depth, depth_per_turn);
    let mut k: usize = 0;
    while k < n
        invariant
            k <= n,
            n == data.holes.len(),
            n == order.len(),
            holes == data.holes@,
            depth == data.depth as int,
            per_turn == depth_per_turn as int,
            bit == bit_radius as int,
            turns == turns_for(depth, per_turn),
            route.len() == n,
            forall|j: int| 0 <= j < n ==> (#[trigger] order@[j]) < n,
            forall|j: int| 0 <= j < n ==> (#[trigger] order@[j]) as int == route[j],
            ready(
                gcode@,
                safe_height,
                head + bore_tour(holes, route, depth, per_turn, bit, safe_height, k as int),
            ),
        decreases n - k,
    {
        let ghost so_far = gcode@.actions;
        let hole = data.holes[order[k]];
        let offset: i64 = clamp((hole.radius as i128) - (bit_radius as i128));
        let x: i64 = clamp((hole.center.x() as i128) + (offset as i128));
        let y: i64 = hole.center.y();
        let back: i64 = clamp(-(offset as i128));
        gcode.rapid(x, y).unwrap();
        gcode.engage().unwrap();
        gcode.helix_ccwise(x, y, clamp(-(data.depth as i128)), back, 0, turns).unwrap();
        gcode.arc_ccwise(x, y, back, 0).unwrap();
        gcode.disengage().unwrap();
        assert(gcode@.actions =~= so_far + bore_hole(hole, depth, per_turn, bit, safe_height));
        assert(so_far + bore_hole(holes[route[k as int]], depth, per_turn, bit, safe_height) =~= head
            + bore_tour(holes, route, depth, per_turn, bit, safe_height, k + 1));
        k += 1;
    }
    gcode.spindle_stop().unwrap();
    let log = gcode.into_commands().unwrap();
    assert(log@ =~= boring_program(holes, depth, per_turn, bit, feed, rpm, safe_height));
    log
}

/// The G-code text of the program of a planned job, one command a line.
pub fn make_gcode(safe_height: i64, fd: &FabData) -> (text: String)
    ensures
        text@ == crate::io::text::text_of(program(fd.operation@, fd.feed, fd.rpm, safe_height)),
{
    crate::io::text::render(&make_program(safe_height, fd))
}

/// The log of the program of a planned job.
pub fn make_program(safe_height: i64, fd: &FabData) -> (log: Vec<Command>)
    ensures
        log@ == program(fd.operation@, fd.feed, fd.rpm, safe_height),
{
    match &fd.operation {
        FabOperation::Engrave(data) => make_gcode_contours(safe_height, data, fd.feed, fd.rpm),
        FabOperation::Cut(data) => make_gcode_contours(safe_height, data, fd.feed, fd.rpm),
        FabOperation::Drilling(data) => make_gcode_drilling(safe_height, data, fd.feed, fd.rpm),
        FabOperation::Boring { data, depth_per_turn, bit_radius } => make_gcode_boring(
            safe_height,
            data,
            *depth_per_turn,
            *bit_radius,
            fd.feed,
            fd.rpm,
        ),
    }
}

} // verus!
