use toolpath::geo::edge::Edge;
use toolpath::geo::intersect::GeometryError;
use toolpath::geo::trig::{angle_of_cosine, cos_sin, ANGLE_LIMIT, FULL_TURN, HALF_TURN, ONE, ONE_SQ};
use toolpath::geo::{Point, SCALE};

fn pt(x: f64, y: f64) -> Point {
    Point::new((x * SCALE as f64).round() as i64, (y * SCALE as f64).round() as i64).unwrap()
}

fn edge(x1: f64, y1: f64, x2: f64, y2: f64) -> Edge {
    Edge::new(pt(x1, y1), pt(x2, y2)).unwrap()
}

fn coords(points: &Vec<Point>) -> Vec<(i64, i64)> {
    points.iter().map(|p| (p.x(), p.y())).collect()
}

#[test]
fn cosine_and_sine_agree_with_the_float_ones() {
    let mut x = -4.0f64;
    while x <= 4.0 {
        let fixed = (x * ONE as f64) as i128;
        let exact = fixed as f64 / ONE as f64;
        let (c, s) = cos_sin(fixed);
        assert!((c as f64 / ONE as f64 - exact.cos()).abs() < 1e-15, "cos {x}");
        assert!((s as f64 / ONE as f64 - exact.sin()).abs() < 1e-15, "sin {x}");
        x += 0.0625;
    }
    assert_eq!(cos_sin(0), (ONE, 0));
}

#[test]
fn half_and_full_turn_are_pi_and_two_pi() {
    assert_eq!(HALF_TURN, 226_375_608_064_910_089);
    assert_eq!(FULL_TURN, 2 * HALF_TURN);
    assert!((HALF_TURN as f64 / ONE as f64 - std::f64::consts::PI).abs() < 1e-15);
    let (c, s) = cos_sin(HALF_TURN);
    assert!((c + ONE).abs() < 64);
    assert!(s.abs() < 64);
}

#[test]
fn angle_of_a_cosine() {
    for c in [-1.0f64, -0.9, -0.5, 0.0, 0.3, 0.7071067811865476, 0.99, 1.0] {
        let a = angle_of_cosine((c * ONE as f64) as i128);
        assert!((a as f64 / ONE as f64 - c.acos()).abs() < 1e-7, "acos {c}");
    }
    assert_eq!(angle_of_cosine(2 * ONE), 0);
    assert!(HALF_TURN - angle_of_cosine(-2 * ONE) <= 1);
}

#[test]
fn angle_of_a_cosine_is_where_the_cosine_passes_it() {
    let mut c: i128 = -ONE - 1000;
    while c <= ONE + 1000 {
        let a = angle_of_cosine(c);
        assert!((0..=HALF_TURN).contains(&a));
        assert!(a == 0 || cos_sin(a).0 > c, "{c}");
        let falls_here = a == HALF_TURN || cos_sin(a).0 <= c;
        let falls_next = a + 1 == HALF_TURN || (a < HALF_TURN && cos_sin(a + 1).0 <= c);
        assert!(falls_here || falls_next, "{c}");
        c += 987_654_321_098_765;
    }
}

#[test]
fn caps_of_a_line_keep_half_the_thickness_from_its_ends() {
    let line = Line::new(vec![pt(-2.0, 1.0), pt(3.0, 2.5), pt(4.0, -1.0)], 30_000, 500).unwrap();
    let outline = line.boundary().unwrap();
    let near = |p: &Point, x: f64, y: f64| {
        let dx = p.x() as f64 - x * SCALE as f64;
        let dy = p.y() as f64 - y * SCALE as f64;
        ((dx * dx + dy * dy).sqrt() - 15_000.0).abs() <= 4.0
    };
    let at_start = outline.iter().filter(|p| near(p, -2.0, 1.0)).count();
    let at_end = outline.iter().filter(|p| near(p, 4.0, -1.0)).count();
    // half a turn of radius 0.15 has the length 0.4712..., which takes 95 steps of 0.005
    assert!(at_start >= 95, "{at_start}");
    assert!(at_end >= 95, "{at_end}");
}

#[test]
fn angle_between_edges() {
    let e = edge(0.0, 0.0, 1.0, 0.0);
    let quarter = e.angle(&edge(5.0, 5.0, 5.0, 7.0));
    assert!((quarter as f64 / ONE as f64 - std::f64::consts::FRAC_PI_2).abs() < 1e-7);
    let eighth = e.angle(&edge(0.0, 0.0, 3.0, -3.0));
    assert!((eighth as f64 / ONE as f64 - std::f64::consts::FRAC_PI_4).abs() < 1e-7);
    let back = e.angle(&edge(0.0, 0.0, -2.0, 0.0));
    assert!((back as f64 / ONE as f64 - std::f64::consts::PI).abs() < 1e-7);
    assert!((e.angle(&e) as f64 / ONE as f64).abs() < 1e-7);
}

#[test]
fn edge_moves_to_its_right() {
    let e = edge(0.0, 0.0, 0.0, 1.0).translate_right(SCALE).unwrap();
    assert_eq!((e.start().x(), e.start().y(), e.end().x(), e.end().y()), (100_000, 0, 100_000, 100_000));
    let d = edge(0.0, 0.0, 1.0, 1.0).translate_right(141_421).unwrap();
    assert_eq!((d.start().x(), d.start().y(), d.end().x(), d.end().y()), (100_000, -100_000, 200_000, 0));
    let short = edge(0.0, 0.0, 0.003, 0.004).translate_right(5 * SCALE).unwrap();
    assert_eq!((short.start().x(), short.start().y()), (400_000, -300_000));
    assert!(edge(0.0, 0.0, 0.0, 1.0).translate_right(-1).is_err());
    assert!(edge(2684.0, 0.0, 2684.0, 1.0).translate_right(SCALE).is_err());
}

#[test]
fn arc_around_a_corner() {
    // The corner at (1, 0) of a polygon grown by one: from the offset of the edge arriving
    // to the offset of the edge leaving.
    let arriving = edge(0.0, -1.0, 1.0, -1.0);
    let leaving = edge(2.0, 0.0, 2.0, 1.0);
    let arc = arriving.find_arc(&leaving, SCALE, SCALE / 2).unwrap();
    assert_eq!(
        coords(&arc),
        vec![
            (100_000, -100_000),
            (138_268, -92_388),
            (170_711, -70_711),
            (192_388, -38_268),
            (200_000, 0),
        ]
    );
    // At a coarse resolution the arc is one segment.
    let coarse = arriving.find_arc(&leaving, SCALE, 5 * SCALE).unwrap();
    assert_eq!(coords(&coarse), vec![(100_000, -100_000), (200_000, 0)]);
}

#[test]
fn arc_turns_clockwise_when_the_next_edge_starts_on_the_right() {
    let arriving = edge(0.0, 1.0, 1.0, 1.0);
    let leaving = edge(0.0, 0.0, 0.0, -1.0);
    let arc = arriving.find_arc(&leaving, SCALE, 2 * SCALE).unwrap();
    // The pivot is to the left of the end, at (1, 2); a quarter turn clockwise.
    assert_eq!(coords(&arc), vec![(100_000, 100_000), (0, 200_000)]);
}

#[test]
fn cosine_and_sine_lie_on_the_unit_circle() {
    let mut x: i128 = -ANGLE_LIMIT;
    let mut seen = 0;
    while x <= ANGLE_LIMIT {
        let (c, s) = cos_sin(x);
        assert!(c.abs() <= ONE && s.abs() <= ONE, "{x}");
        let sum = c * c + s * s;
        assert!(ONE_SQ - 2 * ONE <= sum && sum <= ONE_SQ, "{x}");
        x += 1_234_567_890_123_457;
        seen += 1;
    }
    assert!(seen > 400);
    assert_eq!(ONE_SQ, ONE * ONE);
    let (c, s) = cos_sin(HALF_TURN / 2);
    assert_eq!(s, ONE);
    assert!(c.abs() < 64);
    let (c, s) = cos_sin(HALF_TURN / 4);
    assert!((c - s).abs() < 64);
    assert!((c - 50952413380206180).abs() < 64);
}

#[test]
fn arc_points_keep_their_distance_from_the_pivot() {
    let arriving = edge(0.3, -1.2, 1.7, -0.4);
    let leaving = edge(3.0, 0.5, 2.0, 2.5);
    for radius in [1_i64, 7, 100, 12_345, SCALE, 37 * SCALE] {
        let arc = arriving.find_arc(&leaving, radius, 250).unwrap();
        assert!(arc.len() >= 2);
        let left = arriving.left();
        let len = ((left.x as f64).powi(2) + (left.y as f64).powi(2)).sqrt();
        let px = arriving.end().x() as f64 + left.x as f64 / len * radius as f64;
        let py = arriving.end().y() as f64 + left.y as f64 / len * radius as f64;
        for p in arc.iter() {
            let far = ((p.x() as f64 - px).powi(2) + (p.y() as f64 - py).powi(2)).sqrt();
            assert!((far - radius as f64).abs() <= 4.0, "radius {radius}: {far}");
        }
        assert_eq!(coords(&arc)[0], (arriving.end().x(), arriving.end().y()));
    }
}

#[test]
fn circle_outline_lies_on_the_rim() {
    for radius in [1_i64, 2, 17, 18, 999, SCALE, 1_000 * SCALE] {
        let circle = Circle::new(pt(-3.0, 4.0), radius, (radius / 50).max(1)).unwrap();
        let outline = circle.boundary().unwrap();
        for p in outline.iter() {
            let dx = (p.x() + 300_000) as i128;
            let dy = (p.y() - 400_000) as i128;
            let far = dx * dx + dy * dy;
            let r = radius as i128;
            assert!(far <= (r + 1) * (r + 1), "radius {radius}");
            if r >= 2 {
                assert!((r - 2) * (r - 2) <= far, "radius {radius}");
            }
        }
    }
}

#[test]
fn arc_between_collinear_edges_is_refused() {
    let first = edge(0.0, 0.0, 1.0, 0.0);
    let second = edge(1.0, 0.0, 2.0, 0.0);
    assert_eq!(first.find_arc(&second, SCALE, SCALE).unwrap_err(), GeometryError::NoTurn);
    let behind = edge(-3.0, 0.0, -2.0, 1.0);
    assert_eq!(first.find_arc(&behind, SCALE, SCALE).unwrap_err(), GeometryError::NoTurn);
}

#[test]
fn line_running_straight_on_has_no_outline() {
    let line = Line::new(vec![pt(0.0, 0.0), pt(1.0, 0.0), pt(2.0, 0.0)], SCALE, SCALE / 10).unwrap();
    assert_eq!(line.boundary().unwrap_err(), GeometryError::NoTurn);
}

#[test]
fn arc_needs_usable_dimensions() {
    let first = edge(0.0, -1.0, 1.0, -1.0);
    let second = edge(2.0, 0.0, 2.0, 1.0);
    assert_eq!(first.find_arc(&second, 0, SCALE).unwrap_err(), GeometryError::BadDimension);
    assert_eq!(first.find_arc(&second, SCALE, 0).unwrap_err(), GeometryError::BadDimension);
    let far = edge(2683.0, -1.0, 2684.0, -1.0);
    let up = edge(2684.0, 0.0, 2684.0, 1.0);
    assert_eq!(far.find_arc(&up, 2 * SCALE, SCALE).unwrap_err(), GeometryError::OutOfRange);
}

use toolpath::geo::contour::Contour;
use toolpath::geo::edge::Turning;
use toolpath::geo::path::PathBuilder;
use toolpath::geo::repository::Contours;
use toolpath::geo::shape::{get_boundary_edge_pairs, Circle, ConvexPolygon, Line, ShapeE, ShapeError};

fn check_winding(boundary: &Vec<Point>) -> Result<(), &'static str> {
    let mut turned_left = false;
    let mut turned_right = false;

    for (e1, e2) in get_boundary_edge_pairs(boundary).unwrap() {
        match e1.turning(e2.end()) {
            Turning::Left => turned_left = true,
            Turning::Right => turned_right = true,
            Turning::Collinear => {},
        }
    }

    if turned_right && !turned_left {
        return Err("Boundary winding is backwards.");
    } else if turned_right {
        return Err("Boundary is not convex.");
    }

    Ok(())
}

fn distance(a: &Point, b: &Point) -> f64 {
    let dx = (a.x() - b.x()) as f64;
    let dy = (a.y() - b.y()) as f64;
    (dx * dx + dy * dy).sqrt()
}

#[test]
fn line_winding() {
    let line = PathBuilder::new()
        .do_moveto(pt(0.0, 0.0))
        .unwrap()
        .do_lineto(pt(0.0, 1.0))
        .unwrap()
        .into_line(SCALE, 5 * SCALE)
        .unwrap();

    check_winding(&line.boundary().unwrap()).unwrap();
}

#[test]
fn circle_winding() {
    let circle = Circle::new(pt(0.0, 0.0), 5 * SCALE, SCALE).unwrap();

    check_winding(&circle.boundary().unwrap()).unwrap();
}

#[test]
fn line_points() {
    let line = PathBuilder::new()
        .do_moveto(pt(0.0, 0.0))
        .unwrap()
        .do_lineto(pt(0.0, 1.0))
        .unwrap()
        .into_line(SCALE, 5 * SCALE)
        .unwrap();

    let contour: Contour = Contour::new(ShapeE::Line(line)).unwrap();
    let points = contour.points();

    assert!(points.len() == 4);

    let d3 = distance(&points[0], &pt(-0.5, 0.0));
    let d0 = distance(&points[1], &pt(0.5, 0.0));
    let d1 = distance(&points[2], &pt(0.5, 1.0));
    let d2 = distance(&points[3], &pt(-0.5, 1.0));

    let e = toolpath::geo::EPSILON as f64;
    assert!(d0 < e, "d0 {d0} is not close to 0");
    assert!(d1 < e, "d1 {d1} is not close to 0");
    assert!(d2 < e, "d2 {d2} is not close to 0");
    assert!(d3 < e, "d3 {d3} is not close to 0");
}

#[test]
fn line_contains() {
    let mut l1 = PathBuilder::new()
        .do_moveto(pt(10.0, 20.0))
        .unwrap()
        .do_lineto(pt(10.0, 80.0))
        .unwrap()
        .into_line(5 * SCALE, 5 * SCALE)
        .unwrap();

    let mut l2 = PathBuilder::new()
        .do_moveto(pt(25.0, 20.0))
        .unwrap()
        .do_lineto(pt(30.0, 40.0))
        .unwrap()
        .do_lineto(pt(20.0, 60.0))
        .unwrap()
        .do_lineto(pt(25.0, 80.0))
        .unwrap()
        .into_line(5 * SCALE, 5 * SCALE)
        .unwrap();

    l1.grow(5 * SCALE).unwrap();
    l2.grow(5 * SCALE).unwrap();

    let c1 = Contour::new(ShapeE::Line(l1)).unwrap();
    let c2 = Contour::new(ShapeE::Line(l2)).unwrap();

    assert!(c1.is_mergeable(&c2));

    let p1 = pt(17.5, 48.2295);
    let p2 = pt(17.5, 80.0);

    assert!(c1.contains(&p1));
    assert!(c1.contains(&p2));

    assert!(c2.contains(&p1));
    assert!(c2.contains(&p2));
}

#[test]
fn merging_lowres_lines() {
    let mut l1 = PathBuilder::new();
    l1.add_moveby(vec![
        pt(41.340783, 27.773344),
        pt(7.023144, 0.07981),
        pt(5.826018, -15.163607),
        pt(8.539505, -0.07981),
    ])
    .unwrap();

    let mut l2 = PathBuilder::new();
    l2.add_moveto(vec![pt(44.692738, 12.849162), pt(59.776537, 27.134876)]).unwrap();

    let mut l1 = l1.into_line(SCALE, SCALE).unwrap();
    let mut l2 = l2.into_line(SCALE, SCALE).unwrap();

    l1.grow(5 * SCALE).unwrap();
    l2.grow(5 * SCALE).unwrap();

    let l1 = Contour::new(ShapeE::Line(l1)).unwrap();
    let l2 = Contour::new(ShapeE::Line(l2)).unwrap();

    assert!(l1.is_mergeable(&l2));

    assert!(!l2.contains(&pt(64.7, 17.8)));
    assert!(!l2.contains(&pt(63.7, 18.0)));

    let mut cs = Contours::from(vec![l1, l2]);
    cs.merge_all();

    assert_eq!(cs.contours().len(), 1);
    assert_eq!(cs.problems().len(), 0);
}

#[test]
fn circle_outline_has_as_many_points_as_the_circumference_asks() {
    // circumference 2 pi 5 = 31.4...: 32 points at resolution 1
    let circle = Circle::new(pt(1.0, 2.0), 5 * SCALE, SCALE).unwrap();
    let outline = circle.boundary().unwrap();
    assert_eq!(outline.len(), 32);
    assert_eq!((outline[0].x(), outline[0].y()), (100_000, 700_000));
    assert_eq!((outline[8].x(), outline[8].y()), (-400_000, 200_000));
    assert_eq!((outline[16].x(), outline[16].y()), (100_000, -300_000));
    assert_eq!((outline[24].x(), outline[24].y()), (600_000, 200_000));
    for p in &outline {
        let d = distance(p, &pt(1.0, 2.0));
        assert!((d - 500_000.0).abs() < 1.0, "{d}");
    }
    let coarse = Circle::new(pt(0.0, 0.0), SCALE, 100 * SCALE).unwrap();
    assert_eq!(coarse.boundary().unwrap().len(), 1);
    assert_eq!(Contour::new(ShapeE::Circ(coarse)).unwrap_err(), ShapeError::TooFewPoints);
    let unusable = Circle::new(pt(0.0, 0.0), SCALE, 0).unwrap();
    assert_eq!(unusable.boundary().unwrap_err(), GeometryError::BadDimension);
    assert_eq!(
        Contour::new(ShapeE::Circ(unusable)).unwrap_err(),
        ShapeError::Outline(GeometryError::BadDimension)
    );
}

#[test]
fn line_outline_with_a_bend() {
    // An L: the inner rail gets the meeting point of the offset edges, the outer an arc.
    let line = Line::new(vec![pt(0.0, 0.0), pt(10.0, 0.0), pt(10.0, 10.0)], 2 * SCALE, SCALE).unwrap();
    let outline = line.boundary().unwrap();
    check_winding(&outline).unwrap_err();
    let got = coords(&outline);
    // start cap: half a turn in four steps (pi / 1 rounded up) from the left of the start
    assert_eq!(got[0], (0, 100_000));
    assert_eq!(got[4], (0, -100_000));
    // outer corner: a quarter turn around (10, 0) in two steps
    assert_eq!(got[5], (1_000_000, -100_000));
    assert_eq!(got[6], (1_070_711, -70_711));
    assert_eq!(got[7], (1_100_000, 0));
    // end cap from the right of the end
    assert_eq!(got[8], (1_100_000, 1_000_000));
    assert_eq!(got[12], (900_000, 1_000_000));
    // inner corner: the offset edges cross at (9, 1)
    assert_eq!(got[13], (900_000, 100_000));
    assert_eq!(got.len(), 14);
}

#[test]
fn line_with_coinciding_points_has_no_outline() {
    let line = Line::new(vec![pt(0.0, 0.0), pt(0.0, 0.0005), pt(5.0, 5.0)], SCALE, SCALE).unwrap();
    assert_eq!(line.boundary().unwrap_err(), GeometryError::ZeroLengthEdge);
}

#[test]
fn polygon_grows_with_rounded_corners() {
    let mut square =
        ConvexPolygon::new(vec![pt(0.0, 0.0), pt(2.0, 0.0), pt(2.0, 2.0), pt(0.0, 2.0)], SCALE).unwrap();
    square.grow(SCALE).unwrap();
    let outline = square.boundary();
    // every corner: a quarter turn of radius one, length 1.57, in two steps: three points
    assert_eq!(outline.len(), 12);
    assert_eq!(
        coords(&outline)[..4].to_vec(),
        vec![(200_000, -100_000), (270_711, -70_711), (300_000, 0), (300_000, 200_000)]
    );
    check_winding(&outline).unwrap();
    assert!(square.contains(&pt(-0.9, 1.0)));
    assert!(square.contains(&pt(2.6, 2.6)));
    assert!(!square.contains(&pt(2.8, 2.8)));
    assert!(!square.contains(&pt(-1.1, 1.0)));
}

#[test]
fn polygon_growth_failures_leave_it_as_it_was() {
    let given = vec![pt(0.0, 0.0), pt(2.0, 0.0), pt(2.0, 2.0), pt(0.0, 2.0)];
    let mut square = ConvexPolygon::new(given.clone(), SCALE).unwrap();
    assert_eq!(square.grow(-1).unwrap_err(), ShapeError::Outline(GeometryError::BadDimension));
    assert_eq!(coords(square.points()), coords(&given));
    square.grow(0).unwrap();
    assert_eq!(coords(square.points()), coords(&given));
    let mut edge_of_range =
        ConvexPolygon::new(vec![pt(2680.0, 0.0), pt(2684.0, 0.0), pt(2684.0, 2.0)], SCALE).unwrap();
    assert_eq!(
        edge_of_range.grow(SCALE).unwrap_err(),
        ShapeError::Outline(GeometryError::OutOfRange)
    );
    assert_eq!(edge_of_range.points().len(), 3);
    let with_straight_corner = vec![pt(0.0, 0.0), pt(1.0, 0.0), pt(2.0, 0.0), pt(2.0, 2.0), pt(0.0, 2.0)];
    let mut flat = ConvexPolygon::new(with_straight_corner.clone(), SCALE).unwrap();
    assert_eq!(flat.grow(SCALE).unwrap_err(), ShapeError::Outline(GeometryError::NoTurn));
    assert_eq!(coords(flat.points()), coords(&with_straight_corner));
}

#[test]
fn grown_shapes_merge() {
    let mut a = ShapeE::Poly(
        ConvexPolygon::new(vec![pt(0.0, 0.0), pt(2.0, 0.0), pt(2.0, 2.0), pt(0.0, 2.0)], SCALE / 4).unwrap(),
    );
    let mut b = ShapeE::Circ(Circle::new(pt(3.9, 1.0), SCALE, SCALE / 4).unwrap());
    let far = Contour::new(a.duplicate()).unwrap();
    assert!(!far.is_mergeable(&Contour::new(b.duplicate()).unwrap()));
    a.grow(SCALE / 2).unwrap();
    b.grow(SCALE / 2).unwrap();
    let mut cs = Contours::new();
    cs.add(Contour::new(a).unwrap());
    cs.add(Contour::new(b).unwrap());
    assert!(cs.merge_all());
    assert_eq!(cs.contours().len(), 1);
    assert_eq!(cs.problems().len(), 0);
    let merged = &cs.contours()[0];
    assert!(merged.contains(&pt(2.4, 1.0)));
    assert!(merged.contains(&pt(5.3, 1.0)));
    assert!(!merged.contains(&pt(2.5, 2.6)));
}
