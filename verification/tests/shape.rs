use toolpath::geo::edge::Turning;
use toolpath::geo::path::{PathBuilder, PathError};
use toolpath::geo::shape::{
    get_boundary_edges, Circle, ConvexPolygon, Line, Shape, ShapeE, ShapeError, SIZE_LIMIT,
};
use toolpath::geo::{Point, SCALE};

fn pt(x: f64, y: f64) -> Point {
    Point::new((x * SCALE as f64).round() as i64, (y * SCALE as f64).round() as i64).unwrap()
}

fn pts(points: &[[f64; 2]]) -> Vec<Point> {
    points.iter().map(|p| pt(p[0], p[1])).collect()
}

fn coords(points: &Vec<Point>) -> Vec<(i64, i64)> {
    points.iter().map(|p| (p.x(), p.y())).collect()
}

#[test]
fn clockwise_polygon_is_reversed() {
    let given = pts(&[[0.0, 0.0], [0.0, 1.0], [1.0, 1.0], [1.0, 0.0]]);
    let poly = ConvexPolygon::new(given, SCALE).unwrap();
    assert_eq!(
        coords(poly.points()),
        vec![(100_000, 0), (100_000, 100_000), (0, 100_000), (0, 0)]
    );
}

#[test]
fn counter_clockwise_polygon_is_kept() {
    let given = pts(&[[0.0, 0.0], [3.0, 0.0], [3.0, 3.0], [0.0, 3.0]]);
    let poly = ConvexPolygon::new(given, SCALE).unwrap();
    assert_eq!(
        coords(poly.points()),
        vec![(0, 0), (300_000, 0), (300_000, 300_000), (0, 300_000)]
    );
    assert_eq!(poly.resolution(), SCALE);
}

#[test]
fn no_corner_of_a_polygon_turns_right() {
    for given in [
        pts(&[[0.0, 0.0], [0.0, 1.0], [1.0, 1.0], [1.0, 0.0]]),
        pts(&[[0.0, 1.0], [2.0, 2.0], [4.0, 1.0], [2.0, 0.0]]),
        pts(&[[0.0, 0.0], [2.0, 0.0], [4.0, 0.0], [4.0, 3.0], [0.0, 3.0]]),
    ] {
        let poly = ConvexPolygon::new(given, SCALE).unwrap();
        let edges = get_boundary_edges(poly.points()).unwrap();
        let n = edges.len();
        for i in 0..n {
            let next = &edges[(i + 1) % n];
            assert!(edges[i].turning(next.end()) != Turning::Right);
        }
    }
}

#[test]
fn polygon_construction_failures() {
    assert_eq!(
        ConvexPolygon::new(pts(&[[0.0, 0.0], [1.0, 0.0]]), SCALE).unwrap_err(),
        ShapeError::TooFewPoints
    );
    assert_eq!(
        ConvexPolygon::new(pts(&[[0.0, 0.0], [1.0, 0.0], [1.0, 0.0005], [0.0, 1.0]]), SCALE)
            .unwrap_err(),
        ShapeError::ZeroLengthEdge
    );
    // An arrow head: turns both ways.
    assert_eq!(
        ConvexPolygon::new(pts(&[[0.0, 0.0], [2.0, 1.0], [0.0, 2.0], [1.0, 1.0]]), SCALE)
            .unwrap_err(),
        ShapeError::NotConvex
    );
}

#[test]
fn polygon_contains() {
    let poly =
        ConvexPolygon::new(pts(&[[0.0, 1.0], [-1.0, -1.0], [1.0, -1.0]]), SCALE).unwrap();
    assert!(poly.contains(&pt(0.0, 0.0)));
    assert!(poly.contains(&pt(0.5, 0.0)));
    assert!(poly.contains(&pt(-0.5, 0.0)));
    assert!(poly.contains(&pt(0.0, 0.5)));
    assert!(poly.contains(&pt(0.0, 1.0)));

    assert!(!poly.contains(&pt(2.0, 0.0)));
    assert!(!poly.contains(&pt(0.0, 2.0)));
    assert!(!poly.contains(&pt(-2.0, 0.0)));
    assert!(!poly.contains(&pt(0.0, -2.0)));
}

#[test]
fn circle_contains() {
    let c = Circle::new(pt(1.0, 1.0), 5 * SCALE, SCALE).unwrap();
    assert!(c.contains(&pt(1.0, 1.0)));
    assert!(c.contains(&pt(6.0, 1.0)));
    assert!(c.contains(&pt(4.0, 5.0)));
    assert!(!c.contains(&pt(6.00001, 1.0)));
    assert!(!c.contains(&pt(4.0, 5.001)));
}

#[test]
fn circle_construction_failures() {
    assert_eq!(Circle::new(pt(0.0, 0.0), 0, SCALE).unwrap_err(), ShapeError::NonPositiveSize);
    assert_eq!(Circle::new(pt(0.0, 0.0), -5, SCALE).unwrap_err(), ShapeError::NonPositiveSize);
    assert_eq!(
        Circle::new(pt(0.0, 0.0), SIZE_LIMIT + 1, SCALE).unwrap_err(),
        ShapeError::OutOfRange
    );
    assert!(Circle::new(pt(0.0, 0.0), SIZE_LIMIT, SCALE).is_ok());
}

#[test]
fn circle_grows_by_the_offset() {
    let mut c = Circle::new(pt(0.0, 0.0), 5 * SCALE, SCALE).unwrap();
    c.grow(SCALE / 2).unwrap();
    assert_eq!(c.radius(), 550_000);
    assert_eq!(c.grow(-550_000).unwrap_err(), ShapeError::NonPositiveSize);
    assert_eq!(c.radius(), 550_000);
    assert_eq!(c.grow(SIZE_LIMIT).unwrap_err(), ShapeError::OutOfRange);
    assert_eq!(c.radius(), 550_000);
}

#[test]
fn growing_by_nothing_changes_nothing() {
    let mut c = Circle::new(pt(2.0, 3.0), 5 * SCALE, SCALE).unwrap();
    c.grow(0).unwrap();
    assert_eq!((c.center().x(), c.center().y(), c.radius(), c.resolution()), (200_000, 300_000, 500_000, SCALE));

    let mut l = Line::new(pts(&[[0.0, 0.0], [0.0, 1.0]]), SCALE, 5 * SCALE).unwrap();
    l.grow(0).unwrap();
    assert_eq!(l.thickness(), SCALE);
    assert_eq!(l.resolution(), 5 * SCALE);
    assert_eq!(coords(l.points()), vec![(0, 0), (0, 100_000)]);
}

#[test]
fn line_grows_by_twice_the_offset() {
    let mut l = Line::new(pts(&[[0.0, 0.0], [0.0, 1.0]]), 5 * SCALE, SCALE).unwrap();
    l.grow(5 * SCALE).unwrap();
    assert_eq!(l.thickness(), 15 * SCALE);
    assert_eq!(l.grow(-8 * SCALE).unwrap_err(), ShapeError::NonPositiveSize);
    assert_eq!(l.thickness(), 15 * SCALE);
    assert_eq!(l.grow(SIZE_LIMIT / 2).unwrap_err(), ShapeError::OutOfRange);
}

#[test]
fn line_construction_failures() {
    assert_eq!(
        Line::new(pts(&[[0.0, 0.0]]), SCALE, SCALE).unwrap_err(),
        ShapeError::TooFewPoints
    );
    assert_eq!(
        Line::new(pts(&[[0.0, 0.0], [1.0, 0.0]]), 0, SCALE).unwrap_err(),
        ShapeError::NonPositiveSize
    );
    assert_eq!(
        Line::new(pts(&[[0.0, 0.0], [1.0, 0.0]]), SIZE_LIMIT + 1, SCALE).unwrap_err(),
        ShapeError::OutOfRange
    );
    // Too few points is reported before a bad thickness.
    assert_eq!(Line::new(pts(&[[0.0, 0.0]]), 0, SCALE).unwrap_err(), ShapeError::TooFewPoints);
}

#[test]
fn line_reaches_half_its_thickness_and_the_slack() {
    let mut l1 = PathBuilder::new()
        .do_moveto(pt(10.0, 20.0))
        .unwrap()
        .do_lineto(pt(10.0, 80.0))
        .unwrap()
        .into_line(5 * SCALE, 5 * SCALE)
        .unwrap();

    let mut l2 = PathBuilder::new()
        .do_moveto(pt(25.0, 20.0))
        .unwrap()
        .do_lineto(pt(30.0, 40.0))
        .unwrap()
        .do_lineto(pt(20.0, 60.0))
        .unwrap()
        .do_lineto(pt(25.0, 80.0))
        .unwrap()
        .into_line(5 * SCALE, 5 * SCALE)
        .unwrap();

    l1.grow(5 * SCALE).unwrap();
    l2.grow(5 * SCALE).unwrap();

    let p1 = pt(17.5, 48.2295);
    let p2 = pt(17.5, 80.0);

    assert!(l1.contains(&p1));
    assert!(l1.contains(&p2));

    assert!(l2.contains(&p1));
    assert!(l2.contains(&p2));

    // half the thickness is 7.5; the slack adds a ten-thousandth
    assert!(l1.contains(&pt(10.0, 87.5)));
    assert!(l1.contains(&pt(17.50009, 50.0)));
    assert!(!l1.contains(&pt(17.5001, 50.0)));
    assert!(l1.contains(&pt(10.0, 87.50009)));
    assert!(!l1.contains(&pt(10.0, 87.5001)));
}

#[test]
fn lines_join_end_to_end() {
    let joined = |a: &[[f64; 2]], b: &[[f64; 2]]| {
        let mut first = Line::new(pts(a), SCALE, SCALE).unwrap();
        let second = Line::new(pts(b), SCALE, SCALE).unwrap();
        match first.try_merge(second) {
            None => Some(coords(first.points())),
            Some(_) => None,
        }
    };
    // first meets first: this line is walked backwards, then the other forwards
    assert_eq!(
        joined(&[[0.0, 0.0], [1.0, 0.0]], &[[0.0, 0.0], [0.0, 1.0]]).unwrap(),
        vec![(100_000, 0), (0, 0), (0, 100_000)]
    );
    // first meets last
    assert_eq!(
        joined(&[[0.0, 0.0], [1.0, 0.0]], &[[0.0, 1.0], [0.0, 0.0]]).unwrap(),
        vec![(100_000, 0), (0, 0), (0, 100_000)]
    );
    // last meets first
    assert_eq!(
        joined(&[[0.0, 0.0], [1.0, 0.0]], &[[1.0, 0.0], [1.0, 1.0], [2.0, 1.0]]).unwrap(),
        vec![(0, 0), (100_000, 0), (100_000, 100_000), (200_000, 100_000)]
    );
    // last meets last
    assert_eq!(
        joined(&[[0.0, 0.0], [1.0, 0.0]], &[[1.0, 1.0], [1.0, 0.0]]).unwrap(),
        vec![(0, 0), (100_000, 0), (100_000, 100_000)]
    );
    // no end in common
    assert!(joined(&[[0.0, 0.0], [1.0, 0.0]], &[[5.0, 5.0], [6.0, 5.0]]).is_none());
}

#[test]
fn lines_of_different_thickness_do_not_join() {
    let mut first = Line::new(pts(&[[0.0, 0.0], [1.0, 0.0]]), SCALE, SCALE).unwrap();
    let second = Line::new(pts(&[[1.0, 0.0], [2.0, 0.0]]), SCALE + 100, SCALE).unwrap();
    let back = first.try_merge(second).unwrap();
    assert_eq!(back.thickness(), SCALE + 100);
    assert_eq!(coords(first.points()), vec![(0, 0), (100_000, 0)]);

    let third = Line::new(pts(&[[1.0, 0.0], [2.0, 0.0]]), SCALE + 99, SCALE).unwrap();
    assert!(first.try_merge(third).is_none());
    assert_eq!(first.thickness(), SCALE);
    assert_eq!(first.points().len(), 3);
}

#[test]
fn line_segments() {
    let l = Line::new(pts(&[[0.0, 0.0], [1.0, 0.0], [1.0, 1.0]]), SCALE, SCALE).unwrap();
    let segs = l.segments().unwrap();
    assert_eq!(segs.len(), 2);
    assert_eq!((segs[1].start().x(), segs[1].end().y()), (100_000, 100_000));
    let d = Line::new(pts(&[[0.0, 0.0], [0.0, 0.0005], [1.0, 1.0]]), SCALE, SCALE).unwrap();
    assert!(d.segments().is_none());
    assert_eq!((l.point_first().x(), l.point_last().y()), (0, 100_000));
}

#[test]
fn shape_enum_dispatches_containment() {
    let line = ShapeE::Line(Line::new(pts(&[[0.0, 0.0], [10.0, 0.0]]), 2 * SCALE, SCALE).unwrap());
    let circ = ShapeE::Circ(Circle::new(pt(0.0, 0.0), SCALE, SCALE).unwrap());
    let poly = ShapeE::Poly(
        ConvexPolygon::new(pts(&[[0.0, 0.0], [3.0, 0.0], [3.0, 3.0], [0.0, 3.0]]), SCALE).unwrap(),
    );
    let p = pt(5.0, 1.0);
    assert!(line.contains(&p));
    assert!(!circ.contains(&p));
    assert!(!poly.contains(&p));
    let q = pt(2.0, 2.0);
    assert!(!line.contains(&q));
    assert!(poly.contains(&q));
    let copy = poly.duplicate();
    assert!(copy.contains(&q));
}

#[test]
fn path_builder_commands() {
    let mut b = PathBuilder::new();
    assert_eq!((b.get_position().x(), b.get_position().y()), (0, 0));
    assert_eq!(b.add_lineto(pts(&[[1.0, 1.0]])).unwrap_err(), PathError::LineBeforeStart);
    assert_eq!(b.add_lineby(pts(&[[1.0, 1.0]])).unwrap_err(), PathError::LineBeforeStart);
    b.add_moveby(pts(&[[1.0, 2.0], [3.0, 4.0], [-1.0, 0.5]])).unwrap();
    assert_eq!(
        coords(b.points()),
        vec![(100_000, 200_000), (400_000, 600_000), (300_000, 650_000)]
    );
    assert_eq!(b.add_moveto(pts(&[[0.0, 0.0]])).unwrap_err(), PathError::MoveAfterStart);
    assert_eq!(b.add_moveby(pts(&[[0.0, 0.0]])).unwrap_err(), PathError::MoveAfterStart);
    b.add_lineby(pts(&[[1.0, 0.0], [0.0, 1.0]])).unwrap();
    b.add_lineto(pts(&[[9.0, 9.0]])).unwrap();
    assert_eq!(
        coords(b.points()),
        vec![
            (100_000, 200_000),
            (400_000, 600_000),
            (300_000, 650_000),
            (400_000, 650_000),
            (400_000, 750_000),
            (900_000, 900_000)
        ]
    );
    assert_eq!((b.get_position().x(), b.get_position().y()), (900_000, 900_000));
}

#[test]
fn relative_step_out_of_range_is_refused() {
    let mut b = PathBuilder::new().do_moveto(pt(2000.0, 0.0)).unwrap();
    assert_eq!(b.add_lineby(pts(&[[500.0, 0.0], [500.0, 0.0]])).unwrap_err(), PathError::OutOfRange);
    assert_eq!(coords(b.points()), vec![(200_000_000, 0)]);
    let mut c = PathBuilder::new();
    assert_eq!(c.add_moveby(pts(&[[2000.0, 0.0], [2000.0, 0.0]])).unwrap_err(), PathError::OutOfRange);
    assert_eq!(c.points().len(), 0);
}

fn grown_outline<S: Shape>(shape: &mut S, offset: i64, probe: &Point) -> (usize, bool) {
    Shape::grow(shape, offset).unwrap();
    (Shape::boundary(shape).unwrap().len(), Shape::contains(shape, probe))
}

#[test]
fn every_shape_grows_outlines_and_contains() {
    let probe = pt(1.4, 0.0);
    let mut line = Line::new(pts(&[[0.0, 0.0], [1.0, 0.0]]), SCALE / 2, SCALE).unwrap();
    // thickness 1: caps of half a turn of radius 0.5, two steps each
    assert_eq!(grown_outline(&mut line, SCALE / 4, &probe), (6, true));
    let mut circle = Circle::new(pt(0.0, 0.0), SCALE, SCALE).unwrap();
    assert_eq!(grown_outline(&mut circle, SCALE / 2, &probe), (10, true));
    let mut polygon =
        ConvexPolygon::new(pts(&[[0.0, 0.0], [1.0, 0.0], [1.0, 1.0], [0.0, 1.0]]), SCALE).unwrap();
    assert_eq!(grown_outline(&mut polygon, SCALE / 2, &probe), (8, true));
    let mut any = ShapeE::Circ(Circle::new(pt(0.0, 0.0), SCALE, SCALE).unwrap());
    assert_eq!(grown_outline(&mut any, 0, &probe), (7, false));
}
