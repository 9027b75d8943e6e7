use toolpath::geo::edge::{Edge, Turning};
use toolpath::geo::intersect::GeometryError;
use toolpath::geo::{Point, EPSILON, SCALE};

fn pt(x: f64, y: f64) -> Point {
    Point::new((x * SCALE as f64).round() as i64, (y * SCALE as f64).round() as i64).unwrap()
}

fn edge(x1: f64, y1: f64, x2: f64, y2: f64) -> Edge {
    Edge::new(pt(x1, y1), pt(x2, y2)).unwrap()
}

fn feq(a: i64, b: f64) -> bool {
    (a as f64 - b * SCALE as f64).abs() < EPSILON as f64
}

fn p2eq(a: &Point, b: &Point) -> bool {
    a.coincides(b)
}

#[test]
fn turning() {
    let v = edge(0.0, 0.0, 0.0, 1.0);

    assert_eq!(v.turning(&pt(-1.0, -1.0)), Turning::Left);
    assert_eq!(v.turning(&pt(-1.0, 0.0)), Turning::Left);
    assert_eq!(v.turning(&pt(-1.0, 1.0)), Turning::Left);
    assert_eq!(v.turning(&pt(-1.0, 2.0)), Turning::Left);

    assert_eq!(v.turning(&pt(0.0, -1.0)), Turning::Collinear);
    assert_eq!(v.turning(&pt(0.0, 0.0)), Turning::Collinear);
    assert_eq!(v.turning(&pt(0.0, 1.0)), Turning::Collinear);
    assert_eq!(v.turning(&pt(0.0, 2.0)), Turning::Collinear);

    assert_eq!(v.turning(&pt(1.0, -1.0)), Turning::Right);
    assert_eq!(v.turning(&pt(1.0, 0.0)), Turning::Right);
    assert_eq!(v.turning(&pt(1.0, 1.0)), Turning::Right);
    assert_eq!(v.turning(&pt(1.0, 2.0)), Turning::Right);
}

#[test]
fn crossing_and_touching() {
    {
        let e1 = edge(0.0, 0.0, 1.0, 1.0);
        let e2 = edge(0.0, 1.0, 1.0, 0.0);
        assert!(e1.crosses(&e2));
        assert!(!e1.touches(&e2));

        let e1 = edge(0.0, 0.0, 1.0, 1.0);
        let e2 = edge(0.0, 1.0, 1.0, 2.0);
        assert!(!e1.crosses(&e2));
        assert!(!e1.touches(&e2));
    }

    let v = edge(0.0, -1.0, 0.0, 1.0);
    let h = edge(-1.0, 0.0, 1.0, 0.0);

    assert!(!v.crosses(&v));
    assert!(v.touches(&v));
    assert!(!h.crosses(&h));
    assert!(h.touches(&h));

    assert!(v.crosses(&h));
    assert!(!v.touches(&h));
}

#[test]
fn distance() {
    let e = edge(0.0, 0.0, 1.0, 1.0);

    assert!(feq(e.distance(&pt(0.0, 0.0)), 0.0));
    assert!(feq(e.distance(&pt(1.0, 1.0)), 0.0));
    assert!(feq(e.distance(&pt(0.5, 0.5)), 0.0));

    assert!(feq(e.distance(&pt(1.0, 0.0)), 2.0f64.sqrt() / 2.0));
    assert!(feq(e.distance(&pt(0.0, 1.0)), 2.0f64.sqrt() / 2.0));

    assert!(feq(e.distance(&pt(-1.0, 0.0)), 1.0));
    assert!(feq(e.distance(&pt(0.0, -1.0)), 1.0));
    assert!(feq(e.distance(&pt(1.0, 2.0)), 1.0));
    assert!(feq(e.distance(&pt(2.0, 1.0)), 1.0));

    assert!(feq(e.distance(&pt(-1.0, -1.0)), 2.0f64.sqrt()));
    assert!(feq(e.distance(&pt(2.0, 2.0)), 2.0f64.sqrt()));
}

#[test]
fn intersection() {
    {
        let e1 = edge(0.0, 0.0, 0.0, 1.0);
        let e2 = edge(0.0, 1.0, 1.0, 1.0);
        assert!(p2eq(&e1.find_intersection(&e2).unwrap(), &pt(0.0, 1.0)));
    }

    {
        let e1 = edge(1.0, 2.0, 1.0, 1.0);
        let e2 = edge(1.0, 0.0, 1.0, 1.0);
        let e3 = edge(1.0, 1.0, 0.0, 1.0);

        assert!(p2eq(&e1.find_intersection(&e2).unwrap(), &pt(1.0, 1.0)));
        assert!(p2eq(&e1.find_intersection(&e3).unwrap(), &pt(1.0, 1.0)));
        assert!(p2eq(&e2.find_intersection(&e3).unwrap(), &pt(1.0, 1.0)));
    }
}

#[test]
fn distance_is_rounded_down_exactly() {
    let e = edge(0.0, 0.0, 1.0, 1.0);
    // sqrt(2)/2 = 0.7071067..., in grid steps 70710.67...
    assert_eq!(e.distance(&pt(1.0, 0.0)), 70_710);
    assert_eq!(e.distance(&pt(2.0, 2.0)), 141_421);
    assert_eq!(e.length(), 141_421);
}

#[test]
fn zero_length_edge_is_rejected() {
    assert!(Edge::new(pt(1.0, 1.0), pt(1.0, 1.0)).is_none());
    assert!(Edge::new(pt(1.0, 1.0), pt(1.0005, 0.9995)).is_none());
    assert!(Edge::new(pt(1.0, 1.0), pt(1.001, 1.0)).is_some());
}

#[test]
fn point_out_of_range_is_rejected() {
    assert!(Point::new(268_435_456, 0).is_some());
    assert!(Point::new(268_435_457, 0).is_none());
    assert!(Point::new(0, -268_435_457).is_none());
}

#[test]
fn intersection_of_crossing_diagonals() {
    let e1 = edge(0.0, 0.0, 2.0, 2.0);
    let e2 = edge(0.0, 2.0, 2.0, 0.0);
    let p = e1.find_intersection(&e2).unwrap();
    assert_eq!((p.x(), p.y()), (100_000, 100_000));
    let e3 = edge(0.0, 0.0, 3.0, 1.0);
    let e4 = edge(0.0, 1.0, 3.0, 0.0);
    let q = e3.find_intersection(&e4).unwrap();
    assert_eq!((q.x(), q.y()), (150_000, 50_000));
}

#[test]
fn meeting_point_is_collinear_with_both_edges() {
    let pairs = [
        (edge(0.0, 0.0, 2.0, 2.0), edge(0.0, 2.0, 2.0, 0.0)),
        (edge(0.0, 0.0, 3.0, 1.0), edge(0.0, 1.0, 3.0, 0.0)),
        (edge(-7.13, 2.01, 19.77, 3.3), edge(4.0, -12.5, 5.25, 40.0)),
        (edge(0.001, 0.0, 0.002, 0.0013), edge(100.0, -3.0, -250.0, 17.0)),
        (edge(1.0, 1.0, 1.0, 9.0), edge(-4.0, 3.0, 6.0, 5.5)),
        (edge(-4.0, 3.0, 6.0, 5.5), edge(1.0, 1.0, 1.0, 9.0)),
    ];
    for (a, b) in pairs.iter() {
        let p = a.find_intersection(b).unwrap();
        assert_eq!(a.turning(&p), Turning::Collinear);
        assert_eq!(b.turning(&p), Turning::Collinear);
    }
}

#[test]
fn parallel_lines_apart_do_not_intersect() {
    let h1 = edge(0.0, 0.0, 1.0, 0.0);
    let h2 = edge(0.0, 1.0, 1.0, 1.0);
    assert_eq!(h1.find_intersection(&h2).unwrap_err(), GeometryError::Parallel);
    let v1 = edge(0.0, 0.0, 0.0, 1.0);
    let v2 = edge(1.0, 0.0, 1.0, 1.0);
    assert_eq!(v1.find_intersection(&v2).unwrap_err(), GeometryError::Parallel);
    let d1 = edge(0.0, 0.0, 1.0, 1.0);
    let d2 = edge(0.0, 1.0, 1.0, 2.0);
    assert_eq!(d1.find_intersection(&d2).unwrap_err(), GeometryError::Parallel);
}

#[test]
fn far_meeting_point_is_out_of_range() {
    let a = edge(0.0, 0.0, 2000.0, 1.0);
    let b = edge(0.0, 2.0, 2000.0, -2.0);
    let p = a.find_intersection(&b).unwrap();
    assert_eq!((p.x(), p.y()), (80_000_000, 40_000));
    let c = edge(0.0, 0.0, 2000.0, 3.0);
    let d = edge(0.0, 5.0, 2000.0, 11.0);
    assert_eq!(c.find_intersection(&d).unwrap_err(), GeometryError::OutOfRange);
}

#[test]
fn collinear_overlap_touches_both_ways() {
    let long = edge(0.0, 0.0, 10.0, 0.0);
    let inner = edge(2.0, 0.0, 4.0, 0.0);
    assert!(long.touches(&inner));
    assert!(inner.touches(&long));
    let apart = edge(11.0, 0.0, 12.0, 0.0);
    assert!(!long.touches(&apart));
    assert!(!apart.touches(&long));
}

#[test]
fn reverse_and_normals() {
    let e = edge(1.0, 2.0, 4.0, 6.0);
    let r = e.reverse();
    assert_eq!((r.start().x(), r.start().y()), (400_000, 600_000));
    assert_eq!((r.end().x(), r.end().y()), (100_000, 200_000));
    let l = e.left();
    assert_eq!((l.x, l.y), (-400_000, 300_000));
    let rt = e.right();
    assert_eq!((rt.x, rt.y), (400_000, -300_000));
    assert_eq!(e.length(), 500_000);
}
