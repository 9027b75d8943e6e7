use toolpath::geo::contour::Contour;
use toolpath::geo::edge::Edge;
use toolpath::geo::shape::{Circle, ConvexPolygon, Line, ShapeE, ShapeError};
use toolpath::geo::{Point, EPSILON, SCALE};

fn pt(x: f64, y: f64) -> Point {
    Point::new((x * SCALE as f64).round() as i64, (y * SCALE as f64).round() as i64).unwrap()
}

fn gap(a: &Point, b: &Point) -> f64 {
    let dx = (a.x() - b.x()) as f64;
    let dy = (a.y() - b.y()) as f64;
    (dx * dx + dy * dy).sqrt()
}

/// A polygon with 36 sides around a circle of radius one.
fn circle_polygon(cx: f64, cy: f64) -> Result<ConvexPolygon, ShapeError> {
    // the circumference, 6.28..., at a resolution of 0.175 asks for 36 points
    let circle = Circle::new(pt(cx, cy), SCALE, 17_500).unwrap();
    let outline = circle.boundary().unwrap();
    assert_eq!(outline.len(), 36);
    ConvexPolygon::new(outline, SCALE)
}

#[test]
fn contour_convex() {
    assert!(circle_polygon(0.0, 0.0).is_ok());

    let stroke = Line::new(vec![pt(0.0, 1.0), pt(-1.0, -1.0)], SCALE / 10, SCALE).unwrap();
    assert!(ConvexPolygon::new(stroke.boundary().unwrap(), SCALE).is_ok());

    let bent = ConvexPolygon::new(
        vec![pt(0.0, 1.0), pt(-1.0, -1.0), pt(1.0, -1.0), pt(1.0, -2.0), pt(5.0, -2.0), pt(5.0, 0.0)],
        SCALE,
    );
    assert_eq!(bent.unwrap_err(), ShapeError::NotConvex);
}

#[test]
fn contour_basic_confines() {
    let contour = ConvexPolygon::new(vec![pt(0.0, 1.0), pt(-1.0, -1.0), pt(1.0, -1.0)], SCALE).unwrap();

    assert!(contour.contains(&pt(0.0, 0.0)));
    assert!(contour.contains(&pt(0.5, 0.0)));
    assert!(contour.contains(&pt(-0.5, 0.0)));
    assert!(contour.contains(&pt(0.0, 0.5)));

    assert!(!contour.contains(&pt(2.0, 0.0)));
    assert!(!contour.contains(&pt(0.0, 2.0)));
    assert!(!contour.contains(&pt(-2.0, 0.0)));
    assert!(!contour.contains(&pt(0.0, -2.0)));
}

#[test]
fn contour_circle_confines() {
    let contour = circle_polygon(0.0, 0.0).unwrap();

    assert!(contour.contains(&pt(0.0, 0.0)));
    assert!(contour.contains(&pt(0.69, 0.69)));

    assert!(!contour.contains(&pt(1.0, 1.0)));

    let contour = circle_polygon(1.0, 1.0).unwrap();

    assert!(contour.contains(&pt(1.0, 1.0)));
    assert!(contour.contains(&pt(1.69, 1.69)));

    assert!(!contour.contains(&pt(0.0, 0.0)));
}

#[test]
fn contour_confines() {
    let contour = Contour::from_polygon(
        ConvexPolygon::new(vec![pt(0.0, 1.0), pt(-1.0, -1.0), pt(1.0, -1.0)], SCALE).unwrap(),
    );

    assert!(contour.contains(&pt(0.0, 0.0)));
    assert!(contour.contains(&pt(0.5, 0.0)));
    assert!(contour.contains(&pt(-0.5, 0.0)));
    assert!(contour.contains(&pt(0.0, 0.5)));

    assert!(!contour.contains(&pt(2.0, 0.0)));
    assert!(!contour.contains(&pt(0.0, 2.0)));
    assert!(!contour.contains(&pt(-2.0, 0.0)));
    assert!(!contour.contains(&pt(0.0, -2.0)));
}

#[test]
fn thick_line_vertices() {
    let l1 = Line::new(vec![pt(0.0, 0.0), pt(0.0, 1.0)], 2_000, SCALE / 10).unwrap();
    let p1 = Contour::new(ShapeE::Line(l1)).unwrap();

    // the outline, closed by coming back to its first point
    let mut coords: Vec<Point> = p1.points().clone();
    coords.push(coords[0]);
    assert_eq!(coords.len(), 5, "Got {coords:?}");

    let lines: Vec<(i64, i64, i64, i64)> = p1
        .edges()
        .iter()
        .map(|e| (e.start().x(), e.start().y(), e.end().x(), e.end().y()))
        .collect();

    // Two vertical lines
    assert!(lines.contains(&(1_000, 0, 1_000, 100_000)));
    assert!(lines.contains(&(-1_000, 100_000, -1_000, 0)));

    // Two horizontal lines that form the caps at this resolution
    assert!(lines.contains(&(1_000, 100_000, -1_000, 100_000)));
    assert!(lines.contains(&(-1_000, 0, 1_000, 0)));
}

#[test]
fn line_shift() {
    let l = Edge::new(pt(0.0, 0.0), pt(0.0, 1.0)).unwrap();
    let ls = l.translate_right(SCALE).unwrap();

    assert!(gap(ls.start(), &pt(1.0, 0.0)) < EPSILON as f64);
    assert!(gap(ls.end(), &pt(1.0, 1.0)) < EPSILON as f64);

    let l = Edge::new(pt(0.0, 0.0), pt(1.0, 1.0)).unwrap();
    let ls = l.translate_right((2.0f64.sqrt() * SCALE as f64).round() as i64).unwrap();

    let e1 = pt(1.0, -1.0);
    let e2 = pt(2.0, 0.0);

    assert!(gap(ls.start(), &e1) < EPSILON as f64);
    assert!(gap(ls.end(), &e2) < EPSILON as f64);
}
