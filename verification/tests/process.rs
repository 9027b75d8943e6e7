use toolpath::geo::path::PathError;
use toolpath::geo::shape::ShapeError;
use toolpath::geo::{Point, SCALE};
use toolpath::process::{process, Failure, InputError, PathCommand, Position, Shapes, SvgContext};

fn pt(x: f64, y: f64) -> Point {
    Point::new((x * SCALE as f64).round() as i64, (y * SCALE as f64).round() as i64).unwrap()
}

fn coords(points: &Vec<Point>) -> Vec<(i64, i64)> {
    points.iter().map(|p| (p.x(), p.y())).collect()
}

fn shapes() -> Shapes {
    Shapes::new(SCALE, SCALE, SCALE)
}

#[test]
fn innermost_stroke_width_wins() {
    let mut ctx = SvgContext::new();
    assert_eq!(ctx.get_stroke_width().unwrap_err(), InputError::NoStrokeWidth);
    assert_eq!(ctx.group_pop().unwrap_err(), InputError::NoGroup);
    ctx.group_push(Some(5));
    ctx.group_push(None);
    assert_eq!(ctx.get_stroke_width(), Ok(5));
    ctx.group_push(Some(7));
    assert_eq!(ctx.get_stroke_width(), Ok(7));
    ctx.group_pop().unwrap();
    assert_eq!(ctx.get_stroke_width(), Ok(5));
    ctx.group_pop().unwrap();
    ctx.group_pop().unwrap();
    assert_eq!(ctx.get_stroke_width().unwrap_err(), InputError::NoStrokeWidth);
}

#[test]
fn closed_path_becomes_a_polygon() {
    let mut s = shapes();
    s.add_from_path(
        None,
        &vec![
            PathCommand::Move(Position::Absolute, vec![pt(1.0, 1.0)]),
            PathCommand::HorizontalLine(Position::Relative, vec![2 * SCALE]),
            PathCommand::VerticalLine(Position::Absolute, vec![4 * SCALE]),
            PathCommand::Line(Position::Relative, vec![pt(-2.0, 0.0)]),
            PathCommand::Close,
            PathCommand::Unsupported,
        ],
    )
    .unwrap();
    assert_eq!(s.polygons().len(), 1);
    assert_eq!(
        coords(s.polygons()[0].points()),
        vec![(100_000, 100_000), (300_000, 100_000), (300_000, 400_000), (100_000, 400_000)]
    );
    assert_eq!(s.lines().len(), 0);
}

#[test]
fn open_path_becomes_a_line_of_the_stroke_width() {
    let mut s = shapes();
    let path = vec![
        PathCommand::Move(Position::Relative, vec![pt(1.0, 1.0), pt(1.0, 0.0)]),
        PathCommand::VerticalLine(Position::Relative, vec![SCALE, SCALE]),
        PathCommand::HorizontalLine(Position::Absolute, vec![0]),
        PathCommand::EllipticalArc(Position::Absolute, vec![pt(9.0, 9.0)]),
        PathCommand::EllipticalArc(Position::Relative, vec![pt(1.0, -1.0)]),
    ];
    assert_eq!(s.add_from_path(None, &path).unwrap_err(), InputError::NoStrokeWidth);
    assert_eq!(s.lines().len(), 0);
    s.add_from_path(Some(50_000), &path).unwrap();
    assert_eq!(s.lines().len(), 1);
    assert_eq!(s.lines()[0].thickness(), 50_000);
    assert_eq!(
        coords(s.lines()[0].points()),
        vec![
            (100_000, 100_000),
            (200_000, 100_000),
            (200_000, 200_000),
            (200_000, 300_000),
            (0, 300_000),
            (900_000, 900_000),
            (1_000_000, 800_000)
        ]
    );
}

#[test]
fn lines_that_connect_are_joined() {
    let mut s = shapes();
    let line = |a: Point, b: Point| {
        vec![
            PathCommand::Move(Position::Absolute, vec![a]),
            PathCommand::Line(Position::Absolute, vec![b]),
        ]
    };
    s.add_from_path(Some(SCALE), &line(pt(10.0, 10.0), pt(30.0, 50.0))).unwrap();
    s.add_from_path(Some(SCALE), &line(pt(80.0, 80.0), pt(90.0, 80.0))).unwrap();
    s.add_from_path(Some(SCALE), &line(pt(30.0, 50.0), pt(70.0, 50.0))).unwrap();
    s.add_from_path(Some(2 * SCALE), &line(pt(70.0, 50.0), pt(90.0, 90.0))).unwrap();
    assert_eq!(s.lines().len(), 3);
    assert_eq!(
        coords(s.lines()[0].points()),
        vec![(1_000_000, 1_000_000), (3_000_000, 5_000_000), (7_000_000, 5_000_000)]
    );
    assert_eq!(s.lines()[2].thickness(), 2 * SCALE);
}

#[test]
fn path_errors() {
    let mut s = shapes();
    let with = |commands: Vec<PathCommand>| shapes().add_from_path(Some(SCALE), &commands);
    assert_eq!(
        with(vec![PathCommand::Line(Position::Absolute, vec![pt(1.0, 1.0)])]).unwrap_err(),
        InputError::Path(PathError::LineBeforeStart)
    );
    assert_eq!(
        with(vec![PathCommand::VerticalLine(Position::Absolute, vec![1])]).unwrap_err(),
        InputError::Path(PathError::LineBeforeStart)
    );
    assert_eq!(
        with(vec![
            PathCommand::Move(Position::Absolute, vec![pt(1.0, 1.0)]),
            PathCommand::Move(Position::Absolute, vec![pt(2.0, 2.0)]),
        ])
        .unwrap_err(),
        InputError::Path(PathError::MoveAfterStart)
    );
    assert_eq!(
        with(vec![PathCommand::Move(Position::Absolute, vec![pt(1.0, 1.0)]), PathCommand::Unsupported])
            .unwrap_err(),
        InputError::Unsupported
    );
    assert_eq!(
        with(vec![
            PathCommand::Move(Position::Absolute, vec![pt(1.0, 1.0)]),
            PathCommand::HorizontalLine(Position::Absolute, vec![300_000_000]),
        ])
        .unwrap_err(),
        InputError::OutOfRange
    );
    assert_eq!(
        with(vec![
            PathCommand::Move(Position::Absolute, vec![pt(2000.0, 1.0)]),
            PathCommand::HorizontalLine(Position::Relative, vec![200_000_000]),
        ])
        .unwrap_err(),
        InputError::Path(PathError::OutOfRange)
    );
    assert_eq!(
        with(vec![PathCommand::Move(Position::Absolute, vec![pt(1.0, 1.0)])]).unwrap_err(),
        InputError::Shape(ShapeError::TooFewPoints)
    );
    assert_eq!(
        with(vec![
            PathCommand::Move(Position::Absolute, vec![pt(0.0, 0.0), pt(2.0, 1.0), pt(0.0, 2.0), pt(1.0, 1.0)]),
            PathCommand::Close,
        ])
        .unwrap_err(),
        InputError::Shape(ShapeError::NotConvex)
    );
    assert_eq!(
        s.add_from_path(
            Some(0),
            &vec![PathCommand::Move(Position::Absolute, vec![pt(0.0, 0.0), pt(2.0, 1.0)])]
        )
        .unwrap_err(),
        InputError::Shape(ShapeError::NonPositiveSize)
    );
    assert_eq!(s.add_circle(pt(0.0, 0.0), 0).unwrap_err(), InputError::Shape(ShapeError::NonPositiveSize));
    assert_eq!(s.lines().len() + s.polygons().len() + s.circles().len(), 0);
}

#[test]
fn shapes_come_out_lines_first() {
    let mut s = shapes();
    s.add_circle(pt(5.0, 5.0), SCALE).unwrap();
    s.add_from_path(
        None,
        &vec![
            PathCommand::Move(Position::Absolute, vec![pt(0.0, 0.0), pt(1.0, 0.0), pt(0.0, 1.0)]),
            PathCommand::Close,
        ],
    )
    .unwrap();
    s.add_from_path(
        Some(SCALE),
        &vec![PathCommand::Move(Position::Absolute, vec![pt(0.0, 0.0), pt(1.0, 0.0)])],
    )
    .unwrap();
    let kinds: Vec<&str> = s
        .into_shapes()
        .iter()
        .map(|shape| match shape {
            toolpath::geo::shape::ShapeE::Line(_) => "line",
            toolpath::geo::shape::ShapeE::Poly(_) => "polygon",
            toolpath::geo::shape::ShapeE::Circ(_) => "circle",
        })
        .collect();
    assert_eq!(kinds, vec!["line", "polygon", "circle"]);
}

#[test]
fn crossing_lines_become_one_contour() {
    let mut s = Shapes::new(SCALE / 2, SCALE / 2, SCALE / 2);
    let line = |a: Point, b: Point| vec![PathCommand::Move(Position::Absolute, vec![a, b])];
    s.add_from_path(Some(5 * SCALE), &line(pt(10.0, 10.0), pt(90.0, 90.0))).unwrap();
    s.add_from_path(Some(5 * SCALE), &line(pt(90.0, 10.0), pt(10.0, 90.0))).unwrap();
    s.add_circle(pt(150.0, 50.0), 10 * SCALE).unwrap();
    let repo = process(s, SCALE).unwrap();
    assert_eq!(repo.problems().len(), 0);
    assert_eq!(repo.contours().len(), 2);
    // the merged contour comes after the contours that were left alone
    let cross = &repo.contours()[1];
    assert_eq!(cross.area().len(), 2);
    assert!(cross.contains(&pt(50.0, 50.0)));
    assert!(cross.contains(&pt(20.0, 20.0)));
    assert!(cross.contains(&pt(20.0, 80.0)));
    assert!(!cross.contains(&pt(50.0, 20.0)));
    let disc = &repo.contours()[0];
    assert!(disc.contains(&pt(160.9, 50.0)));
    assert!(!disc.contains(&pt(161.1, 50.0)));
}

#[test]
fn a_shape_that_cannot_grow_fails_the_whole() {
    let mut s = shapes();
    s.add_circle(pt(5.0, 5.0), 3 * SCALE).unwrap();
    s.add_circle(pt(5.0, 5.0), SCALE).unwrap();
    s.add_from_path(
        Some(6 * SCALE),
        &vec![PathCommand::Move(Position::Absolute, vec![pt(0.0, 0.0), pt(10.0, 0.0)])],
    )
    .unwrap();
    // the line comes first and the wide circle second: the narrow circle is the third shape
    assert_eq!(
        process(s, -SCALE).unwrap_err(),
        Failure { shape: 2, error: ShapeError::NonPositiveSize }
    );
}

#[test]
fn growing_all_shapes_is_all_or_nothing() {
    let mut s = shapes();
    s.add_from_path(
        Some(SCALE),
        &vec![PathCommand::Move(Position::Absolute, vec![pt(0.0, 0.0), pt(10.0, 0.0)])],
    )
    .unwrap();
    s.add_circle(pt(5.0, 5.0), SCALE / 2).unwrap();
    // the circle would shrink to nothing: the line stays as thick as it was
    assert_eq!(s.grow(-SCALE / 2).unwrap_err(), ShapeError::NonPositiveSize);
    assert_eq!(s.lines()[0].thickness(), SCALE);
    assert_eq!(s.circles()[0].radius(), SCALE / 2);
    s.grow(SCALE).unwrap();
    assert_eq!(s.lines()[0].thickness(), 3 * SCALE);
    assert_eq!(s.circles()[0].radius(), 3 * SCALE / 2);
    s.grow(0).unwrap();
    assert_eq!(s.lines()[0].thickness(), 3 * SCALE);
    let contours = s.contours().unwrap();
    assert_eq!(contours.len(), 2);
    assert!(contours[0].contains(&pt(5.0, 1.4)));
    assert!(contours[1].contains(&pt(5.0, 3.6)));
    assert!(!contours[1].contains(&pt(5.0, 3.4)));
}
