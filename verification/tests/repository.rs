use toolpath::geo::contour::Contour;
use toolpath::geo::edge::Edge;
use toolpath::geo::intersect::GeometryError;
use toolpath::geo::repository::{decide, Contours, PairAction};
use toolpath::geo::shape::{Circle, ConvexPolygon, ShapeE, ShapeError};
use toolpath::geo::stitch::{stitch_pool, BelongsTo, Fragment};
use toolpath::geo::{Point, SCALE};

fn pt(x: f64, y: f64) -> Point {
    Point::new((x * SCALE as f64).round() as i64, (y * SCALE as f64).round() as i64).unwrap()
}

fn pts(points: &[[f64; 2]]) -> Vec<Point> {
    points.iter().map(|p| pt(p[0], p[1])).collect()
}

fn cont(points: &[[f64; 2]]) -> Contour {
    Contour::from_polygon(ConvexPolygon::new(pts(points), SCALE).unwrap())
}

fn coords(points: &Vec<Point>) -> Vec<(i64, i64)> {
    points.iter().map(|p| (p.x(), p.y())).collect()
}

fn frag(x1: f64, y1: f64, x2: f64, y2: f64, owner: BelongsTo) -> Fragment {
    Fragment { edge: Edge::new(pt(x1, y1), pt(x2, y2)).unwrap(), owner }
}

#[test]
fn other_label() {
    assert_eq!(BelongsTo::A.other(), BelongsTo::B);
    assert_eq!(BelongsTo::B.other(), BelongsTo::A);
    assert_eq!(BelongsTo::A.other().other(), BelongsTo::A);
}

#[test]
fn squares_sharing_an_edge_merge_into_six_points() {
    let a = cont(&[[0.0, 0.0], [0.0, 1.0], [1.0, 1.0], [1.0, 0.0]]);
    let b = cont(&[[1.0, 0.0], [1.0, 1.0], [2.0, 1.0], [2.0, 0.0]]);
    let mut cs = Contours::from(vec![a, b]);
    assert!(cs.merge_all());
    assert_eq!(cs.contours().len(), 1);
    assert_eq!(cs.problems().len(), 0);
    let mut got = coords(cs.contours()[0].points());
    got.sort();
    assert_eq!(
        got,
        vec![(0, 0), (0, 100_000), (100_000, 0), (100_000, 100_000), (200_000, 0), (200_000, 100_000)]
    );
    assert_eq!(cs.contours()[0].area().len(), 2);
}

#[test]
fn merged_contour_contains_what_either_shape_contains() {
    let a = cont(&[[0.0, 0.0], [0.0, 2.0], [2.0, 2.0], [2.0, 0.0]]);
    let b = cont(&[[1.0, 1.0], [1.0, 3.0], [3.0, 3.0], [3.0, 1.0]]);
    let mut cs = Contours::from(vec![a, b]);
    cs.merge_all();
    let c = &cs.contours()[0];
    assert!(c.contains(&pt(0.5, 0.5)));
    assert!(c.contains(&pt(2.5, 2.5)));
    assert!(c.contains(&pt(1.5, 1.5)));
    assert!(!c.contains(&pt(0.5, 2.5)));
    assert!(!c.contains(&pt(2.5, 0.5)));
}

#[test]
fn mergeability_is_symmetric() {
    let shapes = [
        cont(&[[0.0, 0.0], [0.0, 1.0], [1.0, 1.0], [1.0, 0.0]]),
        cont(&[[1.0, 1.0], [1.0, 2.0], [2.0, 2.0], [2.0, 1.0]]),
        cont(&[[0.0, 0.0], [3.0, 0.0], [3.0, 3.0], [0.0, 3.0]]),
        cont(&[[5.0, 5.0], [6.0, 5.0], [5.5, 6.0]]),
        cont(&[[0.5, 0.0], [0.7, 0.0], [0.7, 5.0], [0.5, 5.0]]),
    ];
    for a in &shapes {
        for b in &shapes {
            assert_eq!(a.is_mergeable(b), b.is_mergeable(a));
        }
    }
}

#[test]
fn contained_contour_is_dropped_and_the_larger_kept() {
    let big = [[0.0, 0.0], [3.0, 0.0], [3.0, 3.0], [0.0, 3.0]];
    let small = [[1.0, 1.0], [2.0, 1.0], [2.0, 2.0], [1.0, 2.0]];
    let expected = vec![(0, 0), (300_000, 0), (300_000, 300_000), (0, 300_000)];

    let mut cs = Contours::from(vec![cont(&big), cont(&small)]);
    assert_eq!(decide(&cs.contours()[0], &cs.contours()[1]), PairAction::DropSecond);
    assert!(cs.merge_all());
    assert_eq!(cs.contours().len(), 1);
    assert_eq!(coords(cs.contours()[0].points()), expected);

    let mut cs = Contours::from(vec![cont(&small), cont(&big)]);
    assert_eq!(decide(&cs.contours()[0], &cs.contours()[1]), PairAction::DropFirst);
    assert!(cs.merge_all());
    assert_eq!(cs.contours().len(), 1);
    assert_eq!(coords(cs.contours()[0].points()), expected);

    let mut cs = Contours::new();
    cs.add(cont(&big));
    cs.add(cont(&small));
    assert_eq!(cs.contours().len(), 1);
    assert_eq!(coords(cs.contours()[0].points()), expected);
    assert_eq!(cs.problems().len(), 0);
}

#[test]
fn contours_that_contain_each_other_leave_one() {
    let square = [[0.0, 0.0], [2.0, 0.0], [2.0, 2.0], [0.0, 2.0]];
    let a = cont(&square);
    let b = cont(&square);
    assert!(a.is_superset_of(&b) && b.is_superset_of(&a));
    assert!(a.is_mergeable(&b));
    assert_eq!(decide(&a, &b), PairAction::DropSecond);

    let mut cs = Contours::from(vec![a, b, cont(&square)]);
    assert!(!cs.merge_rounds(1));
    assert_eq!(cs.contours().len(), 2);
    assert!(cs.merge_all());
    assert_eq!(cs.contours().len(), 1);
    assert_eq!(cs.contours()[0].area().len(), 1);
    assert_eq!(coords(cs.contours()[0].points()), vec![(0, 0), (200_000, 0), (200_000, 200_000), (0, 200_000)]);
    assert_eq!(cs.problems().len(), 0);
}

#[test]
fn settled_repository_has_no_pair_that_meets_or_contains() {
    let sq = |x: f64, y: f64, s: f64| cont(&[[x, y], [x + s, y], [x + s, y + s], [x, y + s]]);
    let mut cs = Contours::from(vec![
        sq(0.0, 0.0, 2.0),
        sq(0.0, 0.0, 2.0),
        sq(1.0, 1.0, 2.0),
        sq(10.0, 0.0, 4.0),
        sq(11.0, 1.0, 1.0),
        sq(20.0, 20.0, 1.0),
        sq(10.0, 0.0, 4.0),
    ]);
    assert!(cs.merge_all());
    let left = cs.contours();
    assert_eq!(left.len(), 3);
    for (p, a) in left.iter().enumerate() {
        for (q, b) in left.iter().enumerate() {
            if p != q {
                assert!(!a.is_mergeable(b));
                assert!(!a.is_superset_of(b));
                assert_eq!(decide(a, b), PairAction::Keep);
            }
        }
    }
    assert_eq!(cs.problems().len(), 0);
}

#[test]
fn settled_repository_stays_as_it_is() {
    let a = cont(&[[0.0, 0.0], [0.0, 2.0], [2.0, 2.0], [2.0, 0.0]]);
    let b = cont(&[[1.0, 1.0], [1.0, 3.0], [3.0, 3.0], [3.0, 1.0]]);
    let c = cont(&[[10.0, 10.0], [11.0, 10.0], [11.0, 11.0], [10.0, 11.0]]);
    let mut cs = Contours::from(vec![a, b, c]);
    assert!(cs.merge_all());
    let first: Vec<_> = cs.contours().iter().map(|c| coords(c.points())).collect();
    assert_eq!(first.len(), 2);
    assert!(cs.find_pair().is_none());
    assert!(cs.merge_all());
    assert!(cs.merge_rounds(0));
    let second: Vec<_> = cs.contours().iter().map(|c| coords(c.points())).collect();
    assert_eq!(first, second);
    assert_eq!(cs.problems().len(), 0);
}

#[test]
fn rounds_are_counted() {
    let row = |x: f64| cont(&[[x, 0.0], [x + 1.0, 0.0], [x + 1.0, 1.0], [x, 1.0]]);
    let mut cs = Contours::from(vec![row(0.0), row(1.0), row(2.0)]);
    assert!(!cs.merge_rounds(0));
    assert_eq!(cs.contours().len(), 3);
    assert!(!cs.merge_rounds(1));
    assert_eq!(cs.contours().len(), 2);
    assert!(cs.merge_rounds(1));
    assert_eq!(cs.contours().len(), 1);
    assert_eq!(cs.contours()[0].points().len(), 8);
    assert_eq!(cs.contours()[0].area().len(), 3);
}

#[test]
fn first_pair_is_found_row_by_row() {
    let sq = |x: f64, y: f64| cont(&[[x, y], [x + 1.0, y], [x + 1.0, y + 1.0], [x, y + 1.0]]);
    let cs = Contours::from(vec![sq(0.0, 0.0), sq(5.0, 0.0), sq(5.5, 0.5), sq(0.5, 0.5)]);
    let (i, j, what) = cs.find_pair().unwrap();
    assert_eq!((i, j, what), (0, 3, PairAction::Merge));
}

#[test]
fn add_merges_with_the_first_contour_it_meets() {
    let sq = |x: f64, y: f64| cont(&[[x, y], [x + 2.0, y], [x + 2.0, y + 2.0], [x, y + 2.0]]);
    let mut cs = Contours::new();
    cs.add(sq(0.0, 0.0));
    cs.add(sq(10.0, 0.0));
    assert_eq!(cs.contours().len(), 2);
    cs.add(sq(1.0, 1.0));
    assert_eq!(cs.contours().len(), 2);
    assert_eq!(coords(cs.contours()[0].points())[0], (1_000_000, 0));
    assert_eq!(cs.contours()[1].points().len(), 8);
    assert_eq!(cs.contours()[1].area().len(), 2);
}

#[test]
fn contour_needs_a_closed_outline() {
    let circle = || ShapeE::Circ(Circle::new(pt(0.0, 0.0), SCALE, SCALE).unwrap());
    assert_eq!(
        Contour::with_boundary(circle(), pts(&[[0.0, 0.0], [1.0, 0.0]])).unwrap_err(),
        ShapeError::TooFewPoints
    );
    assert_eq!(
        Contour::with_boundary(circle(), pts(&[[1.0, 0.0], [0.0, 1.0], [-1.0, 0.0], [1.0, 0.0005]]))
            .unwrap_err(),
        ShapeError::ZeroLengthEdge
    );
    let c = Contour::with_boundary(circle(), pts(&[[1.0, 0.0], [0.0, 1.0], [-1.0, 0.0], [0.0, -1.0]]))
        .unwrap();
    assert_eq!(c.points().len(), 4);
    assert_eq!(c.edges().len(), 4);
    assert_eq!((c.edge(3).end().x(), c.edge(3).end().y()), (100_000, 0));
    // containment is decided by the shape, not by the outline
    assert!(c.contains(&pt(0.7, 0.7)));
    assert!(!c.contains(&pt(0.8, 0.8)));
}

#[test]
fn no_kept_piece_has_both_ends_inside_the_other() {
    let a = cont(&[[0.0, 0.0], [2.0, 0.0], [2.0, 2.0], [0.0, 2.0]]);
    let others = [
        cont(&[[1.0, 1.0], [3.0, 1.0], [3.0, 3.0], [1.0, 3.0]]),
        cont(&[[0.5, -1.0], [1.5, -1.0], [1.5, 3.0], [0.5, 3.0]]),
        cont(&[[2.0, 0.0], [4.0, 0.0], [4.0, 2.0], [2.0, 2.0]]),
        cont(&[[-1.0, 1.0], [1.0, -1.0], [3.0, 1.0], [1.0, 3.0]]),
    ];
    let mut kept = 0;
    for b in others.iter() {
        for (x, y) in [(&a, b), (b, &a)] {
            let pieces = x.break_edges(y).unwrap();
            for e in pieces.iter() {
                assert!(!e.start().coincides(e.end()));
                assert!(!(y.contains(e.start()) && y.contains(e.end())));
            }
            kept += pieces.len();
        }
    }
    assert!(kept >= 20);
    // the square lies inside the last of the others: nothing of it is kept
    assert!(a.break_edges(&others[3]).unwrap().is_empty());
}

#[test]
fn break_edges_splits_and_discards() {
    let a = cont(&[[0.0, 0.0], [2.0, 0.0], [2.0, 2.0], [0.0, 2.0]]);
    let b = cont(&[[1.0, 1.0], [3.0, 1.0], [3.0, 3.0], [1.0, 3.0]]);
    let pieces = a.break_edges(&b).unwrap();
    let got: Vec<_> = pieces
        .iter()
        .map(|e| ((e.start().x(), e.start().y()), (e.end().x(), e.end().y())))
        .collect();
    assert_eq!(
        got,
        vec![
            ((0, 0), (200_000, 0)),
            ((200_000, 0), (200_000, 100_000)),
            ((100_000, 200_000), (0, 200_000)),
            ((0, 200_000), (0, 0)),
        ]
    );
}

#[test]
fn break_edges_reports_lines_that_are_apart() {
    // Two long slivers: their long edges count as touching near one end, yet the lines through
    // them are more than the tolerance apart at the start of the edges.
    let a = cont(&[[0.0, 0.0], [10.0, 0.0009], [10.0, 1.0], [0.0, 1.0]]);
    let b = cont(&[[5.0, 0.002], [5.0, -1.0], [15.0, -1.0], [15.0, 0.0011]]);
    assert!(a.is_mergeable(&b));
    assert_eq!(a.break_edges(&b).unwrap_err(), GeometryError::Parallel);
    let mut cs = Contours::from(vec![a, b]);
    assert!(cs.merge_all());
    assert_eq!(cs.contours().len(), 0);
    assert_eq!(cs.problems().len(), 8);
}

#[test]
fn stitching_prefers_the_other_contour() {
    // Two triangles meeting at the origin; the chain changes contour there.
    let pool = vec![
        frag(0.0, 0.0, 1.0, 0.0, BelongsTo::A),
        frag(1.0, 0.0, 1.0, 1.0, BelongsTo::A),
        frag(1.0, 1.0, 0.0, 0.0, BelongsTo::A),
        frag(0.0, 0.0, -1.0, 0.0, BelongsTo::B),
        frag(-1.0, 0.0, -1.0, -1.0, BelongsTo::B),
        frag(-1.0, -1.0, 0.0, 0.0, BelongsTo::B),
    ];
    let (loops, problems) = stitch_pool(pool);
    assert_eq!(problems.len(), 0);
    assert_eq!(loops.len(), 1);
    let starts: Vec<_> = loops[0].iter().map(|e| (e.start().x(), e.start().y())).collect();
    assert_eq!(
        starts,
        vec![(-100_000, -100_000), (0, 0), (100_000, 0), (100_000, 100_000), (0, 0), (-100_000, 0)]
    );
}

#[test]
fn stitching_failure_becomes_problems() {
    let pool = vec![
        frag(5.0, 5.0, 6.0, 5.0, BelongsTo::B),
        frag(0.0, 0.0, 1.0, 0.0, BelongsTo::A),
        frag(1.0, 0.0, 1.0, 1.0, BelongsTo::A),
        frag(1.0, 1.0, 0.0, 0.0, BelongsTo::A),
        frag(9.0, 9.0, 8.0, 9.0, BelongsTo::B),
        frag(8.0, 9.0, 7.0, 9.0, BelongsTo::A),
    ];
    let (loops, problems) = stitch_pool(pool);
    // seed (8,9)->(7,9) finds no continuation: it and the whole rest are problems
    assert_eq!(loops.len(), 0);
    assert_eq!(problems.len(), 6);
    assert_eq!((problems[0].start().x(), problems[0].end().x()), (800_000, 700_000));

    let pool = vec![
        frag(5.0, 5.0, 6.0, 5.0, BelongsTo::B),
        frag(0.0, 0.0, 1.0, 0.0, BelongsTo::A),
        frag(1.0, 0.0, 1.0, 1.0, BelongsTo::A),
        frag(1.0, 1.0, 0.0, 0.0, BelongsTo::A),
    ];
    let (loops, problems) = stitch_pool(pool);
    assert_eq!(loops.len(), 1);
    assert_eq!(loops[0].len(), 3);
    assert_eq!(problems.len(), 1);
}
