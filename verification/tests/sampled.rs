use toolpath::geo::contour::Contour;
use toolpath::geo::repository::Contours;
use toolpath::geo::shape::{Circle, ConvexPolygon, Line, ShapeE};
use toolpath::geo::stitch::{stitch_pool, BelongsTo, Fragment};
use toolpath::geo::{Point, SCALE};

/// A small generator of numbers that looks random and is the same on every run.
struct Numbers(u64);

impl Numbers {
    fn next(&mut self) -> u64 {
        self.0 = self.0.wrapping_mul(6364136223846793005).wrapping_add(1442695040888963407);
        self.0 >> 33
    }

    fn between(&mut self, lo: i64, hi: i64) -> i64 {
        lo + (self.next() % (hi - lo) as u64) as i64
    }

    fn point(&mut self) -> Point {
        Point::new(self.between(0, 12 * SCALE), self.between(0, 12 * SCALE)).unwrap()
    }

    fn shape(&mut self) -> ShapeE {
        match self.next() % 3 {
            0 => {
                let a = self.point();
                let b = Point::new(a.x() + self.between(SCALE, 9 * SCALE), a.y() + self.between(-4 * SCALE, 4 * SCALE))
                    .unwrap();
                ShapeE::Line(Line::new(vec![a, b], self.between(SCALE / 2, 3 * SCALE), SCALE / 2).unwrap())
            },
            1 => {
                let c = self.point();
                let w = self.between(SCALE, 6 * SCALE);
                let h = self.between(SCALE, 6 * SCALE);
                let corners = vec![
                    c,
                    Point::new(c.x() + w, c.y()).unwrap(),
                    Point::new(c.x() + w, c.y() + h).unwrap(),
                    Point::new(c.x(), c.y() + h).unwrap(),
                ];
                ShapeE::Poly(ConvexPolygon::new(corners, SCALE / 2).unwrap())
            },
            _ => ShapeE::Circ(Circle::new(self.point(), self.between(SCALE, 4 * SCALE), SCALE / 2).unwrap()),
        }
    }

    fn contour(&mut self) -> Contour {
        Contour::new(self.shape()).unwrap()
    }
}

#[test]
fn mergeability_is_symmetric_for_any_pair() {
    let mut numbers = Numbers(7);
    let mut met = 0;
    for _ in 0..60 {
        let a = numbers.contour();
        let b = numbers.contour();
        assert_eq!(a.is_mergeable(&b), b.is_mergeable(&a));
        if a.is_mergeable(&b) {
            met += 1;
        }
    }
    assert!(met > 5);
}

#[test]
fn stitching_neither_loses_nor_makes_up_an_edge() {
    let mut numbers = Numbers(11);
    let mut stitched = 0;
    for _ in 0..60 {
        let a = numbers.contour();
        let b = numbers.contour();
        if !a.is_mergeable(&b) {
            continue;
        }
        let (ea, eb) = match (a.break_edges(&b), b.break_edges(&a)) {
            (Ok(ea), Ok(eb)) => (ea, eb),
            _ => continue,
        };
        let mut pool: Vec<Fragment> = Vec::new();
        pool.extend(ea.iter().map(|e| Fragment { edge: *e, owner: BelongsTo::A }));
        pool.extend(eb.iter().map(|e| Fragment { edge: *e, owner: BelongsTo::B }));
        let size = pool.len();
        let (loops, problems) = stitch_pool(pool);
        assert_eq!(loops.iter().map(|l| l.len()).sum::<usize>() + problems.len(), size);
        for chain in &loops {
            for k in 0..chain.len() {
                let next = &chain[(k + 1) % chain.len()];
                assert!(chain[k].end().coincides(next.start()));
            }
        }
        stitched += 1;
    }
    assert!(stitched > 5);
}

#[test]
fn settling_twice_changes_nothing() {
    let mut numbers = Numbers(23);
    for _ in 0..8 {
        let contours: Vec<Contour> = (0..6).map(|_| numbers.contour()).collect();
        let mut repo = Contours::from(contours);
        assert!(repo.merge_all());
        let outlines = |repo: &Contours| -> Vec<Vec<(i64, i64)>> {
            repo.contours().iter().map(|c| c.points().iter().map(|p| (p.x(), p.y())).collect()).collect()
        };
        let first = outlines(&repo);
        let problems = repo.problems().len();
        assert!(repo.merge_all());
        assert_eq!(outlines(&repo), first);
        assert_eq!(repo.problems().len(), problems);
    }
}

#[test]
fn growing_by_nothing_keeps_every_outline() {
    let mut numbers = Numbers(31);
    for _ in 0..30 {
        let mut shape = numbers.shape();
        let before: Vec<(i64, i64)> = shape.boundary().unwrap().iter().map(|p| (p.x(), p.y())).collect();
        shape.grow(0).unwrap();
        let after: Vec<(i64, i64)> = shape.boundary().unwrap().iter().map(|p| (p.x(), p.y())).collect();
        assert_eq!(before, after);
    }
}

#[test]
fn a_merged_contour_contains_what_its_parts_contain() {
    let mut numbers = Numbers(43);
    let mut merged = 0;
    for _ in 0..40 {
        let a = numbers.shape();
        let b = numbers.shape();
        let probe: Vec<Point> = (0..20).map(|_| numbers.point()).collect();
        let expect: Vec<bool> = probe.iter().map(|p| a.contains(p) || b.contains(p)).collect();
        let mut repo = Contours::from(vec![Contour::new(a).unwrap(), Contour::new(b).unwrap()]);
        repo.merge_all();
        if repo.contours().len() == 1 && repo.contours()[0].area().len() == 2 {
            let got: Vec<bool> = probe.iter().map(|p| repo.contours()[0].contains(p)).collect();
            assert_eq!(got, expect);
            merged += 1;
        }
    }
    assert!(merged > 3);
}
