use toolpath::fab::{
    cut_depths, hole_filter, select_holes, BitShape, FabData, FabError, FabOperation, Hole,
    JobConfig, JobKind,
};
use toolpath::geo::contour::Contour;
use toolpath::geo::shape::ConvexPolygon;
use toolpath::geo::{Point, SCALE};
use toolpath::io::gcode::{make_gcode, make_program, plan_order};
use toolpath::io::text::render;
use toolpath::io::gcode_generator::{Command, GCodeGenerator, GCodeState, Misuse, Operation};

fn pt(x: f64, y: f64) -> Point {
    Point::new((x * SCALE as f64).round() as i64, (y * SCALE as f64).round() as i64).unwrap()
}

fn square(x: f64, y: f64) -> Contour {
    let points = vec![pt(x, y), pt(x + 1.0, y), pt(x + 1.0, y + 1.0), pt(x, y + 1.0)];
    Contour::from_polygon(ConvexPolygon::new(points, SCALE).unwrap())
}

fn job(kind: JobKind, bit_shape: BitShape) -> JobConfig {
    JobConfig { kind, bit_shape, feed: 300, rpm: 12_000 }
}

#[test]
fn cutting_before_engaging_is_refused() {
    let mut g = GCodeGenerator::new(100, 1000, 5 * SCALE);
    let stopped = Misuse { state: GCodeState::Stopped, operation: Operation::Cut };
    assert_eq!(g.move_xy(1, 2).unwrap_err(), stopped);
    assert_eq!(g.move_z(-1).unwrap_err(), stopped);
    assert_eq!(g.helix_ccwise(1, 2, 3, 4, 5, 6).unwrap_err(), stopped);
    assert_eq!(g.arc_ccwise(1, 2, 3, 4).unwrap_err(), stopped);
    g.spindle_start_cwise().unwrap();
    let up = Misuse { state: GCodeState::SpinningDisengaged, operation: Operation::Cut };
    assert_eq!(g.move_xy(1, 2).unwrap_err(), up);
    assert_eq!(g.actions().len(), 5);
    g.engage().unwrap();
    g.move_xy(1, 2).unwrap();
    assert_eq!(g.state(), GCodeState::SpinningEngaged);
}

#[test]
fn finishing_while_spinning_is_refused() {
    let mut g = GCodeGenerator::new(100, 1000, 5 * SCALE);
    g.spindle_start_ccwise().unwrap();
    assert_eq!(
        g.into_commands().unwrap_err(),
        Misuse { state: GCodeState::SpinningDisengaged, operation: Operation::Finish }
    );
    let mut g = GCodeGenerator::new(100, 1000, 5 * SCALE);
    g.spindle_start_ccwise().unwrap();
    g.engage().unwrap();
    assert_eq!(
        g.into_commands().unwrap_err(),
        Misuse { state: GCodeState::SpinningEngaged, operation: Operation::Finish }
    );
}

#[test]
fn every_transition_has_its_state() {
    let mut g = GCodeGenerator::new(100, 1000, 5 * SCALE);
    assert_eq!(g.state(), GCodeState::Stopped);
    assert!(g.spindle_stop().is_err());
    assert!(g.engage().is_err());
    assert!(g.disengage().is_err());
    g.rapid(7, 8).unwrap();
    g.spindle_start_cwise().unwrap();
    assert!(g.spindle_start_cwise().is_err());
    assert!(g.spindle_start_ccwise().is_err());
    assert!(g.disengage().is_err());
    g.rapid(9, 10).unwrap();
    g.engage().unwrap();
    assert_eq!(
        g.rapid(1, 1).unwrap_err(),
        Misuse { state: GCodeState::SpinningEngaged, operation: Operation::Rapid }
    );
    assert!(g.engage().is_err());
    assert!(g.spindle_stop().is_err());
    g.move_z(-3).unwrap();
    g.disengage().unwrap();
    g.spindle_stop().unwrap();
    assert_eq!(
        g.into_commands().unwrap(),
        vec![
            Command::Absolute,
            Command::Feed(100),
            Command::Speed(1000),
            Command::RapidZ(500_000),
            Command::RapidXY { x: 7, y: 8 },
            Command::SpindleCw,
            Command::RapidXY { x: 9, y: 10 },
            Command::LinearZ(0),
            Command::LinearZ(-3),
            Command::LinearZ(500_000),
            Command::SpindleOff,
            Command::End,
        ]
    );
}

#[test]
fn helix_and_arc_select_the_plane() {
    let mut g = GCodeGenerator::new(1, 2, 3);
    g.spindle_start_ccwise().unwrap();
    g.engage().unwrap();
    g.helix_ccwise(1, 2, 3, 4, 5, 6).unwrap();
    g.arc_ccwise(7, 8, 9, 10).unwrap();
    assert_eq!(
        g.actions()[6..].to_vec(),
        vec![
            Command::PlaneXY,
            Command::HelixCcw { x: 1, y: 2, z: 3, i: 4, j: 5, turns: 6 },
            Command::PlaneXY,
            Command::ArcCcw { x: 7, y: 8, i: 9, j: 10 },
        ]
    );
}

#[test]
fn nearest_point_is_visited_next() {
    let starts = vec![pt(10.0, 0.0), pt(1.0, 1.0), pt(9.0, 0.0), pt(1.0, -1.0), pt(30.0, 0.0)];
    // from the origin: 1 and 3 are equally near, the earlier wins; then 3, then 2, 0, 4
    assert_eq!(plan_order(&starts), vec![1, 3, 2, 0, 4]);
    assert_eq!(plan_order(&Vec::new()), Vec::<usize>::new());
}

#[test]
fn cut_depths_are_whole_steps_then_the_full_depth() {
    assert_eq!(cut_depths(10, 3), vec![0, 3, 6, 10]);
    assert_eq!(cut_depths(9, 3), vec![0, 3, 6, 9]);
    assert_eq!(cut_depths(2, 3), vec![2]);
    assert_eq!(cut_depths(3, 3), vec![0, 3]);
}

#[test]
fn holes_are_filtered_by_radius() {
    let hole = |r: i64| Hole::new(pt(0.0, 0.0), r);
    assert!(hole_filter(&hole(5), None, None));
    assert!(hole_filter(&hole(5), Some(5), Some(5)));
    assert!(!hole_filter(&hole(4), Some(5), None));
    assert!(!hole_filter(&hole(6), None, Some(5)));
    let all = vec![hole(1), hole(5), hole(9), hole(3)];
    let kept: Vec<i64> = select_holes(&all, Some(3), Some(8)).iter().map(|h| h.radius).collect();
    assert_eq!(kept, vec![5, 3]);
}

#[test]
fn job_offsets() {
    assert_eq!(job(JobKind::EngraveContours { depth: 20_000 }, BitShape::V).offset(), Ok(Some(20_000)));
    assert_eq!(
        job(JobKind::EngraveContours { depth: 20_000 }, BitShape::Square { radius: 5 }).offset(),
        Err(FabError::UnsupportedBit)
    );
    assert_eq!(
        job(JobKind::EngraveContours { depth: 0 }, BitShape::V).offset(),
        Err(FabError::BadDimension)
    );
    let cut = JobKind::CutContours { depth: 150_000, depth_per_pass: 50_000 };
    assert_eq!(job(cut, BitShape::Square { radius: 80_000 }).offset(), Ok(Some(80_000)));
    assert_eq!(job(cut, BitShape::V).offset(), Err(FabError::UnsupportedBit));
    assert_eq!(job(cut, BitShape::Square { radius: 0 }).offset(), Err(FabError::BadDimension));
    let drill = JobKind::DrillCircles { depth: 1, radius_min: None, radius_max: None };
    assert_eq!(job(drill, BitShape::V).offset(), Ok(None));
}

#[test]
fn engraving_program() {
    let fd = FabData::new(
        &job(JobKind::EngraveContours { depth: 20_000 }, BitShape::V),
        vec![square(5.0, 5.0), square(1.0, 1.0)],
        &Vec::new(),
    )
    .unwrap();
    let log = make_program(500_000, &fd);
    let around = |x: i64, y: i64| {
        vec![
            Command::RapidXY { x, y },
            Command::LinearZ(0),
            Command::LinearZ(-20_000),
            Command::LinearXY { x: x + 100_000, y },
            Command::LinearXY { x: x + 100_000, y: y + 100_000 },
            Command::LinearXY { x, y: y + 100_000 },
            Command::LinearXY { x, y },
            Command::LinearZ(500_000),
        ]
    };
    let mut expected = vec![
        Command::Absolute,
        Command::Feed(300),
        Command::Speed(12_000),
        Command::RapidZ(500_000),
        Command::SpindleCw,
    ];
    expected.extend(around(100_000, 100_000));
    expected.extend(around(500_000, 500_000));
    expected.extend(vec![Command::SpindleOff, Command::End]);
    assert_eq!(log, expected);
}

#[test]
fn cutting_program_goes_pass_by_pass() {
    let kind = JobKind::CutContours { depth: 100_000, depth_per_pass: 40_000 };
    let fd = FabData::new(&job(kind, BitShape::Square { radius: 50_000 }), vec![square(0.0, 0.0)], &Vec::new())
        .unwrap();
    let log = make_program(300_000, &fd);
    let depths: Vec<i64> = log
        .windows(3)
        .filter(|w| matches!(w[0], Command::RapidXY { .. }))
        .map(|w| match w[2] {
            Command::LinearZ(z) => z,
            _ => panic!("no plunge after the surface"),
        })
        .collect();
    assert_eq!(depths, vec![0, -40_000, -100_000]);
    assert_eq!(log.len(), 5 + 3 * 8 + 2);
}

#[test]
fn drilling_program() {
    let kind = JobKind::DrillCircles { depth: 30_000, radius_min: Some(100_000), radius_max: None };
    let holes = vec![
        Hole::new(pt(9.0, 9.0), 150_000),
        Hole::new(pt(1.0, 1.0), 50_000),
        Hole::new(pt(2.0, 2.0), 100_000),
    ];
    let fd = FabData::new(&job(kind, BitShape::Square { radius: 40_000 }), Vec::new(), &holes).unwrap();
    match &fd.operation {
        FabOperation::Drilling(d) => {
            let got: Vec<_> = d.holes.iter().map(|h| (h.center.x(), h.radius)).collect();
            assert_eq!(got, vec![(900_000, 40_000), (200_000, 40_000)]);
        },
        _ => panic!("not a drilling job"),
    }
    assert_eq!(
        make_program(500_000, &fd),
        vec![
            Command::Absolute,
            Command::Feed(300),
            Command::Speed(12_000),
            Command::RapidZ(500_000),
            Command::SpindleCw,
            Command::RapidXY { x: 200_000, y: 200_000 },
            Command::LinearZ(0),
            Command::LinearZ(-30_000),
            Command::LinearZ(500_000),
            Command::RapidXY { x: 900_000, y: 900_000 },
            Command::LinearZ(0),
            Command::LinearZ(-30_000),
            Command::LinearZ(500_000),
            Command::SpindleOff,
            Command::End,
        ]
    );
}

#[test]
fn boring_program() {
    let kind = JobKind::BoreCircles {
        depth: 100_000,
        depth_per_turn: 30_000,
        radius_min: None,
        radius_max: None,
    };
    let holes = vec![Hole::new(pt(4.0, 3.0), 150_000)];
    let fd = FabData::new(&job(kind, BitShape::Square { radius: 100_000 }), Vec::new(), &holes).unwrap();
    assert_eq!(
        make_program(500_000, &fd),
        vec![
            Command::Absolute,
            Command::Feed(300),
            Command::Speed(12_000),
            Command::RapidZ(500_000),
            Command::SpindleCcw,
            Command::RapidXY { x: 450_000, y: 300_000 },
            Command::LinearZ(0),
            Command::PlaneXY,
            Command::HelixCcw { x: 450_000, y: 300_000, z: -100_000, i: -50_000, j: 0, turns: 3 },
            Command::PlaneXY,
            Command::ArcCcw { x: 450_000, y: 300_000, i: -50_000, j: 0 },
            Command::LinearZ(500_000),
            Command::SpindleOff,
            Command::End,
        ]
    );
}

#[test]
fn boring_needs_holes_that_fit_the_bit() {
    let kind = |per_turn: i64| JobKind::BoreCircles {
        depth: 100_000,
        depth_per_turn: per_turn,
        radius_min: None,
        radius_max: None,
    };
    let bit = BitShape::Square { radius: 100_000 };
    let holes = |r: i64| vec![Hole::new(pt(0.0, 0.0), 150_000), Hole::new(pt(4.0, 3.0), r)];
    assert!(FabData::new(&job(kind(1), bit), Vec::new(), &holes(110_000)).is_ok());
    assert!(FabData::new(&job(kind(1), bit), Vec::new(), &holes(200_000)).is_ok());
    assert_eq!(
        FabData::new(&job(kind(1), bit), Vec::new(), &holes(109_999)).unwrap_err(),
        FabError::HoleTooSmall(1)
    );
    assert_eq!(
        FabData::new(&job(kind(1), bit), Vec::new(), &holes(200_001)).unwrap_err(),
        FabError::HoleTooBig(1)
    );
    assert_eq!(
        FabData::new(&job(kind(0), bit), Vec::new(), &holes(150_000)).unwrap_err(),
        FabError::BadDimension
    );
    assert_eq!(
        FabData::new(&job(kind(1), BitShape::V), Vec::new(), &holes(150_000)).unwrap_err(),
        FabError::UnsupportedBit
    );
}

#[test]
fn numbers_are_written_in_working_units() {
    let line = |c: Command| render(&vec![c]);
    assert_eq!(line(Command::LinearZ(0)), "G1 Z0");
    assert_eq!(line(Command::LinearZ(150_000)), "G1 Z1.5");
    assert_eq!(line(Command::LinearZ(-25_000)), "G1 Z-0.25");
    assert_eq!(line(Command::LinearZ(1_000_000)), "G1 Z10");
    assert_eq!(line(Command::LinearZ(1)), "G1 Z0.00001");
    assert_eq!(line(Command::LinearZ(-100_500)), "G1 Z-1.005");
    assert_eq!(line(Command::LinearZ(123_456_789)), "G1 Z1234.56789");
    assert_eq!(line(Command::LinearZ(i64::MIN)), "G1 Z-92233720368547.75808");
    assert_eq!(line(Command::Feed(30_000_000)), "F300");
    assert_eq!(line(Command::Speed(1_200_000_000)), "S12000");
    assert_eq!(line(Command::RapidXY { x: 50_000, y: -700_000 }), "G0 X0.5 Y-7");
    assert_eq!(line(Command::LinearXY { x: 0, y: 12_340 }), "G1 X0 Y0.1234");
    assert_eq!(
        line(Command::HelixCcw { x: 450_000, y: 300_000, z: -100_000, i: -50_000, j: 0, turns: 13 }),
        "G3 X4.5 Y3 Z-1 I-0.5 J0 P13"
    );
    assert_eq!(line(Command::ArcCcw { x: 1, y: 2, i: 3, j: 4 }), "G3 X0.00001 Y0.00002 I0.00003 J0.00004");
}

#[test]
fn program_text_has_one_command_a_line() {
    let mut g = GCodeGenerator::new(30_000_000, 1_200_000_000, 500_000);
    g.spindle_start_cwise().unwrap();
    g.rapid(100_000, 200_000).unwrap();
    g.engage().unwrap();
    g.move_z(-50_000).unwrap();
    g.move_xy(300_000, 200_000).unwrap();
    g.disengage().unwrap();
    g.spindle_stop().unwrap();
    assert_eq!(
        g.into_string().unwrap(),
        "G90\nF300\nS12000\nG0 Z5\nM3\nG0 X1 Y2\nG1 Z0\nG1 Z-0.5\nG1 X3 Y2\nG1 Z5\nM5\nM2"
    );
    assert_eq!(render(&Vec::new()), "");
    let spinning = {
        let mut g = GCodeGenerator::new(1, 1, 1);
        g.spindle_start_cwise().unwrap();
        g
    };
    assert_eq!(
        spinning.into_string().unwrap_err(),
        Misuse { state: GCodeState::SpinningDisengaged, operation: Operation::Finish }
    );
}

#[test]
fn drilling_job_as_text() {
    let kind = JobKind::DrillCircles { depth: 30_000, radius_min: None, radius_max: None };
    let holes = vec![Hole::new(pt(2.0, 2.5), 100_000)];
    let fd = FabData::new(&job(kind, BitShape::Square { radius: 40_000 }), Vec::new(), &holes).unwrap();
    assert_eq!(
        make_gcode(500_000, &fd),
        "G90\nF0.003\nS0.12\nG0 Z5\nM3\nG0 X2 Y2.5\nG1 Z0\nG1 Z-0.3\nG1 Z5\nM5\nM2"
    );
}
