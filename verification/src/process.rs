//! From the commands of vector paths to shapes, and from shapes to merged contours.

use crate::geo::contour::{contour_of, Contour, ContourModel};
use crate::geo::path::{position_of, trail, trail_fits, PathBuilder, PathError};
use crate::geo::repository::{contour_models, settle, Contours, RepoModel};
use crate::geo::shape::{
    copy_points, polygon_ring, size_fault, Circle, CircleModel, ConvexPolygon, Line, LineModel,
    PolygonModel, ShapeE, ShapeError, ShapeModel,
};
use crate::geo::{Point, Pt};
use vstd::prelude::*;

verus! {

/// Whether the numbers of a path command are positions or steps from the current position.
#[derive(Clone, Copy, Debug, PartialEq, Eq, Structural)]
pub enum Position {
    Absolute,
    Relative,
}

/// One command of a vector path, its numbers on the grid.
#[derive(Debug)]
pub enum PathCommand {
    /// Start the path.
    Move(Position, Vec<Point>),
    /// Straight lines to, or by, the given points.
    Line(Position, Vec<Point>),
    /// Vertical lines to, or by, the given ordinates.
    VerticalLine(Position, Vec<i64>),
    /// Horizontal lines to, or by, the given abscissas.
    HorizontalLine(Position, Vec<i64>),
    /// Elliptical arcs, of which only the end points are kept: each is drawn as a straight
    /// line.
    EllipticalArc(Position, Vec<Point>),
    /// Close the path.
    Close,
    /// Any other command.
    Unsupported,
}

/// A path command as the contracts see it.
pub enum CommandModel {
    Move(Position, Seq<Point>),
    Line(Position, Seq<Point>),
    VerticalLine(Position, Seq<i64>),
    HorizontalLine(Position, Seq<i64>),
    EllipticalArc(Position, Seq<Point>),
    Close,
    Unsupported,
}

impl View for PathCommand {
    type V = CommandModel;

    open spec fn view(&self) -> CommandModel {
        match self {
            PathCommand::Move(p, v) => CommandModel::Move(*p, v@),
            PathCommand::Line(p, v) => CommandModel::Line(*p, v@),
            PathCommand::VerticalLine(p, v) => CommandModel::VerticalLine(*p, v@),
            PathCommand::HorizontalLine(p, v) => CommandModel::HorizontalLine(*p, v@),
            PathCommand::EllipticalArc(p, v) => CommandModel::EllipticalArc(*p, v@),
            PathCommand::Close => CommandModel::Close,
            PathCommand::Unsupported => CommandModel::Unsupported,
        }
    }
}

/// Why a path or a circle was not taken in.
#[derive(Clone, Copy, Debug, PartialEq, Eq, Structural)]
pub enum InputError {
    /// A command came at the wrong place in the path.
    Path(PathError),
    /// The points do not make the shape.
    Shape(ShapeError),
    /// An open path outside any group that sets a stroke width.
    NoStrokeWidth,
    /// A command that is not supported.
    Unsupported,
    /// A vertical or horizontal line that leaves the coordinate range.
    OutOfRange,
    /// A group ended that never began.
    NoGroup,
}

/// The stroke widths of the groups that are open, outermost first.
#[derive(Debug)]
pub struct SvgContext {
    stroke_width: Vec<Option<i64>>,
}

impl View for SvgContext {
    type V = Seq<Option<i64>>;

    closed spec fn view(&self) -> Seq<Option<i64>> {
        self.stroke_width@
    }
}

/// The stroke width in force among the first `upto` groups: that of the innermost group that
/// sets one.
pub open spec fn width_in_force(groups: Seq<Option<i64>>, upto: int) -> Option<i64>
    decreases upto,
{
    if upto <= 0 {
        None
    } else if groups[upto - 1] is Some {
        groups[upto - 1]
    } else {
        width_in_force(groups, upto - 1)
    }
}

impl SvgContext {
    /// No group is open.
    pub fn new() -> (r: SvgContext)
        ensures
            r@.len() == 0,
    {
        SvgContext { stroke_width: Vec::new() }
    }

    /// Opens a group that sets the given stroke width, or none.
    pub fn group_push(&mut self, stroke_width: Option<i64>)
        ensures
            final(self)@ == old(self)@.push(stroke_width),
    {
        self.stroke_width.push(stroke_width);
    }

    /// Closes the innermost group; fails when no group is open.
    pub fn group_pop(&mut self) -> (r: Result<(), InputError>)
        ensures
            match r {
                Ok(_) => old(self)@.len() > 0 && final(self)@ == old(self)@.drop_last(),
                Err(e) => old(self)@.len() == 0 && e == InputError::NoGroup && final(self)@ == old(
                    self,
                )@,
            },
    {
        match self.stroke_width.pop() {
            Some(_) => Ok(()),
            None => Err(InputError::NoGroup),
        }
    }

    /// The stroke width of the innermost open group that sets one.
    pub fn get_stroke_width(&self) -> (r: Result<i64, InputError>)
        ensures
            match r {
                Ok(w) => width_in_force(self@, self@.len() as int) == Some(w),
                Err(e) => width_in_force(self@, self@.len() as int) is None && e
                    == InputError::NoStrokeWidth,
            },
    {
        let mut i: usize = self.stroke_width.len();
        while i > 0
            invariant
                i <= self.stroke_width.len(),
                width_in_force(self@, self@.len() as int) == width_in_force(self@, i as int),
            decreases i,
        {
            match self.stroke_width[i - 1] {
                Some(w) => {
                    return Ok(w);
                },
                None => {},
            }
            i -= 1;
        }
        Err(InputError::NoStrokeWidth)
    }
}

/// The points at the abscissa `x` and the given ordinates.
pub open spec fn column(x: int, ys: Seq<i64>) -> Seq<Pt> {
    Seq::new(ys.len(), |i: int| Pt { x, y: ys[i] as int })
}

/// The points at the given abscissas and the ordinate `y`.
pub open spec fn row(xs: Seq<i64>, y: int) -> Seq<Pt> {
    Seq::new(xs.len(), |i: int| Pt { x: xs[i] as int, y })
}

/// Every position lies in range.
pub open spec fn all_in_range(s: Seq<Pt>) -> bool {
    forall|i: int| 0 <= i < s.len() ==> (#[trigger] s[i]).in_range()
}

/// The grid points at the positions.
pub open spec fn on_all(s: Seq<Pt>) -> Seq<Point> {
    Seq::new(s.len(), |i: int| Point::on(s[i]))
}

/// The path continued through absolute points.
pub open spec fn line_to(points: Seq<Point>, more: Seq<Point>) -> Result<Seq<Point>, InputError> {
    if points.len() == 0 {
        Err(InputError::Path(PathError::LineBeforeStart))
    } else {
        Ok(points + more)
    }
}

/// The path continued by steps.
pub open spec fn line_by(points: Seq<Point>, steps: Seq<Point>) -> Result<Seq<Point>, InputError> {
    if points.len() == 0 {
        Err(InputError::Path(PathError::LineBeforeStart))
    } else if !trail_fits(position_of(points), steps) {
        Err(InputError::Path(PathError::OutOfRange))
    } else {
        Ok(points + trail(position_of(points), steps))
    }
}

/// The path continued through positions that must lie in range.
pub open spec fn line_through(points: Seq<Point>, more: Seq<Pt>) -> Result<Seq<Point>, InputError> {
    if points.len() == 0 {
        Err(InputError::Path(PathError::LineBeforeStart))
    } else if !all_in_range(more) {
        Err(InputError::OutOfRange)
    } else {
        Ok(points + on_all(more))
    }
}

/// The points of the path after a command that neither closes it nor is unsupported.
pub open spec fn drawn(points: Seq<Point>, command: CommandModel) -> Result<Seq<Point>, InputError> {
    match command {
        CommandModel::Move(Position::Absolute, pts) => if points.len() == 0 {
            Ok(pts)
        } else {
            Err(InputError::Path(PathError::MoveAfterStart))
        },
        CommandModel::Move(Position::Relative, pts) => if points.len() != 0 {
            Err(InputError::Path(PathError::MoveAfterStart))
        } else if !trail_fits(Pt { x: 0, y: 0 }, pts) {
            Err(InputError::Path(PathError::OutOfRange))
        } else {
            Ok(trail(Pt { x: 0, y: 0 }, pts))
        },
        CommandModel::Line(Position::Absolute, pts) => line_to(points, pts),
        CommandModel::Line(Position::Relative, pts) => line_by(points, pts),
        CommandModel::EllipticalArc(Position::Absolute, pts) => line_to(points, pts),
        CommandModel::EllipticalArc(Position::Relative, pts) => line_by(points, pts),
        CommandModel::VerticalLine(Position::Absolute, ys) => line_through(
            points,
            column(position_of(points).x, ys),
        ),
        CommandModel::VerticalLine(Position::Relative, ys) => match line_through(points, column(0, ys)) {
            Ok(_) => line_by(points, on_all(column(0, ys))),
            Err(e) => Err(e),
        },
        CommandModel::HorizontalLine(Position::Absolute, xs) => line_through(
            points,
            row(xs, position_of(points).y),
        ),
        CommandModel::HorizontalLine(Position::Relative, xs) => match line_through(points, row(xs, 0)) {
            Ok(_) => line_by(points, on_all(row(xs, 0))),
            Err(e) => Err(e),
        },
        _ => Err(InputError::Unsupported),
    }
}

/// What a path comes to.
pub enum Traced {
    /// A closed path through these points.
    Closed(Seq<Point>),
    /// An open path through these points.
    Open(Seq<Point>),
}

/// The path drawn by the commands from `from` on, continuing from `points`: closed by the
/// first closing command, after which nothing is read, else open.
pub open spec fn traced(commands: Seq<CommandModel>, from: int, points: Seq<Point>) -> Result<Traced, InputError>
    decreases commands.len() - from,
{
    if from < 0 || from >= commands.len() {
        Ok(Traced::Open(points))
    } else if commands[from] is Close {
        Ok(Traced::Closed(points))
    } else {
        match drawn(points, commands[from]) {
            Err(e) => Err(e),
            Ok(more) => traced(commands, from + 1, more),
        }
    }
}

/// The shapes found so far, as the contracts see them.
pub struct ShapesModel {
    pub lines: Seq<LineModel>,
    pub polygons: Seq<PolygonModel>,
    pub circles: Seq<CircleModel>,
    pub resolution_lines: int,
    pub resolution_polygons: int,
    pub resolution_circles: int,
}

/// The lines with `line` joined to the first of them, from `from` on, that it connects to, or
/// added at the end when it connects to none.
pub open spec fn with_line(lines: Seq<LineModel>, line: LineModel, from: int) -> Seq<LineModel>
    decreases lines.len() - from,
{
    if from < 0 || from >= lines.len() {
        lines.push(line)
    } else {
        match lines[from].connected(line) {
            Some(joined) => lines.update(from, joined),
            None => with_line(lines, line, from + 1),
        }
    }
}

/// The first `upto` lines, each thickened by twice `amount`.
pub open spec fn grown_lines(lines: Seq<LineModel>, amount: int, upto: int) -> Result<Seq<LineModel>, ShapeError>
    decreases upto,
{
    if upto <= 0 {
        Ok(Seq::empty())
    } else {
        match grown_lines(lines, amount, upto - 1) {
            Err(e) => Err(e),
            Ok(acc) => match size_fault(lines[upto - 1].thickness + 2 * amount) {
                Some(e) => Err(e),
                None => Ok(acc.push(lines[upto - 1].grown(amount))),
            },
        }
    }
}

/// The first `upto` polygons, each grown by `amount`.
pub open spec fn grown_polygons(polygons: Seq<PolygonModel>, amount: int, upto: int) -> Result<
    Seq<PolygonModel>,
    ShapeError,
>
    decreases upto,
{
    if upto <= 0 {
        Ok(Seq::empty())
    } else {
        match grown_polygons(polygons, amount, upto - 1) {
            Err(e) => Err(e),
            Ok(acc) => match polygons[upto - 1].grown(amount) {
                Err(e) => Err(e),
                Ok(p) => Ok(acc.push(p)),
            },
        }
    }
}

/// The first `upto` circles, each with its radius enlarged by `amount`.
pub open spec fn grown_circles(circles: Seq<CircleModel>, amount: int, upto: int) -> Result<
    Seq<CircleModel>,
    ShapeError,
>
    decreases upto,
{
    if upto <= 0 {
        Ok(Seq::empty())
    } else {
        match grown_circles(circles, amount, upto - 1) {
            Err(e) => Err(e),
            Ok(acc) => match size_fault(circles[upto - 1].radius + amount) {
                Some(e) => Err(e),
                None => Ok(acc.push(circles[upto - 1].grown(amount))),
            },
        }
    }
}

/// Once growing the lines has failed, it stays failed.
pub proof fn lemma_grown_lines_failure_stays(lines: Seq<LineModel>, amount: int, at: int, upto: int)
    requires
        at <= upto,
        grown_lines(lines, amount, at) is Err,
    ensures
        grown_lines(lines, amount, upto) == grown_lines(lines, amount, at),
    decreases upto - at,
{
    if at < upto {
        lemma_grown_lines_failure_stays(lines, amount, at, upto - 1);
    }
}

/// Once growing the polygons has failed, it stays failed.
pub proof fn lemma_grown_polygons_failure_stays(polygons: Seq<PolygonModel>, amount: int, at: int, upto: int)
    requires
        at <= upto,
        grown_polygons(polygons, amount, at) is Err,
    ensures
        grown_polygons(polygons, amount, upto) == grown_polygons(polygons, amount, at),
    decreases upto - at,
{
    if at < upto {
        lemma_grown_polygons_failure_stays(polygons, amount, at, upto - 1);
    }
}

/// Once growing the circles has failed, it stays failed.
pub proof fn lemma_grown_circles_failure_stays(circles: Seq<CircleModel>, amount: int, at: int, upto: int)
    requires
        at <= upto,
        grown_circles(circles, amount, at) is Err,
    ensures
        grown_circles(circles, amount, upto) == grown_circles(circles, amount, at),
    decreases upto - at,
{
    if at < upto {
        lemma_grown_circles_failure_stays(circles, amount, at, upto - 1);
    }
}

impl ShapesModel {
    /// The shapes after a path was taken in: a closed path adds a polygon, an open path a
    /// line of the stroke width in force, joined to an earlier line where it connects.
    pub open spec fn with_path(self, width: Option<i64>, commands: Seq<CommandModel>) -> Result<ShapesModel, InputError> {
        match traced(commands, 0, Seq::empty()) {
            Err(e) => Err(e),
            Ok(Traced::Closed(points)) => match polygon_ring(points) {
                Ok(boundary) => Ok(
                    ShapesModel {
                        polygons: self.polygons.push(
                            PolygonModel { boundary, resolution: self.resolution_polygons },
                        ),
                        ..self
                    },
                ),
                Err(e) => Err(InputError::Shape(e)),
            },
            Ok(Traced::Open(points)) => match width {
                None => Err(InputError::NoStrokeWidth),
                Some(w) => if points.len() < 2 {
                    Err(InputError::Shape(ShapeError::TooFewPoints))
                } else {
                    match size_fault(w as int) {
                        Some(e) => Err(InputError::Shape(e)),
                        None => Ok(
                            ShapesModel {
                                lines: with_line(
                                    self.lines,
                                    LineModel {
                                        points,
                                        thickness: w as int,
                                        resolution: self.resolution_lines,
                                    },
                                    0,
                                ),
                                ..self
                            },
                        ),
                    }
                },
            },
        }
    }

    /// The shapes with every one of them grown by `amount`; the first shape that cannot grow,
    /// lines first, then polygons, then circles, fails the whole.
    pub open spec fn grown(self, amount: int) -> Result<ShapesModel, ShapeError> {
        match grown_lines(self.lines, amount, self.lines.len() as int) {
            Err(e) => Err(e),
            Ok(lines) => match grown_polygons(self.polygons, amount, self.polygons.len() as int) {
                Err(e) => Err(e),
                Ok(polygons) => match grown_circles(self.circles, amount, self.circles.len() as int) {
                    Err(e) => Err(e),
                    Ok(circles) => Ok(ShapesModel { lines, polygons, circles, ..self }),
                },
            },
        }
    }

    /// Every shape, lines first, then polygons, then circles.
    pub open spec fn all(self) -> Seq<ShapeModel> {
        Seq::new(self.lines.len(), |i: int| ShapeModel::Line(self.lines[i])) + Seq::new(
            self.polygons.len(),
            |i: int| ShapeModel::Poly(self.polygons[i]),
        ) + Seq::new(self.circles.len(), |i: int| ShapeModel::Circ(self.circles[i]))
    }
}

/// The shapes found in a document.
#[derive(Debug)]
pub struct Shapes {
    lines: Vec<Line>,
    polygons: Vec<ConvexPolygon>,
    circles: Vec<Circle>,
    resolution_lines: i64,
    resolution_polygons: i64,
    resolution_circles: i64,
}

impl View for Shapes {
    type V = ShapesModel;

    closed spec fn view(&self) -> ShapesModel {
        ShapesModel {
            lines: Seq::new(self.lines@.len(), |i: int| self.lines@[i]@),
            polygons: Seq::new(self.polygons@.len(), |i: int| self.polygons@[i]@),
            circles: Seq::new(self.circles@.len(), |i: int| self.circles@[i]@),
            resolution_lines: self.resolution_lines as int,
            resolution_polygons: self.resolution_polygons as int,
            resolution_circles: self.resolution_circles as int,
        }
    }
}

/// The points at the abscissa `x` and the given ordinates, or `None` when one is out of range.
fn lay_column(x: i64, ys: &Vec<i64>) -> (r: Option<Vec<Point>>)
    ensures
        r is Some <==> all_in_range(column(x as int, ys@)),
        r matches Some(v) ==> v@ == on_all(column(x as int, ys@)),
{
    let mut out: Vec<Point> = Vec::new();
    let mut i: usize = 0;
    while i < ys.len()
        invariant
            i <= ys.len(),
            out.len() == i,
            forall|k: int| 0 <= k < i ==> (#[trigger] column(x as int, ys@)[k]).in_range(),
            forall|k: int| 0 <= k < i ==> out@[k] == Point::on(#[trigger] column(x as int, ys@)[k]),
        decreases ys.len() - i,
    {
        match Point::new(x, ys[i]) {
            Some(p) => {
                proof {
                    p.lemma_on_view();
                }
                out.push(p);
            },
            None => {
                assert(!column(x as int, ys@)[i as int].in_range());
                return None;
            },
        }
        i += 1;
    }
    assert(out@ =~= on_all(column(x as int, ys@)));
    Some(out)
}

/// The points at the given abscissas and the ordinate `y`, or `None` when one is out of range.
fn lay_row(xs: &Vec<i64>, y: i64) -> (r: Option<Vec<Point>>)
    ensures
        r is Some <==> all_in_range(row(xs@, y as int)),
        r matches Some(v) ==> v@ == on_all(row(xs@, y as int)),
{
    let mut out: Vec<Point> = Vec::new();
    let mut i: usize = 0;
    while i < xs.len()
        invariant
            i <= xs.len(),
            out.len() == i,
            forall|k: int| 0 <= k < i ==> (#[trigger] row(xs@, y as int)[k]).in_range(),
            forall|k: int| 0 <= k < i ==> out@[k] == Point::on(#[trigger] row(xs@, y as int)[k]),
        decreases xs.len() - i,
    {
        match Point::new(xs[i], y) {
            Some(p) => {
                proof {
                    p.lemma_on_view();
                }
                out.push(p);
            },
            None => {
                assert(!row(xs@, y as int)[i as int].in_range());
                return None;
            },
        }
        i += 1;
    }
    assert(out@ =~= on_all(row(xs@, y as int)));
    Some(out)
}

/// Continues the path through absolute points.
fn draw_to(builder: &mut PathBuilder, more: Vec<Point>) -> (r: Result<(), InputError>)
    ensures
        match r {
            Ok(_) => line_to(old(builder)@, more@) == Ok::<Seq<Point>, InputError>(final(builder)@),
            Err(e) => line_to(old(builder)@, more@) == Err::<Seq<Point>, InputError>(e),
        },
{
    match builder.add_lineto(more) {
        Ok(_) => Ok(()),
        Err(e) => Err(InputError::Path(e)),
    }
}

/// Continues the path by steps.
fn draw_by(builder: &mut PathBuilder, steps: Vec<Point>) -> (r: Result<(), InputError>)
    ensures
        match r {
            Ok(_) => line_by(old(builder)@, steps@) == Ok::<Seq<Point>, InputError>(final(builder)@),
            Err(e) => line_by(old(builder)@, steps@) == Err::<Seq<Point>, InputError>(e),
        },
{
    match builder.add_lineby(steps) {
        Ok(_) => Ok(()),
        Err(e) => Err(InputError::Path(e)),
    }
}

/// Applies one command that neither closes the path nor is unsupported.
fn draw(builder: &mut PathBuilder, command: &PathCommand) -> (r: Result<(), InputError>)
    requires
        !(command@ is Close),
    ensures
        match r {
            Ok(_) => drawn(old(builder)@, command@) == Ok::<Seq<Point>, InputError>(final(builder)@),
            Err(e) => drawn(old(builder)@, command@) == Err::<Seq<Point>, InputError>(e),
        },
{
    let empty = builder.points().len() == 0;
    match command {
        PathCommand::Move(Position::Absolute, pts) => match builder.add_moveto(copy_points(pts)) {
            Ok(_) => Ok(()),
            Err(e) => Err(InputError::Path(e)),
        },
        PathCommand::Move(Position::Relative, pts) => match builder.add_moveby(copy_points(pts)) {
            Ok(_) => Ok(()),
            Err(e) => Err(InputError::Path(e)),
        },
        PathCommand::Line(Position::Absolute, pts) => draw_to(builder, copy_points(pts)),
        PathCommand::Line(Position::Relative, pts) => draw_by(builder, copy_points(pts)),
        PathCommand::EllipticalArc(Position::Absolute, pts) => draw_to(builder, copy_points(pts)),
        PathCommand::EllipticalArc(Position::Relative, pts) => draw_by(builder, copy_points(pts)),
        PathCommand::VerticalLine(place, ys) => {
            if empty {
                return Err(InputError::Path(PathError::LineBeforeStart));
            }
            let x: i64 = match place {
                Position::Absolute => builder.get_position().x(),
                Position::Relative => 0,
            };
            match lay_column(x, ys) {
                None => Err(InputError::OutOfRange),
                Some(more) => match place {
                    Position::Absolute => draw_to(builder, more),
                    Position::Relative => draw_by(builder, more),
                },
            }
        },
        PathCommand::HorizontalLine(place, xs) => {
            if empty {
                return Err(InputError::Path(PathError::LineBeforeStart));
            }
            let y: i64 = match place {
                Position::Absolute => builder.get_position().y(),
                Position::Relative => 0,
            };
            match lay_row(xs, y) {
                None => Err(InputError::OutOfRange),
                Some(more) => match place {
                    Position::Absolute => draw_to(builder, more),
                    Position::Relative => draw_by(builder, more),
                },
            }
        },
        _ => Err(InputError::Unsupported),
    }
}

/// The views of the commands.
pub open spec fn command_models(commands: Seq<PathCommand>) -> Seq<CommandModel> {
    Seq::new(commands.len(), |i: int| commands[i]@)
}

impl Shapes {
    /// No shapes yet; the resolutions are those the shapes will be tessellated at.
    pub fn new(resolution_lines: i64, resolution_polygons: i64, resolution_circles: i64) -> (r: Shapes)
        ensures
            r@ == (ShapesModel {
                lines: Seq::empty(),
                polygons: Seq::empty(),
                circles: Seq::empty(),
                resolution_lines: resolution_lines as int,
                resolution_polygons: resolution_polygons as int,
                resolution_circles: resolution_circles as int,
            }),
    {
        let r = Shapes {
            lines: Vec::new(),
            polygons: Vec::new(),
            circles: Vec::new(),
            resolution_lines,
            resolution_polygons,
            resolution_circles,
        };
        assert(r@.lines =~= Seq::empty());
        assert(r@.polygons =~= Seq::empty());
        assert(r@.circles =~= Seq::empty());
        r
    }

    /// The lines found so far.
    pub fn lines(&self) -> (r: &Vec<Line>)
        ensures
            r@.len() == self@.lines.len(),
            forall|i: int| 0 <= i < r@.len() ==> (#[trigger] r@[i])@ == self@.lines[i],
    {
        &self.lines
    }

    /// The polygons found so far.
    pub fn polygons(&self) -> (r: &Vec<ConvexPolygon>)
        ensures
            r@.len() == self@.polygons.len(),
            forall|i: int| 0 <= i < r@.len() ==> (#[trigger] r@[i])@ == self@.polygons[i],
    {
        &self.polygons
    }

    /// The circles found so far.
    pub fn circles(&self) -> (r: &Vec<Circle>)
        ensures
            r@.len() == self@.circles.len(),
            forall|i: int| 0 <= i < r@.len() ==> (#[trigger] r@[i])@ == self@.circles[i],
    {
        &self.circles
    }

    /// Joins the line to the first line it connects to, or adds it.
    fn add_line(&mut self, incoming: Line)
        ensures
            final(self)@ == (ShapesModel {
                lines: with_line(old(self)@.lines, incoming@, 0),
                ..old(self)@
            }),
    {
        let ghost before = self@.lines;
        let ghost model = incoming@;
        let mut line = incoming;
        let n = self.lines.len();
        let mut i: usize = 0;
        while i < n
            invariant
                i <= n,
                n == self.lines.len(),
                self@ == old(self)@,
                before == self@.lines,
                line@ == model,
                model == incoming@,
                with_line(before, model, 0) == with_line(before, model, i as int),
            decreases n - i,
        {
            let mut existing = self.lines.remove(i);
            let ghost held = existing@;
            assert(held == before[i as int]);
            match existing.try_merge(line) {
                Some(unmerged) => {
                    line = unmerged;
                    self.lines.insert(i, existing);
                    assert(self@.lines =~= before);
                    assert(self@.polygons =~= old(self)@.polygons);
                    assert(self@.circles =~= old(self)@.circles);
                },
                None => {
                    self.lines.insert(i, existing);
                    assert(self@.lines =~= before.update(i as int, existing@));
                    assert(self@.polygons =~= old(self)@.polygons);
                    assert(self@.circles =~= old(self)@.circles);
                    assert(with_line(before, model, i as int) == before.update(i as int, existing@));
                    assert(self@ == (ShapesModel {
                        lines: with_line(old(self)@.lines, model, 0),
                        ..old(self)@
                    }));
                    return ;
                },
            }
            i += 1;
        }
        self.lines.push(line);
        assert(self@.lines =~= before.push(model));
        assert(self@.polygons =~= old(self)@.polygons);
        assert(self@.circles =~= old(self)@.circles);
        assert(with_line(before, model, n as int) == before.push(model));
    }

    /// Takes in one path: a closed path becomes a polygon, an open one a line of the given
    /// stroke width, joined to an earlier line where it connects. On failure nothing changes.
    pub fn add_from_path(&mut self, stroke_width: Option<i64>, commands: &Vec<PathCommand>) -> (r: Result<
        (),
        InputError,
    >)
        ensures
            match r {
                Ok(_) => old(self)@.with_path(stroke_width, command_models(commands@)) == Ok::<
                    ShapesModel,
                    InputError,
                >(final(self)@),
                Err(e) => old(self)@.with_path(stroke_width, command_models(commands@)) == Err::<
                    ShapesModel,
                    InputError,
                >(e) && final(self)@ == old(self)@,
            },
    {
        let ghost models = command_models(commands@);
        let mut builder = PathBuilder::new();
        assert(builder@ =~= Seq::<Point>::empty());
        let mut i: usize = 0;
        while i < commands.len()
            invariant
                i <= commands.len(),
                models == command_models(commands@),
                self@ == old(self)@,
                traced(models, 0, Seq::empty()) == traced(models, i as int, builder@),
            decreases commands.len() - i,
        {
            let command = &commands[i];
            assert(models[i as int] == command@);
            match command {
                PathCommand::Close => {
                    match builder.into_convex_polygon(self.resolution_polygons) {
                        Ok(polygon) => {
                            self.polygons.push(polygon);
                            assert(self@.polygons =~= old(self)@.polygons.push(polygon@));
                            assert(self@.lines =~= old(self)@.lines);
                            assert(self@.circles =~= old(self)@.circles);
                            return Ok(());
                        },
                        Err(e) => {
                            return Err(InputError::Shape(e));
                        },
                    }
                },
                _ => {
                    match draw(&mut builder, command) {
                        Ok(_) => {},
                        Err(e) => {
                            return Err(e);
                        },
                    }
                },
            }
            i += 1;
        }
        let width = match stroke_width {
            Some(w) => w,
            None => {
                return Err(InputError::NoStrokeWidth);
            },
        };
        match builder.into_line(width, self.resolution_lines) {
            Ok(line) => {
                self.add_line(line);
                Ok(())
            },
            Err(e) => Err(InputError::Shape(e)),
        }
    }

    /// Takes in one circle; fails on a radius that is not positive or beyond the size limit.
    pub fn add_circle(&mut self, center: Point, radius: i64) -> (r: Result<(), InputError>)
        ensures
            match r {
                Ok(_) => size_fault(radius as int) is None && final(self)@ == (ShapesModel {
                    circles: old(self)@.circles.push(
                        CircleModel {
                            center,
                            radius: radius as int,
                            resolution: old(self)@.resolution_circles,
                        },
                    ),
                    ..old(self)@
                }),
                Err(e) => size_fault(radius as int) matches Some(f) && e == InputError::Shape(f)
                    && final(self)@ == old(self)@,
            },
    {
        match Circle::new(center, radius, self.resolution_circles) {
            Ok(circle) => {
                self.circles.push(circle);
                assert(self@.circles =~= old(self)@.circles.push(circle@));
                assert(self@.lines =~= old(self)@.lines);
                assert(self@.polygons =~= old(self)@.polygons);
                Ok(())
            },
            Err(e) => Err(InputError::Shape(e)),
        }
    }

    /// The lines, each thickened by twice `amount`.
    fn grow_lines(&self, amount: i64) -> (r: Result<Vec<Line>, ShapeError>)
        ensures
            match r {
                Ok(v) => grown_lines(self@.lines, amount as int, self@.lines.len() as int) == Ok::<
                    Seq<LineModel>,
                    ShapeError,
                >(Seq::new(v@.len(), |i: int| v@[i]@)),
                Err(e) => grown_lines(self@.lines, amount as int, self@.lines.len() as int) == Err::<
                    Seq<LineModel>,
                    ShapeError,
                >(e),
            },
    {
        let ghost models = self@.lines;
        let mut out: Vec<Line> = Vec::new();
        let mut i: usize = 0;
        assert(Seq::new(out@.len(), |k: int| out@[k]@) =~= Seq::<LineModel>::empty());
        while i < self.lines.len()
            invariant
                i <= self.lines.len(),
                models == self@.lines,
                grown_lines(models, amount as int, i as int) == Ok::<Seq<LineModel>, ShapeError>(
                    Seq::new(out@.len(), |k: int| out@[k]@),
                ),
            decreases self.lines.len() - i,
        {
            let mut line = self.lines[i].duplicate();
            assert(line@ == models[i as int]);
            match line.grow(amount) {
                Ok(_) => {
                    let ghost before = Seq::new(out@.len(), |k: int| out@[k]@);
                    out.push(line);
                    assert(Seq::new(out@.len(), |k: int| out@[k]@) =~= before.push(line@));
                },
                Err(e) => {
                    proof {
                        lemma_grown_lines_failure_stays(models, amount as int, i + 1, models.len() as int);
                    }
                    return Err(e);
                },
            }
            i += 1;
        }
        Ok(out)
    }

    /// The polygons, each grown by `amount`.
    fn grow_polygons(&self, amount: i64) -> (r: Result<Vec<ConvexPolygon>, ShapeError>)
        ensures
            match r {
                Ok(v) => grown_polygons(self@.polygons, amount as int, self@.polygons.len() as int)
                    == Ok::<Seq<PolygonModel>, ShapeError>(Seq::new(v@.len(), |i: int| v@[i]@)),
                Err(e) => grown_polygons(self@.polygons, amount as int, self@.polygons.len() as int)
                    == Err::<Seq<PolygonModel>, ShapeError>(e),
            },
    {
        let ghost models = self@.polygons;
        let mut out: Vec<ConvexPolygon> = Vec::new();
        let mut i: usize = 0;
        assert(Seq::new(out@.len(), |k: int| out@[k]@) =~= Seq::<PolygonModel>::empty());
        while i < self.polygons.len()
            invariant
                i <= self.polygons.len(),
                models == self@.polygons,
                grown_polygons(models, amount as int, i as int) == Ok::<Seq<PolygonModel>, ShapeError>(
                    Seq::new(out@.len(), |k: int| out@[k]@),
                ),
            decreases self.polygons.len() - i,
        {
            let mut polygon = self.polygons[i].duplicate();
            assert(polygon@ == models[i as int]);
            match polygon.grow(amount) {
                Ok(_) => {
                    let ghost before = Seq::new(out@.len(), |k: int| out@[k]@);
                    out.push(polygon);
                    assert(Seq::new(out@.len(), |k: int| out@[k]@) =~= before.push(polygon@));
                },
                Err(e) => {
                    proof {
                        lemma_grown_polygons_failure_stays(
                            models,
                            amount as int,
                            i + 1,
                            models.len() as int,
                        );
                    }
                    return Err(e);
                },
            }
            i += 1;
        }
        Ok(out)
    }

    /// The circles, each with its radius enlarged by `amount`.
    fn grow_circles(&self, amount: i64) -> (r: Result<Vec<Circle>, ShapeError>)
        ensures
            match r {
                Ok(v) => grown_circles(self@.circles, amount as int, self@.circles.len() as int)
                    == Ok::<Seq<CircleModel>, ShapeError>(Seq::new(v@.len(), |i: int| v@[i]@)),
                Err(e) => grown_circles(self@.circles, amount as int, self@.circles.len() as int)
                    == Err::<Seq<CircleModel>, ShapeError>(e),
            },
    {
        let ghost models = self@.circles;
        let mut out: Vec<Circle> = Vec::new();
        let mut i: usize = 0;
        assert(Seq::new(out@.len(), |k: int| out@[k]@) =~= Seq::<CircleModel>::empty());
        while i < self.circles.len()
            invariant
                i <= self.circles.len(),
                models == self@.circles,
                grown_circles(models, amount as int, i as int) == Ok::<Seq<CircleModel>, ShapeError>(
                    Seq::new(out@.len(), |k: int| out@[k]@),
                ),
            decreases self.circles.len() - i,
        {
            let mut circle = self.circles[i];
            assert(circle@ == models[i as int]);
            match circle.grow(amount) {
                Ok(_) => {
                    let ghost before = Seq::new(out@.len(), |k: int| out@[k]@);
                    out.push(circle);
                    assert(Seq::new(out@.len(), |k: int| out@[k]@) =~= before.push(circle@));
                },
                Err(e) => {
                    proof {
                        lemma_grown_circles_failure_stays(models, amount as int, i + 1, models.len() as int);
                    }
                    return Err(e);
                },
            }
            i += 1;
        }
        Ok(out)
    }

    /// Grows every shape by `amount`; when one of them cannot grow, every shape stays as it
    /// was.
    pub fn grow(&mut self, amount: i64) -> (r: Result<(), ShapeError>)
        ensures
            match r {
                Ok(_) => old(self)@.grown(amount as int) == Ok::<ShapesModel, ShapeError>(final(self)@),
                Err(e) => old(self)@.grown(amount as int) == Err::<ShapesModel, ShapeError>(e)
                    && final(self)@ == old(self)@,
            },
    {
        let lines = match self.grow_lines(amount) {
            Ok(v) => v,
            Err(e) => {
                return Err(e);
            },
        };
        let polygons = match self.grow_polygons(amount) {
            Ok(v) => v,
            Err(e) => {
                return Err(e);
            },
        };
        let circles = match self.grow_circles(amount) {
            Ok(v) => v,
            Err(e) => {
                return Err(e);
            },
        };
        self.lines = lines;
        self.polygons = polygons;
        self.circles = circles;
        Ok(())
    }

    /// The contour of every shape, lines first, then polygons, then circles; the first shape
    /// without a closed outline fails the whole.
    pub fn contours(self) -> (r: Result<Vec<Contour>, Failure>)
        ensures
            match r {
                Ok(contours) => grown_contours(self@.all(), 0, self@.all().len() as int) == Ok::<
                    Seq<ContourModel>,
                    Failure,
                >(contour_models(contours@)),
                Err(e) => grown_contours(self@.all(), 0, self@.all().len() as int) == Err::<
                    Seq<ContourModel>,
                    Failure,
                >(e),
            },
    {
        contours_of(self.into_shapes(), 0)
    }

    /// Every shape, lines first, then polygons, then circles.
    pub fn into_shapes(self) -> (r: Vec<ShapeE>)
        ensures
            crate::geo::shape::shape_models(r@) == self@.all(),
    {
        let ghost model = self@;
        let mut out: Vec<ShapeE> = Vec::new();
        let mut i: usize = 0;
        while i < self.lines.len()
            invariant
                i <= self.lines.len(),
                out.len() == i,
                forall|k: int| 0 <= k < i ==> (#[trigger] out@[k])@ == ShapeModel::Line(self.lines@[k]@),
            decreases self.lines.len() - i,
        {
            out.push(ShapeE::Line(self.lines[i].duplicate()));
            i += 1;
        }
        let nl = self.lines.len();
        let mut j: usize = 0;
        while j < self.polygons.len()
            invariant
                j <= self.polygons.len(),
                nl == self.lines.len(),
                out.len() == nl + j,
                forall|k: int| 0 <= k < nl ==> (#[trigger] out@[k])@ == ShapeModel::Line(self.lines@[k]@),
                forall|k: int|
                    0 <= k < j ==> (#[trigger] out@[nl + k])@ == ShapeModel::Poly(self.polygons@[k]@),
            decreases self.polygons.len() - j,
        {
            out.push(ShapeE::Poly(self.polygons[j].duplicate()));
            j += 1;
        }
        let np = self.polygons.len();
        let mut c: usize = 0;
        while c < self.circles.len()
            invariant
                c <= self.circles.len(),
                nl == self.lines.len(),
                np == self.polygons.len(),
                out.len() == nl + np + c,
                forall|k: int| 0 <= k < nl ==> (#[trigger] out@[k])@ == ShapeModel::Line(self.lines@[k]@),
                forall|k: int|
                    0 <= k < np ==> (#[trigger] out@[nl + k])@ == ShapeModel::Poly(self.polygons@[k]@),
                forall|k: int|
                    0 <= k < c ==> (#[trigger] out@[nl + np + k])@ == ShapeModel::Circ(self.circles@[k]@),
            decreases self.circles.len() - c,
        {
            out.push(ShapeE::Circ(self.circles[c]));
            c += 1;
        }
        proof {
            let got = crate::geo::shape::shape_models(out@);
            let want = model.all();
            assert(got.len() == want.len());
            assert forall|k: int| 0 <= k < got.len() implies got[k] == want[k] by {
                if k < nl {
                    assert(out@[k]@ == ShapeModel::Line(self.lines@[k]@));
                } else if k < nl + np {
                    assert(out@[nl + (k - nl)]@ == ShapeModel::Poly(self.polygons@[k - nl]@));
                } else {
                    assert(out@[nl + np + (k - nl - np)]@ == ShapeModel::Circ(
                        self.circles@[k - nl - np]@,
                    ));
                }
            }
            assert(got =~= want);
        }
        out
    }
}

/// The shape that stopped the making of contours, and why.
#[derive(Clone, Copy, Debug, PartialEq, Eq, Structural)]
pub struct Failure {
    /// The place of the shape among all the shapes.
    pub shape: usize,
    /// Why the shape cannot grow or has no closed outline.
    pub error: ShapeError,
}

/// The contours of the first `upto` shapes, each grown by `offset`; the first shape that
/// cannot grow or has no closed outline fails the whole.
pub open spec fn grown_contours(shapes: Seq<ShapeModel>, offset: int, upto: int) -> Result<
    Seq<ContourModel>,
    Failure,
>
    decreases upto,
{
    if upto <= 0 {
        Ok(Seq::empty())
    } else {
        match grown_contours(shapes, offset, upto - 1) {
            Err(e) => Err(e),
            Ok(acc) => match grown_contour(shapes[upto - 1], offset) {
                Err(error) => Err(Failure { shape: (upto - 1) as usize, error }),
                Ok(c) => Ok(acc.push(c)),
            },
        }
    }
}

/// Once making the contours has failed, it stays failed.
pub proof fn lemma_grown_contours_failure_stays(shapes: Seq<ShapeModel>, offset: int, at: int, upto: int)
    requires
        at <= upto,
        grown_contours(shapes, offset, at) is Err,
    ensures
        grown_contours(shapes, offset, upto) == grown_contours(shapes, offset, at),
    decreases upto - at,
{
    if at < upto {
        lemma_grown_contours_failure_stays(shapes, offset, at, upto - 1);
    }
}

/// The contour of a shape grown by `offset`.
#[verifier::opaque]
pub open spec fn grown_contour(shape: ShapeModel, offset: int) -> Result<ContourModel, ShapeError> {
    match shape.grown(offset) {
        Err(e) => Err(e),
        Ok(grown) => match contour_of(grown) {
            Err(e) => Err(e),
            Ok(boundary) => Ok(ContourModel { boundary, area: seq![grown] }),
        },
    }
}

/// Grows a shape by `offset` and makes its contour.
pub fn contour_after_growth(shape: ShapeE, offset: i64) -> (r: Result<Contour, ShapeError>)
    ensures
        match r {
            Ok(c) => grown_contour(shape@, offset as int) == Ok::<ContourModel, ShapeError>(c@),
            Err(e) => grown_contour(shape@, offset as int) == Err::<ContourModel, ShapeError>(e),
        },
{
    reveal(grown_contour);
    let mut shape = shape;
    match shape.grow(offset) {
        Ok(_) => Contour::new(shape),
        Err(e) => Err(e),
    }
}

/// Grows every shape by `offset` and makes its contour.
pub fn contours_of(shapes: Vec<ShapeE>, offset: i64) -> (r: Result<Vec<Contour>, Failure>)
    ensures
        match r {
            Ok(contours) => grown_contours(
                crate::geo::shape::shape_models(shapes@),
                offset as int,
                shapes.len() as int,
            ) == Ok::<Seq<ContourModel>, Failure>(contour_models(contours@)),
            Err(e) => grown_contours(
                crate::geo::shape::shape_models(shapes@),
                offset as int,
                shapes.len() as int,
            ) == Err::<Seq<ContourModel>, Failure>(e),
        },
{
    let ghost models = crate::geo::shape::shape_models(shapes@);
    let n = shapes.len();
    let mut out: Vec<Contour> = Vec::new();
    let mut i: usize = 0;
    assert(contour_models(out@) =~= Seq::<ContourModel>::empty());
    while i < n
        invariant
            i <= n,
            n == shapes.len(),
            models == crate::geo::shape::shape_models(shapes@),
            grown_contours(models, offset as int, i as int) == Ok::<Seq<ContourModel>, Failure>(
                contour_models(out@),
            ),
        decreases n - i,
    {
        let shape = shapes[i].duplicate();
        assert(shape@ == models[i as int]);
        match contour_after_growth(shape, offset) {
            Ok(c) => {
                let ghost before = out@;
                out.push(c);
                assert(contour_models(out@) =~= contour_models(before).push(c@));
            },
            Err(error) => {
                proof {
                    lemma_grown_contours_failure_stays(models, offset as int, i + 1, n as int);
                }
                return Err(Failure { shape: i, error });
            },
        }
        i += 1;
    }
    Ok(out)
}

/// Grows every shape by `offset`, makes its contour, and merges the contours as
/// `Contours::merge_all` does: until no two of them meet and none contains another, or the
/// rounds have run out.
pub fn process(shapes: Shapes, offset: i64) -> (r: Result<Contours, Failure>)
    ensures
        match r {
            Ok(repo) => grown_contours(shapes@.all(), offset as int, shapes@.all().len() as int) matches Ok(
                contours,
            ) && repo@ == settle(
                RepoModel { contours, problems: Seq::empty() },
                usize::MAX as nat,
            ),
            Err(e) => grown_contours(shapes@.all(), offset as int, shapes@.all().len() as int) == Err::<
                Seq<ContourModel>,
                Failure,
            >(e),
        },
{
    let all = shapes.into_shapes();
    match contours_of(all, offset) {
        Ok(contours) => {
            let mut repo = Contours::from(contours);
            assert(repo@.problems =~= Seq::<crate::geo::edge::Edge>::empty());
            assert(repo@ == (RepoModel { contours: repo@.contours, problems: Seq::empty() }));
            let _ = repo.merge_all();
            Ok(repo)
        },
        Err(e) => Err(e),
    }
}

} // verus!
