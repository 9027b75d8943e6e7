//! Machining parameters: what a job cuts, how deep, and with which tool offset.

use crate::geo::contour::{Contour, ContourModel};
use crate::geo::repository::contour_models;
use crate::geo::shape::SIZE_LIMIT;
use crate::geo::Point;
use vstd::prelude::*;

verus! {

/// Smallest clearance, in grid steps, that a bored hole must leave around the bit.
pub const BORE_CLEARANCE: i64 = 10_000;

/// The cutting end of the tool.
#[derive(Clone, Copy, Debug, PartialEq, Eq, Structural)]
pub enum BitShape {
    /// A V-shaped engraving bit with a 45 degree flank.
    V,
    /// A flat end mill.
    Square { radius: i64 },
}

/// What a job does.
#[derive(Clone, Copy, Debug, PartialEq, Eq)]
pub enum JobKind {
    /// Follow the contours once with a V-bit.
    EngraveContours { depth: i64 },
    /// Follow the contours pass by pass with a flat bit.
    CutContours { depth: i64, depth_per_pass: i64 },
    /// Plunge once at the center of every circle whose radius lies within the bounds.
    DrillCircles { depth: i64, radius_min: Option<i64>, radius_max: Option<i64> },
    /// Widen every circle whose radius lies within the bounds along a helix.
    BoreCircles { depth: i64, depth_per_turn: i64, radius_min: Option<i64>, radius_max: Option<i64> },
}

/// One job: what to do, with which bit, how fast.
#[derive(Clone, Copy, Debug)]
pub struct JobConfig {
    pub kind: JobKind,
    pub bit_shape: BitShape,
    pub feed: i64,
    pub rpm: i64,
}

/// Why a job cannot be planned.
#[derive(Clone, Copy, Debug, PartialEq, Eq, Structural)]
pub enum FabError {
    /// The job cannot be done with this bit.
    UnsupportedBit,
    /// A depth, a step or a bit radius that is not positive or is beyond `SIZE_LIMIT`.
    BadDimension,
    /// The hole at this index leaves less than the clearance around the bit.
    HoleTooSmall(usize),
    /// The hole at this index is wider than two bit diameters.
    HoleTooBig(usize),
}

/// A circular hole.
#[derive(Clone, Copy, Debug)]
pub struct Hole {
    pub center: Point,
    pub radius: i64,
}

impl Hole {
    /// A hole of the given radius around `center`.
    pub fn new(center: Point, radius: i64) -> (h: Hole)
        ensures
            h.center == center,
            h.radius == radius,
    {
        Hole { center, radius }
    }
}

/// A length that is positive and at most `SIZE_LIMIT`.
pub open spec fn is_dimension(v: int) -> bool {
    0 < v <= SIZE_LIMIT
}

fn dimension_ok(v: i64) -> (r: bool)
    ensures
        r == is_dimension(v as int),
{
    0 < v && v <= SIZE_LIMIT
}

/// Whether the hole's radius lies within the bounds that are given.
pub open spec fn hole_passes(radius: int, radius_min: Option<i64>, radius_max: Option<i64>) -> bool {
    &&& radius_min matches Some(lo) ==> radius >= lo
    &&& radius_max matches Some(hi) ==> radius <= hi
}

/// Whether the hole's radius lies within the bounds that are given.
pub fn hole_filter(hole: &Hole, radius_min: Option<i64>, radius_max: Option<i64>) -> (r: bool)
    ensures
        r == hole_passes(hole.radius as int, radius_min, radius_max),
{
    if let Some(rmin) = radius_min {
        if hole.radius < rmin {
            return false;
        }
    }
    if let Some(rmax) = radius_max {
        if hole.radius > rmax {
            return false;
        }
    }
    true
}

/// The holes that pass the filter, in order.
pub open spec fn passing(holes: Seq<Hole>, radius_min: Option<i64>, radius_max: Option<i64>, upto: int) -> Seq<Hole>
    decreases upto,
{
    if upto <= 0 {
        Seq::empty()
    } else if hole_passes(holes[upto - 1].radius as int, radius_min, radius_max) {
        passing(holes, radius_min, radius_max, upto - 1).push(holes[upto - 1])
    } else {
        passing(holes, radius_min, radius_max, upto - 1)
    }
}

/// The holes that pass the filter, in order.
pub fn select_holes(holes: &Vec<Hole>, radius_min: Option<i64>, radius_max: Option<i64>) -> (r: Vec<Hole>)
    ensures
        r@ == passing(holes@, radius_min, radius_max, holes.len() as int),
{
    let mut out: Vec<Hole> = Vec::new();
    let mut i: usize = 0;
    while i < holes.len()
        invariant
            i <= holes.len(),
            out@ == passing(holes@, radius_min, radius_max, i as int),
        decreases holes.len() - i,
    {
        if hole_filter(&holes[i], radius_min, radius_max) {
            out.push(holes[i]);
        }
        i += 1;
    }
    out
}

/// The depths of the passes of a cut: multiples of the step from zero up to, but not
/// including, the number of whole steps that fit, and then the full depth. With a depth or a
/// step that is no dimension there is the one pass at the depth.
pub open spec fn pass_depths(depth: int, step: int) -> Seq<int> {
    if is_dimension(depth) && is_dimension(step) {
        Seq::new((depth / step) as nat, |k: int| step * k).push(depth)
    } else {
        seq![depth]
    }
}

/// The depths of the passes of a cut to `depth` in steps of `depth_per_pass`.
pub fn cut_depths(depth: i64, depth_per_pass: i64) -> (r: Vec<i64>)
    ensures
        as_ints(r@) == pass_depths(depth as int, depth_per_pass as int),
{
    if !dimension_ok(depth) || !dimension_ok(depth_per_pass) {
        let mut only: Vec<i64> = Vec::new();
        only.push(depth);
        assert(as_ints(only@) =~= seq![depth as int]);
        return only;
    }
    let passes: i64 = depth / depth_per_pass;
    let mut out: Vec<i64> = Vec::new();
    let mut k: i64 = 0;
    proof {
        vstd::arithmetic::div_mod::lemma_fundamental_div_mod(depth as int, depth_per_pass as int);
        vstd::arithmetic::div_mod::lemma_mod_bound(depth as int, depth_per_pass as int);
        vstd::arithmetic::div_mod::lemma_div_pos_is_pos(depth as int, depth_per_pass as int);
    }
    while k < passes
        invariant
            0 <= k <= passes,
            passes == depth as int / depth_per_pass as int,
            0 < depth_per_pass,
            0 < depth <= SIZE_LIMIT,
            depth_per_pass * passes <= depth,
            out@.len() == k,
            forall|j: int| 0 <= j < k ==> (#[trigger] out@[j]) as int == depth_per_pass * j,
            forall|j: int| 0 <= j < k ==> 0 <= #[trigger] out@[j] <= depth,
        decreases passes - k,
    {
        assert(0 <= depth_per_pass * k <= depth_per_pass * passes) by (nonlinear_arith)
            requires
                0 <= k <= passes,
                0 < depth_per_pass,
        ;
        out.push(depth_per_pass * k);
        k += 1;
    }
    out.push(depth);
    assert(as_ints(out@) =~= pass_depths(depth as int, depth_per_pass as int));
    out
}

/// The contours to follow and the depths to follow them at.
#[derive(Debug)]
pub struct FabContourData {
    pub contours: Vec<Contour>,
    pub depths: Vec<i64>,
}

/// The holes to make and their depth.
#[derive(Debug)]
pub struct FabHoleData {
    pub holes: Vec<Hole>,
    pub depth: i64,
}

/// What the machine is to do.
#[derive(Debug)]
pub enum FabOperation {
    Engrave(FabContourData),
    Cut(FabContourData),
    Drilling(FabHoleData),
    Boring { data: FabHoleData, depth_per_turn: i64, bit_radius: i64 },
}

/// A planned job.
#[derive(Debug)]
pub struct FabData {
    pub feed: i64,
    pub rpm: i64,
    pub operation: FabOperation,
}

/// The offset by which a job's shapes are grown before their contours are merged: the depth
/// for a V-bit engraving, the bit radius for a cut, none for jobs that make holes.
pub open spec fn contour_offset(job: JobConfig) -> Result<Option<i64>, FabError> {
    match job.kind {
        JobKind::EngraveContours { depth } => match job.bit_shape {
            BitShape::V => if is_dimension(depth as int) {
                Ok(Some(depth))
            } else {
                Err(FabError::BadDimension)
            },
            _ => Err(FabError::UnsupportedBit),
        },
        JobKind::CutContours { depth, depth_per_pass } => match job.bit_shape {
            BitShape::Square { radius } => if is_dimension(depth as int) && is_dimension(
                depth_per_pass as int,
            ) && is_dimension(radius as int) {
                Ok(Some(radius))
            } else {
                Err(FabError::BadDimension)
            },
            _ => Err(FabError::UnsupportedBit),
        },
        _ => Ok(None),
    }
}

/// The first hole that cannot be bored with a bit of the given radius, and why.
pub open spec fn bore_fault(holes: Seq<Hole>, bit_radius: int, from: int) -> Option<FabError>
    decreases holes.len() - from,
{
    if from < 0 || from >= holes.len() {
        None
    } else if bit_radius + BORE_CLEARANCE > holes[from].radius {
        Some(FabError::HoleTooSmall(from as usize))
    } else if bit_radius * 2 < holes[from].radius {
        Some(FabError::HoleTooBig(from as usize))
    } else {
        bore_fault(holes, bit_radius, from + 1)
    }
}

fn check_bore(holes: &Vec<Hole>, bit_radius: i64) -> (r: Option<FabError>)
    requires
        is_dimension(bit_radius as int),
    ensures
        r == bore_fault(holes@, bit_radius as int, 0),
{
    let mut i: usize = 0;
    while i < holes.len()
        invariant
            i <= holes.len(),
            is_dimension(bit_radius as int),
            bore_fault(holes@, bit_radius as int, 0) == bore_fault(holes@, bit_radius as int, i as int),
        decreases holes.len() - i,
    {
        if bit_radius + BORE_CLEARANCE > holes[i].radius {
            return Some(FabError::HoleTooSmall(i));
        }
        if bit_radius * 2 < holes[i].radius {
            return Some(FabError::HoleTooBig(i));
        }
        i += 1;
    }
    None
}

impl JobConfig {
    /// The offset by which the job's shapes are to be grown, `None` for a job that makes
    /// holes; fails when the bit does not suit the job or a dimension is unusable.
    pub fn offset(&self) -> (r: Result<Option<i64>, FabError>)
        ensures
            r == contour_offset(*self),
    {
        match self.kind {
            JobKind::EngraveContours { depth } => match self.bit_shape {
                BitShape::V => if dimension_ok(depth) {
                    Ok(Some(depth))
                } else {
                    Err(FabError::BadDimension)
                },
                _ => Err(FabError::UnsupportedBit),
            },
            JobKind::CutContours { depth, depth_per_pass } => match self.bit_shape {
                BitShape::Square { radius } => if dimension_ok(depth) && dimension_ok(depth_per_pass)
                    && dimension_ok(radius) {
                    Ok(Some(radius))
                } else {
                    Err(FabError::BadDimension)
                },
                _ => Err(FabError::UnsupportedBit),
            },
            _ => Ok(None),
        }
    }
}

/// The radius of the flat bit a hole job needs, or why the job cannot be done.
pub open spec fn hole_bit(bit: BitShape, depth: int) -> Result<i64, FabError> {
    match bit {
        BitShape::Square { radius } => if is_dimension(radius as int) && is_dimension(depth) {
            Ok(radius)
        } else {
            Err(FabError::BadDimension)
        },
        _ => Err(FabError::UnsupportedBit),
    }
}

fn flat_bit(bit: BitShape, depth: i64) -> (r: Result<i64, FabError>)
    ensures
        r == hole_bit(bit, depth as int),
{
    match bit {
        BitShape::Square { radius } => if dimension_ok(radius) && dimension_ok(depth) {
            Ok(radius)
        } else {
            Err(FabError::BadDimension)
        },
        _ => Err(FabError::UnsupportedBit),
    }
}

/// The holes, each with its radius replaced by `radius`.
pub open spec fn resized(holes: Seq<Hole>, radius: i64) -> Seq<Hole> {
    Seq::new(holes.len(), |k: int| Hole { center: holes[k].center, radius })
}

fn resize_holes(holes: &Vec<Hole>, radius: i64) -> (r: Vec<Hole>)
    ensures
        r@ == resized(holes@, radius),
{
    let mut out: Vec<Hole> = Vec::new();
    let mut i: usize = 0;
    while i < holes.len()
        invariant
            i <= holes.len(),
            out.len() == i,
            forall|k: int| 0 <= k < i ==> out@[k] == (Hole { center: (#[trigger] holes@[k]).center, radius }),
        decreases holes.len() - i,
    {
        out.push(Hole { center: holes[i].center, radius });
        i += 1;
    }
    assert(out@ =~= resized(holes@, radius));
    out
}

impl FabOperation {
    /// Engraving with a 45 degree V-bit: one pass at `depth`.
    pub fn engrave_v45_deg(contours: Vec<Contour>, depth: i64) -> (r: FabOperation)
        ensures
            r matches FabOperation::Engrave(d) && d.contours == contours && d.depths@ == seq![depth],
    {
        let mut depths: Vec<i64> = Vec::new();
        depths.push(depth);
        FabOperation::Engrave(FabContourData { contours, depths })
    }

    /// Cutting to `depth` in passes of `depth_per_pass`.
    pub fn cut(contours: Vec<Contour>, depth: i64, depth_per_pass: i64) -> (r: FabOperation)
        ensures
            r matches FabOperation::Cut(d) && d.contours == contours && as_ints(d.depths@)
                == pass_depths(depth as int, depth_per_pass as int),
    {
        FabOperation::Cut(FabContourData { contours, depths: cut_depths(depth, depth_per_pass) })
    }

    /// Drilling every hole to `depth`.
    pub fn drill(holes: Vec<Hole>, depth: i64) -> (r: FabOperation)
        ensures
            r matches FabOperation::Drilling(d) && d.holes == holes && d.depth == depth,
    {
        FabOperation::Drilling(FabHoleData { holes, depth })
    }

    /// Boring every hole to `depth` along a helix that sinks `depth_per_turn` a turn.
    pub fn bore(holes: Vec<Hole>, depth: i64, depth_per_turn: i64, bit_radius: i64) -> (r: FabOperation)
        ensures
            r matches FabOperation::Boring { data, depth_per_turn: t, bit_radius: b } && data.holes
                == holes && data.depth == depth && t == depth_per_turn && b == bit_radius,
    {
        FabOperation::Boring { data: FabHoleData { holes, depth }, depth_per_turn, bit_radius }
    }
}

/// What a planned job looks like to the contracts.
pub enum PlanModel {
    Engrave { contours: Seq<ContourModel>, depths: Seq<int> },
    Cut { contours: Seq<ContourModel>, depths: Seq<int> },
    Drilling { holes: Seq<Hole>, depth: int },
    Boring { holes: Seq<Hole>, depth: int, depth_per_turn: int, bit_radius: int },
}

/// The plan of a job over the merged contours of its grown shapes and all the holes found.
///
/// Engraving needs a V-bit and follows the contours once at the depth. Cutting needs a flat
/// bit and follows them pass by pass. Drilling needs a flat bit and makes the holes that pass
/// the filter, each as wide as the bit. Boring needs a flat bit and makes the holes that pass
/// the filter, each of which must leave the clearance around the bit and be no wider than
/// two bit diameters.
pub open spec fn plan(job: JobConfig, contours: Seq<ContourModel>, holes: Seq<Hole>) -> Result<PlanModel, FabError> {
    match job.kind {
        JobKind::EngraveContours { depth } => match contour_offset(job) {
            Ok(_) => Ok(PlanModel::Engrave { contours, depths: seq![depth as int] }),
            Err(e) => Err(e),
        },
        JobKind::CutContours { depth, depth_per_pass } => match contour_offset(job) {
            Ok(_) => Ok(
                PlanModel::Cut { contours, depths: pass_depths(depth as int, depth_per_pass as int) },
            ),
            Err(e) => Err(e),
        },
        JobKind::DrillCircles { depth, radius_min, radius_max } => match hole_bit(
            job.bit_shape,
            depth as int,
        ) {
            Ok(radius) => Ok(
                PlanModel::Drilling {
                    holes: resized(
                        passing(holes, radius_min, radius_max, holes.len() as int),
                        radius,
                    ),
                    depth: depth as int,
                },
            ),
            Err(e) => Err(e),
        },
        JobKind::BoreCircles { depth, depth_per_turn, radius_min, radius_max } => match hole_bit(
            job.bit_shape,
            depth as int,
        ) {
            Ok(radius) => {
                let chosen = passing(holes, radius_min, radius_max, holes.len() as int);
                if !is_dimension(depth_per_turn as int) {
                    Err(FabError::BadDimension)
                } else {
                    match bore_fault(chosen, radius as int, 0) {
                        Some(e) => Err(e),
                        None => Ok(
                            PlanModel::Boring {
                                holes: chosen,
                                depth: depth as int,
                                depth_per_turn: depth_per_turn as int,
                                bit_radius: radius as int,
                            },
                        ),
                    }
                }
            },
            Err(e) => Err(e),
        },
    }
}

/// The integers of a sequence of machine integers.
pub open spec fn as_ints(v: Seq<i64>) -> Seq<int> {
    Seq::new(v.len(), |k: int| v[k] as int)
}

impl View for FabOperation {
    type V = PlanModel;

    open spec fn view(&self) -> PlanModel {
        match self {
            FabOperation::Engrave(d) => PlanModel::Engrave {
                contours: contour_models(d.contours@),
                depths: as_ints(d.depths@),
            },
            FabOperation::Cut(d) => PlanModel::Cut {
                contours: contour_models(d.contours@),
                depths: as_ints(d.depths@),
            },
            FabOperation::Drilling(d) => PlanModel::Drilling { holes: d.holes@, depth: d.depth as int },
            FabOperation::Boring { data, depth_per_turn, bit_radius } => PlanModel::Boring {
                holes: data.holes@,
                depth: data.depth as int,
                depth_per_turn: *depth_per_turn as int,
                bit_radius: *bit_radius as int,
            },
        }
    }
}

impl FabData {
    /// Plans a job over the merged contours of its grown shapes and all the holes found.
    pub fn new(job: &JobConfig, contours: Vec<Contour>, holes: &Vec<Hole>) -> (r: Result<FabData, FabError>)
        ensures
            match r {
                Ok(fd) => plan(*job, contour_models(contours@), holes@) == Ok::<PlanModel, FabError>(
                    fd.operation@,
                ) && fd.feed == job.feed && fd.rpm == job.rpm,
                Err(e) => plan(*job, contour_models(contours@), holes@) == Err::<PlanModel, FabError>(e),
            },
    {
        let operation = match job.kind {
            JobKind::EngraveContours { depth } => {
                match job.offset() {
                    Ok(_) => {
                        let op = FabOperation::engrave_v45_deg(contours, depth);
                        assert(op@ matches PlanModel::Engrave { depths, .. } && depths =~= seq![
                            depth as int,
                        ]);
                        op
                    },
                    Err(e) => {
                        return Err(e);
                    },
                }
            },
            JobKind::CutContours { depth, depth_per_pass } => {
                match job.offset() {
                    Ok(_) => {
                        FabOperation::cut(contours, depth, depth_per_pass)
                    },
                    Err(e) => {
                        return Err(e);
                    },
                }
            },
            JobKind::DrillCircles { depth, radius_min, radius_max } => {
                match flat_bit(job.bit_shape, depth) {
                    Ok(radius) => {
                        let chosen = select_holes(holes, radius_min, radius_max);
                        FabOperation::drill(resize_holes(&chosen, radius), depth)
                    },
                    Err(e) => {
                        return Err(e);
                    },
                }
            },
            JobKind::BoreCircles { depth, depth_per_turn, radius_min, radius_max } => {
                match flat_bit(job.bit_shape, depth) {
                    Ok(radius) => {
                        let chosen = select_holes(holes, radius_min, radius_max);
                        if !dimension_ok(depth_per_turn) {
                            return Err(FabError::BadDimension);
                        }
                        match check_bore(&chosen, radius) {
                            Some(e) => {
                                return Err(e);
                            },
                            None => FabOperation::bore(chosen, depth, depth_per_turn, radius),
                        }
                    },
                    Err(e) => {
                        return Err(e);
                    },
                }
            },
        };
        Ok(FabData { feed: job.feed, rpm: job.rpm, operation })
    }
}

} // verus!
