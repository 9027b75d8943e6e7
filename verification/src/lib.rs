//! Tool-compensated boundary loops for CNC fabrication from 2D artwork.
//!
//! Shapes (thick lines, convex polygons, circles) are grown by the tool offset, outlined,
//! and merged into disjoint contours; the contours and the holes of a job are then walked
//! by a motion state machine that logs the commands for the machine.
//!
//! Coordinates are fixed-point: every length is a whole number of hundred-thousandths of a
//! working unit, and two lengths that differ by less than a thousandth of a unit count as
//! equal. Angles are fixed-point radians.
//!
//! - [`geo`]: points, edges and their predicates, shapes, outlines, contours, and the
//!   repository that merges contours.
//! - [`process`]: from the commands of vector paths to shapes and on to merged contours.
//! - [`fab`]: what a job cuts, how deep, and with which offset.
//! - [`io`]: the motion state machine, the programs of the jobs, and their G-code text.

pub mod fab;
pub mod geo;
pub mod io;
pub mod process;
