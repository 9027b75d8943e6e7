//! Motion commands for the machine.

pub mod gcode;
pub mod gcode_generator;
pub mod text;
