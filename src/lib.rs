//! A beam-routing engine for a grid puzzle: objects are placed on a grid,
//! emitters project beams that march cell by cell, reflectors turn them into
//! a fixed direction, and every placement or removal recomputes the beams.

pub mod grid;
pub mod registry;
pub mod beam;
pub mod topology;
pub mod laws;
pub mod camera;
