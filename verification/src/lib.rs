//! A two-dimensional floor-plan layout solver.
//!
//! Given a rectangular boundary and a set of room requirements (minimum
//! area, required and forbidden adjacencies, exterior-wall demands), the
//! solver produces a non-overlapping placement of every room inside the
//! boundary, or reports that no such placement exists.
//!
//! All lengths are counted in half-metre grid units: a coordinate of `7`
//! means 3.5 m. Areas (such as [`types::RoomRequirement::min_area`]) are
//! counted in grid cells, each a quarter of a square metre. Keeping every
//! quantity an integer multiple of the grid resolution makes all geometric
//! comparisons exact.

pub mod candidate_generation;
pub mod geometry;
pub mod room_ordering;
pub mod scoring;
pub mod solver;
pub mod types;
