//! A verified core for a boids flocking simulation.
//!
//! Coordinates, velocities and the tuning factors are fixed-point numbers:
//! an `i64` counts units of `1 / SCALE`. All per-frame state updates are
//! computed over these integers, so every step of the flocking rules —
//! neighbour scan through a uniform grid, the three flocking forces,
//! boundary turning, speed clamping and the position clamp — carries a
//! proved contract.

use vstd::prelude::*;

pub mod boids;
pub mod fixedpoint;

verus! {

/// Number of fixed-point units per world unit (pixel).
pub const SCALE: i64 = 10_000;

/// Largest accepted width or height of the simulation area, in world units.
pub const MAX_DIM: u32 = 1_000_000;

/// Largest accepted fixed-point value for ranges, speeds, the cell size and
/// the turn factor (100_000.0 in world units).
pub const RANGE_LIMIT: i64 = 1_000_000_000;

/// Largest accepted fixed-point value for the three force factors
/// (100.0 as a plain ratio).
pub const FACTOR_LIMIT: i64 = 1_000_000;

/// Largest accepted magnitude of a stored velocity component.
pub const VEL_LIMIT: i64 = 10_000_000_000;

/// Largest fixed-point position component: `MAX_DIM * SCALE`.
pub const POS_LIMIT: i64 = 10_000_000_000;

/// Largest accepted number of boids in one flock.
pub const MAX_BOIDS: usize = 1_000_000;

/// Immutable per-run tuning values. All fixed-point fields count units of
/// `1 / SCALE`; `margin` is in whole world units, like the area dimensions.
#[derive(Debug, Clone, Copy, PartialEq, Eq, Structural)]
pub struct Parameters {
    /// Upper speed bound, fixed-point.
    pub max_speed: i64,
    /// Lower speed bound, fixed-point.
    pub min_speed: i64,
    /// Distance from an edge at which boundary turning begins, world units.
    pub margin: u32,
    /// Neighbours beyond this distance are ignored, fixed-point.
    pub visible_range: i64,
    /// Neighbours inside this distance drive separation, fixed-point.
    pub protected_range: i64,
    /// Separation strength, fixed-point ratio.
    pub avoid_factor: i64,
    /// Alignment strength, fixed-point ratio.
    pub matching_factor: i64,
    /// Cohesion strength, fixed-point ratio.
    pub centering_factor: i64,
    /// Velocity nudge applied near an edge, fixed-point.
    pub turn_factor: i64,
    /// Side length of one grid cell, fixed-point.
    pub cell_size: i64,
    /// Radius used by a renderer when drawing a boid; never read here.
    pub draw_radius: i32,
}

/// A parameter set the update functions accept: a positive cell size and
/// every numeric field within the documented fixed-point limits.
pub open spec fn params_valid(p: Parameters) -> bool {
    &&& 1 <= p.cell_size <= RANGE_LIMIT
    &&& 0 <= p.min_speed <= p.max_speed <= RANGE_LIMIT
    &&& 0 <= p.visible_range <= RANGE_LIMIT
    &&& 0 <= p.protected_range <= RANGE_LIMIT
    &&& 0 <= p.avoid_factor <= FACTOR_LIMIT
    &&& 0 <= p.matching_factor <= FACTOR_LIMIT
    &&& 0 <= p.centering_factor <= FACTOR_LIMIT
    &&& 0 <= p.turn_factor <= RANGE_LIMIT
}

/// A usable simulation area: both dimensions positive and within `MAX_DIM`,
/// and the turning margin no wider than either dimension.
pub open spec fn dims_valid(width: u32, height: u32, margin: u32) -> bool {
    &&& 1 <= width <= MAX_DIM
    &&& 1 <= height <= MAX_DIM
    &&& margin <= width
    &&& margin <= height
}

impl Parameters {
    /// Configuration validation: accept exactly the parameter sets the
    /// per-frame update functions are specified for. A degenerate
    /// configuration (for example a non-positive cell size) is rejected
    /// here, before any simulation loop starts.
    pub fn validate(&self, width: u32, height: u32) -> (ok: bool)
        ensures
            ok == (params_valid(*self) && dims_valid(width, height, self.margin)),
    {
        1 <= self.cell_size && self.cell_size <= RANGE_LIMIT
            && 0 <= self.min_speed && self.min_speed <= self.max_speed
            && self.max_speed <= RANGE_LIMIT
            && 0 <= self.visible_range && self.visible_range <= RANGE_LIMIT
            && 0 <= self.protected_range && self.protected_range <= RANGE_LIMIT
            && 0 <= self.avoid_factor && self.avoid_factor <= FACTOR_LIMIT
            && 0 <= self.matching_factor && self.matching_factor <= FACTOR_LIMIT
            && 0 <= self.centering_factor && self.centering_factor <= FACTOR_LIMIT
            && 0 <= self.turn_factor && self.turn_factor <= RANGE_LIMIT
            && 1 <= width && width <= MAX_DIM
            && 1 <= height && height <= MAX_DIM
            && self.margin <= width
            && self.margin <= height
    }
}

} // verus!
