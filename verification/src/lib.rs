/// Fixed-point arithmetic: the scale, the caps, truncating division,
/// clamping, and the integer square root.
pub mod arith;
/// The Force Matrix Builder: pairwise directional repulsion contributions.
pub mod forces;
/// Proved properties that tie the components together: anti-parallel
/// pairwise contributions, zero diagonals, boundary clamping, additivity
/// of the step accounting, and the shape of the sampled grid.
pub mod laws;
/// The Integrator: matrix-row dot products applied to positions, clamped
/// to the simulation area.
pub mod motion;
/// The Potential Sampler: the normalized intensity grid.
pub mod potential;
/// Trusted wrappers around the random number generator.
pub mod rng;
/// The simulation state, its clock-driven advance, initialization and
/// reset.
pub mod sim;
