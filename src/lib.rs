//! Equilibrium water levels over a one-dimensional terrain after rain.
//!
//! Column heights are integers and every level that the solvers produce is
//! an exact fraction, so saturation tests and conservation of water hold
//! exactly rather than within a tolerance.
//!
//! - `natural`, `ratio`: arbitrary-precision naturals and fractions.
//! - `terrain`: ground volume, highest column and plateaus of a profile.
//! - `problem`: a profile with its rain and aggregates.
//! - `algorithm`: the recursive levelling of the general case.
//! - `solutions`: solutions, the classes of problems and their solvers.
//! - `equation`: the levelling equation in the lift of the ground.
//! - `input`: where the input comes from and what it holds.

pub mod algorithm;
pub mod equation;
pub mod input;
pub mod natural;
pub mod problem;
pub mod ratio;
pub mod solutions;
pub mod terrain;

pub use problem::Problem;
