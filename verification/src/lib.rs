//! Whole-body trajectory generation for a mobile manipulator: a differential-drive
//! base carrying an arm.
//!
//! A path of waypoint poses is interpolated, solved pose by pose with differential
//! inverse kinematics, and then optimized as a whole. Numbers are IEEE-754 doubles
//! computed on their bit patterns; forward kinematics, trigonometry and the
//! interior-point solver are handed in as functions.

use vstd::prelude::*;

pub mod active_set;
pub mod alignment;
pub mod arithmetic;
pub mod arrival;
pub mod bearings;
pub mod cone;
pub mod configs;
pub mod connection;
pub mod constraints;
pub mod corner;
pub mod cost;
pub mod damping;
pub mod definite;
pub mod diagnostics;
pub mod differences;
pub mod double;
pub mod error;
pub mod feasible;
pub mod finiteness;
pub mod forms;
pub mod free_step;
pub mod kinematics;
pub mod limits;
pub mod linearization;
pub mod logarithm;
pub mod matrix;
pub mod merit;
pub mod moves;
pub mod path;
pub mod pipeline;
pub mod products;
pub mod qp;
pub mod quotients;
pub mod range;
pub mod reals;
pub mod round_trip;
pub mod rounding;
pub mod run;
pub mod series;
pub mod slip;
pub mod slope;
pub mod small_angle;
pub mod spacing;
pub mod sqp;
pub mod stationary;
pub mod subproblem;
pub mod sums;
pub mod symmetry;
pub mod tally;
pub mod tangency;
pub mod tangent;
pub mod text;
pub mod trajectory;
pub mod vector;
pub mod verdicts;

pub use crate::configs::{
    Config, DifferentialIkConfig, EeTracking, EqualityConstraint, TrajectoryConfig,
};
pub use crate::diagnostics::{
    pose_errors, resolve_base_indices, slip_residual, slip_residuals, summarize_slip, BaseIndices,
    PoseError, SlipSummary, SLIP_TOLERANCE,
};
pub use crate::double::Double;
pub use crate::kinematics::differential_ik;

verus! {

} // verus!
