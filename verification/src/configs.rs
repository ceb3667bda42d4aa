//! Settings of the pipeline.

use crate::double::Double;
use vstd::prelude::*;

verus! {

/// A pose written as translation + roll-pitch-yaw.
#[derive(Clone, Copy, Debug)]
pub struct Pose {
    pub xyz: [Double; 3],
    pub rpy: [Double; 3],
}

/// A joint forced to a value.
#[derive(Debug)]
pub struct EqualityConstraint {
    /// Joint name (must exist in the serial chain)
    pub joint_name: String,
    /// Target value for this joint
    pub target_value: Double,
}

#[derive(Debug)]
pub struct DifferentialIkConfig {
    pub num_steps: usize,
    pub damping_factor: Double,
    pub convergence_threshold: Double,
    /// Joints forced to specific values each iteration. Applied to the first
    /// pose solve only.
    pub equality_constraints: Vec<EqualityConstraint>,
}

/// End-effector path-following mode for the trajectory optimizer.
#[derive(Clone, Copy, Debug, PartialEq, Eq, Structural)]
pub enum EeTracking {
    /// Weighted quadratic pose-error cost per knot; always feasible.
    Soft,
    /// Linearized pose equality rows per knot; may be infeasible when the
    /// path conflicts with base kinematics.
    Hard,
}

/// Whole-trajectory SQP settings.
#[derive(Debug)]
pub struct TrajectoryConfig {
    pub enabled: bool,
    /// Seconds per knot interval (velocities are finite differences over dt).
    pub dt: Double,
    pub ee_tracking: EeTracking,
    /// Soft-mode EE cost weight; unused in hard mode.
    pub ee_weight: Double,
    pub smoothness_weight: Double,
    /// One-sided penalty on backward base motion; zero allows reversing.
    pub backward_weight: Double,
    /// One scalar for all joints.
    pub max_joint_velocity: Double,
    pub sqp_max_iterations: usize,
    /// Per-variable bound on each SQP step, intersected with joint limits. The
    /// optimizer adapts its radius; this is the largest.
    pub trust_region: Double,
    /// Converged when the step infinity-norm drops below this.
    pub convergence_step_norm: Double,
    /// Coefficient added to the diagonal of P; keeps P positive definite.
    pub damping: Double,
    /// Planar base joints in x, y, yaw order; validated against the chain.
    pub base_joint_names: Vec<String>,
}

/// A path of waypoint poses, linearly interpolated into a denser pose list.
#[derive(Debug)]
pub struct PathConfig {
    pub waypoints: Vec<Pose>,
    /// Interpolated poses added per waypoint segment (endpoints counted).
    pub poses_per_segment: usize,
    /// Debug: solve only the first pose of the interpolated path.
    pub solve_first_pose_only: bool,
    /// Pin the base yaw joint for the first pose so the base x-axis points
    /// along the path direction (first pose toward second interpolated pose).
    /// Seeds the differential-drive base facing the direction of travel.
    pub align_first_pose_base_yaw: bool,
    /// Fillet radius for rounding interior waypoint corners with tangent
    /// circular arcs; 0 (the default) leaves corners sharp and preserves the
    /// plain interpolation exactly. Oversized radii are clamped per corner
    /// to fit the adjacent segments, with a warning.
    pub corner_radius: Double,
}

#[derive(Debug)]
pub struct Config {
    pub urdf_path: String,
    pub end_joint: String,
    pub path: PathConfig,
    pub differential_ik: DifferentialIkConfig,
    /// Optional whole-trajectory optimization stage; absent = IK only.
    pub trajectory: Option<TrajectoryConfig>,
}

} // verus!
