use wbdd::configs::{
    Config, DifferentialIkConfig, EeTracking, EqualityConstraint, PathConfig, TrajectoryConfig,
};
use wbdd::double::Double;
use wbdd::pipeline::{base_joint_names, optimization, pin_base_yaw, Optimization};
use wbdd::vector::Vector3;

fn of(value: f64) -> Double {
    Double { bits: value.to_bits() }
}

fn back(value: Double) -> f64 {
    f64::from_bits(value.bits)
}

fn settings() -> DifferentialIkConfig {
    DifferentialIkConfig {
        num_steps: 50,
        damping_factor: of(0.5),
        convergence_threshold: of(0.01),
        equality_constraints: vec![EqualityConstraint {
            joint_name: "elbow".to_string(),
            target_value: of(1.5),
        }],
    }
}

fn path(solve_first_pose_only: bool, align_first_pose_base_yaw: bool) -> PathConfig {
    PathConfig {
        waypoints: vec![],
        poses_per_segment: 10,
        solve_first_pose_only,
        align_first_pose_base_yaw,
        corner_radius: of(0.0),
    }
}

fn trajectory(enabled: bool) -> TrajectoryConfig {
    TrajectoryConfig {
        enabled,
        dt: of(0.5),
        ee_tracking: EeTracking::Soft,
        ee_weight: of(10.0),
        smoothness_weight: of(1.0),
        backward_weight: of(0.0),
        max_joint_velocity: of(2.0),
        sqp_max_iterations: 20,
        trust_region: of(0.2),
        convergence_step_norm: of(1e-6),
        damping: of(1e-6),
        base_joint_names: vec!["x".to_string(), "y".to_string(), "turn".to_string()],
    }
}

fn config(first_only: bool, trajectory: Option<TrajectoryConfig>) -> Config {
    Config {
        urdf_path: "robot.urdf".to_string(),
        end_joint: "tool".to_string(),
        path: path(first_only, false),
        differential_ik: settings(),
        trajectory,
    }
}

fn atan2(y: Double, x: Double) -> Double {
    of(back(y).atan2(back(x)))
}

fn point(x: f64, y: f64) -> Vector3 {
    Vector3 { x: of(x), y: of(y), z: of(1.0) }
}

#[test]
fn base_yaw_points_along_the_first_segment() {
    let positions = vec![point(1.0, 1.0), point(1.0, 3.0), point(9.0, 3.0)];
    let mut pinned = settings();
    pin_base_yaw(&mut pinned, &path(false, true), &positions, atan2);
    assert_eq!(pinned.equality_constraints.len(), 2);
    assert_eq!(pinned.equality_constraints[0].joint_name, "elbow");
    let pin = &pinned.equality_constraints[1];
    assert_eq!(pin.joint_name, "world_base_link_planar_yaw");
    assert_eq!(back(pin.target_value), std::f64::consts::FRAC_PI_2);
    assert_eq!(pinned.num_steps, 50);
}

#[test]
fn base_yaw_is_left_free_where_nothing_asks_for_it() {
    let positions = vec![point(1.0, 1.0), point(1.0, 3.0)];
    let mut free = settings();
    pin_base_yaw(&mut free, &path(false, false), &positions, atan2);
    assert_eq!(free.equality_constraints.len(), 1);
    // A single pose has no direction of travel.
    pin_base_yaw(&mut free, &path(false, true), &positions[..1].to_vec(), atan2);
    assert_eq!(free.equality_constraints.len(), 1);
}

#[test]
fn optimization_needs_every_pose() {
    assert_eq!(optimization(&config(false, None)), Optimization::Off);
    assert_eq!(optimization(&config(false, Some(trajectory(false)))), Optimization::Off);
    assert_eq!(optimization(&config(true, Some(trajectory(false)))), Optimization::Off);
    assert_eq!(optimization(&config(true, Some(trajectory(true)))), Optimization::Skipped);
    assert_eq!(optimization(&config(false, Some(trajectory(true)))), Optimization::On);
}

#[test]
fn base_joints_have_usual_names() {
    assert_eq!(
        base_joint_names(&config(false, None)),
        vec![
            "world_base_link_planar_prismatic_x",
            "world_base_link_planar_prismatic_y",
            "world_base_link_planar_yaw",
        ]
    );
    assert_eq!(
        base_joint_names(&config(false, Some(trajectory(false)))),
        vec!["x", "y", "turn"]
    );
}
