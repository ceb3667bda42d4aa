//! The library driven on a mobile manipulator: a planar base carrying a six-joint
//! arm, with the quadratic programs solved by Clarabel.

use clarabel::algebra::CscMatrix;
use clarabel::solver::{DefaultSettingsBuilder, DefaultSolver, IPSolver, SupportedConeT};
use k::nalgebra::{
    DMatrix, Isometry3, Matrix4, Rotation3, Translation3, UnitQuaternion, Vector3, Vector6,
};
use std::cell::RefCell;
use wbdd::configs::{
    DifferentialIkConfig, EeTracking, EqualityConstraint, PathConfig, TrajectoryConfig,
};
use wbdd::diagnostics::{
    headings, midpoint_yaw, pose_errors, slip_residual, slip_residuals, summarize_slip,
    BaseIndices, Heading,
};
use wbdd::double::Double;
use wbdd::kinematics::{joint_limits, ConstraintError, IkError, IkSolve, PoseEvaluation};
use wbdd::linearization::PoseReading;
use wbdd::matrix::Matrix;
use wbdd::pipeline::{pin_base_yaw, sequential_ik};
use wbdd::qp::{ConicProgram, Csc, QuadraticProgram, SolverStatus};
use wbdd::run::{evaluate_knots, Optimized};
use wbdd::sqp::{Ending, SqpProblem, SqpState};
use wbdd::trajectory::prepare;

fn of(value: f64) -> Double {
    Double { bits: value.to_bits() }
}

fn back(value: Double) -> f64 {
    f64::from_bits(value.bits)
}

fn list_of(values: &[f64]) -> Vec<Double> {
    values.iter().map(|&value| of(value)).collect()
}

fn list_back(values: &[Double]) -> Vec<f64> {
    values.iter().map(|&value| back(value)).collect()
}

fn vector_of(vector: &Vector3<f64>) -> wbdd::vector::Vector3 {
    wbdd::vector::Vector3 {
        x: of(vector.x),
        y: of(vector.y),
        z: of(vector.z),
    }
}

fn matrix_of(matrix: &DMatrix<f64>) -> Matrix {
    let rows = (0..matrix.nrows())
        .map(|r| (0..matrix.ncols()).map(|c| of(matrix[(r, c)])).collect())
        .collect();
    Matrix::from_rows(rows, matrix.ncols())
}

fn heading(yaw: Double) -> Heading {
    let (sin, cos) = back(yaw).sin_cos();
    Heading { sin: of(sin), cos: of(cos) }
}

fn slip(q0: &[f64], q1: &[f64], base: BaseIndices) -> f64 {
    let (q0, q1) = (list_of(q0), list_of(q1));
    let heading = heading(midpoint_yaw(&q0, &q1, base));
    back(slip_residual(&q0, &q1, base, heading))
}

fn sparse(csc: &Csc) -> CscMatrix<f64> {
    CscMatrix::new(
        csc.nrows,
        csc.ncols,
        csc.colptr.clone(),
        csc.rowval.clone(),
        list_back(&csc.nzval),
    )
}

fn run_clarabel(conic: &ConicProgram) -> Result<(SolverStatus, Vec<Double>), String> {
    let cones = [
        SupportedConeT::ZeroConeT(conic.zero_rows),
        SupportedConeT::NonnegativeConeT(conic.nonnegative_rows),
    ];
    let settings = DefaultSettingsBuilder::default()
        .verbose(false)
        .tol_feas(1e-10)
        .build()
        .unwrap();
    let mut solver = DefaultSolver::new(
        &sparse(&conic.p),
        &list_back(&conic.q),
        &sparse(&conic.a),
        &list_back(&conic.b),
        &cones,
        settings,
    )
    .map_err(|e| format!("clarabel_setup: {e:?}"))?;
    solver.solve();
    let status = match solver.solution.status {
        clarabel::solver::SolverStatus::Solved => SolverStatus::Solved,
        clarabel::solver::SolverStatus::AlmostSolved => SolverStatus::AlmostSolved,
        clarabel::solver::SolverStatus::PrimalInfeasible => SolverStatus::PrimalInfeasible,
        clarabel::solver::SolverStatus::InsufficientProgress => SolverStatus::InsufficientProgress,
        _ => SolverStatus::NumericalError,
    };
    Ok((status, list_of(&solver.solution.x)))
}

fn solve(program: &QuadraticProgram) -> Result<Vec<Double>, String> {
    wbdd::qp::solve(program, run_clarabel)
}

fn se3_log(pose: &Matrix4<f64>) -> Vector6<f64> {
    let rotation = Rotation3::from_matrix_unchecked(pose.fixed_slice::<3, 3>(0, 0).into_owned());
    let translation = pose.fixed_slice::<3, 1>(0, 3).into_owned();
    let omega = vector_of(&UnitQuaternion::from_rotation_matrix(&rotation).scaled_axis());
    let theta = back(omega.norm());
    let twist = wbdd::kinematics::se3_log(
        vector_of(&translation),
        omega,
        of(theta.sin()),
        of(theta.cos()),
    );
    Vector6::new(
        back(twist.linear.x),
        back(twist.linear.y),
        back(twist.linear.z),
        back(twist.angular.x),
        back(twist.angular.y),
        back(twist.angular.z),
    )
}

fn pose_error_twist(goal: &Matrix4<f64>, current: &Isometry3<f64>) -> Vector6<f64> {
    se3_log(&(goal * current.inverse().to_homogeneous()))
}

struct Robot {
    chain: k::SerialChain<f64>,
}

fn joint(
    name: &str,
    xyz: [f64; 3],
    rpy: [f64; 3],
    joint_type: k::JointType<f64>,
    limits: Option<(f64, f64)>,
) -> k::Node<f64> {
    k::NodeBuilder::new()
        .name(name)
        .origin(Isometry3::from_parts(
            Translation3::new(xyz[0], xyz[1], xyz[2]),
            UnitQuaternion::from_euler_angles(rpy[0], rpy[1], rpy[2]),
        ))
        .joint_type(joint_type)
        .limits(limits.map(|(min, max)| k::joint::Range::new(min, max)))
        .into_node()
}

fn turning() -> k::JointType<f64> {
    k::JointType::Rotational { axis: Vector3::z_axis() }
}

impl Robot {
    fn build() -> Robot {
        let pi = std::f64::consts::PI;
        let nodes = [
            joint(
                "world_base_link_planar_prismatic_x",
                [0.0; 3],
                [0.0; 3],
                k::JointType::Linear { axis: Vector3::x_axis() },
                Some((-10.0, 10.0)),
            ),
            joint(
                "world_base_link_planar_prismatic_y",
                [0.0; 3],
                [0.0; 3],
                k::JointType::Linear { axis: Vector3::y_axis() },
                Some((-10.0, 10.0)),
            ),
            joint("world_base_link_planar_yaw", [0.0; 3], [0.0; 3], turning(), None),
            joint(
                "ur5eshoulder_pan_joint",
                [0.1, 0.0, 0.6625],
                [0.0; 3],
                turning(),
                Some((-2.0 * pi, 2.0 * pi)),
            ),
            joint(
                "ur5eshoulder_lift_joint",
                [0.0; 3],
                [pi / 2.0, 0.0, 0.0],
                turning(),
                Some((-2.0 * pi, 2.0 * pi)),
            ),
            joint(
                "ur5eelbow_joint",
                [-0.425, 0.0, 0.0],
                [0.0; 3],
                turning(),
                Some((-pi, pi)),
            ),
            joint(
                "ur5ewrist_1_joint",
                [-0.3922, 0.0, 0.1333],
                [0.0; 3],
                turning(),
                Some((-2.0 * pi, 2.0 * pi)),
            ),
            joint(
                "ur5ewrist_2_joint",
                [0.0, -0.0997, 0.0],
                [pi / 2.0, 0.0, 0.0],
                turning(),
                Some((-2.0 * pi, 2.0 * pi)),
            ),
            joint(
                "ur5ewrist_3_joint",
                [0.0, 0.0996, 0.0],
                [pi / 2.0, pi, pi],
                turning(),
                Some((-2.0 * pi, 2.0 * pi)),
            ),
        ];
        for pair in nodes.windows(2) {
            pair[1].set_parent(&pair[0]);
        }
        let chain = k::SerialChain::from_end(&nodes[8]);
        chain.update_transforms();
        Robot { chain }
    }

    fn joint_names(&self) -> Vec<String> {
        self.chain.iter_joints().map(|j| j.name.clone()).collect()
    }

    fn positions(&self) -> Vec<f64> {
        self.chain.joint_positions()
    }

    fn set_positions(&mut self, positions: &[f64]) {
        self.chain.set_joint_positions_unchecked(positions);
        self.chain.update_transforms();
    }

    fn end_pose(&self) -> Isometry3<f64> {
        self.chain.end_transform()
    }

    fn limits(&self) -> (Vec<Double>, Vec<Double>) {
        let limits = self
            .chain
            .iter_joints()
            .map(|j| j.limits.as_ref().map(|range| (of(range.min), of(range.max))))
            .collect();
        joint_limits(&limits)
    }

    fn index(&self, name: &str) -> usize {
        self.joint_names().iter().position(|n| n == name).expect("joint not found")
    }
}

fn differential_ik(
    goal: &Isometry3<f64>,
    robot: &mut Robot,
    config: &DifferentialIkConfig,
) -> Result<Vec<Vec<f64>>, String> {
    let (lower, upper) = robot.limits();
    let start = list_of(&robot.positions());
    let names = robot.joint_names();
    let goal = goal.to_homogeneous();
    let moving = RefCell::new(robot);
    let evaluate = |positions: &Vec<Double>| {
        let mut robot = moving.borrow_mut();
        robot.set_positions(&list_back(positions));
        let twist = pose_error_twist(&goal, &robot.end_pose());
        PoseReading {
            twist: list_of(twist.as_slice()),
            jacobian: matrix_of(&k::jacobian(&robot.chain)),
        }
    };
    let ik = wbdd::differential_ik(config, &names, lower, upper, start, evaluate, solve).map_err(
        |error| match error {
            IkError::NonPositiveDamping { damping_factor } => {
                format!("damping_factor must be > 0 (got {})", back(damping_factor))
            }
            IkError::Constraint(error) => error.message("target", "lower", "upper"),
            IkError::Solver(message) => message,
        },
    )?;
    let robot = moving.into_inner();
    robot.set_positions(&list_back(ik.trajectory.last().unwrap()));
    Ok(ik.trajectory.iter().map(|q| list_back(q)).collect())
}

fn read_knot(goal: &Isometry3<f64>, robot: &mut Robot, knot: &[Double]) -> PoseReading {
    robot.set_positions(&list_back(knot));
    let twist = pose_error_twist(&goal.to_homogeneous(), &robot.end_pose());
    PoseReading {
        twist: list_of(twist.as_slice()),
        jacobian: matrix_of(&k::jacobian(&robot.chain)),
    }
}

fn lists_of(lists: &[Vec<f64>]) -> Vec<Vec<Double>> {
    lists.iter().map(|list| list_of(list)).collect()
}

fn optimize(
    goals: &[Isometry3<f64>],
    robot: &mut Robot,
    config: TrajectoryConfig,
    warm_start: &[Vec<f64>],
) -> Result<Optimized, String> {
    let names = robot.joint_names();
    let (lower, upper) = robot.limits();
    let moving = RefCell::new(robot);
    wbdd::trajectory::optimize(
        goals.len(),
        &names,
        config,
        &lists_of(warm_start),
        lower,
        upper,
        |k, knot: &Vec<Double>| read_knot(&goals[k], &mut moving.borrow_mut(), knot),
        heading,
        solve,
    )
}

fn knots_of(outcome: &Optimized) -> Vec<Vec<f64>> {
    outcome.knots.iter().map(|q| list_back(q)).collect()
}

fn ik_config(equality_constraints: Vec<EqualityConstraint>) -> DifferentialIkConfig {
    DifferentialIkConfig {
        num_steps: 50,
        damping_factor: of(0.5),
        convergence_threshold: of(0.01),
        equality_constraints,
    }
}

fn pin(joint_name: &str, target_value: f64) -> EqualityConstraint {
    EqualityConstraint {
        joint_name: joint_name.to_string(),
        target_value: of(target_value),
    }
}

// Cross-check se3_log against nalgebra's general matrix exponential: expm of
// the hat matrix must reproduce the original homogeneous transform.
fn assert_roundtrip(pose: &Isometry3<f64>) {
    let twist = se3_log(&pose.to_homogeneous());
    let omega_hat = Vector3::new(twist[3], twist[4], twist[5]).cross_matrix();

    let mut hat = Matrix4::zeros();
    hat.fixed_slice_mut::<3, 3>(0, 0).copy_from(&omega_hat);
    hat[(0, 3)] = twist[0];
    hat[(1, 3)] = twist[1];
    hat[(2, 3)] = twist[2];

    let rebuilt = hat.exp();
    assert!(
        (rebuilt - pose.to_homogeneous()).norm() < 1e-9,
        "roundtrip failed\nexpected:{}\ngot:{}",
        pose.to_homogeneous(),
        rebuilt
    );
}

#[test]
fn log_roundtrips() {
    assert_roundtrip(&Isometry3::identity());
    // Pure translation: rotation is exactly zero, so the small-angle branch runs.
    assert_roundtrip(&Isometry3::translation(1.0, -2.0, 3.0));
    assert_roundtrip(&Isometry3::from_parts(
        Vector3::new(0.3, -0.7, 1.1).into(),
        UnitQuaternion::from_scaled_axis(Vector3::new(0.2, -1.3, 0.5)),
    ));
    // Near the theta = pi singularity.
    assert_roundtrip(&Isometry3::from_parts(
        Vector3::new(-1.0, 4.0, 0.5).into(),
        UnitQuaternion::from_scaled_axis(Vector3::x() * (std::f64::consts::PI - 1e-4)),
    ));
}

// Exactly-π rotations are the acos-of-trace singularity of the matrix
// log; the quaternion route must stay finite and roundtrip.
#[test]
fn log_roundtrips_at_exactly_pi() {
    for axis in [Vector3::x(), Vector3::y(), Vector3::z()] {
        let pose = Isometry3::from_parts(
            Vector3::new(0.4, -0.2, 1.3).into(),
            UnitQuaternion::from_scaled_axis(axis * std::f64::consts::PI),
        );
        let twist = se3_log(&pose.to_homogeneous());
        assert!(
            twist.iter().all(|v| v.is_finite()),
            "NaN twist for axis {axis:?}"
        );
        assert_roundtrip(&pose);
    }
}

#[test]
fn joint_limits_extraction() {
    let robot = Robot::build();
    let (lower, upper) = robot.limits();
    let joint_count = robot.joint_names().len();

    assert_eq!(lower.len(), joint_count);
    assert_eq!(upper.len(), joint_count);

    for i in 0..joint_count {
        assert!(
            back(lower[i]) <= back(upper[i]),
            "invalid limits at joint {}: lower={} > upper={}",
            i,
            back(lower[i]),
            back(upper[i])
        );
    }
    let yaw = robot.index("world_base_link_planar_yaw");
    assert_eq!(back(lower[yaw]), f64::NEG_INFINITY);
    assert_eq!(back(upper[yaw]), f64::INFINITY);
    let elbow = robot.index("ur5eelbow_joint");
    assert_eq!(back(upper[elbow]), std::f64::consts::PI);
}

#[test]
fn equality_constraint_holds() {
    let mut robot = Robot::build();

    // Offset goal so the solver actually iterates instead of converging
    // immediately at the start pose.
    let mut goal = robot.end_pose();
    goal.translation.vector += Vector3::new(0.1, 0.1, 0.0);

    let config = ik_config(vec![pin("ur5eshoulder_pan_joint", 1.0)]);
    let trajectory = differential_ik(&goal, &mut robot, &config).unwrap();
    assert!(trajectory.len() > 1, "solver took no steps");

    let pan = robot.index("ur5eshoulder_pan_joint");
    let last = trajectory.last().unwrap();
    assert!(
        (last[pan] - 1.0).abs() < 1e-9,
        "equality constraint not held: pan = {}",
        last[pan]
    );
}

#[test]
fn limits_enforced_across_trajectory() {
    let mut robot = Robot::build();
    let (lower, upper) = robot.limits();
    let n = lower.len();

    // Start the elbow inside the activation tolerance of its upper limit.
    let elbow = robot.index("ur5eelbow_joint");
    let mut start = vec![0.0; n];
    start[elbow] = back(upper[elbow]) - 0.005;
    robot.set_positions(&start);

    let goal = Isometry3::from_parts(
        Vector3::new(1.0, 1.0, 1.0).into(),
        UnitQuaternion::from_euler_angles(std::f64::consts::PI, 0.0, 0.0),
    );
    let trajectory = differential_ik(&goal, &mut robot, &ik_config(vec![])).unwrap();
    assert!(trajectory.len() > 1, "solver took no steps");

    for (step, positions) in trajectory.iter().enumerate() {
        for i in 0..n {
            assert!(
                positions[i] >= back(lower[i]) - 1e-9 && positions[i] <= back(upper[i]) + 1e-9,
                "joint {} out of limits at step {}: {} not in [{}, {}]",
                i,
                step,
                positions[i],
                back(lower[i]),
                back(upper[i])
            );
        }
    }
}

#[test]
fn limit_constraint_drops_when_goal_pulls_inward() {
    let mut robot = Robot::build();
    let (_, upper) = robot.limits();
    let elbow = robot.index("ur5eelbow_joint");
    let n = robot.joint_names().len();

    // Goal is the end pose of the all-zero configuration; the elbow then
    // starts pinned at its upper limit, so reaching the goal requires
    // moving it inward.
    let goal = robot.end_pose();

    let mut start = vec![0.0; n];
    start[elbow] = back(upper[elbow]);
    robot.set_positions(&start);

    let trajectory = differential_ik(&goal, &mut robot, &ik_config(vec![])).unwrap();
    let last = trajectory.last().unwrap();
    assert!(
        last[elbow] < back(upper[elbow]) - 1e-3,
        "elbow stayed pinned at its limit: {}",
        last[elbow]
    );
}

#[test]
fn equality_target_outside_limits_errors() {
    let mut robot = Robot::build();
    let goal = robot.end_pose();

    // Elbow limit is ±π; 100.0 is far outside.
    let config = ik_config(vec![pin("ur5eelbow_joint", 100.0)]);
    let error = differential_ik(&goal, &mut robot, &config).unwrap_err();
    assert_eq!(
        error,
        "equality target target for joint 'ur5eelbow_joint' outside limits [lower, upper]"
    );

    // Unknown joint names error too.
    let config = ik_config(vec![pin("no_such_joint", 0.0)]);
    let error = differential_ik(&goal, &mut robot, &config).unwrap_err();
    assert_eq!(error, "equality constraint joint 'no_such_joint' not in serial chain");
}

#[test]
fn duplicate_equality_constraint_errors() {
    let mut robot = Robot::build();
    let goal = robot.end_pose();

    // Two constraints on the same joint make every per-step QP
    // infeasible; this must be rejected up front with a clear message.
    let config = ik_config(vec![
        pin("ur5eshoulder_pan_joint", 0.5),
        pin("ur5eshoulder_pan_joint", 1.0),
    ]);
    let error = differential_ik(&goal, &mut robot, &config).unwrap_err();
    assert_eq!(error, "duplicate equality constraint for joint 'ur5eshoulder_pan_joint'");
}

#[test]
fn non_positive_damping_errors() {
    let mut robot = Robot::build();
    let goal = robot.end_pose();

    let mut config = ik_config(vec![]);
    config.damping_factor = of(0.0);
    assert!(differential_ik(&goal, &mut robot, &config).is_err());
}

#[test]
fn damping_that_is_no_number_errors() {
    let mut robot = Robot::build();
    let goal = robot.end_pose();
    let mut config = ik_config(vec![]);
    config.damping_factor = of(f64::NAN);
    let error = differential_ik(&goal, &mut robot, &config).unwrap_err();
    assert!(error.starts_with("damping_factor must be > 0"));
}

#[test]
fn first_faulty_constraint_is_reported() {
    let robot = Robot::build();
    let (lower, upper) = robot.limits();
    let constraints = vec![
        pin("ur5eelbow_joint", 1.0),
        pin("ur5ewrist_1_joint", 50.0),
        pin("no_such_joint", 0.0),
    ];
    let error = wbdd::kinematics::resolve_equality_constraints(
        &robot.joint_names(),
        &constraints,
        &lower,
        &upper,
    )
    .err()
    .unwrap();
    match error {
        ConstraintError::OutsideLimits { joint_name, target, lower, upper } => {
            assert_eq!(joint_name, "ur5ewrist_1_joint");
            assert_eq!(back(target), 50.0);
            assert_eq!(back(lower), -2.0 * std::f64::consts::PI);
            assert_eq!(back(upper), 2.0 * std::f64::consts::PI);
        }
        _ => panic!("wrong error"),
    }
}

#[test]
fn pose_errors_against_own_kinematics() {
    let mut robot = Robot::build();
    let knots = vec![
        vec![0.5, -0.25, 0.3, 0.1, -0.7, 0.9, 0.2, -0.4, 0.6],
        vec![0.1, 0.2, -0.3, 0.4, -0.5, 0.6, -0.7, 0.8, -0.9],
    ];
    let mut goals = Vec::new();
    for knot in &knots {
        robot.set_positions(knot);
        goals.push(robot.end_pose());
    }
    goals[1].translation.vector.x += 0.1;
    goals.push(goals[0]);
    let moving = RefCell::new(&mut robot);
    let positions = goals.iter().map(|g| vector_of(&g.translation.vector)).collect();
    let errors = pose_errors(&positions, &lists_of(&knots), |k, knot: &Vec<Double>| {
        let mut robot = moving.borrow_mut();
        robot.set_positions(&list_back(knot));
        let actual = robot.end_pose();
        (
            vector_of(&actual.translation.vector),
            of(goals[k].rotation.angle_to(&actual.rotation)),
        )
    });
    assert_eq!(errors.len(), 2);
    assert!(back(errors[0].position) < 1e-12);
    assert!(back(errors[0].orientation) < 1e-7);
    assert!((back(errors[1].position) - 0.1).abs() < 1e-12);
    assert!(back(errors[1].orientation) < 1e-7);
}

fn base_names() -> Vec<String> {
    vec![
        "world_base_link_planar_prismatic_x".to_string(),
        "world_base_link_planar_prismatic_y".to_string(),
        "world_base_link_planar_yaw".to_string(),
    ]
}

fn test_config(ee_tracking: EeTracking) -> TrajectoryConfig {
    TrajectoryConfig {
        enabled: true,
        dt: of(0.5),
        ee_tracking,
        ee_weight: of(100.0),
        smoothness_weight: of(1.0),
        backward_weight: of(0.0),
        max_joint_velocity: of(2.0),
        sqp_max_iterations: 30,
        trust_region: of(0.2),
        convergence_step_norm: of(1e-5),
        damping: of(1e-3),
        base_joint_names: base_names(),
    }
}

// Downward-facing EE poses along +x.
fn straight_goals(count: usize, spacing: f64) -> Vec<Isometry3<f64>> {
    (0..count)
        .map(|i| {
            Isometry3::from_parts(
                Vector3::new(0.8 + spacing * i as f64, 0.5, 0.9).into(),
                UnitQuaternion::from_euler_angles(std::f64::consts::PI, 0.0, 0.0),
            )
        })
        .collect()
}

// Sequential IK: each solve seeds from the previous one.
fn warm_start(robot: &mut Robot, goals: &[Isometry3<f64>]) -> Vec<Vec<f64>> {
    goals
        .iter()
        .map(|goal| {
            differential_ik(goal, robot, &ik_config(vec![]))
                .expect("warm-start IK failed")
                .pop()
                .expect("trajectory is never empty")
        })
        .collect()
}

fn base_indices(robot: &Robot) -> BaseIndices {
    BaseIndices {
        x: robot.index("world_base_link_planar_prismatic_x"),
        y: robot.index("world_base_link_planar_prismatic_y"),
        yaw: robot.index("world_base_link_planar_yaw"),
    }
}

#[test]
fn soft_mode_removes_lateral_slip_within_limits() {
    let mut robot = Robot::build();
    let goals = straight_goals(4, 0.15);
    let start = warm_start(&mut robot, &goals);
    let config = test_config(EeTracking::Soft);
    let (dt, max_joint_velocity) = (0.5, 2.0);

    let run = optimize(&goals, &mut robot, config, &start).unwrap();
    let optimized = knots_of(&run);
    assert_eq!(optimized.len(), goals.len());

    let base = base_indices(&robot);
    let (lower, upper) = robot.limits();
    let n = lower.len();
    let mut ee_error_sum = 0.0;
    for k in 0..optimized.len() {
        // (b) Joint limits and velocity limits hold at every knot/interval.
        for j in 0..n {
            assert!(
                optimized[k][j] >= back(lower[j]) - 1e-9
                    && optimized[k][j] <= back(upper[j]) + 1e-9,
                "joint {j} out of limits at knot {k}"
            );
        }
        if k + 1 < optimized.len() {
            for j in 0..n {
                let velocity = (optimized[k + 1][j] - optimized[k][j]).abs() / dt;
                assert!(
                    velocity <= max_joint_velocity + 1e-6,
                    "joint {j} velocity {velocity} exceeds limit at interval {k}"
                );
            }
            // (a) No lateral slip after convergence.
            let residual = slip(&optimized[k], &optimized[k + 1], base);
            assert!(
                residual.abs() < 1e-6,
                "lateral slip {residual} at interval {k}"
            );
        }
        // (c) EE tracking stays reasonable (it cannot beat the
        // unconstrained warm start; it must not collapse either).
        robot.set_positions(&optimized[k]);
        let twist = pose_error_twist(&goals[k].to_homogeneous(), &robot.end_pose());
        ee_error_sum += twist.norm();
    }
    let mean_ee_error = ee_error_sum / optimized.len() as f64;
    assert!(
        mean_ee_error < 0.25,
        "mean EE tracking error too large: {mean_ee_error}"
    );
    assert!(run.warnings().iter().all(|line| !line.contains("max_joint_velocity")));

    // Smoothness sign: a flipped linear term would bias the SQP toward
    // *larger* consecutive differences instead of penalizing them, so
    // the optimized trajectory must not be less smooth than warm start.
    let sum_sq_diff = |trajectory: &[Vec<f64>]| -> f64 {
        (0..trajectory.len() - 1)
            .map(|k| {
                (0..n)
                    .map(|j| (trajectory[k + 1][j] - trajectory[k][j]).powi(2))
                    .sum::<f64>()
            })
            .sum()
    };
    let warm_start_smoothness = sum_sq_diff(&start);
    let optimized_smoothness = sum_sq_diff(&optimized);
    assert!(
        optimized_smoothness <= warm_start_smoothness + 1e-9,
        "optimized trajectory less smooth than warm start: {optimized_smoothness} > {warm_start_smoothness}"
    );
}

// (d) Hard mode on a reachable straight path solves and also kills slip.
#[test]
fn hard_mode_solves_reachable_path() {
    let mut robot = Robot::build();
    let goals = straight_goals(3, 0.1);
    let start = warm_start(&mut robot, &goals);
    let config = test_config(EeTracking::Hard);

    let optimized = knots_of(&optimize(&goals, &mut robot, config, &start).unwrap());
    let base = base_indices(&robot);
    for k in 0..optimized.len() - 1 {
        let residual = slip(&optimized[k], &optimized[k + 1], base);
        assert!(residual.abs() < 1e-6, "slip {residual} at interval {k}");
    }
    // Hard-row sign: JΔ = r (not -r) must drive the EE pose to the goal,
    // not away from it.
    for (k, knot) in optimized.iter().enumerate() {
        robot.set_positions(knot);
        let twist = pose_error_twist(&goals[k].to_homogeneous(), &robot.end_pose());
        assert!(
            twist.norm() < 0.05,
            "hard-mode EE error {} too large at knot {k}",
            twist.norm()
        );
    }
}

// (d) Hard EE rows + a velocity budget too small to reach the next goal
// must surface as an infeasibility error, not a panic or silent result.
#[test]
fn hard_mode_infeasible_velocity_budget_errors() {
    let mut robot = Robot::build();
    let goals = straight_goals(3, 0.5);
    let start = warm_start(&mut robot, &goals);
    let mut config = test_config(EeTracking::Hard);
    // Deliberately conflicting: exact EE poses per knot, but joints may
    // move at most 0.001·0.5 per interval while consecutive warm-start
    // knots differ far more than that.
    config.max_joint_velocity = of(0.001);

    // Force intervals to actually need motion: perturb the warm start so
    // knot 1 and 2 start from knot 0's configuration.
    let perturbed: Vec<Vec<f64>> = vec![start[0].clone(); 3];
    let result = optimize(&goals, &mut robot, config, &perturbed);
    assert!(result.is_err(), "expected infeasibility, got Ok");
    let message = result.err().unwrap();
    assert!(
        message.contains("qp_not_solved"),
        "unexpected error text: {message}"
    );
    assert!(message.starts_with("sqp iteration 0: "), "{message}");
    assert!(message.ends_with("try soft"), "{message}");
}

#[test]
fn validation_errors() {
    let mut robot = Robot::build();
    let goals = straight_goals(3, 0.1);
    let start = warm_start(&mut robot, &goals);

    // Unknown base joint name.
    let mut config = test_config(EeTracking::Soft);
    config.base_joint_names[0] = "no_such_joint".to_string();
    assert!(optimize(&goals, &mut robot, config, &start).is_err());

    // Warm start length mismatch.
    let config = test_config(EeTracking::Soft);
    assert!(optimize(&goals, &mut robot, config, &start[..2]).is_err());

    // Fewer than two knots.
    let config = test_config(EeTracking::Soft);
    assert!(optimize(&goals[..1], &mut robot, config, &start[..1]).is_err());

    // Non-positive dt.
    let mut config = test_config(EeTracking::Soft);
    config.dt = of(0.0);
    assert!(optimize(&goals, &mut robot, config, &start).is_err());
}

// Driven by hand, state by state.
#[test]
fn merit_falls_from_step_to_step() {
    let mut robot = Robot::build();
    let goals = straight_goals(4, 0.15);
    let start = warm_start(&mut robot, &goals);
    let config = test_config(EeTracking::Soft);
    let (lower, upper) = robot.limits();
    let names = robot.joint_names();
    let (base, knots) =
        prepare(goals.len(), &names, &config, &lists_of(&start), &lower, &upper).unwrap();
    let moving = RefCell::new(&mut robot);
    let pose = |k: usize, knot: &Vec<Double>| {
        read_knot(&goals[k], &mut moving.borrow_mut(), knot)
    };
    let evaluation = evaluate_knots(&knots, base, names.len(), &pose, &heading);
    let problem = SqpProblem { config, base, lower, upper };
    let mut state = SqpState::start(&problem, knots, evaluation);
    let mut merits = vec![back(state.merit)];
    loop {
        let step = solve(&state.subproblem(&problem).unwrap()).unwrap();
        let candidate = state.candidate(&problem, &step);
        let evaluation = evaluate_knots(&candidate.knots, base, names.len(), &pose, &heading);
        let ending = state.judge(&problem, candidate, evaluation);
        merits.push(back(state.merit));
        if ending.is_some() {
            break;
        }
    }
    assert!(merits.windows(2).all(|pair| pair[1] <= pair[0]));
    assert!(merits.last().unwrap() < &merits[0]);
    drop(moving);

    // The run as a whole comes to the same.
    let run = optimize(&goals, &mut robot, test_config(EeTracking::Soft), &start).unwrap();
    assert_eq!(run.merit, Some(state.merit));
    assert!(run.accepted);
}

#[test]
fn no_iterations_return_the_clamped_warm_start() {
    let mut robot = Robot::build();
    let goals = straight_goals(3, 0.1);
    let mut start = warm_start(&mut robot, &goals);
    let wrist = robot.index("ur5ewrist_1_joint");
    start[1][wrist] = 50.0;
    let mut config = test_config(EeTracking::Soft);
    config.sqp_max_iterations = 0;
    let run = optimize(&goals, &mut robot, config, &start).unwrap();
    start[1][wrist] = 2.0 * std::f64::consts::PI;
    assert_eq!(knots_of(&run), start);
    assert!(matches!(run.ending, Ending::IterationsExhausted));
    assert!(!run.accepted);
}

#[test]
fn slips_of_the_optimized_trajectory_are_within_tolerance() {
    let mut robot = Robot::build();
    let goals = straight_goals(4, 0.15);
    let start = warm_start(&mut robot, &goals);
    let run = optimize(&goals, &mut robot, test_config(EeTracking::Soft), &start).unwrap();
    let base = base_indices(&robot);
    let knots = &run.knots;
    let slips = slip_residuals(knots, base, &headings(knots, base, &heading));
    assert_eq!(slips.len(), goals.len() - 1);
    assert_eq!(summarize_slip(&slips).count_above_tol, 0);
}

fn path_config(solve_first_pose_only: bool, align_first_pose_base_yaw: bool) -> PathConfig {
    PathConfig {
        waypoints: vec![],
        poses_per_segment: 1,
        solve_first_pose_only,
        align_first_pose_base_yaw,
        corner_radius: of(0.0),
    }
}

// The base is turned along the path for the first pose; later poses are free.
#[test]
fn poses_are_solved_in_turn_from_a_pinned_start() {
    let mut robot = Robot::build();
    let goals = straight_goals(3, 0.1);
    let positions: Vec<_> = goals.iter().map(|g| vector_of(&g.translation.vector)).collect();
    let mut settings = ik_config(vec![pin("ur5eelbow_joint", 1.0)]);
    pin_base_yaw(&mut settings, &path_config(false, true), &positions, |y, x| {
        of(back(y).atan2(back(x)))
    });
    assert_eq!(settings.equality_constraints.len(), 2);
    let pinned = settings.equality_constraints[1].target_value;
    assert_eq!(settings.equality_constraints[1].joint_name, "world_base_link_planar_yaw");

    let seed = list_of(&robot.positions());
    let yaw = base_indices(&robot).yaw;
    let elbow = robot.index("ur5eelbow_joint");
    let moving = RefCell::new(&mut robot);
    let counts = RefCell::new(vec![]);
    let solved = sequential_ik(
        goals.len(),
        &path_config(false, true),
        settings,
        seed,
        |pose, settings: &DifferentialIkConfig, start: &Vec<Double>| {
            counts.borrow_mut().push(settings.equality_constraints.len());
            let mut robot = moving.borrow_mut();
            robot.set_positions(&list_back(start));
            let mut way = differential_ik(&goals[pose], &mut robot, settings)?;
            assert_eq!(way[0], list_back(start));
            Ok(list_of(&way.pop().unwrap()))
        },
    )
    .unwrap();
    assert_eq!(solved.len(), goals.len());
    assert_eq!(*counts.borrow(), vec![2, 0, 0]);
    assert!((back(solved[0][yaw]) - back(pinned)).abs() < 1e-9);
    assert!((back(solved[0][elbow]) - 1.0).abs() < 1e-9);
}

#[test]
fn one_pose_is_solved_where_only_the_first_is_wanted() {
    let settings = ik_config(vec![pin("a", 1.0)]);
    let solved = sequential_ik(
        5,
        &path_config(true, false),
        settings,
        list_of(&[0.0]),
        |pose, _: &DifferentialIkConfig, start: &Vec<Double>| {
            Ok(list_of(&[back(start[0]) + 1.0 + pose as f64]))
        },
    )
    .unwrap();
    assert_eq!(solved, vec![list_of(&[1.0])]);

    let failed = sequential_ik(
        5,
        &path_config(false, false),
        ik_config(vec![]),
        list_of(&[0.0]),
        |pose, _: &DifferentialIkConfig, start: &Vec<Double>| {
            if pose == 3 {
                Err(format!("pose {pose} from {}", back(start[0])))
            } else {
                Ok(list_of(&[back(start[0]) + 1.0]))
            }
        },
    );
    assert_eq!(failed.err().unwrap(), "pose 3 from 3");
}

#[test]
fn pose_evaluation_holds_the_norm_and_the_products() {
    let reading = PoseReading {
        twist: list_of(&[3.0, 0.0, 4.0, 0.0, 0.0, 0.0]),
        jacobian: Matrix::from_rows((0..6).map(|r| list_of(&[1.0, r as f64])).collect(), 2),
    };
    let evaluation = PoseEvaluation::of(&reading);
    assert_eq!(back(evaluation.twist_norm), 5.0);
    assert_eq!(list_back(&evaluation.normal.row(1)), vec![15.0, 55.0]);
    assert_eq!(list_back(&evaluation.gradient), vec![7.0, 8.0]);
}

// The rows of pinned joints lie within the box of the step.
#[test]
fn pinned_joints_stay_within_the_box() {
    let mut robot = Robot::build();
    let (lower, upper) = robot.limits();
    let elbow = robot.index("ur5eelbow_joint");
    let limit = back(upper[elbow]);
    let n = lower.len();
    robot.set_positions(&vec![0.7; n]);
    let solve = IkSolve::start(
        &ik_config(vec![pin("ur5eelbow_joint", limit), pin("world_base_link_planar_yaw", 0.1)]),
        &robot.joint_names(),
        lower,
        upper,
        list_of(&robot.positions()),
    )
    .ok()
    .unwrap();
    let program = solve.program(&PoseEvaluation {
        twist_norm: of(1.0),
        normal: Matrix::zeros(n, n),
        gradient: vec![of(2.0); n],
    });
    assert_eq!(back(program.b_eq[0]), limit - 0.7);
    assert_eq!(back(program.b_eq[1]), 0.1 - 0.7);
    assert_eq!(program.b_eq[0], program.ub[elbow]);
    for (row, &joint) in solve.equalities.joints.iter().enumerate() {
        assert!(program.lb[joint].le(program.b_eq[row]));
        assert!(program.b_eq[row].le(program.ub[joint]));
    }
    // P = λ²I and q = −Jᵀν.
    assert_eq!(back(program.p.get(3, 3)), 0.25);
    assert_eq!(back(program.p.get(3, 4)), 0.0);
    assert_eq!(back(program.q[0]), -2.0);
}

// A step whose program is not solved ends the solve.
#[test]
fn unsolved_step_ends_the_solve() {
    let mut robot = Robot::build();
    let (lower, upper) = robot.limits();
    let start = list_of(&robot.positions());
    let names = robot.joint_names();
    let n = names.len();
    robot.set_positions(&vec![0.1; n]);
    let far = |_: &Vec<Double>| PoseReading {
        twist: list_of(&[1.0, 0.0, 0.0, 0.0, 0.0, 0.0]),
        jacobian: Matrix::zeros(6, n),
    };
    let error = wbdd::differential_ik(
        &ik_config(vec![]),
        &names,
        lower,
        upper,
        start,
        far,
        |_: &QuadraticProgram| Err("qp_not_solved: MaxTime".to_string()),
    )
    .err()
    .unwrap();
    match error {
        IkError::Solver(message) => assert_eq!(message, "qp_not_solved: MaxTime"),
        _ => panic!("wrong error"),
    }
}

#[test]
fn too_few_iterations_return_the_best_iterate() {
    let mut robot = Robot::build();
    let goals = straight_goals(4, 0.15);
    let start = warm_start(&mut robot, &goals);
    let mut config = test_config(EeTracking::Soft);
    config.sqp_max_iterations = 1;
    let run = optimize(&goals, &mut robot, config, &start).unwrap();
    assert!(matches!(run.ending, Ending::IterationsExhausted));
    assert_eq!(
        run.ending.warning(1).unwrap(),
        "trajectory optimization did not converge within 1 iterations; returning last iterate"
    );
}
