use wbdd::configs::{EeTracking, TrajectoryConfig};
use wbdd::cost::add_block;
use wbdd::diagnostics::{midpoint_yaw, BaseIndices, Heading};
use wbdd::double::Double;
use wbdd::linearization::{
    forward_progress_linearization, nonholonomic_linearization, Evaluation, KnotEvaluation, PoseReading,
};
use wbdd::matrix::Matrix;
use wbdd::merit::merit;
use wbdd::qp::QuadraticProgram;
use wbdd::sqp::{Candidate, Ending, SqpProblem, SqpState};
use wbdd::subproblem::assemble_subproblem;
use wbdd::trajectory::{exceeds_velocity, optimize, prepare};

fn of(value: f64) -> Double {
    Double { bits: value.to_bits() }
}

fn back(value: Double) -> f64 {
    f64::from_bits(value.bits)
}

fn list_of(values: &[f64]) -> Vec<Double> {
    values.iter().map(|&value| of(value)).collect()
}

fn list_back(values: &[Double]) -> Vec<f64> {
    values.iter().map(|&value| back(value)).collect()
}

fn row(matrix: &Matrix, r: usize) -> Vec<f64> {
    list_back(&matrix.row(r))
}

fn heading(q0: &Vec<Double>, q1: &Vec<Double>, base: BaseIndices) -> Heading {
    let (sin, cos) = back(midpoint_yaw(q0, q1, base)).sin_cos();
    Heading { sin: of(sin), cos: of(cos) }
}

fn base() -> BaseIndices {
    BaseIndices { x: 0, y: 1, yaw: 2 }
}

fn slip_linearization(q_k: &[f64], q_k1: &[f64]) -> (f64, Vec<(usize, f64)>) {
    let (q_k, q_k1) = (list_of(q_k), list_of(q_k1));
    let heading = heading(&q_k, &q_k1, base());
    let (residual, partials) = nonholonomic_linearization(&q_k, &q_k1, base(), heading);
    (
        back(residual),
        partials.iter().map(|&(index, value)| (index, back(value))).collect(),
    )
}

fn progress_linearization(q_k: &[f64], q_k1: &[f64]) -> (f64, Vec<(usize, f64)>) {
    let (q_k, q_k1) = (list_of(q_k), list_of(q_k1));
    let heading = heading(&q_k, &q_k1, base());
    let (progress, partials) = forward_progress_linearization(&q_k, &q_k1, base(), heading);
    (
        back(progress),
        partials.iter().map(|&(index, value)| (index, back(value))).collect(),
    )
}

// Central finite differences over every entry of [q_k ‖ q_k1] must match
// the analytic partials; entries not in the partial list must have zero
// finite-difference gradient.
#[test]
fn nonholonomic_linearization_matches_finite_differences() {
    let q_k = [0.3, -0.2, 0.7, 0.1];
    let q_k1 = [0.6, 0.1, 1.1, -0.4];

    let (_, partials) = slip_linearization(&q_k, &q_k1);
    let mut analytic = [0.0; 8];
    for (index, value) in partials {
        analytic[index] = value;
    }

    let eps = 1e-6;
    for i in 0..8 {
        let mut plus = [q_k, q_k1].concat();
        let mut minus = plus.clone();
        plus[i] += eps;
        minus[i] -= eps;
        let c_plus = slip_linearization(&plus[..4], &plus[4..]).0;
        let c_minus = slip_linearization(&minus[..4], &minus[4..]).0;
        let fd = (c_plus - c_minus) / (2.0 * eps);
        assert!(
            (fd - analytic[i]).abs() < 1e-6,
            "partial {i}: finite difference {fd} vs analytic {}",
            analytic[i]
        );
    }
}

#[test]
fn forward_progress_linearization_matches_finite_differences() {
    let q_k = [0.3, -0.2, 0.7, 0.1];
    let q_k1 = [0.6, 0.1, 1.1, -0.4];
    let (_, partials) = progress_linearization(&q_k, &q_k1);
    let mut analytic = [0.0; 8];
    for (index, value) in partials {
        analytic[index] = value;
    }
    let eps = 1e-6;
    for i in 0..8 {
        let mut plus = [q_k, q_k1].concat();
        let mut minus = plus.clone();
        plus[i] += eps;
        minus[i] -= eps;
        let fd = (progress_linearization(&plus[..4], &plus[4..]).0
            - progress_linearization(&minus[..4], &minus[4..]).0)
            / (2.0 * eps);
        assert!((fd - analytic[i]).abs() < 1e-6, "partial {i}: {fd} vs {}", analytic[i]);
    }
}

// A pure-forward motion (heading exactly along the displacement) must
// satisfy the constraint; a pure-sideways one must violate it maximally.
#[test]
fn nonholonomic_residual_semantics() {
    // Heading 0, moving +x: no slip.
    let (c, _) = slip_linearization(&[0.0, 0.0, 0.0], &[1.0, 0.0, 0.0]);
    assert!(c.abs() < 1e-12, "forward motion flagged as slip: {c}");
    // Heading 0, moving +y: full lateral slip of magnitude 1.
    let (c, _) = slip_linearization(&[0.0, 0.0, 0.0], &[0.0, 1.0, 0.0]);
    assert!(
        (c.abs() - 1.0).abs() < 1e-12,
        "lateral motion residual: {c}"
    );
}

#[test]
fn progress_is_negative_in_reverse() {
    assert_eq!(progress_linearization(&[0.0; 3], &[1.0, 0.0, 0.0]).0, 1.0);
    assert_eq!(progress_linearization(&[0.0; 3], &[-1.0, 0.0, 0.0]).0, -1.0);
}

#[test]
fn blocks_add_up() {
    let mut p = Matrix::zeros(3, 3);
    let block = Matrix::from_rows(vec![list_of(&[1.0, 2.0]), list_of(&[3.0, 4.0])], 2);
    add_block(&mut p, 0, 1, &block);
    add_block(&mut p, 1, 1, &block);
    assert_eq!(row(&p, 0), vec![0.0, 1.0, 2.0]);
    assert_eq!(row(&p, 1), vec![0.0, 4.0, 6.0]);
    assert_eq!(row(&p, 2), vec![0.0, 3.0, 4.0]);
}

fn config(ee_tracking: EeTracking) -> TrajectoryConfig {
    TrajectoryConfig {
        enabled: true,
        dt: of(0.5),
        ee_tracking,
        ee_weight: of(10.0),
        smoothness_weight: of(2.0),
        backward_weight: of(0.0),
        max_joint_velocity: of(2.0),
        sqp_max_iterations: 3,
        trust_region: of(0.25),
        convergence_step_norm: of(1e-3),
        damping: of(0.5),
        base_joint_names: ["x", "y", "yaw"].iter().map(|s| s.to_string()).collect(),
    }
}

fn names() -> Vec<String> {
    ["x", "y", "yaw"].iter().map(|s| s.to_string()).collect()
}

fn limits() -> (Vec<Double>, Vec<Double>) {
    (
        list_of(&[-1.0, -1.0, f64::NEG_INFINITY]),
        list_of(&[1.0, 1.0, f64::INFINITY]),
    )
}

/// Knots evaluated as if joint `j` moved axis `j` of the pose, toward `goal`.
fn evaluate(knots: &[Vec<Double>], goal: f64) -> Evaluation {
    let identity = |rows: usize| -> Matrix {
        let rows = (0..rows)
            .map(|r| (0..3).map(|c| of(if r == c { 1.0 } else { 0.0 })).collect())
            .collect();
        Matrix::from_rows(rows, 3)
    };
    let evaluations = knots
        .iter()
        .map(|knot| {
            let mut residual: Vec<f64> = knot.iter().map(|&q| goal - back(q)).collect();
            residual.resize(6, 0.0);
            KnotEvaluation::of(PoseReading {
                twist: list_of(&residual),
                jacobian: identity(6),
            })
        })
        .collect();
    Evaluation {
        knots: evaluations,
        headings: knots
            .windows(2)
            .map(|pair| heading(&pair[0], &pair[1], base()))
            .collect(),
    }
}

fn two_knots() -> Vec<Vec<Double>> {
    vec![list_of(&[0.0, 0.0, 0.0]), list_of(&[0.5, 0.25, 0.0])]
}

#[test]
fn soft_subproblem_has_the_documented_terms() {
    let knots = two_knots();
    let (lower, upper) = limits();
    let program = assemble_subproblem(
        &knots,
        &evaluate(&knots, 1.0),
        &config(EeTracking::Soft),
        base(),
        &lower,
        &upper,
        of(0.25),
        of(1.0),
    )
    .unwrap();
    // w_ee·JᵀJ + w_s on the diagonal, plus damping; −w_s between the knots.
    assert_eq!(row(&program.p, 0), vec![12.5, 0.0, 0.0, -2.0, 0.0, 0.0]);
    assert_eq!(row(&program.p, 4), vec![0.0, -2.0, 0.0, 0.0, 12.5, 0.0]);
    // −w_ee·Jᵀr, and ∓w_s·d.
    assert_eq!(
        list_back(&program.q),
        vec![-11.0, -10.5, -10.0, -5.0 + 1.0, -7.5 + 0.5, -10.0]
    );
    // One no-slip row: c = −Δy at heading zero.
    assert_eq!(program.a_eq.nrows(), 1);
    assert_eq!(row(&program.a_eq, 0), vec![-0.0, 1.0, 0.25, 0.0, -1.0, 0.25]);
    assert_eq!(list_back(&program.b_eq), vec![0.25]);
    // |d + Δ₁ − Δ₀| ≤ v·dt = 1, two rows per joint.
    assert_eq!(program.a_in.nrows(), 6);
    assert_eq!(row(&program.a_in, 0), vec![-1.0, 0.0, 0.0, 1.0, 0.0, 0.0]);
    assert_eq!(row(&program.a_in, 1), vec![1.0, 0.0, 0.0, -1.0, 0.0, 0.0]);
    assert_eq!(list_back(&program.b_in), vec![0.5, 1.5, 0.75, 1.25, 1.0, 1.0]);
    // Joint limits around the iterate, within the trust region.
    assert_eq!(list_back(&program.lb), vec![-0.25; 6]);
    assert_eq!(list_back(&program.ub), vec![0.25; 6]);
}

#[test]
fn box_is_the_nearer_of_limit_and_trust_region() {
    let knots = vec![list_of(&[0.9, -0.95, 7.0]), list_of(&[0.0, 0.0, 7.0])];
    let (lower, upper) = limits();
    let program = assemble_subproblem(
        &knots,
        &evaluate(&knots, 1.0),
        &config(EeTracking::Soft),
        base(),
        &lower,
        &upper,
        of(0.25),
        of(1.0),
    )
    .unwrap();
    assert_eq!(list_back(&program.lb)[..3], [-0.25, -1.0 + 0.95, -0.25]);
    assert_eq!(list_back(&program.ub)[..3], [1.0 - 0.9, 0.25, 0.25]);
}

#[test]
fn hard_subproblem_scales_only_the_pose_targets() {
    let knots = two_knots();
    let (lower, upper) = limits();
    let program = assemble_subproblem(
        &knots,
        &evaluate(&knots, 1.0),
        &config(EeTracking::Hard),
        base(),
        &lower,
        &upper,
        of(0.25),
        of(0.5),
    )
    .unwrap();
    assert_eq!(program.a_eq.nrows(), 13);
    assert_eq!(row(&program.a_eq, 1), vec![1.0, 0.0, 0.0, 0.0, 0.0, 0.0]);
    assert_eq!(row(&program.a_eq, 8), vec![0.0, 0.0, 0.0, 0.0, 1.0, 0.0]);
    let targets = list_back(&program.b_eq);
    assert_eq!(targets[0], 0.25);
    assert_eq!(targets[1..4], [0.5, 0.5, 0.5]);
    assert_eq!(targets[7..10], [0.25, 0.375, 0.5]);
    // No tracking cost: smoothness and damping only.
    assert_eq!(row(&program.p, 0), vec![2.5, 0.0, 0.0, -2.0, 0.0, 0.0]);
}

#[test]
fn velocity_budget_tightens_step_by_step() {
    // A difference of 0.75 against a limit of 0.2·0.5 = 0.1: within one step of
    // 0.25 only 0.5 can be asked for.
    let knots = vec![list_of(&[0.0, 0.0, 0.0]), list_of(&[0.75, 0.0, 0.0])];
    let (lower, upper) = limits();
    let mut config = config(EeTracking::Soft);
    config.max_joint_velocity = of(0.2);
    let program = assemble_subproblem(
        &knots,
        &evaluate(&knots, 1.0),
        &config,
        base(),
        &lower,
        &upper,
        of(0.25),
        of(1.0),
    )
    .unwrap();
    assert_eq!(list_back(&program.b_in), vec![-0.25, 1.25, 0.1, 0.1, 0.1, 0.1]);
    assert!(exceeds_velocity(&knots, &config, 3));
    config.max_joint_velocity = of(1.5);
    assert!(!exceeds_velocity(&knots, &config, 3));
}

#[test]
fn reverse_motion_is_penalized_only_with_a_weight() {
    let knots = vec![list_of(&[0.0, 0.0, 0.0]), list_of(&[-0.5, 0.0, 0.0])];
    let (lower, upper) = limits();
    let assemble = |config: &TrajectoryConfig| {
        assemble_subproblem(
            &knots,
            &evaluate(&knots, 0.0),
            config,
            base(),
            &lower,
            &upper,
            of(0.25),
            of(1.0),
        )
        .unwrap()
    };
    let mut config = config(EeTracking::Hard);
    let free = assemble(&config);
    config.backward_weight = of(4.0);
    let penalized = assemble(&config);
    // s = −0.5 with gradient (−1, 0, 0, 1, 0, 0): P += 4·g·gᵀ, q += 4·s·g.
    assert_eq!(row(&free.p, 0), vec![2.5, 0.0, 0.0, -2.0, 0.0, 0.0]);
    assert_eq!(row(&penalized.p, 0), vec![6.5, 0.0, 0.0, -6.0, 0.0, 0.0]);
    assert_eq!(
        back(penalized.q[0]) - back(free.q[0]),
        2.0
    );
    assert_eq!(back(penalized.q[3]) - back(free.q[3]), -2.0);
    // The merit counts ½·4·0.5² more.
    let evaluation = evaluate(&knots, 0.0);
    let with = back(merit(&knots, &evaluation, &config, base(), 3));
    config.backward_weight = of(0.0);
    let without = back(merit(&knots, &evaluation, &config, base(), 3));
    assert_eq!(with - without, 0.5);
}

#[test]
fn degenerate_residual_names_its_knot() {
    let knots = two_knots();
    let (lower, upper) = limits();
    let mut evaluation = evaluate(&knots, 1.0);
    evaluation.knots[1].residual[4] = of(f64::NAN);
    let error = assemble_subproblem(
        &knots,
        &evaluation,
        &config(EeTracking::Soft),
        base(),
        &lower,
        &upper,
        of(0.25),
        of(1.0),
    )
    .err()
    .unwrap();
    assert_eq!(
        error,
        "non-finite pose residual at knot 1; goal or configuration is degenerate"
    );
}

#[test]
fn merit_sums_cost_and_violations() {
    let knots = two_knots();
    // Tracking: ½·10·(3 + 0.25 + 0.5625 + 1); smoothness: ½·2·(0.25 + 0.0625);
    // slip 0.25.
    let value = back(merit(&knots, &evaluate(&knots, 1.0), &config(EeTracking::Soft), base(), 3));
    assert_eq!(value, 5.0 * 4.8125 + 0.3125 + 1e4 * 0.25);
    // Hard mode: the pose errors' sizes are violations instead.
    let value = back(merit(&knots, &evaluate(&knots, 1.0), &config(EeTracking::Hard), base(), 3));
    assert_eq!(value, 0.3125 + 1e4 * (0.25 + 5.25));
}

#[test]
fn invalid_settings_are_rejected_in_order() {
    let (lower, upper) = limits();
    let knots = two_knots();
    let reject = |count: usize, config: &TrajectoryConfig, knots: &Vec<Vec<Double>>| -> String {
        prepare(count, &names(), config, knots, &lower, &upper).err().unwrap()
    };
    let good = config(EeTracking::Soft);
    assert_eq!(reject(1, &good, &knots), "trajectory optimization needs at least 2 knots");
    assert_eq!(
        reject(13, &good, &knots),
        "warm start has 2 knots but the path has 13"
    );
    let short = vec![list_of(&[0.0, 0.0, 0.0]), list_of(&[0.0, 0.0])];
    assert_eq!(
        reject(2, &good, &short),
        "warm-start knot dimension does not match the chain"
    );
    for field in 0..3 {
        let mut bad = config(EeTracking::Soft);
        match field {
            0 => bad.dt = of(0.0),
            1 => bad.trust_region = of(-1.0),
            _ => bad.damping = of(-0.0),
        }
        bad.ee_weight = of(-1.0);
        assert_eq!(
            reject(2, &bad, &knots),
            "trajectory dt, trust_region, and damping must be > 0"
        );
    }
    let mut bad = config(EeTracking::Soft);
    bad.smoothness_weight = of(-1.0);
    bad.max_joint_velocity = of(0.0);
    assert_eq!(
        reject(2, &bad, &knots),
        "trajectory ee_weight and smoothness_weight must be >= 0"
    );
    bad.smoothness_weight = of(0.0);
    assert_eq!(reject(2, &bad, &knots), "trajectory max_joint_velocity must be > 0");
    bad.max_joint_velocity = of(1.0);
    bad.base_joint_names[2] = "z".to_string();
    assert_eq!(reject(2, &bad, &knots), "base joint 'z' not in serial chain");
}

#[test]
fn settings_that_are_no_numbers_are_rejected() {
    let (lower, upper) = limits();
    let knots = two_knots();
    let nan = of(f64::NAN);
    for field in 0..6 {
        let mut bad = config(EeTracking::Soft);
        let text = match field {
            0..=2 => "trajectory dt, trust_region, and damping must be > 0",
            3 | 4 => "trajectory ee_weight and smoothness_weight must be >= 0",
            _ => "trajectory max_joint_velocity must be > 0",
        };
        match field {
            0 => bad.dt = nan,
            1 => bad.trust_region = nan,
            2 => bad.damping = nan,
            3 => bad.ee_weight = nan,
            4 => bad.smoothness_weight = nan,
            _ => bad.max_joint_velocity = nan,
        }
        let error = prepare(2, &names(), &bad, &knots, &lower, &upper).err().unwrap();
        assert_eq!(error, text);
    }
}

#[test]
fn no_iterations_ask_nothing() {
    let (lower, upper) = limits();
    let knots = vec![list_of(&[-3.0, 0.5, 0.0]), list_of(&[0.0, 2.0, 0.0])];
    let mut none = config(EeTracking::Soft);
    none.sqp_max_iterations = 0;
    let moved = prepare(2, &names(), &none, &knots, &lower, &upper).ok().unwrap().1;
    let run = optimize(
        2,
        &names(),
        none,
        &knots,
        lower,
        upper,
        |_, _: &Vec<Double>| -> PoseReading { panic!("the kinematics was asked") },
        |_| -> Heading { panic!("a heading was asked") },
        |_: &QuadraticProgram| -> Result<Vec<Double>, String> { panic!("the solver was asked") },
    )
    .ok()
    .unwrap();
    assert_eq!(run.knots, moved);
    assert_eq!(run.merit, None);
    assert!(!run.accepted);
    assert!(matches!(run.ending, Ending::IterationsExhausted));
}

/// xᵀPx of a subproblem, and damping·|x|².
fn form_and_floor(program: &QuadraticProgram, damping: f64, x: &[f64]) -> (f64, f64) {
    let mut form = 0.0;
    for r in 0..x.len() {
        for c in 0..x.len() {
            form += x[r] * back(program.p.get(r, c)) * x[c];
        }
    }
    (form, damping * x.iter().map(|value| value * value).sum::<f64>())
}

#[test]
fn damping_keeps_the_quadratic_term_positive_definite() {
    let knots = two_knots();
    let (lower, upper) = limits();
    for tracking in [EeTracking::Soft, EeTracking::Hard] {
        let config = config(tracking);
        let damping = back(config.damping);
        let evaluation = evaluate(&knots, -1.0);
        let program = assemble_subproblem(
            &knots,
            &evaluation,
            &config,
            base(),
            &lower,
            &upper,
            of(0.25),
            of(1.0),
        )
        .unwrap();
        for x in [
            [1.0, 0.0, 0.0, 0.0, 0.0, 0.0],
            [1.0, -2.0, 0.5, 1.0, -2.0, 0.5],
            [0.3, 0.1, -0.7, -0.2, 0.9, 0.4],
        ] {
            let (form, floor) = form_and_floor(&program, damping, &x);
            assert!(form >= floor - 1e-12);
        }
    }
}

#[test]
fn warm_start_is_moved_into_the_limits() {
    let (lower, upper) = limits();
    let knots = vec![list_of(&[-3.0, 0.5, 100.0]), list_of(&[0.0, 2.0, -100.0])];
    let (base, knots) = prepare(2, &names(), &config(EeTracking::Soft), &knots, &lower, &upper)
        .ok()
        .unwrap();
    assert_eq!((base.x, base.y, base.yaw), (0, 1, 2));
    assert_eq!(list_back(&knots[0]), vec![-1.0, 0.5, 100.0]);
    assert_eq!(list_back(&knots[1]), vec![0.0, 1.0, -100.0]);
}

fn problem(ee_tracking: EeTracking) -> SqpProblem {
    let (lower, upper) = limits();
    SqpProblem {
        config: config(ee_tracking),
        base: base(),
        lower,
        upper,
    }
}

fn start(problem: &SqpProblem) -> SqpState {
    let knots = two_knots();
    let evaluation = evaluate(&knots, 1.0);
    SqpState::start(problem, knots, evaluation)
}

#[test]
fn candidate_is_clamped_and_measured() {
    let problem = problem(EeTracking::Soft);
    let state = start(&problem);
    let candidate = state.candidate(&problem, &list_of(&[0.1, -2.0, 0.2, 0.75, 0.0, -0.3]));
    assert_eq!(list_back(&candidate.knots[0]), vec![0.1, -1.0, 0.2]);
    assert_eq!(list_back(&candidate.knots[1]), vec![1.0, 0.25, -0.3]);
    assert_eq!(back(candidate.step_norm), 2.0);
}

#[test]
fn better_candidate_is_accepted() {
    let problem = problem(EeTracking::Soft);
    let mut state = start(&problem);
    state.radius = of(0.0625);
    let candidate = state.candidate(&problem, &list_of(&[0.0, 0.25, 0.0, 0.0, 0.0, 0.0]));
    let evaluation = evaluate(&candidate.knots, 1.0);
    let before = back(state.merit);
    assert!(state.judge(&problem, candidate, evaluation).is_none());
    assert!(back(state.merit) < before);
    assert!(state.accepted);
    assert_eq!(back(state.radius), 0.125);
    assert_eq!(state.iteration, 1);
    assert_eq!(list_back(&state.knots[0]), vec![0.0, 0.25, 0.0]);
}

#[test]
fn radius_grows_no_further_than_configured() {
    let problem = problem(EeTracking::Soft);
    let mut state = start(&problem);
    let candidate = state.candidate(&problem, &list_of(&[0.0, 0.25, 0.0, 0.0, 0.0, 0.0]));
    let evaluation = evaluate(&candidate.knots, 1.0);
    state.judge(&problem, candidate, evaluation);
    assert_eq!(back(state.radius), 0.25);
}

#[test]
fn worse_candidate_is_rejected_until_the_radius_collapses() {
    let mut problem = problem(EeTracking::Soft);
    problem.config.sqp_max_iterations = 100;
    let mut state = start(&problem);
    let merit = back(state.merit);
    let mut radii = Vec::new();
    let ending = loop {
        let candidate = state.candidate(&problem, &list_of(&[0.0, -0.25, 0.0, 0.0, 0.0, 0.0]));
        let evaluation = evaluate(&candidate.knots, 1.0);
        let ending = state.judge(&problem, candidate, evaluation);
        radii.push(back(state.radius));
        if let Some(ending) = ending {
            break ending;
        }
    };
    assert!(matches!(ending, Ending::TrustRegionCollapsed));
    assert_eq!(radii.len(), 7);
    assert_eq!(radii[5], 0.25 / 64.0);
    assert_eq!(radii[6], 0.25 / 128.0);
    assert_eq!(back(state.merit), merit);
    assert!(!state.accepted);
    assert_eq!(
        ending.warning(100).unwrap(),
        "trajectory optimization stalled: the trust region collapsed; returning last iterate"
    );
}

#[test]
fn small_full_step_converges_and_small_relaxed_step_does_not() {
    let problem = problem(EeTracking::Hard);
    let tiny = list_of(&[0.0, 1e-4, 0.0, 0.0, 0.0, 0.0]);

    let mut state = start(&problem);
    let candidate = state.candidate(&problem, &tiny);
    let evaluation = evaluate(&candidate.knots, 1.0);
    let ending = state.judge(&problem, candidate, evaluation);
    assert!(matches!(ending, Some(Ending::Converged)));
    assert!(ending.unwrap().warning(3).is_none());

    let mut state = start(&problem);
    assert!(state.fail(&problem, "infeasible".to_string()).unwrap().is_none());
    assert_eq!(back(state.scale), 0.5);
    let candidate = state.candidate(&problem, &tiny);
    let evaluation = evaluate(&candidate.knots, 1.0);
    assert!(state.judge(&problem, candidate, evaluation).is_none());
    // The next iteration starts with the full target again.
    assert_eq!(back(state.scale), 1.0);
    assert_eq!(state.halvings, 0);
}

#[test]
fn iterations_run_out() {
    let problem = problem(EeTracking::Soft);
    let mut state = start(&problem);
    for iteration in 0..3 {
        let candidate = state.candidate(&problem, &list_of(&[0.0, 0.01, 0.0, 0.0, 0.0, 0.0]));
        let evaluation = evaluate(&candidate.knots, 1.0);
        let ending = state.judge(&problem, candidate, evaluation);
        assert_eq!(ending.is_some(), iteration == 2);
        if let Some(ending) = ending {
            assert!(matches!(ending, Ending::IterationsExhausted));
        }
    }
}

#[test]
fn hard_mode_halves_the_target_four_times() {
    let problem = problem(EeTracking::Hard);
    let mut state = start(&problem);
    for scale in [0.5, 0.25, 0.125, 0.0625] {
        assert!(state.fail(&problem, "stuck".to_string()).unwrap().is_none());
        assert_eq!(back(state.scale), scale);
    }
    assert_eq!(
        state.fail(&problem, "stuck".to_string()).err().unwrap(),
        "sqp iteration 0: stuck; ee_tracking: hard can conflict with base kinematics — try soft"
    );
}

#[test]
fn soft_mode_fails_at_once() {
    let problem = problem(EeTracking::Soft);
    let mut state = start(&problem);
    state.iteration = 12;
    assert_eq!(
        state.fail(&problem, "stuck".to_string()).err().unwrap(),
        "sqp iteration 12: stuck"
    );
}

#[test]
fn failure_after_progress_keeps_the_best_iterate() {
    let problem = problem(EeTracking::Soft);
    let mut state = start(&problem);
    let candidate = state.candidate(&problem, &list_of(&[0.0, 0.25, 0.0, 0.0, 0.0, 0.0]));
    let evaluation = evaluate(&candidate.knots, 1.0);
    assert!(state.judge(&problem, candidate, evaluation).is_none());
    let ending = state.fail(&problem, "stuck".to_string()).unwrap().unwrap();
    assert_eq!(
        ending.warning(3).unwrap(),
        "trajectory optimization stopped early: stuck; returning best iterate"
    );
    assert_eq!(list_back(&state.knots[0]), vec![0.0, 0.25, 0.0]);
}

#[test]
fn candidate_that_is_not_a_number_is_rejected() {
    let problem = problem(EeTracking::Soft);
    let mut state = start(&problem);
    let candidate = Candidate {
        knots: two_knots(),
        step_norm: of(0.25),
    };
    let mut evaluation = evaluate(&candidate.knots, 1.0);
    evaluation.knots[0].residual[0] = of(f64::NAN);
    assert!(state.judge(&problem, candidate, evaluation).is_none());
    assert!(!state.accepted);
}

// Neither a NaN nor an infinity that a solver answers with gets into an iterate.
#[test]
fn steps_that_are_no_numbers_are_rejected() {
    let (lower, upper) = limits();
    let problem = SqpProblem { config: config(EeTracking::Soft), base: base(), lower, upper };
    for bad in [f64::NAN, f64::INFINITY] {
        let knots = two_knots();
        let evaluation = evaluate(&knots, 1.0);
        let mut state = SqpState::start(&problem, knots, evaluation);
        let candidate = state.candidate(&problem, &list_of(&[0.0, 0.0, bad, 0.0, 0.0, 0.0]));
        let evaluation = evaluate(&candidate.knots, 1.0);
        state.judge(&problem, candidate, evaluation);
        assert!(!state.accepted);
        assert_eq!(state.knots, two_knots());
    }
}

#[test]
fn products_are_those_of_the_jacobian() {
    let jacobian = Matrix::from_rows(
        (0..6).map(|r| list_of(&[r as f64, if r == 0 { 2.0 } else { -1.0 }])).collect(),
        2,
    );
    let evaluation = KnotEvaluation::of(PoseReading {
        twist: list_of(&[1.0, 2.0, 3.0, 4.0, 5.0, 6.0]),
        jacobian,
    });
    assert_eq!(row(&evaluation.normal, 0), vec![55.0, -15.0]);
    assert_eq!(row(&evaluation.normal, 1), vec![-15.0, 9.0]);
    assert_eq!(list_back(&evaluation.gradient), vec![70.0, -18.0]);
}
