use clarabel::algebra::CscMatrix;
use clarabel::solver::{DefaultSettingsBuilder, DefaultSolver, IPSolver, SupportedConeT};
use k::nalgebra::{DMatrix, DVector};
use wbdd::double::Double;
use wbdd::matrix::Matrix;
use wbdd::qp::{
    conic_form, solution, to_csc, ConicProgram, Csc, QuadraticProgram, SolverStatus,
};

fn of(value: f64) -> Double {
    Double { bits: value.to_bits() }
}

fn back(value: Double) -> f64 {
    f64::from_bits(value.bits)
}

fn list_of(values: &DVector<f64>) -> Vec<Double> {
    values.iter().map(|&value| of(value)).collect()
}

fn list_back(values: &[Double]) -> Vec<f64> {
    values.iter().map(|&value| back(value)).collect()
}

fn matrix_of(matrix: &DMatrix<f64>) -> Matrix {
    let rows = (0..matrix.nrows())
        .map(|r| (0..matrix.ncols()).map(|c| of(matrix[(r, c)])).collect())
        .collect();
    Matrix::from_rows(rows, matrix.ncols())
}

fn sparse(csc: &Csc) -> CscMatrix<f64> {
    CscMatrix::new(
        csc.nrows,
        csc.ncols,
        csc.colptr.clone(),
        csc.rowval.clone(),
        list_back(&csc.nzval),
    )
}

fn status_of(status: clarabel::solver::SolverStatus) -> SolverStatus {
    match status {
        clarabel::solver::SolverStatus::Solved => SolverStatus::Solved,
        clarabel::solver::SolverStatus::AlmostSolved => SolverStatus::AlmostSolved,
        clarabel::solver::SolverStatus::PrimalInfeasible => SolverStatus::PrimalInfeasible,
        clarabel::solver::SolverStatus::DualInfeasible => SolverStatus::DualInfeasible,
        _ => SolverStatus::NumericalError,
    }
}

#[allow(clippy::too_many_arguments)]
fn solve(
    p: &DMatrix<f64>,
    q: &DVector<f64>,
    a_eq: &DMatrix<f64>,
    b_eq: &DVector<f64>,
    a_in: &DMatrix<f64>,
    b_in: &DVector<f64>,
    lb: &DVector<f64>,
    ub: &DVector<f64>,
) -> Result<Vec<f64>, String> {
    let program = QuadraticProgram {
        p: matrix_of(p),
        q: list_of(q),
        a_eq: matrix_of(a_eq),
        b_eq: list_of(b_eq),
        a_in: matrix_of(a_in),
        b_in: list_of(b_in),
        lb: list_of(lb),
        ub: list_of(ub),
    };
    wbdd::qp::solve(&program, run_clarabel).map(|x| list_back(&x))
}

fn run_clarabel(conic: &ConicProgram) -> Result<(SolverStatus, Vec<Double>), String> {
    let cones = [
        SupportedConeT::ZeroConeT(conic.zero_rows),
        SupportedConeT::NonnegativeConeT(conic.nonnegative_rows),
    ];
    let settings = DefaultSettingsBuilder::default()
        .verbose(false)
        .tol_feas(1e-10)
        .build()
        .unwrap();
    let mut solver = DefaultSolver::new(
        &sparse(&conic.p),
        &list_back(&conic.q),
        &sparse(&conic.a),
        &list_back(&conic.b),
        &cones,
        settings,
    )
    .map_err(|e| format!("clarabel_setup: {e:?}"))?;
    solver.solve();
    let x = solver.solution.x.iter().map(|&value| of(value)).collect();
    Ok((status_of(solver.solution.status), x))
}

fn no_rows(n: usize) -> (DMatrix<f64>, DVector<f64>) {
    (DMatrix::zeros(0, n), DVector::zeros(0))
}

fn free_bounds(n: usize) -> (DVector<f64>, DVector<f64>) {
    (
        DVector::from_element(n, f64::NEG_INFINITY),
        DVector::from_element(n, f64::INFINITY),
    )
}

// min ½xᵀIx - [1,2]ᵀx  →  x = [1, 2].
#[test]
fn unconstrained_minimum() {
    let (a_eq, b_eq) = no_rows(2);
    let (a_in, b_in) = no_rows(2);
    let (lb, ub) = free_bounds(2);
    let x = solve(
        &DMatrix::identity(2, 2),
        &DVector::from_vec(vec![-1.0, -2.0]),
        &a_eq,
        &b_eq,
        &a_in,
        &b_in,
        &lb,
        &ub,
    )
    .unwrap();
    assert!((x[0] - 1.0).abs() < 1e-6, "got {}", x[0]);
    assert!((x[1] - 2.0).abs() < 1e-6, "got {}", x[1]);
}

// Same objective, but x0 pinned to 0.3 by an equality row.
#[test]
fn equality_row_held() {
    let mut a_eq = DMatrix::zeros(1, 2);
    a_eq[(0, 0)] = 1.0;
    let b_eq = DVector::from_vec(vec![0.3]);
    let (a_in, b_in) = no_rows(2);
    let (lb, ub) = free_bounds(2);
    let x = solve(
        &DMatrix::identity(2, 2),
        &DVector::from_vec(vec![-1.0, -2.0]),
        &a_eq,
        &b_eq,
        &a_in,
        &b_in,
        &lb,
        &ub,
    )
    .unwrap();
    assert!((x[0] - 0.3).abs() < 1e-6, "got {}", x[0]);
    assert!((x[1] - 2.0).abs() < 1e-6, "got {}", x[1]);
}

// Unconstrained minimum is x1 = 2; upper bound 0.5 must clamp it.
#[test]
fn upper_bound_activates() {
    let (a_eq, b_eq) = no_rows(2);
    let (a_in, b_in) = no_rows(2);
    let (lb, mut ub) = free_bounds(2);
    ub[1] = 0.5;
    let x = solve(
        &DMatrix::identity(2, 2),
        &DVector::from_vec(vec![-1.0, -2.0]),
        &a_eq,
        &b_eq,
        &a_in,
        &b_in,
        &lb,
        &ub,
    )
    .unwrap();
    assert!((x[1] - 0.5).abs() < 1e-6, "got {}", x[1]);
    assert!((x[0] - 1.0).abs() < 1e-6, "got {}", x[0]);
}

// Mirror of the above for the lower bound.
#[test]
fn lower_bound_activates() {
    let (a_eq, b_eq) = no_rows(2);
    let (a_in, b_in) = no_rows(2);
    let (mut lb, ub) = free_bounds(2);
    lb[1] = 3.0;
    let x = solve(
        &DMatrix::identity(2, 2),
        &DVector::from_vec(vec![-1.0, -2.0]),
        &a_eq,
        &b_eq,
        &a_in,
        &b_in,
        &lb,
        &ub,
    )
    .unwrap();
    assert!((x[1] - 3.0).abs() < 1e-6, "got {}", x[1]);
}

// Contradictory equalities: x0 = 0 and x0 = 1. Must error, not panic.
#[test]
fn infeasible_problem_errors() {
    let mut a_eq = DMatrix::zeros(2, 1);
    a_eq[(0, 0)] = 1.0;
    a_eq[(1, 0)] = 1.0;
    let b_eq = DVector::from_vec(vec![0.0, 1.0]);
    let (a_in, b_in) = no_rows(1);
    let (lb, ub) = free_bounds(1);
    let result = solve(
        &DMatrix::identity(1, 1),
        &DVector::zeros(1),
        &a_eq,
        &b_eq,
        &a_in,
        &b_in,
        &lb,
        &ub,
    );
    assert!(result.is_err());
    assert!(result.unwrap_err().starts_with("qp_not_solved: "));
}

// x0 + x1 ≤ 1 cuts off the unconstrained minimum [1, 2]: the nearest point of the
// half-plane is [0, 1].
#[test]
fn inequality_row_activates() {
    let (a_eq, b_eq) = no_rows(2);
    let a_in = DMatrix::from_row_slice(1, 2, &[1.0, 1.0]);
    let b_in = DVector::from_vec(vec![1.0]);
    let (lb, ub) = free_bounds(2);
    let x = solve(
        &DMatrix::identity(2, 2),
        &DVector::from_vec(vec![-1.0, -2.0]),
        &a_eq,
        &b_eq,
        &a_in,
        &b_in,
        &lb,
        &ub,
    )
    .unwrap();
    assert!(x[0].abs() < 1e-6, "got {}", x[0]);
    assert!((x[1] - 1.0).abs() < 1e-6, "got {}", x[1]);
}

#[test]
fn inactive_inequality_row_ignored() {
    let (a_eq, b_eq) = no_rows(2);
    let a_in = DMatrix::from_row_slice(1, 2, &[1.0, 1.0]);
    let b_in = DVector::from_vec(vec![100.0]);
    let (lb, ub) = free_bounds(2);
    let x = solve(
        &DMatrix::identity(2, 2),
        &DVector::from_vec(vec![-1.0, -2.0]),
        &a_eq,
        &b_eq,
        &a_in,
        &b_in,
        &lb,
        &ub,
    )
    .unwrap();
    assert!((x[0] - 1.0).abs() < 1e-6, "got {}", x[0]);
    assert!((x[1] - 2.0).abs() < 1e-6, "got {}", x[1]);
}

#[test]
fn zeros_are_dropped_column_by_column() {
    let dense = DMatrix::from_row_slice(3, 3, &[1.0, 0.0, 4.0, 0.0, -0.0, 5.0, 2.0, 3.0, 0.0]);
    let csc = to_csc(&matrix_of(&dense));
    assert_eq!((csc.nrows, csc.ncols), (3, 3));
    assert_eq!(csc.colptr, vec![0, 2, 3, 5]);
    assert_eq!(csc.rowval, vec![0, 2, 2, 0, 1]);
    assert_eq!(list_back(&csc.nzval), vec![1.0, 2.0, 3.0, 4.0, 5.0]);
}

#[test]
fn constraints_stack_in_order() {
    let program = QuadraticProgram {
        p: matrix_of(&DMatrix::identity(2, 2)),
        q: list_of(&DVector::zeros(2)),
        a_eq: matrix_of(&DMatrix::from_row_slice(1, 2, &[7.0, 8.0])),
        b_eq: vec![of(9.0)],
        a_in: matrix_of(&DMatrix::from_row_slice(1, 2, &[5.0, 6.0])),
        b_in: vec![of(4.0)],
        lb: vec![of(f64::NEG_INFINITY), of(-3.0)],
        ub: vec![of(2.0), of(1.0)],
    };
    let conic = conic_form(&program);
    assert_eq!((conic.zero_rows, conic.nonnegative_rows), (1, 4));
    assert_eq!(list_back(&conic.b), vec![9.0, 4.0, 2.0, 1.0, 3.0]);
    // Columns of [7 8; 5 6; 1 0; 0 1; 0 −1].
    assert_eq!(conic.a.colptr, vec![0, 3, 7]);
    assert_eq!(conic.a.rowval, vec![0, 1, 2, 0, 1, 3, 4]);
    assert_eq!(
        list_back(&conic.a.nzval),
        vec![7.0, 5.0, 1.0, 8.0, 6.0, 1.0, -1.0]
    );
}

#[test]
fn only_solved_statuses_give_a_solution() {
    let failures = [
        (SolverStatus::Unsolved, "Unsolved"),
        (SolverStatus::PrimalInfeasible, "PrimalInfeasible"),
        (SolverStatus::DualInfeasible, "DualInfeasible"),
        (SolverStatus::AlmostPrimalInfeasible, "AlmostPrimalInfeasible"),
        (SolverStatus::AlmostDualInfeasible, "AlmostDualInfeasible"),
        (SolverStatus::MaxIterations, "MaxIterations"),
        (SolverStatus::MaxTime, "MaxTime"),
        (SolverStatus::NumericalError, "NumericalError"),
        (SolverStatus::InsufficientProgress, "InsufficientProgress"),
        (SolverStatus::CallbackTerminated, "CallbackTerminated"),
    ];
    for (status, name) in failures {
        assert_eq!(
            solution(status, vec![of(1.0)]).unwrap_err(),
            format!("qp_not_solved: {name}")
        );
    }
    for status in [SolverStatus::Solved, SolverStatus::AlmostSolved] {
        assert_eq!(solution(status, vec![of(1.0)]).unwrap(), vec![of(1.0)]);
    }
}

#[test]
fn setup_errors_are_handed_on() {
    let program = QuadraticProgram {
        p: matrix_of(&DMatrix::identity(1, 1)),
        q: vec![of(0.0)],
        a_eq: Matrix::zeros(0, 1),
        b_eq: vec![],
        a_in: Matrix::zeros(0, 1),
        b_in: vec![],
        lb: vec![of(0.0)],
        ub: vec![of(f64::INFINITY)],
    };
    let refused = wbdd::qp::solve(&program, |conic: &ConicProgram| {
        // The upper bound is infinite and has no row.
        assert_eq!((conic.zero_rows, conic.nonnegative_rows), (0, 1));
        Err("clarabel_setup: refused".to_string())
    });
    assert_eq!(refused.err().unwrap(), "clarabel_setup: refused");
    let stopped = wbdd::qp::solve(&program, |_: &ConicProgram| {
        Ok((SolverStatus::MaxIterations, vec![of(1.0)]))
    });
    assert_eq!(stopped.err().unwrap(), "qp_not_solved: MaxIterations");
}
