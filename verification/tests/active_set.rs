use k::nalgebra::{DMatrix, DVector, Vector6};
use wbdd::active_set::{
    most_violated_limit, seed_working_set, wrong_signed_limit_row, ActiveSetStep, Constraint,
    ConstraintKind, LeastSquares,
};
use wbdd::double::Double;
use wbdd::matrix::Matrix;

fn of(value: f64) -> Double {
    Double { bits: value.to_bits() }
}

fn back(value: Double) -> f64 {
    f64::from_bits(value.bits)
}

fn list_of(values: &[f64]) -> Vec<Double> {
    values.iter().map(|&value| of(value)).collect()
}

fn matrix_of(matrix: &DMatrix<f64>) -> Matrix {
    let rows = (0..matrix.nrows())
        .map(|r| (0..matrix.ncols()).map(|c| of(matrix[(r, c)])).collect())
        .collect();
    Matrix::from_rows(rows, matrix.ncols())
}

fn matrix_back(matrix: &Matrix) -> DMatrix<f64> {
    DMatrix::from_fn(matrix.nrows(), matrix.ncols(), |r, c| back(matrix.get(r, c)))
}

/// One step of the active-set method, with the systems solved by LU.
fn active_set_step(
    jacobian: &DMatrix<f64>,
    twist: &Vector6<f64>,
    current_positions: &DVector<f64>,
    equalities: &[Constraint],
    lower: &DVector<f64>,
    upper: &DVector<f64>,
    damping_factor: f64,
) -> Result<Vec<f64>, String> {
    let problem = LeastSquares::of(
        matrix_of(jacobian),
        list_of(twist.as_slice()),
        of(damping_factor),
    );
    let solve = |kkt: &Matrix, rhs: &Vec<Double>| {
        let rhs = DVector::from_vec(rhs.iter().map(|&value| back(value)).collect());
        let solution = matrix_back(kkt).lu().solve(&rhs)?;
        Some(list_of(solution.as_slice()))
    };
    wbdd::active_set::active_set_step(
        &problem,
        list_of(current_positions.as_slice()),
        equalities.to_vec(),
        list_of(lower.as_slice()),
        list_of(upper.as_slice()),
        solve,
    )
    .map(|positions| positions.into_iter().map(back).collect())
}

// Toy 2-joint system: joint 0 drives x, joint 1 drives y, one-to-one.
fn toy_jacobian() -> DMatrix<f64> {
    let mut j = DMatrix::zeros(6, 2);
    j[(0, 0)] = 1.0;
    j[(1, 1)] = 1.0;
    j
}

fn wide_limits() -> (DVector<f64>, DVector<f64>) {
    (
        DVector::from_element(2, -10.0),
        DVector::from_element(2, 10.0),
    )
}

#[test]
fn equality_row_held_exactly() {
    let (lower, upper) = wide_limits();
    let equalities = [Constraint {
        joint_index: 0,
        target: of(0.3),
        kind: ConstraintKind::Equality,
    }];
    let positions = active_set_step(
        &toy_jacobian(),
        &Vector6::new(1.0, 1.0, 0.0, 0.0, 0.0, 0.0),
        &DVector::zeros(2),
        &equalities,
        &lower,
        &upper,
        0.5,
    )
    .unwrap();
    assert!((positions[0] - 0.3).abs() < 1e-9, "got {}", positions[0]);
}

#[test]
fn violated_upper_limit_activates() {
    let (lower, mut upper) = wide_limits();
    upper[0] = 0.5;
    // Twist demands dq0 ≈ 8, far past the 0.5 limit.
    let positions = active_set_step(
        &toy_jacobian(),
        &Vector6::new(10.0, 0.0, 0.0, 0.0, 0.0, 0.0),
        &DVector::zeros(2),
        &[],
        &lower,
        &upper,
        0.5,
    )
    .unwrap();
    assert!((positions[0] - 0.5).abs() < 1e-9, "got {}", positions[0]);
}

#[test]
fn pinned_limit_drops_when_twist_pulls_inward() {
    let (lower, mut upper) = wide_limits();
    upper[0] = 0.5;
    // Joint 0 starts at its upper limit (seeded into the working set);
    // the twist pulls inward, so the multiplier is wrong-signed and the
    // limit row must drop.
    let positions = active_set_step(
        &toy_jacobian(),
        &Vector6::new(-1.0, 0.0, 0.0, 0.0, 0.0, 0.0),
        &DVector::from_vec(vec![0.5, 0.0]),
        &[],
        &lower,
        &upper,
        0.5,
    )
    .unwrap();
    assert!(positions[0] < 0.5 - 1e-6, "stayed pinned: {}", positions[0]);
}

#[test]
fn singular_system_errors() {
    // Zero Jacobian with zero damping: J*Jᵀ + 0·I is singular.
    let result = active_set_step(
        &DMatrix::zeros(6, 2),
        &Vector6::new(1.0, 0.0, 0.0, 0.0, 0.0, 0.0),
        &DVector::zeros(2),
        &[],
        &wide_limits().0,
        &wide_limits().1,
        0.0,
    );
    assert!(result.is_err());
    assert_eq!(result.unwrap_err(), "singular_dls_system");
}

#[test]
fn working_set_is_seeded_with_near_limits() {
    let lower = list_of(&[-1.0, -1.0, -1.0, -1.0]);
    let upper = list_of(&[1.0, 1.0, 1.0, 1.0]);
    let equalities = vec![Constraint {
        joint_index: 1,
        target: of(0.0),
        kind: ConstraintKind::Equality,
    }];
    // Joint 0 is just within the tolerance of its upper limit, joint 1 is pinned,
    // joint 2 is past its lower limit, joint 3 is clear of both.
    let set = seed_working_set(&equalities, &list_of(&[0.995, 1.0, -2.0, 0.98]), &lower, &upper);
    assert_eq!(
        set,
        vec![
            equalities[0],
            Constraint {
                joint_index: 0,
                target: of(1.0),
                kind: ConstraintKind::UpperLimit
            },
            Constraint {
                joint_index: 2,
                target: of(-1.0),
                kind: ConstraintKind::LowerLimit
            },
        ]
    );
}

#[test]
fn repeated_equalities_are_kept_in_the_seed() {
    let equality = |target: f64| Constraint {
        joint_index: 1,
        target: of(target),
        kind: ConstraintKind::Equality,
    };
    let equalities = vec![equality(0.5), equality(0.7)];
    let (lower, upper) = (list_of(&[-1.0, -1.0]), list_of(&[1.0, 1.0]));
    let set = seed_working_set(&equalities, &list_of(&[1.0, 1.0]), &lower, &upper);
    assert_eq!(set.len(), 3);
    assert_eq!(set[..2], equalities[..]);
    assert_eq!(set[2].joint_index, 0);
}

#[test]
fn worst_wrong_sign_drops_and_equalities_stay() {
    let row = |joint_index, kind| Constraint {
        joint_index,
        target: of(0.0),
        kind,
    };
    let set = vec![
        row(0, ConstraintKind::Equality),
        row(1, ConstraintKind::UpperLimit),
        row(2, ConstraintKind::LowerLimit),
    ];
    assert_eq!(wrong_signed_limit_row(&set, &list_of(&[-9.0, -1.0, 2.0])), Some(2));
    assert_eq!(wrong_signed_limit_row(&set, &list_of(&[9.0, -1.0, 0.5])), Some(1));
    assert_eq!(wrong_signed_limit_row(&set, &list_of(&[-9.0, 1.0, -2.0])), None);
    assert_eq!(wrong_signed_limit_row(&set, &list_of(&[0.0, -1e-13, 0.0])), None);
}

#[test]
fn most_violated_free_limit_is_added() {
    let lower = list_of(&[-1.0, -1.0, -1.0]);
    let upper = list_of(&[1.0, 1.0, 1.0]);
    let on_first = vec![Constraint {
        joint_index: 0,
        target: of(1.0),
        kind: ConstraintKind::UpperLimit,
    }];
    let added = most_violated_limit(&on_first, &list_of(&[9.0, 1.5, -2.0]), &lower, &upper);
    assert_eq!(
        added,
        Some(Constraint {
            joint_index: 2,
            target: of(-1.0),
            kind: ConstraintKind::LowerLimit
        })
    );
    assert_eq!(
        most_violated_limit(&on_first, &list_of(&[9.0, 1.0 + 1e-10, 0.0]), &lower, &upper),
        None
    );
}

#[test]
fn kkt_system_is_bordered() {
    let step = ActiveSetStep::start(
        list_of(&[0.25, 0.5]),
        vec![Constraint {
            joint_index: 1,
            target: of(2.0),
            kind: ConstraintKind::Equality,
        }],
        list_of(&[-10.0, -10.0]),
        list_of(&[10.0, 10.0]),
    );
    let hessian = matrix_of(&DMatrix::from_row_slice(2, 2, &[3.0, 4.0, 5.0, 6.0]));
    let (kkt, rhs) = step.kkt_system(&hessian, &list_of(&[7.0, 8.0]));
    let expected = DMatrix::from_row_slice(
        3,
        3,
        &[3.0, 4.0, 0.0, 5.0, 6.0, 1.0, 0.0, 1.0, 0.0],
    );
    assert_eq!(matrix_back(&kkt), expected);
    assert_eq!(rhs, list_of(&[7.0, 8.0, 1.5]));
}

#[test]
fn systems_without_a_solution_are_named() {
    let (lower, upper) = wide_limits();
    let step = |equalities: Vec<Constraint>| {
        wbdd::active_set::active_set_step(
            &LeastSquares::of(Matrix::zeros(6, 2), vec![of(0.0); 6], of(0.0)),
            list_of(&[0.0, 0.0]),
            equalities,
            list_of(lower.as_slice()),
            list_of(upper.as_slice()),
            |_: &Matrix, _: &Vec<Double>| None,
        )
        .err()
        .unwrap()
    };
    assert_eq!(step(vec![]), "singular_dls_system");
    let equality = Constraint {
        joint_index: 0,
        target: of(0.3),
        kind: ConstraintKind::Equality,
    };
    assert_eq!(step(vec![equality]), "singular_kkt_system");
}

#[test]
fn least_squares_holds_the_products() {
    let jacobian = Matrix::from_rows(vec![list_of(&[1.0, 2.0, 3.0]), list_of(&[0.0, 1.0, -1.0])], 3);
    let problem = LeastSquares::of(jacobian, list_of(&[2.0, 5.0]), of(0.5));
    assert_eq!(problem.hessian.row(0), list_of(&[1.25, 2.0, 3.0]));
    assert_eq!(problem.hessian.row(2), list_of(&[3.0, 5.0, 10.25]));
    assert_eq!(problem.gradient, list_of(&[2.0, 9.0, 1.0]));
    let system = problem.free_system();
    assert_eq!(system.row(0), list_of(&[14.25, -1.0]));
    assert_eq!(system.row(1), list_of(&[-1.0, 2.25]));
    assert_eq!(problem.free_step(&list_of(&[1.0, -2.0])), list_of(&[1.0, 0.0, 5.0]));
}
