use wbdd::diagnostics::{
    midpoint_yaw, resolve_base_indices, slip_check, slip_residuals, summarize_slip, worst,
    BaseIndices, Heading, PoseError, SLIP_TOLERANCE,
};
use wbdd::double::Double;
use wbdd::vector::Vector3;

fn of(value: f64) -> Double {
    Double { bits: value.to_bits() }
}

fn back(value: Double) -> f64 {
    f64::from_bits(value.bits)
}

fn list_of(values: &[f64]) -> Vec<Double> {
    values.iter().map(|&value| of(value)).collect()
}

fn heading(q0: &Vec<Double>, q1: &Vec<Double>, base: BaseIndices) -> Heading {
    let (sin, cos) = back(midpoint_yaw(q0, q1, base)).sin_cos();
    Heading { sin: of(sin), cos: of(cos) }
}

fn slip_residual(q0: &[f64], q1: &[f64], base: BaseIndices) -> f64 {
    let (q0, q1) = (list_of(q0), list_of(q1));
    let heading = heading(&q0, &q1, base);
    back(wbdd::diagnostics::slip_residual(&q0, &q1, base, heading))
}

// Base joints at chain indices 0..2, one arm joint behind them.
fn base() -> BaseIndices {
    BaseIndices { x: 0, y: 1, yaw: 2 }
}

#[test]
fn slip_zero_when_driving_along_heading() {
    // Heading 45°, motion along [cos45, sin45]: pure forward roll.
    let yaw = std::f64::consts::FRAC_PI_4;
    let q0 = vec![0.0, 0.0, yaw, 0.3];
    let q1 = vec![yaw.cos(), yaw.sin(), yaw, -0.2];
    assert!(slip_residual(&q0, &q1, base()).abs() < 1e-12);
}

#[test]
fn slip_equals_negative_dy_at_zero_yaw() {
    // Pure sideways step with yaw = 0: residual = −Δy exactly.
    let q0 = vec![0.0, 0.0, 0.0, 0.0];
    let q1 = vec![0.0, 0.25, 0.0, 0.0];
    assert!((slip_residual(&q0, &q1, base()) - (-0.25)).abs() < 1e-12);
}

#[test]
fn resolve_base_indices_finds_joints() {
    let names: Vec<String> = ["px", "py", "yaw", "arm"]
        .iter()
        .map(|s| s.to_string())
        .collect();
    let base_names: Vec<String> = ["px", "py", "yaw"].iter().map(|s| s.to_string()).collect();
    let base = resolve_base_indices(&names, &base_names).unwrap();
    assert_eq!((base.x, base.y, base.yaw), (0, 1, 2));
}

#[test]
fn resolve_base_indices_rejects_missing_joint() {
    let names: Vec<String> = ["px"].iter().map(|s| s.to_string()).collect();
    let base_names: Vec<String> = ["px", "py", "yaw"].iter().map(|s| s.to_string()).collect();
    assert!(resolve_base_indices(&names, &base_names).is_err());
}

#[test]
fn base_joint_errors_name_what_is_wrong() {
    let names: Vec<String> = ["px", "yaw"].iter().map(|s| s.to_string()).collect();
    let list = |items: &[&str]| -> Vec<String> { items.iter().map(|s| s.to_string()).collect() };
    assert_eq!(
        resolve_base_indices(&names, &list(&["px", "py", "yaw"])).unwrap_err(),
        "base joint 'py' not in serial chain"
    );
    assert_eq!(
        resolve_base_indices(&names, &list(&["px", "yaw"])).unwrap_err(),
        "base_joint_names must list exactly [x, y, yaw], got 2 entries"
    );
    let many: Vec<String> = (0..120).map(|i| i.to_string()).collect();
    assert_eq!(
        resolve_base_indices(&names, &many).unwrap_err(),
        "base_joint_names must list exactly [x, y, yaw], got 120 entries"
    );
}

#[test]
fn base_joints_resolve_to_the_first_of_a_name() {
    let names: Vec<String> = ["a", "b", "a", "c", "b"].iter().map(|s| s.to_string()).collect();
    let base_names: Vec<String> = ["b", "c", "a"].iter().map(|s| s.to_string()).collect();
    let base = resolve_base_indices(&names, &base_names).unwrap();
    assert_eq!((base.x, base.y, base.yaw), (1, 3, 0));
}

#[test]
fn positive_slip_is_to_the_right() {
    // Heading +x, moving to −y: the right-hand side.
    assert_eq!(slip_residual(&[0.0, 0.0, 0.0], &[1.0, -0.5, 0.0], base()), 0.5);
}

#[test]
fn slip_residuals_returns_one_per_interval() {
    let trajectory: Vec<Vec<Double>> = [
        [0.0, 0.0, 0.0, 0.0],
        [1.0, 0.0, 0.0, 0.0],
        [1.0, 0.5, 0.0, 0.0],
    ]
    .iter()
    .map(|knot| list_of(knot))
    .collect();
    let headings = trajectory
        .windows(2)
        .map(|pair| heading(&pair[0], &pair[1], base()))
        .collect();
    let residuals = slip_residuals(&trajectory, base(), &headings);
    assert_eq!(residuals.len(), 2);
    assert!(back(residuals[0]).abs() < 1e-12); // forward along +x
    assert!((back(residuals[1]) - (-0.5)).abs() < 1e-12); // lateral step
    assert!(slip_residuals(&Vec::new(), base(), &Vec::new()).is_empty());
    assert!(slip_residuals(&trajectory[..1].to_vec(), base(), &Vec::new()).is_empty());
}

#[test]
fn summarize_slip_finds_max_and_counts() {
    let summary = summarize_slip(&list_of(&[1e-9, -3e-3, 2e-4]));
    assert!((back(summary.max_abs) - 3e-3).abs() < 1e-15);
    assert_eq!(summary.max_index, Some(1));
    assert_eq!(summary.count_above_tol, 2);
}

#[test]
fn summarize_slip_empty_is_clean() {
    let summary = summarize_slip(&Vec::new());
    assert_eq!(back(summary.max_abs), 0.0);
    assert_eq!(summary.max_index, None);
    assert_eq!(summary.count_above_tol, 0);
}

#[test]
fn summarize_slip_of_zeros_has_no_worst_interval() {
    let summary = summarize_slip(&list_of(&[0.0, -0.0, 0.0]));
    assert_eq!(summary.max_index, None);
    assert_eq!(summary.count_above_tol, 0);
}

#[test]
fn summarize_slip_reports_not_a_number() {
    let summary = summarize_slip(&list_of(&[1.0, f64::NAN, 2.0]));
    assert_eq!(summary.max_index, Some(1));
    assert!(summary.max_abs.is_nan());
    assert_eq!(summary.count_above_tol, 3);
}

#[test]
fn tolerance_is_a_micrometer() {
    assert_eq!(f64::from_bits(SLIP_TOLERANCE), 1e-6);
    assert_eq!(summarize_slip(&list_of(&[1e-6, -1e-6])).count_above_tol, 0);
    assert_eq!(summarize_slip(&list_of(&[1.1e-6, -1.1e-6])).count_above_tol, 2);
}

#[test]
fn worst_error_is_the_last_of_the_greatest() {
    assert_eq!(worst(&list_of(&[0.5, 2.0, 1.0, 2.0, 0.0])), (3, of(2.0)));
    assert_eq!(worst(&Vec::new()), (0, of(0.0)));
    let (knot, value) = worst(&list_of(&[0.5, f64::NAN, 1e300]));
    assert_eq!(knot, 1);
    assert!(value.is_nan());
    // A NaN of either sign.
    let (knot, value) = worst(&list_of(&[0.5, 1e300, -f64::NAN, 2.0]));
    assert_eq!(knot, 2);
    assert!(value.is_nan());
}

#[test]
fn slip_check_needs_two_knots() {
    let names: Vec<String> = ["px", "py", "yaw"].iter().map(|s| s.to_string()).collect();
    let turn = |yaw: Double| {
        let (sin, cos) = back(yaw).sin_cos();
        Heading { sin: of(sin), cos: of(cos) }
    };
    let knots = vec![list_of(&[0.0, 0.0, 0.0]), list_of(&[1.0, 0.5, 0.0])];
    // The names are not looked at.
    let wrong = vec!["px".to_string()];
    assert_eq!(slip_check(&knots[..1].to_vec(), &names, &wrong, &turn), Ok(None));
    assert_eq!(slip_check(&knots, &names, &names, &turn), Ok(Some(list_of(&[-0.5]))));
    assert_eq!(
        slip_check(&knots, &names, &wrong, &turn).unwrap_err(),
        "base_joint_names must list exactly [x, y, yaw], got 1 entries"
    );
}

#[test]
fn reversed_knots_turn_the_sign_of_the_slip() {
    let (q0, q1) = ([0.3, -0.2, 0.7, 9.0], [0.9, 0.45, 1.3, -9.0]);
    let slip = slip_residual(&q0, &q1, base());
    assert_eq!(slip_residual(&q1, &q0, base()), -slip);
    // The arm has no say.
    assert_eq!(slip_residual(&q0[..3], &q1[..3], base()), slip);
    // No more than the distance travelled.
    assert!(slip.abs() <= 0.6f64.hypot(0.65) * (1.0 + 1e-12));
}

#[test]
fn pose_error_is_the_distance() {
    let point = |x, y, z| Vector3 { x: of(x), y: of(y), z: of(z) };
    let error = PoseError::between(point(1.0, 2.0, 3.0), point(4.0, 6.0, 3.0), of(0.25));
    assert_eq!(back(error.position), 5.0);
    assert_eq!(back(error.orientation), 0.25);
}
