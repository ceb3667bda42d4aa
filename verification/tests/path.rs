use k::nalgebra::{Isometry3, Translation3, UnitQuaternion, Vector3};
use wbdd::configs::{PathConfig, Pose};
use wbdd::double::Double;
use wbdd::path::{
    corners, fillets, rounded_pieces, CornerAngles, Orientation, PieceKind, Placement, Sample,
};

fn of(value: f64) -> Double {
    Double { bits: value.to_bits() }
}

fn back(value: Double) -> f64 {
    f64::from_bits(value.bits)
}

fn vector_back(vector: &wbdd::vector::Vector3) -> Vector3<f64> {
    Vector3::new(back(vector.x), back(vector.y), back(vector.z))
}

fn pose(xyz: [f64; 3], rpy: [f64; 3]) -> Pose {
    Pose {
        xyz: xyz.map(of),
        rpy: rpy.map(of),
    }
}

fn to_isometry(pose: &Pose) -> Isometry3<f64> {
    let xyz = pose.xyz.map(back);
    let rpy = pose.rpy.map(back);
    Isometry3::from_parts(
        Translation3::new(xyz[0], xyz[1], xyz[2]),
        UnitQuaternion::from_euler_angles(rpy[0], rpy[1], rpy[2]),
    )
}

fn rotation_at(waypoints: &[Isometry3<f64>], orientation: Orientation) -> UnitQuaternion<f64> {
    match orientation {
        Orientation::Waypoint(i) => waypoints[i].rotation,
        Orientation::Between { segment, t } => waypoints[segment]
            .rotation
            .slerp(&waypoints[segment + 1].rotation, back(t)),
    }
}

fn pose_of(waypoints: &[Isometry3<f64>], sample: &Sample) -> Isometry3<f64> {
    match *sample {
        Sample::Waypoint(i) => waypoints[i],
        Sample::Along { segment, t } => {
            waypoints[segment].lerp_slerp(&waypoints[segment + 1], back(t))
        }
        Sample::OnPiece {
            placement,
            from,
            to,
            t,
        } => {
            let translation = match placement {
                Placement::Point(point) => vector_back(&point),
                Placement::OnArc {
                    center,
                    offset,
                    turn,
                } => {
                    vector_back(&center)
                        + UnitQuaternion::from_scaled_axis(vector_back(&turn))
                            * vector_back(&offset)
                }
            };
            Isometry3::from_parts(
                translation.into(),
                rotation_at(waypoints, from).slerp(&rotation_at(waypoints, to), back(t)),
            )
        }
    }
}

fn measure(cosine: Double) -> CornerAngles {
    let turn = back(cosine).acos();
    CornerAngles {
        turn: of(turn),
        half_tan: of((turn / 2.0).tan()),
        half_cos: of((turn / 2.0).cos()),
    }
}

fn angles(config: &PathConfig) -> Vec<CornerAngles> {
    config.corner_angles(measure)
}

fn interpolate(config: &PathConfig) -> Vec<Isometry3<f64>> {
    let waypoints: Vec<Isometry3<f64>> = config.waypoints.iter().map(to_isometry).collect();
    config
        .interpolate(&angles(config))
        .iter()
        .map(|sample| pose_of(&waypoints, sample))
        .collect()
}

#[test]
fn path_interpolates_linearly() {
    let rpy = [3.14159265358979, 0.0, 0.0];
    let path = PathConfig {
        waypoints: vec![pose([-1.0, -1.0, 1.0], rpy), pose([1.0, -1.0, 1.0], rpy)],
        poses_per_segment: 2,
        solve_first_pose_only: false,
        align_first_pose_base_yaw: false,
        corner_radius: of(0.0),
    };
    let poses = interpolate(&path);

    // 2 waypoints, 2 poses per segment: start + 2 interpolated = 3.
    assert_eq!(poses.len(), 3);
    assert_eq!(
        poses[1].translation.vector,
        Vector3::new(0.0, -1.0, 1.0),
        "midpoint translation wrong"
    );
    assert_eq!(poses[2].translation.vector, Vector3::new(1.0, -1.0, 1.0));
}

// Right-angle corner path used by the rounding tests: along +x, then +y.
fn right_angle_path(corner_radius: f64) -> PathConfig {
    PathConfig {
        waypoints: vec![
            pose([0.0, 0.0, 0.0], [0.0, 0.0, 0.0]),
            pose([1.0, 0.0, 0.0], [0.0, 0.0, 0.0]),
            pose([1.0, 1.0, 0.0], [0.0, 0.0, 0.0]),
        ],
        poses_per_segment: 50,
        solve_first_pose_only: false,
        align_first_pose_base_yaw: false,
        corner_radius: of(corner_radius),
    }
}

fn min_distance_to(poses: &[Isometry3<f64>], point: Vector3<f64>) -> f64 {
    poses
        .iter()
        .map(|p| (p.translation.vector - point).norm())
        .fold(f64::INFINITY, f64::min)
}

#[test]
fn rounded_corner_keeps_clearance_and_orientation() {
    let poses = interpolate(&right_angle_path(0.2));

    // Same pose count as the unrounded path, endpoints exact.
    assert_eq!(poses.len(), 101);
    assert!(poses[0].translation.vector.norm() < 1e-12);
    assert!((poses[100].translation.vector - Vector3::new(1.0, 1.0, 0.0)).norm() < 1e-12);

    // The arc's closest approach to a right-angle corner is r(sqrt(2)-1).
    let clearance = min_distance_to(&poses, Vector3::new(1.0, 0.0, 0.0));
    let expected = 0.2 * (2.0_f64.sqrt() - 1.0);
    assert!(
        (clearance - expected).abs() < 5e-3,
        "corner clearance {clearance}, expected ~{expected}"
    );

    // Constant-orientation waypoints must stay constant along the blend.
    for pose in &poses {
        assert!(pose.rotation.angle() < 1e-9, "orientation drifted");
    }
}

#[test]
fn rounded_path_direction_is_continuous() {
    let poses = interpolate(&right_angle_path(0.2));
    let mut max_turn: f64 = 0.0;
    for window in poses.windows(3) {
        let a = window[1].translation.vector - window[0].translation.vector;
        let b = window[2].translation.vector - window[1].translation.vector;
        if a.norm() < 1e-12 || b.norm() < 1e-12 {
            continue;
        }
        let cos = (a.dot(&b) / (a.norm() * b.norm())).clamp(-1.0, 1.0);
        max_turn = max_turn.max(cos.acos());
    }
    // Unrounded, the corner is a single ~90 degree jump; rounded, each
    // step turns by at most roughly the arc's angular step.
    assert!(max_turn < 0.15, "max per-step turn {max_turn}");
}

#[test]
fn oversized_radius_clamps_to_fit() {
    let poses = interpolate(&right_angle_path(10.0));
    assert_eq!(poses.len(), 101);
    // Clamped cut = half the shorter segment (0.5), so the effective
    // radius is 0.5 and the clearance is 0.5(sqrt(2)-1).
    let clearance = min_distance_to(&poses, Vector3::new(1.0, 0.0, 0.0));
    let expected = 0.5 * (2.0_f64.sqrt() - 1.0);
    assert!(
        (clearance - expected).abs() < 5e-3,
        "clamped clearance {clearance}, expected ~{expected}"
    );
    for pose in &poses {
        assert!(pose.translation.vector.iter().all(|v| v.is_finite()));
    }
}

#[test]
fn collinear_waypoints_are_left_sharp() {
    let mut path = right_angle_path(0.3);
    path.waypoints[2] = pose([2.0, 0.0, 0.0], [0.0, 0.0, 0.0]);
    let poses = interpolate(&path);
    assert_eq!(poses.len(), 101);
    for pose in &poses {
        assert!(
            pose.translation.vector.y.abs() < 1e-9 && pose.translation.vector.z.abs() < 1e-9,
            "collinear path left the line"
        );
    }
}

#[test]
fn right_angle_has_one_arc_between_two_lines() {
    let path = right_angle_path(0.25);
    let positions = path.positions();
    let rounded = fillets(&positions, &angles(&path), path.corner_radius);
    assert!(rounded[0].is_none() && rounded[2].is_none());
    let fillet = rounded[1].unwrap();
    assert!(!fillet.clamped);
    assert!((back(fillet.cut) - 0.25).abs() < 1e-15);
    assert!((vector_back(&fillet.center) - Vector3::new(0.75, 0.25, 0.0)).norm() < 1e-15);
    assert_eq!(vector_back(&fillet.axis), Vector3::new(0.0, 0.0, 1.0));

    let pieces = rounded_pieces(&positions, &rounded);
    assert_eq!(pieces.len(), 3);
    assert!(matches!(pieces[0].kind, PieceKind::Line { .. }));
    assert!(matches!(pieces[1].kind, PieceKind::Arc { .. }));
    assert!(matches!(pieces[2].kind, PieceKind::Line { .. }));
    let lengths: Vec<f64> = pieces.iter().map(|piece| back(piece.length)).collect();
    assert!((lengths[0] - 0.75).abs() < 1e-15);
    assert!((lengths[1] - 0.25 * std::f64::consts::FRAC_PI_2).abs() < 1e-15);
    assert!((lengths[2] - 0.75).abs() < 1e-15);
    assert_eq!(pieces[0].start_rotation, Orientation::Waypoint(0));
}

#[test]
fn pieces_of_a_rounded_path_connect() {
    let path = PathConfig {
        waypoints: vec![
            pose([0.0, 0.0, 0.0], [0.0, 0.0, 0.0]),
            pose([1.0, 0.0, 0.0], [0.1, 0.2, 0.3]),
            pose([1.4, 0.9, 0.2], [0.0, 0.5, 0.3]),
            pose([0.1, 1.0, 0.3], [0.4, 0.5, -0.6]),
            pose([0.1, 1.001, 2.0], [0.0, 0.0, 1.0]),
            pose([0.101, 1.002, 4.0], [0.3, 0.0, 1.0]),
        ],
        ..right_angle_path(0.3)
    };
    let waypoints: Vec<Isometry3<f64>> = path.waypoints.iter().map(to_isometry).collect();
    let positions = path.positions();
    let rounded = fillets(&positions, &angles(&path), path.corner_radius);
    let pieces = rounded_pieces(&positions, &rounded);
    let arcs = pieces.iter().filter(|piece| matches!(piece.kind, PieceKind::Arc { .. }));
    assert_eq!(arcs.count(), 4);

    let ends: Vec<(Isometry3<f64>, Isometry3<f64>)> = pieces
        .iter()
        .map(|piece| {
            let start = pose_of(&waypoints, &piece.pose_at(of(0.0)));
            let end = pose_of(&waypoints, &piece.pose_at(of(1.0)));
            (start, end)
        })
        .collect();
    let close = |a: &Isometry3<f64>, b: &Isometry3<f64>| {
        (a.translation.vector - b.translation.vector).norm() < 1e-9
            && a.rotation.angle_to(&b.rotation) < 1e-7
    };
    assert!(close(&ends[0].0, &waypoints[0]));
    assert!(close(&ends[ends.len() - 1].1, &waypoints[5]));
    for pair in ends.windows(2) {
        assert!(close(&pair[0].1, &pair[1].0));
    }
    for (piece, (start, end)) in pieces.iter().zip(&ends) {
        let middle = pose_of(&waypoints, &piece.pose_at(of(0.5)));
        let chords = (middle.translation.vector - start.translation.vector).norm()
            + (end.translation.vector - middle.translation.vector).norm();
        assert!(chords <= back(piece.length) + 1e-12);
        assert!(chords > 0.9 * back(piece.length));
    }
}

#[test]
fn oversized_radius_is_reported() {
    let path = right_angle_path(10.0);
    let fillet = fillets(&path.positions(), &angles(&path), path.corner_radius)[1].unwrap();
    assert!(fillet.clamped);
    assert_eq!(back(fillet.cut), 0.5);
    assert_eq!(path.clamped_corners(&angles(&path)), vec![1]);

    let fitting = right_angle_path(0.2);
    assert!(fitting.clamped_corners(&angles(&fitting)).is_empty());
    let sharp = right_angle_path(0.0);
    assert!(sharp.clamped_corners(&angles(&sharp)).is_empty());
}

#[test]
fn only_interior_corners_have_angles() {
    let path = right_angle_path(0.2);
    let angles = angles(&path);
    assert_eq!(angles.len(), 3);
    assert_eq!(back(angles[0].turn), 0.0);
    assert!((back(angles[1].turn) - std::f64::consts::FRAC_PI_2).abs() < 1e-15);
    assert_eq!(back(angles[2].turn), 0.0);
    let corner = corners(&path.positions())[1].unwrap();
    assert_eq!(angles[1], measure(corner.cosine));
}

#[test]
fn endpoints_of_a_rounded_path_are_the_waypoints() {
    let path = right_angle_path(0.2);
    let samples = path.interpolate(&angles(&path));
    assert_eq!(samples[0], Sample::Waypoint(0));
    assert_eq!(samples[100], Sample::Waypoint(2));
}

#[test]
fn radius_zero_leaves_corners_sharp() {
    let path = right_angle_path(0.0);
    let samples = path.interpolate(&angles(&path));
    assert_eq!(samples.len(), 101);
    assert_eq!(samples[0], Sample::Waypoint(0));
    assert_eq!(samples[1], Sample::Along { segment: 0, t: of(1.0 / 50.0) });
    assert_eq!(samples[50], Sample::Along { segment: 0, t: of(1.0) });
    assert_eq!(samples[51], Sample::Along { segment: 1, t: of(1.0 / 50.0) });
    assert_eq!(samples[100], Sample::Along { segment: 1, t: of(1.0) });
}

#[test]
fn repeated_waypoint_does_not_break_a_rounded_path() {
    let mut path = right_angle_path(0.2);
    path.waypoints.insert(1, pose([1.0, 0.0, 0.0], [0.0, 0.0, 0.0]));
    let poses = interpolate(&path);
    assert_eq!(poses.len(), 151);
    for pose in &poses {
        assert!(pose.translation.vector.iter().all(|v| v.is_finite()));
    }
    assert_eq!(poses[150].translation.vector, Vector3::new(1.0, 1.0, 0.0));
}

#[test]
fn path_without_length_stays_where_it_is() {
    let mut path = right_angle_path(0.2);
    for waypoint in &mut path.waypoints {
        *waypoint = pose([1.0, 2.0, 3.0], [0.0, 0.0, 0.0]);
    }
    let poses = interpolate(&path);
    assert_eq!(poses.len(), 101);
    for pose in &poses {
        assert!((pose.translation.vector - Vector3::new(1.0, 2.0, 3.0)).norm() < 1e-12);
    }
}

#[test]
fn single_waypoint_is_a_single_pose() {
    let mut path = right_angle_path(0.2);
    path.waypoints.truncate(1);
    assert_eq!(path.interpolate(&angles(&path)), vec![Sample::Waypoint(0)]);
}

#[test]
fn samples_name_waypoints_that_exist() {
    for radius in [0.0, 0.2, 10.0] {
        let path = right_angle_path(radius);
        let on_path = |orientation: Orientation| match orientation {
            Orientation::Waypoint(i) => i < 3,
            Orientation::Between { segment, .. } => segment < 2,
        };
        for sample in path.interpolate(&angles(&path)) {
            assert!(match sample {
                Sample::Waypoint(i) => i < 3,
                Sample::Along { segment, .. } => segment < 2,
                Sample::OnPiece { from, to, .. } => on_path(from) && on_path(to),
            });
        }
    }
}

// The turn is too small for its cosine to differ from one: there is nothing to round,
// and nothing to divide by.
#[test]
fn nearly_straight_corner_is_left_sharp() {
    let path = PathConfig {
        waypoints: vec![
            pose([0.0, 0.0, 0.0], [0.0, 0.0, 0.0]),
            pose([1.0, 0.0, 0.0], [0.0, 0.0, 0.0]),
            pose([2.0, 5e-9, 0.0], [0.0, 0.0, 0.0]),
        ],
        poses_per_segment: 50,
        solve_first_pose_only: false,
        align_first_pose_base_yaw: false,
        corner_radius: of(0.3),
    };
    assert_eq!(corners(&path.positions())[1], None);
    let poses = interpolate(&path);
    assert_eq!(poses.len(), 101);
    let at = |i: usize| poses[i].translation.vector;
    assert!((at(0) - Vector3::new(0.0, 0.0, 0.0)).norm() < 1e-12);
    assert!((at(50) - Vector3::new(1.0, 0.0, 0.0)).norm() < 1e-6);
    assert!((at(100) - Vector3::new(2.0, 5e-9, 0.0)).norm() < 1e-12);
    for i in 0..100 {
        assert!(((at(i + 1) - at(i)).norm() - 0.02).abs() < 1e-9, "step {i}");
    }
}

// A turn just above that is rounded, with lengths that are numbers.
#[test]
fn slight_corners_have_lengths_that_are_numbers() {
    for turn in [5e-9, 1.2e-8, 2e-8, 1e-7, 1e-6, 1e-3] {
        let path = PathConfig {
            waypoints: vec![
                pose([0.0, 0.0, 0.0], [0.0, 0.0, 0.0]),
                pose([1.0, 0.0, 0.0], [0.0, 0.0, 0.0]),
                pose([2.0, turn, 0.0], [0.0, 0.0, 0.0]),
            ],
            poses_per_segment: 10,
            solve_first_pose_only: false,
            align_first_pose_base_yaw: false,
            corner_radius: of(0.3),
        };
        let rounded = fillets(&path.positions(), &angles(&path), path.corner_radius);
        for piece in rounded_pieces(&path.positions(), &rounded) {
            assert!(back(piece.length) > 0.0);
        }
        let middle = interpolate(&path)[10].translation.vector;
        assert!((middle - Vector3::new(1.0, 0.0, 0.0)).norm() < 1e-3);
    }
}

// An angle that is no turn leaves the corner sharp, whatever measured it.
#[test]
fn fillet_without_an_arc_is_none() {
    let path = right_angle_path(0.2);
    for bad in [0.0, f64::NAN, -1.0] {
        let angles = vec![
            CornerAngles { turn: of(bad), half_tan: of(bad), half_cos: of(1.0) };
            3
        ];
        assert_eq!(fillets(&path.positions(), &angles, path.corner_radius)[1], None);
    }
}
