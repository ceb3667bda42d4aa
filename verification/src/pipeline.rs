//! The order of the stages: which joints are pinned for which pose, where each
//! solve starts, and whether the whole trajectory is optimized afterwards.

use crate::configs::{Config, DifferentialIkConfig, EqualityConstraint, PathConfig};
use crate::double::Double;
use crate::vector::Vector3;
use vstd::prelude::*;

verus! {

/// The planar base joints where no configuration names them: x, y, yaw.
pub const BASE_X_JOINT: &'static str = "world_base_link_planar_prismatic_x";

pub const BASE_Y_JOINT: &'static str = "world_base_link_planar_prismatic_y";

pub const BASE_YAW_JOINT: &'static str = "world_base_link_planar_yaw";

/// Whether the settings are others with one more equality constraint.
pub open spec fn pinned_also(
    before: DifferentialIkConfig,
    after: DifferentialIkConfig,
    joint_name: Seq<char>,
    target_value: Double,
) -> bool {
    &&& after.num_steps == before.num_steps
    &&& after.damping_factor == before.damping_factor
    &&& after.convergence_threshold == before.convergence_threshold
    &&& after.equality_constraints@.len() == before.equality_constraints@.len() + 1
    &&& after.equality_constraints@.drop_last() == before.equality_constraints@
    &&& after.equality_constraints@.last().joint_name@ == joint_name
    &&& after.equality_constraints@.last().target_value == target_value
}

/// From the first position toward the second.
pub open spec fn direction_of_travel(positions: Seq<Vector3>) -> Vector3 {
    positions[1].difference(positions[0])
}

/// Seeds the differential-drive base facing the direction of travel: pins the
/// planar yaw joint so that the base x-axis is parallel to the first path segment.
/// `atan2` gives the angle of a direction from its y and x.
pub fn pin_base_yaw<A>(
    settings: &mut DifferentialIkConfig,
    path: &PathConfig,
    positions: &Vec<Vector3>,
    atan2: A,
) where A: Fn(Double, Double) -> Double
    requires
        forall|y: Double, x: Double| call_requires(atan2, (y, x)),
    ensures
        if path.align_first_pose_base_yaw && positions@.len() > 1 {
            exists|angle: Double|
                #[trigger] call_ensures(
                    atan2,
                    (direction_of_travel(positions@).y, direction_of_travel(positions@).x),
                    angle,
                ) && pinned_also(*old(settings), *final(settings), BASE_YAW_JOINT@, angle)
        } else {
            *final(settings) == *old(settings)
        },
{
    if path.align_first_pose_base_yaw && positions.len() > 1 {
        let direction: Vector3 = positions[1].minus(positions[0]);
        let angle: Double = atan2(direction.y, direction.x);
        let ghost before = settings.equality_constraints@;
        settings.equality_constraints.push(
            EqualityConstraint { joint_name: BASE_YAW_JOINT.to_owned(), target_value: angle },
        );
        assert(settings.equality_constraints@.drop_last() =~= before);
        assert(direction == direction_of_travel(positions@));
        assert(call_ensures(
            atan2,
            (direction_of_travel(positions@).y, direction_of_travel(positions@).x),
            angle,
        ));
        assert(pinned_also(*old(settings), *settings, BASE_YAW_JOINT@, angle));
    }
}

/// Whether the settings are those of a pose: equality constraints apply only to
/// the first.
pub open spec fn are_settings_of(
    used: DifferentialIkConfig,
    given: DifferentialIkConfig,
    pose: int,
) -> bool {
    &&& used.num_steps == given.num_steps
    &&& used.damping_factor == given.damping_factor
    &&& used.convergence_threshold == given.convergence_threshold
    &&& used.equality_constraints@ == if pose == 0 {
        given.equality_constraints@
    } else {
        Seq::<EqualityConstraint>::empty()
    }
}

/// The number of poses that are solved.
pub open spec fn poses_solved(pose_count: nat, path: PathConfig) -> nat {
    if path.solve_first_pose_only {
        1
    } else {
        pose_count
    }
}

/// Whether the solve of a pose from a configuration answers with a result.
pub open spec fn pose_answers<S>(
    solve: S,
    settings: DifferentialIkConfig,
    pose: int,
    start: Vec<Double>,
    result: Result<Vec<Double>, String>,
) -> bool where
    S: Fn(usize, &DifferentialIkConfig, &Vec<Double>) -> Result<Vec<Double>, String>,
 {
    exists|used: DifferentialIkConfig|
        #[trigger] are_settings_of(used, settings, pose) && call_ensures(
            solve,
            (pose as usize, &used, &start),
            result,
        )
}

/// Where the solve of a pose starts: at the solution of the pose before it, the
/// first at the seed.
pub open spec fn start_of(seed: Vec<Double>, solved: Seq<Vec<Double>>, pose: int) -> Vec<Double> {
    if pose == 0 {
        seed
    } else {
        solved[pose - 1]
    }
}

/// Whether these are the solutions of the first poses, each from the one before.
pub open spec fn solved_in_turn<S>(
    solve: S,
    settings: DifferentialIkConfig,
    seed: Vec<Double>,
    solved: Seq<Vec<Double>>,
) -> bool where
    S: Fn(usize, &DifferentialIkConfig, &Vec<Double>) -> Result<Vec<Double>, String>,
 {
    forall|k: int|
        0 <= k < solved.len() ==> pose_answers(
            solve,
            settings,
            k,
            start_of(seed, solved, k),
            Ok(#[trigger] solved[k]),
        )
}

/// Whether a pose among the first `count` fails with a message, after those before
/// it were solved.
pub open spec fn pose_fails<S>(
    solve: S,
    settings: DifferentialIkConfig,
    seed: Vec<Double>,
    count: nat,
    message: String,
) -> bool where
    S: Fn(usize, &DifferentialIkConfig, &Vec<Double>) -> Result<Vec<Double>, String>,
 {
    exists|solved: Seq<Vec<Double>>|
        {
            &&& solved.len() < count
            &&& #[trigger] solved_in_turn(solve, settings, seed, solved)
            &&& pose_answers(
                solve,
                settings,
                solved.len() as int,
                start_of(seed, solved, solved.len() as int),
                Err(message),
            )
        }
}

/// Solves the poses in turn, one configuration for each. Each solve seeds from
/// the previous one, so that the trajectory stays continuous; equality
/// constraints pick the posture of the first pose only. The poses after the first
/// are left out when only that one is to be looked at.
pub fn sequential_ik<S>(
    pose_count: usize,
    path: &PathConfig,
    settings: DifferentialIkConfig,
    seed: Vec<Double>,
    solve: S,
) -> (result: Result<Vec<Vec<Double>>, String>) where
    S: Fn(usize, &DifferentialIkConfig, &Vec<Double>) -> Result<Vec<Double>, String>,

    requires
        pose_count >= 1,
        forall|pose: usize, used: &DifferentialIkConfig, start: &Vec<Double>|
            pose < pose_count && start@.len() == seed@.len() ==> call_requires(
                solve,
                (pose, used, start),
            ),
        forall|pose: usize, used: &DifferentialIkConfig, start: &Vec<Double>, end: Vec<Double>|
            start@.len() == seed@.len() && call_ensures(
                solve,
                (pose, used, start),
                Ok::<Vec<Double>, String>(end),
            ) ==> end@.len() == seed@.len(),
    ensures
        match result {
            Ok(solved) => {
                &&& solved@.len() == poses_solved(pose_count as nat, *path)
                &&& path.solve_first_pose_only ==> solved@.len() == 1
                &&& !path.solve_first_pose_only ==> solved@.len() == pose_count
                &&& solved_in_turn(solve, settings, seed, solved@)
                &&& forall|k: int|
                    0 <= k < solved@.len() ==> (#[trigger] solved@[k])@.len() == seed@.len()
            },
            Err(message) => pose_fails(
                solve,
                settings,
                seed,
                poses_solved(pose_count as nat, *path),
                message,
            ),
        },
{
    let count: usize = if path.solve_first_pose_only {
        1
    } else {
        pose_count
    };
    let ghost given = settings;
    assert(are_settings_of(settings, given, 0));
    let first: Vec<Double> = match solve(0, &settings, &seed) {
        Ok(first) => first,
        Err(message) => {
            let ghost none = Seq::<Vec<Double>>::empty();
            assert(call_ensures(
                solve,
                (0usize, &settings, &seed),
                Err::<Vec<Double>, String>(message),
            ));
            assert(solved_in_turn(solve, given, seed, none));
            assert(pose_fails(solve, given, seed, count as nat, message));
            return Err(message);
        },
    };
    assert(call_ensures(solve, (0usize, &settings, &seed), Ok::<Vec<Double>, String>(first)));
    assert(pose_answers(solve, given, 0, seed, Ok(first)));
    let free: DifferentialIkConfig = DifferentialIkConfig {
        num_steps: settings.num_steps,
        damping_factor: settings.damping_factor,
        convergence_threshold: settings.convergence_threshold,
        equality_constraints: Vec::new(),
    };
    let mut solved: Vec<Vec<Double>> = Vec::new();
    solved.push(first);
    let mut k: usize = 1;
    while k < count
        invariant
            1 <= k <= count,
            count <= pose_count,
            count == poses_solved(pose_count as nat, *path),
            given == settings,
            free.num_steps == given.num_steps,
            free.damping_factor == given.damping_factor,
            free.convergence_threshold == given.convergence_threshold,
            free.equality_constraints@.len() == 0,
            solved@.len() == k,
            solved_in_turn(solve, given, seed, solved@),
            forall|i: int|
                0 <= i < solved@.len() ==> (#[trigger] solved@[i])@.len() == seed@.len(),
            forall|pose: usize, used: &DifferentialIkConfig, start: &Vec<Double>|
                pose < pose_count && start@.len() == seed@.len() ==> call_requires(
                    solve,
                    (pose, used, start),
                ),
            forall|
                pose: usize,
                used: &DifferentialIkConfig,
                start: &Vec<Double>,
                end: Vec<Double>,
            |
                start@.len() == seed@.len() && call_ensures(
                    solve,
                    (pose, used, start),
                    Ok::<Vec<Double>, String>(end),
                ) ==> end@.len() == seed@.len(),
        decreases count - k,
    {
        let ghost before = solved@;
        assert(free.equality_constraints@ =~= Seq::<EqualityConstraint>::empty());
        assert(are_settings_of(free, given, k as int));
        assert(solved@[k - 1]@.len() == seed@.len());
        match solve(k, &free, &solved[k - 1]) {
            Ok(next) => {
                assert(call_ensures(
                    solve,
                    (k, &free, &before[k - 1]),
                    Ok::<Vec<Double>, String>(next),
                ));
                assert(pose_answers(solve, given, k as int, before[k - 1], Ok(next)));
                solved.push(next);
                assert forall|i: int| 0 <= i < solved@.len() implies pose_answers(
                    solve,
                    given,
                    i,
                    start_of(seed, solved@, i),
                    Ok(#[trigger] solved@[i]),
                ) by {
                    if i < k {
                        assert(solved@[i] == before[i]);
                        assert(start_of(seed, solved@, i) == start_of(seed, before, i));
                    }
                }
            },
            Err(message) => {
                assert(call_ensures(
                    solve,
                    (k, &free, &before[k - 1]),
                    Err::<Vec<Double>, String>(message),
                ));
                assert(pose_answers(solve, given, k as int, before[k - 1], Err(message)));
                assert(pose_fails(solve, given, seed, count as nat, message));
                return Err(message);
            },
        }
        k = k + 1;
    }
    Ok(solved)
}

/// What becomes of the whole-trajectory optimization.
#[derive(Clone, Copy, Debug, PartialEq, Eq, Structural)]
pub enum Optimization {
    /// Not asked for.
    Off,
    /// Asked for, but only the first pose is solved and the optimizer needs every
    /// knot.
    Skipped,
    On,
}

/// Whether the whole trajectory is optimized after the sequential solves.
pub fn optimization(config: &Config) -> (result: Optimization)
    ensures
        result == match config.trajectory {
            Some(trajectory) => if !trajectory.enabled {
                Optimization::Off
            } else if config.path.solve_first_pose_only {
                Optimization::Skipped
            } else {
                Optimization::On
            },
            None => Optimization::Off,
        },
{
    match &config.trajectory {
        Some(trajectory) => if !trajectory.enabled {
            Optimization::Off
        } else if config.path.solve_first_pose_only {
            Optimization::Skipped
        } else {
            Optimization::On
        },
        None => Optimization::Off,
    }
}

/// The planar base joints in x, y, yaw order: as the configuration names them,
/// otherwise the usual ones.
pub fn base_joint_names(config: &Config) -> (names: Vec<String>)
    ensures
        match config.trajectory {
            Some(trajectory) => names@ == trajectory.base_joint_names@,
            None => names@.len() == 3 && names@[0]@ == BASE_X_JOINT@ && names@[1]@ == BASE_Y_JOINT@
                && names@[2]@ == BASE_YAW_JOINT@,
        },
{
    let mut names: Vec<String> = Vec::new();
    match &config.trajectory {
        Some(trajectory) => {
            let given: &Vec<String> = &trajectory.base_joint_names;
            let mut i: usize = 0;
            while i < given.len()
                invariant
                    i <= given@.len(),
                    names@ =~= given@.take(i as int),
                decreases given@.len() - i,
            {
                names.push(given[i].clone());
                i = i + 1;
            }
        },
        None => {
            names.push(BASE_X_JOINT.to_owned());
            names.push(BASE_Y_JOINT.to_owned());
            names.push(BASE_YAW_JOINT.to_owned());
        },
    }
    names
}

} // verus!
