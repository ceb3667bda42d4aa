//! Whole-body trajectory optimization: Gauss-Newton SQP over the stacked knot
//! configurations, one dense QP per iteration, globalized by an ℓ1 merit
//! function and a trust region.
//!
//! The solver and the kinematics are outside: a caller hands in functions that
//! evaluate a knot and that solve a program.

use crate::configs::TrajectoryConfig;
use crate::cost::{knot_step, step_between};
use crate::diagnostics::{base_of, base_rejection, resolve_base_indices, BaseIndices, Heading};
use crate::double::Double;
use crate::finiteness::{all_knots_finite, lemma_outcome_is_finite};
use crate::limits::{
    clamp_to_limits, knots_limited, lemma_clamped_is_limited, limited, ordered, within_limits,
};
use crate::linearization::{addressable, knots_shaped, PoseReading};
use crate::qp::QuadraticProgram;
use crate::run::{answers, iterate, run_leaves, run_stops, Optimized};
use crate::sqp::SqpProblem;
use crate::text::{decimal, digits};
use vstd::prelude::*;
use vstd::string::*;

verus! {

/// Velocity beyond the limit that is solver noise: 1e-6.
pub const VELOCITY_SLACK: u64 = 0x3EB0_C6F7_A0B5_ED8D;

/// Why a trajectory is rejected before it is optimized.
pub open spec fn rejection(
    goal_count: nat,
    joint_names: Seq<String>,
    config: TrajectoryConfig,
    warm_start: Seq<Vec<Double>>,
) -> Option<Seq<char>> {
    let zero = Double { bits: 0 };
    if goal_count < 2 {
        Some("trajectory optimization needs at least 2 knots"@)
    } else if warm_start.len() != goal_count {
        Some(
            "warm start has "@ + digits(warm_start.len()) + " knots but the path has "@ + digits(
                goal_count,
            ),
        )
    } else if !knots_shaped(warm_start, joint_names.len()) {
        Some("warm-start knot dimension does not match the chain"@)
    } else if !zero.less(config.dt) || !zero.less(config.trust_region) || !zero.less(
        config.damping,
    ) {
        Some("trajectory dt, trust_region, and damping must be > 0"@)
    } else if !zero.at_most(config.ee_weight) || !zero.at_most(config.smoothness_weight) {
        Some("trajectory ee_weight and smoothness_weight must be >= 0"@)
    } else if !zero.less(config.max_joint_velocity) {
        Some("trajectory max_joint_velocity must be > 0"@)
    } else {
        base_rejection(joint_names, config.base_joint_names@)
    }
}

/// Whether every knot has `n` joints.
fn all_of_dimension(knots: &Vec<Vec<Double>>, n: usize) -> (result: bool)
    ensures
        result == knots_shaped(knots@, n as nat),
{
    let mut k: usize = 0;
    while k < knots.len()
        invariant
            k <= knots@.len(),
            forall|i: int| 0 <= i < k ==> (#[trigger] knots@[i])@.len() == n,
        decreases knots@.len() - k,
    {
        if knots[k].len() != n {
            return false;
        }
        k = k + 1;
    }
    true
}

/// Checks the input of the optimizer and moves the warm start into the joint
/// limits: an out-of-limits knot would make the box empty for that variable,
/// surfacing as an opaque infeasibility rather than the actual cause.
///
/// `warm_start` is one joint configuration per goal pose.
pub fn prepare(
    goal_count: usize,
    joint_names: &Vec<String>,
    config: &TrajectoryConfig,
    warm_start: &Vec<Vec<Double>>,
    lower: &Vec<Double>,
    upper: &Vec<Double>,
) -> (result: Result<(BaseIndices, Vec<Vec<Double>>), String>)
    requires
        ordered(lower@, upper@),
        lower@.len() == joint_names@.len(),
    ensures
        match result {
            Ok((base, knots)) => {
                &&& rejection(goal_count as nat, joint_names@, *config, warm_start@) is None
                &&& base == base_of(joint_names@, config.base_joint_names@)
                &&& base.within(joint_names@.len())
                &&& knots@.len() == goal_count
                &&& knots_shaped(knots@, joint_names@.len())
                &&& forall|k: int|
                    0 <= k < knots@.len() ==> (#[trigger] knots@[k])@ == within_limits(
                        warm_start@[k]@,
                        lower@,
                        upper@,
                    )
                &&& knots_limited(knots@, lower@, upper@)
            },
            Err(message) => rejection(goal_count as nat, joint_names@, *config, warm_start@)
                == Some(message@),
        },
{
    let zero: Double = Double { bits: 0 };
    if goal_count < 2 {
        return Err("trajectory optimization needs at least 2 knots".to_owned());
    }
    if warm_start.len() != goal_count {
        let mut text: String = "warm start has ".to_owned();
        let have: String = decimal(warm_start.len());
        let want: String = decimal(goal_count);
        text.append(have.as_str());
        text.append(" knots but the path has ");
        text.append(want.as_str());
        return Err(text);
    }
    if !all_of_dimension(warm_start, joint_names.len()) {
        return Err("warm-start knot dimension does not match the chain".to_owned());
    }
    // A NaN is not greater than zero, and is refused with the rest.
    if !zero.lt(config.dt) || !zero.lt(config.trust_region) || !zero.lt(config.damping) {
        return Err("trajectory dt, trust_region, and damping must be > 0".to_owned());
    }
    // Negative weights make P indefinite; a nonpositive velocity budget makes
    // every interval's inequality rows infeasible.
    if !zero.le(config.ee_weight) || !zero.le(config.smoothness_weight) {
        return Err("trajectory ee_weight and smoothness_weight must be >= 0".to_owned());
    }
    if !zero.lt(config.max_joint_velocity) {
        return Err("trajectory max_joint_velocity must be > 0".to_owned());
    }
    let base: BaseIndices = match resolve_base_indices(
        joint_names.as_slice(),
        config.base_joint_names.as_slice(),
    ) {
        Ok(base) => base,
        Err(message) => {
            return Err(message);
        },
    };
    let mut knots: Vec<Vec<Double>> = Vec::new();
    let mut k: usize = 0;
    while k < warm_start.len()
        invariant
            k <= warm_start@.len(),
            ordered(lower@, upper@),
            lower@.len() == joint_names@.len(),
            knots_shaped(warm_start@, joint_names@.len()),
            knots@.len() == k,
            forall|i: int|
                0 <= i < k ==> (#[trigger] knots@[i])@ == within_limits(
                    warm_start@[i]@,
                    lower@,
                    upper@,
                ),
        decreases warm_start@.len() - k,
    {
        knots.push(clamp_to_limits(&warm_start[k], lower, upper));
        k = k + 1;
    }
    assert(knots_limited(knots@, lower@, upper@)) by {
        assert forall|k: int, j: int|
            0 <= k < knots@.len() && 0 <= j < lower@.len() implies limited(
            #[trigger] knots@[k]@[j],
            lower@[j],
            upper@[j],
        ) by {
            lemma_clamped_is_limited(warm_start@[k]@[j], lower@[j], upper@[j]);
        }
    }
    Ok((base, knots))
}

/// Whether each knot is one of the warm start, moved into the limits.
pub open spec fn all_clamped(
    knots: Vec<Vec<Double>>,
    warm_start: Seq<Vec<Double>>,
    lower: Seq<Double>,
    upper: Seq<Double>,
) -> bool {
    &&& knots@.len() == warm_start.len()
    &&& forall|k: int|
        0 <= k < knots@.len() ==> (#[trigger] knots@[k])@ == within_limits(
            warm_start[k]@,
            lower,
            upper,
        )
}

/// Optimize the whole trajectory with Gauss-Newton SQP. `warm_start` is one
/// joint configuration per goal pose (from the sequential IK); the result has
/// the same shape.
///
/// `pose` gives the kinematics at the knot of a goal pose, `heading` the sine and
/// cosine of an angle, and `solve` solves a program.
/// A run that ends without converging leaves its best iterate; a subproblem that
/// is not solved before any step was accepted is an error.
pub fn optimize<E, H, S>(
    goal_count: usize,
    joint_names: &Vec<String>,
    config: TrajectoryConfig,
    warm_start: &Vec<Vec<Double>>,
    lower: Vec<Double>,
    upper: Vec<Double>,
    pose: E,
    heading: H,
    solve: S,
) -> (result: Result<Optimized, String>) where
    E: Fn(usize, &Vec<Double>) -> PoseReading,
    H: Fn(Double) -> Heading,
    S: Fn(&QuadraticProgram) -> Result<Vec<Double>, String>,

    requires
        ordered(lower@, upper@),
        lower@.len() == joint_names@.len(),
        addressable(goal_count as nat, joint_names@.len()),
        answers(pose, heading, solve, goal_count as nat, joint_names@.len()),
    ensures
        match result {
            Ok(outcome) => {
                &&& rejection(goal_count as nat, joint_names@, config, warm_start@) is None
                &&& outcome.problem.config == config
                &&& outcome.problem.base == base_of(joint_names@, config.base_joint_names@)
                &&& outcome.problem.lower == lower
                &&& outcome.problem.upper == upper
                &&& outcome.well_formed(goal_count as nat)
                &&& exists|knots: Vec<Vec<Double>>|
                    all_clamped(knots, warm_start@, lower@, upper@) && #[trigger] run_leaves(
                        pose,
                        heading,
                        solve,
                        knots,
                        outcome,
                    )
            },
            Err(message) => match rejection(
                goal_count as nat,
                joint_names@,
                config,
                warm_start@,
            ) {
                Some(text) => message@ == text,
                None => exists|knots: Vec<Vec<Double>>, problem: SqpProblem|
                    {
                        &&& all_clamped(knots, warm_start@, lower@, upper@)
                        &&& problem.config == config
                        &&& problem.base == base_of(joint_names@, config.base_joint_names@)
                        &&& problem.lower == lower
                        &&& problem.upper == upper
                        &&& #[trigger] run_stops(problem, pose, heading, solve, knots, message)
                    },
            },
        },
{
    let (base, knots): (BaseIndices, Vec<Vec<Double>>) = match prepare(
        goal_count,
        joint_names,
        &config,
        warm_start,
        &lower,
        &upper,
    ) {
        Ok(prepared) => prepared,
        Err(message) => {
            return Err(message);
        },
    };
    let problem: SqpProblem = SqpProblem { config, base, lower, upper };
    assert(all_clamped(knots, warm_start@, lower@, upper@));
    iterate(problem, knots, pose, heading, solve)
}

/// Whether a joint moves faster than the limit, beyond solver noise.
pub open spec fn too_fast(difference: Double, config: TrajectoryConfig) -> bool {
    config.max_joint_velocity.sum(Double { bits: VELOCITY_SLACK }).less(
        difference.absolute().quotient(config.dt),
    )
}

/// What is said of a trajectory that exceeds the velocity limit.
pub const VELOCITY_WARNING: &'static str =
    "trajectory exceeds max_joint_velocity: the velocity budget never fully tightened";

/// Whether any joint of a trajectory exceeds the velocity limit.
pub open spec fn any_too_fast(
    knots: Seq<Vec<Double>>,
    config: TrajectoryConfig,
    n: nat,
) -> bool {
    exists|k: int, j: int|
        0 <= k < knots.len() - 1 && 0 <= j < n && too_fast(
            #[trigger] step_between(knots[k]@, knots[k + 1]@)[j],
            config,
        )
}

/// Whether any joint of a trajectory exceeds the velocity limit. The velocity
/// budget of a subproblem tightens step by step, so that a run may end before it
/// has reached the limit.
pub fn exceeds_velocity(knots: &Vec<Vec<Double>>, config: &TrajectoryConfig, n: usize) -> (result:
    bool)
    requires
        knots_shaped(knots@, n as nat),
    ensures
        result == any_too_fast(knots@, *config, n as nat),
{
    let allowed: Double = config.max_joint_velocity.plus(Double { bits: VELOCITY_SLACK });
    let count: usize = knots.len();
    if count == 0 {
        return false;
    }
    let mut k: usize = 0;
    while k < count - 1
        invariant
            k <= count - 1,
            count == knots@.len(),
            knots_shaped(knots@, n as nat),
            allowed == config.max_joint_velocity.sum(Double { bits: VELOCITY_SLACK }),
            forall|i: int, j: int|
                0 <= i < k && 0 <= j < n ==> !too_fast(
                    #[trigger] step_between(knots@[i]@, knots@[i + 1]@)[j],
                    *config,
                ),
        decreases count - 1 - k,
    {
        let step: Vec<Double> = knot_step(&knots[k], &knots[k + 1]);
        let mut j: usize = 0;
        while j < n
            invariant
                j <= n,
                k < count - 1,
                count == knots@.len(),
                step@.len() == n,
                step@ == step_between(knots@[k as int]@, knots@[k + 1]@),
                allowed == config.max_joint_velocity.sum(Double { bits: VELOCITY_SLACK }),
                forall|i: int| 0 <= i < j ==> !too_fast(#[trigger] step@[i], *config),
            decreases n - j,
        {
            if allowed.lt(step[j].abs().over(config.dt)) {
                assert(too_fast(
                    step_between(knots@[k as int]@, knots@[k + 1]@)[j as int],
                    *config,
                ));
                return true;
            }
            j = j + 1;
        }
        k = k + 1;
    }
    false
}

impl Optimized {
    /// What is to be said of the result: why the run ended where it did not
    /// converge, and that the velocity limit is exceeded where it is. Nothing is
    /// said of a trajectory that converged within the limit.
    pub fn warnings(&self) -> (lines: Vec<String>)
        requires
            self.well_formed(self.knots@.len()),
        ensures
            ({
                let config = self.problem.config;
                let ending = self.ending.warning_text(config.sqp_max_iterations as nat);
                let first: nat = if ending is Some {
                    1
                } else {
                    0
                };
                let fast = any_too_fast(self.knots@, config, self.problem.n());
                &&& lines@.len() == first + if fast {
                    1nat
                } else {
                    0
                }
                &&& ending matches Some(text) ==> lines@[0]@ == text
                &&& fast ==> lines@.last()@ == VELOCITY_WARNING@
            }),
    {
        let mut lines: Vec<String> = Vec::new();
        match self.ending.warning(self.problem.config.sqp_max_iterations) {
            Some(text) => lines.push(text),
            None => {},
        }
        if exceeds_velocity(
            &self.knots,
            &self.problem.config,
            self.problem.lower.len(),
        ) {
            lines.push(VELOCITY_WARNING.to_owned());
        }
        lines
    }
}

/// A finite value moved into limits that leave room for one is finite.
proof fn lemma_clamped_is_finite(value: Double, lower: Double, upper: Double)
    requires
        value.finite(),
        lower.at_most(upper),
        !(lower.infinite() && !lower.negative()),
        !(upper.infinite() && upper.negative()),
    ensures
        value.clamped(lower, upper).finite(),
{
}

/// No NaN and no infinity comes out of a finite warm start, whatever the kinematics
/// and the solver answer. The limits have to leave room for a finite value.
pub proof fn lemma_optimized_is_finite<E, H, S>(
    goal_count: nat,
    joint_names: Seq<String>,
    warm_start: Seq<Vec<Double>>,
    pose: E,
    heading: H,
    solve: S,
    knots: Vec<Vec<Double>>,
    outcome: Optimized,
) where
    E: Fn(usize, &Vec<Double>) -> PoseReading,
    H: Fn(Double) -> Heading,
    S: Fn(&QuadraticProgram) -> Result<Vec<Double>, String>,

    requires
        rejection(goal_count, joint_names, outcome.problem.config, warm_start) is None,
        ordered(outcome.problem.lower@, outcome.problem.upper@),
        outcome.problem.n() == joint_names.len(),
        all_clamped(knots, warm_start, outcome.problem.lower@, outcome.problem.upper@),
        run_leaves(pose, heading, solve, knots, outcome),
        all_knots_finite(warm_start),
        forall|j: int|
            0 <= j < outcome.problem.n() ==> {
                let (lower, upper) = (
                    #[trigger] outcome.problem.lower@[j],
                    outcome.problem.upper@[j],
                );
                !(lower.infinite() && !lower.negative()) && !(upper.infinite()
                    && upper.negative())
            },
    ensures
        all_knots_finite(outcome.knots@),
{
    let n = outcome.problem.n();
    let (lower, upper) = (outcome.problem.lower@, outcome.problem.upper@);
    assert forall|k: int| 0 <= k < knots@.len() implies (#[trigger] knots@[k])@.len() == n by {
        assert(warm_start[k]@.len() == n);
    }
    assert forall|k: int, j: int| 0 <= k < knots@.len() && 0 <= j < knots@[k]@.len() implies (
    #[trigger] knots@[k]@[j]).finite() by {
        assert(warm_start[k]@.len() == n);
        assert(knots@[k]@[j] == warm_start[k]@[j].clamped(lower[j], upper[j]));
        lemma_clamped_is_finite(warm_start[k]@[j], lower[j], upper[j]);
    }
    lemma_outcome_is_finite(pose, heading, solve, knots, outcome);
}

} // verus!
