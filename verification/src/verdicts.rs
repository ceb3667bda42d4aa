//! What is accepted and what is refused, and why: settings, trajectories, steps and runs.

use crate::active_set::{
    at_limit, candidate_of, considered, constrains, lemma_worst_violation, lemma_worst_wrong_sign,
    violation, worst_violation, worst_wrong_sign, wrong_sign,
    ActiveSetStep, ConstraintKind, SIGN_TOLERANCE, VIOLATION_TOLERANCE,
};
use crate::configs::{DifferentialIkConfig, EeTracking, TrajectoryConfig};
use crate::diagnostics::{base_rejection, BaseIndices, Heading};
use crate::double::{Double, ONE};
use crate::kinematics::{describes, refused, sound, ConstraintError, IkError, IkSolve};
use crate::linearization::{Evaluation, PoseReading};
use crate::merit::merit_of;
use crate::moves::lemma_norm_is_the_largest_size;
use crate::qp::{read_out, SolverStatus};
use crate::run::evaluated;
use crate::sqp::{
    collapsed, failed, improves, infinity_norm, judged, lemma_improvement_lowers_merit,
    next_radius, proposed, Candidate, Ending, SqpProblem, SqpState,
};
use crate::text::lemma_first_position;
use crate::trajectory::rejection;
use vstd::prelude::*;

verus! {

/// Settings are accepted only where every constraint names a joint of the chain, no two name
/// the same, and each target is within the joint's limits; and each constraint pins the first
/// joint of its name at its own target.
pub proof fn lemma_accepted_pins_are_sound(
    solve: IkSolve,
    config: DifferentialIkConfig,
    joint_names: Seq<String>,
    lower: Vec<Double>,
    upper: Vec<Double>,
    r: int,
)
    requires
        solve.accepts(config, joint_names, lower, upper),
        0 <= r < config.equality_constraints@.len(),
    ensures
        ({
            let constraint = config.equality_constraints@[r];
            let joint = solve.equalities.joints@[r] as int;
            &&& solve.equalities.joints@.len() == config.equality_constraints@.len()
            &&& joint < joint_names.len() && joint_names[joint]@ == constraint.joint_name@
            &&& forall|j: int|
                0 <= j < joint ==> (#[trigger] joint_names[j])@ != constraint.joint_name@
            &&& forall|s: int|
                0 <= s < r ==> (#[trigger] config.equality_constraints@[s]).joint_name@
                    != constraint.joint_name@
            &&& solve.equalities.targets@[r] == constraint.target_value
            &&& !constraint.target_value.less(lower@[joint])
            &&& !upper@[joint].less(constraint.target_value)
        }),
{
    let constraint = config.equality_constraints@[r];
    lemma_first_position(joint_names, constraint.joint_name@);
}

/// Settings are refused for a reason: the damping is not positive, or some constraint names
/// a joint that the chain does not have, names one that an earlier constraint names, or has
/// a target beyond the limits; and the error says which.
pub proof fn lemma_refusals_have_a_reason(
    error: IkError,
    config: DifferentialIkConfig,
    joint_names: Seq<String>,
    lower: Seq<Double>,
    upper: Seq<Double>,
)
    requires
        refused(error, config, joint_names, lower, upper),
    ensures
        match error {
            IkError::NonPositiveDamping { damping_factor } => damping_factor
                == config.damping_factor && !(Double { bits: 0 }).less(config.damping_factor),
            IkError::Constraint(fault) => {
                let constraints = config.equality_constraints@;
                exists|r: int|
                    0 <= r < constraints.len() && match fault {
                        ConstraintError::UnknownJoint { joint_name } => joint_name@
                            == (#[trigger] constraints[r]).joint_name@ && forall|j: int|
                            0 <= j < joint_names.len() ==> (#[trigger] joint_names[j])@
                                != joint_name@,
                        ConstraintError::DuplicateJoint { joint_name } => joint_name@
                            == constraints[r].joint_name@ && exists|s: int|
                            0 <= s < r && (#[trigger] constraints[s]).joint_name@ == joint_name@,
                        ConstraintError::OutsideLimits {
                            joint_name,
                            target,
                            lower: low,
                            upper: high,
                        } => joint_name@ == constraints[r].joint_name@ && target
                            == constraints[r].target_value && (target.less(low) || high.less(
                            target,
                        )) && exists|j: int|
                            0 <= j < joint_names.len() && (#[trigger] joint_names[j])@
                                == joint_name@ && low == lower[j] && high == upper[j],
                    }
            },
            IkError::Solver(_) => false,
        },
{
    match error {
        IkError::Constraint(fault) => {
            let constraints = config.equality_constraints@;
            let r = choose|r: int|
                0 <= r < constraints.len() && !sound(
                    joint_names,
                    constraints,
                    lower,
                    upper,
                    r,
                ) && #[trigger] describes(
                    fault,
                    joint_names,
                    constraints,
                    lower,
                    upper,
                    r,
                ) && forall|i: int|
                    0 <= i < r ==> sound(
                        joint_names,
                        constraints,
                        lower,
                        upper,
                        i,
                    );
            lemma_first_position(joint_names, constraints[r].joint_name@);
            assert(constraints[r].joint_name@ == constraints[r].joint_name@);
        },
        _ => {},
    }
}

/// A trajectory is taken on exactly where there are at least two goals, a knot of the right
/// dimension for each, positive time steps, radii, damping and speeds, no negative weights,
/// and base joints that the chain has.
pub proof fn lemma_rejection_is_complete(
    goal_count: nat,
    joint_names: Seq<String>,
    config: TrajectoryConfig,
    warm_start: Seq<Vec<Double>>,
)
    ensures
        rejection(goal_count, joint_names, config, warm_start) is None <==> {
            let zero = Double { bits: 0 };
            &&& goal_count >= 2
            &&& warm_start.len() == goal_count
            &&& forall|k: int|
                0 <= k < warm_start.len() ==> (#[trigger] warm_start[k])@.len() == joint_names.len()
            &&& zero.less(config.dt)
            &&& zero.less(config.trust_region)
            &&& zero.less(config.damping)
            &&& zero.at_most(config.ee_weight)
            &&& zero.at_most(config.smoothness_weight)
            &&& zero.less(config.max_joint_velocity)
            &&& base_rejection(joint_names, config.base_joint_names@) is None
        },
{
}

/// A run converges exactly where the step toward the full targets is shorter than the
/// threshold in every entry. It collapses only after a step that was not taken, at a radius
/// that is too small; and it goes on only while it has iterations left. The radius follows
/// whether the merit was lowered, and the next step is toward the full targets again.
pub proof fn lemma_endings_mean_what_they_say(
    problem: SqpProblem,
    before: SqpState,
    step: Seq<Double>,
    candidate: Candidate,
    evaluation: Evaluation,
    after: SqpState,
    ending: Option<Ending>,
)
    requires
        proposed(problem, before, step, candidate),
        judged(problem, before, candidate, evaluation, after, ending),
        forall|i: int| 0 <= i < step.len() ==> !(#[trigger] step[i]).nan(),
        (Double { bits: 0 }).less(problem.config.convergence_step_norm),
    ensures
        ending == Some(Ending::Converged) <==> before.halvings == 0 && forall|i: int|
            0 <= i < step.len() ==> (#[trigger] step[i]).absolute().less(
                problem.config.convergence_step_norm,
            ),
        ending == Some(Ending::TrustRegionCollapsed) ==> after.knots == before.knots && after.merit
            == before.merit && collapsed(after.radius, problem.config.trust_region),
        ending == Some(Ending::IterationsExhausted) ==> after.iteration
            == problem.config.sqp_max_iterations,
        ending is None ==> after.iteration != problem.config.sqp_max_iterations,
        after.iteration == before.iteration + 1,
        after.knots == before.knots || after.knots == candidate.knots,
        after.knots != before.knots ==> after.merit.less(before.merit) && after.accepted,
        after.radius == next_radius(
            before.radius,
            problem.config.trust_region,
            after.merit.less(before.merit),
        ),
        after.halvings == 0 && after.scale == (Double { bits: ONE }),
{
    lemma_norm_is_the_largest_size(step);
    let norm = infinity_norm(step);
    let threshold = problem.config.convergence_step_norm;
    let merit = merit_of(
        candidate.knots@,
        evaluation,
        problem.config,
        problem.base,
    );
    if improves(merit, before.merit) {
        lemma_improvement_lowers_merit(merit, before.merit);
    }
    if norm.less(threshold) {
        assert forall|i: int| 0 <= i < step.len() implies (#[trigger] step[i]).absolute().less(
            threshold,
        ) by {
            assert(step[i].absolute().at_most(norm));
        }
    } else if before.halvings == 0 && forall|i: int|
        0 <= i < step.len() ==> (#[trigger] step[i]).absolute().less(threshold) {
        if norm != (Double { bits: 0 }) {
            let i = choose|i: int|
                0 <= i < step.len() && norm == (#[trigger] step[i]).absolute();
            assert(step[i].absolute().less(threshold));
        }
    }
}

/// A subproblem that was not solved costs nothing but its attempt: the iterate stays, and the
/// run goes on only in hard mode, toward targets of half the scale.
pub proof fn lemma_failure_keeps_the_iterate(
    problem: SqpProblem,
    before: SqpState,
    error: String,
    after: SqpState,
    result: Result<Option<Ending>, String>,
)
    requires
        failed(problem, before, error, after, result),
    ensures
        after.knots == before.knots,
        after.merit == before.merit,
        after.radius == before.radius,
        after.iteration == before.iteration,
        result matches Ok(None) ==> problem.config.ee_tracking == EeTracking::Hard
            && after.halvings == before.halvings + 1,
        result is Err ==> !before.accepted,
        result matches Ok(Some(ending)) ==> before.accepted && ending == Ending::SolverStalled(
            error,
        ),
{
}

/// The active-set method ends a step only where no multiplier of a limit has the wrong sign
/// and no free joint is beyond its limits, each to the tolerance, or where it has solved more
/// than twice as many systems as there are joints.
pub proof fn lemma_settled_step_is_optimal(
    before: ActiveSetStep,
    solution: Seq<Double>,
    after: ActiveSetStep,
    i: int,
    r: int,
)
    requires
        considered(before, solution, after, false),
        before.positions@.len() == before.n(),
        before.n() <= usize::MAX,
        before.rounds < 2 * before.n(),
        0 <= i < before.n(),
        0 <= r < before.working_set@.len(),
    ensures
        ({
            let candidate = after.accepted->0@;
            let over = Double { bits: VIOLATION_TOLERANCE };
            let wrong = Double { bits: SIGN_TOLERANCE };
            let lambda = solution.skip(before.n() as int)[r];
            &&& after.working_set@ == before.working_set@
            &&& !constrains(before.working_set@, i) ==> !over.less(
                candidate[i].difference(before.upper@[i]),
            ) && !over.less(before.lower@[i].difference(candidate[i]))
            &&& before.working_set@[r].kind == ConstraintKind::UpperLimit ==> !wrong.less(
                lambda.negated(),
            )
            &&& before.working_set@[r].kind == ConstraintKind::LowerLimit ==> !wrong.less(lambda)
        }),
{
    let set = before.working_set@;
    let candidate = candidate_of(before.positions@, solution);
    let lambdas = solution.skip(before.n() as int);
    lemma_worst_wrong_sign(set, lambdas, set.len());
    lemma_worst_violation(set, candidate, before.lower@, before.upper@, before.n());
    assert(after.accepted->0@ == candidate);
    assert(candidate[i] == candidate[i]);
    assert(set[r] == set[r]);
}

/// A solution changes the working set by one constraint at most. Where the multiplier of some
/// limit has the wrong sign beyond the tolerance, a limit whose sign is worst is dropped; else,
/// where some free joint is beyond a limit by more than the tolerance, a limit that is violated
/// most is added. The method goes on exactly where the set has changed and it has not solved
/// too many systems.
pub proof fn lemma_working_set_changes_by_one(
    before: ActiveSetStep,
    solution: Seq<Double>,
    after: ActiveSetStep,
    again: bool,
)
    requires
        considered(before, solution, after, again),
        before.positions@.len() == before.n(),
        before.n() <= usize::MAX,
    ensures
        ({
            let (old_set, new_set) = (before.working_set@, after.working_set@);
            let lambdas = solution.skip(before.n() as int);
            let candidate = after.accepted->0@;
            let wrong = Double { bits: SIGN_TOLERANCE };
            let over = Double { bits: VIOLATION_TOLERANCE };
            let dropped = exists|r: int|
                {
                    &&& 0 <= r < old_set.len()
                    &&& #[trigger] wrong_sign(old_set[r], lambdas[r]) matches Some(amount)
                        && wrong.less(amount) && forall|s: int|
                        0 <= s < old_set.len() ==> (#[trigger] wrong_sign(old_set[s], lambdas[s])
                            matches Some(other) ==> !amount.less(other))
                    &&& new_set == old_set.remove(r)
                };
            let added = {
                let limit = new_set.last();
                let amount = violation(limit, candidate);
                &&& new_set.len() == old_set.len() + 1
                &&& new_set.drop_last() == old_set
                &&& limit.joint_index < before.n()
                &&& !constrains(old_set, limit.joint_index as int)
                &&& at_limit(limit, before.lower@, before.upper@)
                &&& over.less(amount)
                &&& forall|i: int|
                    0 <= i < before.n() && !constrains(old_set, i) ==> !amount.less(
                        (#[trigger] candidate[i]).difference(before.upper@[i]),
                    ) && !amount.less(before.lower@[i].difference(candidate[i]))
            };
            &&& dropped || added || new_set == old_set
            &&& (exists|r: int|
                0 <= r < old_set.len() && (#[trigger] wrong_sign(old_set[r], lambdas[r])
                    matches Some(amount) && wrong.less(amount))) ==> dropped
            &&& again <==> new_set != old_set && before.rounds < 2 * before.n()
        }),
{
    let set = before.working_set@;
    let candidate = candidate_of(before.positions@, solution);
    let lambdas = solution.skip(before.n() as int);
    let wrong = Double { bits: SIGN_TOLERANCE };
    lemma_worst_wrong_sign(set, lambdas, set.len());
    lemma_worst_violation(set, candidate, before.lower@, before.upper@, before.n());
    assert(after.accepted->0@ == candidate);
    let (row, amount) = worst_wrong_sign(set, lambdas, set.len());
    assert forall|s: int| 0 <= s < set.len() implies (#[trigger] wrong_sign(set[s], lambdas[s])
        matches Some(other) ==> !amount.less(other)) by {
        assert(set[s] == set[s]);
    }
    match row {
        Some(r) => {
            assert(wrong_sign(set[r as int], lambdas[r as int]) == Some(amount));
            assert(after.working_set@ == set.remove(r as int));
            assert(after.working_set@.len() != set.len());
        },
        None => {
            match worst_violation(set, candidate, before.lower@, before.upper@, before.n()).0 {
                Some(constraint) => {
                    assert(after.working_set@ == set.push(constraint));
                    assert(after.working_set@.drop_last() =~= set);
                },
                None => {},
            }
        },
    }
}

/// Every knot is evaluated at its own place: its residual and its Jacobian are those that
/// are read at that knot.
pub proof fn lemma_every_knot_is_evaluated<E, H>(
    base: BaseIndices,
    pose: E,
    heading: H,
    knots: Vec<Vec<Double>>,
    evaluation: Evaluation,
    k: int,
) where E: Fn(usize, &Vec<Double>) -> PoseReading, H: Fn(Double) -> Heading
    requires
        evaluated(base, pose, heading, knots, evaluation),
        0 <= k < knots@.len(),
    ensures
        evaluation.knots@.len() == knots@.len(),
        exists|reading: PoseReading|
            {
                &&& #[trigger] call_ensures(pose, (k as usize, &knots@[k]), reading)
                &&& evaluation.knots@[k].residual == reading.twist
                &&& evaluation.knots@[k].jacobian == reading.jacobian
            },
{
    let reading = evaluation.knots@[k].reading();
    assert(call_ensures(pose, (k as usize, &knots@[k]), reading));
}

/// A solver's point is handed on exactly where the solver says that it solved the program, or
/// almost did; and then it is that point.
pub proof fn lemma_only_solutions_are_handed_on(
    status: SolverStatus,
    x: Seq<Double>,
    result: Result<Vec<Double>, String>,
)
    requires
        read_out(status, x, result),
    ensures
        result is Ok <==> status == SolverStatus::Solved || status == SolverStatus::AlmostSolved,
        result matches Ok(found) ==> found@ == x,
{
}

} // verus!
