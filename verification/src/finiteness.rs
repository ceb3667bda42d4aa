//! A finite trajectory stays finite. Neither an infinity nor a NaN that a solver
//! answers with gets into an iterate: the merit of such a candidate is no number
//! that improves on anything.

use crate::arithmetic::{lemma_nearest_bound, lemma_sum_of_positive};
use crate::configs::{EeTracking, TrajectoryConfig};
use crate::constraints::velocity_limit;
use crate::cost::step_between;
use crate::diagnostics::{lateral_slip, BaseIndices, Heading};
use crate::double::{units, Double, HALF, UNIT_EXPONENT};
use crate::error::{lemma_zero_rounds_to_zero, lemma_zero_units};
use crate::linearization::{forward_progress, knots_shaped, Evaluation, PoseReading};
use crate::merit::{
    backward_merit, backward_square, excess_sum, half_weighted, merit_of, pose_violation, size_sum,
    slip_violation, smoothness_merit, tracking_merit, velocity_violation, MERIT_PENALTY,
};
use crate::qp::QuadraticProgram;
use crate::run::{
    attempt_fails, attempt_proposes, goes_on, is_run, run_comes_to, run_leaves, Optimized,
};
use crate::series::{square_sum, total};
use crate::sqp::{
    failed, improves, judged, lemma_improvement_lowers_merit, Candidate, SqpProblem, SqpState,
};
use vstd::arithmetic::power2::{lemma_pow2_pos, pow2};
use vstd::prelude::*;

verus! {

/// Whether every joint of every knot is finite.
pub open spec fn all_knots_finite(knots: Seq<Vec<Double>>) -> bool {
    forall|k: int, j: int|
        0 <= k < knots.len() && 0 <= j < knots[k]@.len() ==> (#[trigger] knots[k]@[j]).finite()
}

/// Whether a value is no number below zero.
pub open spec fn not_below_zero(value: Double) -> bool {
    value.nan() || (Double { bits: 0 }).at_most(value)
}

/// The parts of a finite sum are finite.
pub proof fn lemma_parts_of_sum(a: Double, b: Double)
    requires
        a.sum(b).finite(),
    ensures
        a.finite(),
        b.finite(),
{
    reveal(Double::sum);
}

/// The factors of a finite product are finite.
pub proof fn lemma_parts_of_product(a: Double, b: Double)
    requires
        a.product(b).finite(),
    ensures
        a.finite(),
        b.finite(),
{
    reveal(Double::product);
}

proof fn lemma_sum_not_below(a: Double, b: Double)
    requires
        not_below_zero(a),
        not_below_zero(b),
    ensures
        not_below_zero(a.sum(b)),
{
    if a.nan() || b.nan() {
        reveal(Double::sum);
    } else {
        lemma_sum_of_positive(a, b);
    }
}

pub(crate) proof fn lemma_product_not_below(a: Double, b: Double)
    requires
        not_below_zero(a),
        not_below_zero(b),
    ensures
        not_below_zero(a.product(b)),
{
    reveal(Double::product);
    let num = units(a.magnitude()) * units(b.magnitude());
    let den = pow2(UNIT_EXPONENT as nat);
    lemma_pow2_pos(UNIT_EXPONENT as nat);
    lemma_nearest_bound(num, den);
    if a.finite() && b.finite() && a.negative() != b.negative() {
        // One of the two is the negative zero.
        assert(num == 0) by {
            assert(a.zero() || b.zero());
            lemma_zero_units();
            assert(units(a.magnitude()) == 0 || units(b.magnitude()) == 0);
            assert(num == 0) by (nonlinear_arith)
                requires
                    num == units(a.magnitude()) * units(b.magnitude()),
                    units(a.magnitude()) == 0 || units(b.magnitude()) == 0,
            ;
        }
        lemma_zero_rounds_to_zero(den);
    }
}

proof fn lemma_square_not_below(a: Double)
    ensures
        not_below_zero(a.product(a)),
{
    reveal(Double::product);
    lemma_nearest_bound(
        units(a.magnitude()) * units(a.magnitude()),
        pow2(UNIT_EXPONENT as nat),
    );
}

pub(crate) proof fn lemma_total_not_below(values: Seq<Double>)
    requires
        forall|i: int| 0 <= i < values.len() ==> not_below_zero(#[trigger] values[i]),
    ensures
        not_below_zero(total(values)),
    decreases values.len(),
{
    if values.len() > 0 {
        lemma_total_not_below(values.drop_last());
        lemma_sum_not_below(total(values.drop_last()), values.last());
    }
}

/// The terms of a finite series are finite.
pub proof fn lemma_terms_of_total(values: Seq<Double>)
    requires
        total(values).finite(),
    ensures
        forall|i: int| 0 <= i < values.len() ==> (#[trigger] values[i]).finite(),
    decreases values.len(),
{
    if values.len() > 0 {
        lemma_parts_of_sum(total(values.drop_last()), values.last());
        lemma_terms_of_total(values.drop_last());
        assert forall|i: int| 0 <= i < values.len() implies (#[trigger] values[i]).finite() by {
            if i < values.len() - 1 {
                assert(values.drop_last()[i] == values[i]);
            }
        }
    }
}

proof fn lemma_square_sum_not_below(values: Seq<Double>)
    ensures
        not_below_zero(square_sum(values)),
{
    let terms = Seq::new(values.len(), |i: int| values[i].product(values[i]));
    assert forall|i: int| 0 <= i < terms.len() implies not_below_zero(#[trigger] terms[i]) by {
        lemma_square_not_below(values[i]);
    }
    lemma_total_not_below(terms);
}

proof fn lemma_weighted_not_below(weight: Double, value: Double)
    requires
        not_below_zero(weight),
        not_below_zero(value),
    ensures
        not_below_zero(half_weighted(weight, value)),
{
    lemma_product_not_below(Double { bits: HALF }, weight);
    lemma_product_not_below((Double { bits: HALF }).product(weight), value);
}

/// No merit is a number below zero.
proof fn lemma_merit_not_below(
    knots: Seq<Vec<Double>>,
    evaluation: Evaluation,
    config: TrajectoryConfig,
    base: BaseIndices,
)
    requires
        not_below_zero(config.ee_weight),
        not_below_zero(config.smoothness_weight),
    ensures
        not_below_zero(merit_of(knots, evaluation, config, base)),
{
    let intervals = (knots.len() - 1) as nat;
    let headings = evaluation.headings@;
    let poses = evaluation.knots@;
    // Tracking.
    let errors = Seq::new(poses.len(), |k: int| square_sum(poses[k].residual@));
    assert forall|k: int| 0 <= k < errors.len() implies not_below_zero(#[trigger] errors[k]) by {
        lemma_square_sum_not_below(poses[k].residual@);
    }
    lemma_total_not_below(errors);
    lemma_weighted_not_below(config.ee_weight, total(errors));
    // Smoothness.
    let steps = Seq::new(intervals, |k: int| square_sum(step_between(knots[k]@, knots[k + 1]@)));
    assert forall|k: int| 0 <= k < steps.len() implies not_below_zero(#[trigger] steps[k]) by {
        lemma_square_sum_not_below(step_between(knots[k]@, knots[k + 1]@));
    }
    lemma_total_not_below(steps);
    lemma_weighted_not_below(config.smoothness_weight, total(steps));
    // Backward motion.
    let backward = Seq::new(
        intervals,
        |k: int| backward_square(forward_progress(knots[k]@, knots[k + 1]@, base, headings[k])),
    );
    assert forall|k: int| 0 <= k < backward.len() implies not_below_zero(
        #[trigger] backward[k],
    ) by {
        let progress = forward_progress(knots[k]@, knots[k + 1]@, base, headings[k]);
        lemma_square_not_below(progress.smaller(Double { bits: 0 }));
    }
    lemma_total_not_below(backward);
    if (Double { bits: 0 }).less(config.backward_weight) {
        lemma_weighted_not_below(config.backward_weight, total(backward));
    }
    // Violations.
    let slips = Seq::new(
        intervals,
        |k: int| lateral_slip(knots[k]@, knots[k + 1]@, base, headings[k]).absolute(),
    );
    lemma_total_not_below(slips);
    let limit = velocity_limit(config);
    let excesses = Seq::new(
        intervals,
        |k: int| excess_sum(step_between(knots[k]@, knots[k + 1]@), limit),
    );
    assert forall|k: int| 0 <= k < excesses.len() implies not_below_zero(
        #[trigger] excesses[k],
    ) by {
        let step = step_between(knots[k]@, knots[k + 1]@);
        lemma_total_not_below(
            Seq::new(
                step.len(),
                |i: int| step[i].absolute().difference(limit).larger(Double { bits: 0 }),
            ),
        );
    }
    lemma_total_not_below(excesses);
    let sizes = Seq::new(poses.len(), |k: int| size_sum(poses[k].residual@));
    assert forall|k: int| 0 <= k < sizes.len() implies not_below_zero(#[trigger] sizes[k]) by {
        let residual = poses[k].residual@;
        lemma_total_not_below(Seq::new(residual.len(), |i: int| residual[i].absolute()));
    }
    lemma_total_not_below(sizes);
    // Together.
    let tracking = if config.ee_tracking == EeTracking::Soft {
        tracking_merit(poses, config.ee_weight)
    } else {
        Double { bits: 0 }
    };
    let smooth = smoothness_merit(knots, config.smoothness_weight);
    let back = backward_merit(knots, headings, base, config.backward_weight);
    lemma_sum_not_below(tracking, smooth);
    lemma_sum_not_below(tracking.sum(smooth), back);
    let slip = slip_violation(knots, headings, base);
    let fast = velocity_violation(knots, limit);
    lemma_sum_not_below(slip, fast);
    lemma_sum_not_below(slip.sum(fast), pose_violation(poses));
    let violation = if config.ee_tracking == EeTracking::Hard {
        slip.sum(fast).sum(pose_violation(poses))
    } else {
        slip.sum(fast)
    };
    lemma_product_not_below(Double { bits: MERIT_PENALTY }, violation);
    lemma_sum_not_below(
        tracking.sum(smooth).sum(back),
        (Double { bits: MERIT_PENALTY }).product(violation),
    );
}

/// A trajectory of finite merit is finite: the smoothness cost would not be.
pub proof fn lemma_finite_merit_of_finite_knots(
    knots: Seq<Vec<Double>>,
    evaluation: Evaluation,
    config: TrajectoryConfig,
    base: BaseIndices,
    n: nat,
)
    requires
        knots.len() >= 2,
        knots_shaped(knots, n),
        merit_of(knots, evaluation, config, base).finite(),
    ensures
        all_knots_finite(knots),
{
    let tracking = if config.ee_tracking == EeTracking::Soft {
        tracking_merit(evaluation.knots@, config.ee_weight)
    } else {
        Double { bits: 0 }
    };
    let smooth = smoothness_merit(knots, config.smoothness_weight);
    let back = backward_merit(knots, evaluation.headings@, base, config.backward_weight);
    let cost = tracking.sum(smooth).sum(back);
    let motion = slip_violation(knots, evaluation.headings@, base).sum(
        velocity_violation(knots, velocity_limit(config)),
    );
    let violation = if config.ee_tracking == EeTracking::Hard {
        motion.sum(pose_violation(evaluation.knots@))
    } else {
        motion
    };
    lemma_parts_of_sum(cost, (Double { bits: MERIT_PENALTY }).product(violation));
    lemma_parts_of_sum(tracking.sum(smooth), back);
    lemma_parts_of_sum(tracking, smooth);
    let steps = Seq::new(
        (knots.len() - 1) as nat,
        |k: int| square_sum(step_between(knots[k]@, knots[k + 1]@)),
    );
    lemma_parts_of_product(
        (Double { bits: HALF }).product(config.smoothness_weight),
        total(steps),
    );
    lemma_terms_of_total(steps);
    assert forall|k: int, j: int| 0 <= k < knots.len() && 0 <= j < knots[k]@.len() implies (
    #[trigger] knots[k]@[j]).finite() by {
        let first = if k == knots.len() - 1 {
            k - 1
        } else {
            k
        };
        assert(steps[first].finite());
        assert(knots[first]@.len() == n && knots[first + 1]@.len() == n && knots[k]@.len() == n);
        let step = step_between(knots[first]@, knots[first + 1]@);
        let squares = Seq::new(step.len(), |i: int| step[i].product(step[i]));
        lemma_terms_of_total(squares);
        assert(squares[j].finite());
        lemma_parts_of_product(step[j], step[j]);
        lemma_parts_of_sum(knots[first + 1]@[j], knots[first]@[j].negated());
    }
}

/// A candidate that improves on anything is finite.
proof fn lemma_improvement_is_finite(
    knots: Seq<Vec<Double>>,
    evaluation: Evaluation,
    problem: SqpProblem,
    current: Double,
    n: nat,
)
    requires
        knots.len() >= 2,
        knots_shaped(knots, n),
        not_below_zero(problem.config.ee_weight),
        not_below_zero(problem.config.smoothness_weight),
        improves(merit_of(knots, evaluation, problem.config, problem.base), current),
    ensures
        all_knots_finite(knots),
{
    let merit = merit_of(knots, evaluation, problem.config, problem.base);
    lemma_merit_not_below(knots, evaluation, problem.config, problem.base);
    lemma_improvement_lowers_merit(merit, current);
    assert(merit.finite());
    lemma_finite_merit_of_finite_knots(knots, evaluation, problem.config, problem.base, n);
}

/// A run that starts at a finite trajectory stays finite, whatever the solver and
/// the kinematics answer.
pub proof fn lemma_run_stays_finite<E, H, S>(
    problem: SqpProblem,
    pose: E,
    heading: H,
    solve: S,
    knots: Vec<Vec<Double>>,
    run: Seq<SqpState>,
    i: int,
) where
    E: Fn(usize, &Vec<Double>) -> PoseReading,
    H: Fn(Double) -> Heading,
    S: Fn(&QuadraticProgram) -> Result<Vec<Double>, String>,

    requires
        is_run(problem, pose, heading, solve, knots, run),
        knots@.len() >= 2,
        knots_shaped(knots@, problem.n()),
        all_knots_finite(knots@),
        not_below_zero(problem.config.ee_weight),
        not_below_zero(problem.config.smoothness_weight),
        0 <= i < run.len(),
    ensures
        run[i].knots@.len() == knots@.len(),
        knots_shaped(run[i].knots@, problem.n()),
        all_knots_finite(run[i].knots@),
    decreases i,
{
    if i > 0 {
        lemma_run_stays_finite(problem, pose, heading, solve, knots, run, i - 1);
        let (before, after) = (run[i - 1], run[i]);
        assert(goes_on(problem, pose, heading, solve, run[i - 1], run[i - 1 + 1]));
        if exists|error: String|
            #[trigger] attempt_fails(problem, solve, before, error) && failed(
                problem,
                before,
                error,
                after,
                Ok(None),
            ) {
        } else {
            let (candidate, evaluation) = choose|candidate: Candidate, evaluation: Evaluation|
                #[trigger] attempt_proposes(
                    problem,
                    pose,
                    heading,
                    solve,
                    before,
                    candidate,
                    evaluation,
                ) && judged(problem, before, candidate, evaluation, after, None);
            lemma_judged_stays_finite(problem, before, candidate, evaluation, after);
        }
    }
}

/// An accepted candidate is finite, and a rejected one changes nothing.
proof fn lemma_judged_stays_finite(
    problem: SqpProblem,
    before: SqpState,
    candidate: Candidate,
    evaluation: Evaluation,
    after: SqpState,
)
    requires
        exists|ending| judged(problem, before, candidate, evaluation, after, ending),
        before.knots@.len() >= 2,
        knots_shaped(before.knots@, problem.n()),
        all_knots_finite(before.knots@),
        candidate.knots@.len() == before.knots@.len(),
        knots_shaped(candidate.knots@, problem.n()),
        not_below_zero(problem.config.ee_weight),
        not_below_zero(problem.config.smoothness_weight),
    ensures
        after.knots@.len() == before.knots@.len(),
        knots_shaped(after.knots@, problem.n()),
        all_knots_finite(after.knots@),
{
    let merit = merit_of(candidate.knots@, evaluation, problem.config, problem.base);
    if improves(merit, before.merit) {
        lemma_improvement_is_finite(
            candidate.knots@,
            evaluation,
            problem,
            before.merit,
            problem.n(),
        );
    }
}

/// What a run leaves of a finite trajectory is finite: no NaN and no infinity comes
/// out, whatever the solver and the kinematics answer.
pub proof fn lemma_outcome_is_finite<E, H, S>(
    pose: E,
    heading: H,
    solve: S,
    knots: Vec<Vec<Double>>,
    outcome: Optimized,
) where
    E: Fn(usize, &Vec<Double>) -> PoseReading,
    H: Fn(Double) -> Heading,
    S: Fn(&QuadraticProgram) -> Result<Vec<Double>, String>,

    requires
        run_leaves(pose, heading, solve, knots, outcome),
        knots@.len() >= 2,
        knots_shaped(knots@, outcome.problem.n()),
        all_knots_finite(knots@),
        not_below_zero(outcome.problem.config.ee_weight),
        not_below_zero(outcome.problem.config.smoothness_weight),
    ensures
        all_knots_finite(outcome.knots@),
{
    let problem = outcome.problem;
    if problem.config.sqp_max_iterations > 0 {
        let (run, state) = choose|run: Seq<SqpState>, state: SqpState|
            #[trigger] run_comes_to(pose, heading, solve, knots, outcome, run, state);
        let before = run.last();
        lemma_run_stays_finite(problem, pose, heading, solve, knots, run, run.len() - 1);
        if exists|candidate: Candidate, evaluation: Evaluation|
            #[trigger] attempt_proposes(
                problem,
                pose,
                heading,
                solve,
                before,
                candidate,
                evaluation,
            ) && judged(problem, before, candidate, evaluation, state, Some(outcome.ending)) {
            let (candidate, evaluation) = choose|candidate: Candidate, evaluation: Evaluation|
                #[trigger] attempt_proposes(
                    problem,
                    pose,
                    heading,
                    solve,
                    before,
                    candidate,
                    evaluation,
                ) && judged(
                    problem,
                    before,
                    candidate,
                    evaluation,
                    state,
                    Some(outcome.ending),
                );
            lemma_judged_stays_finite(problem, before, candidate, evaluation, state);
        }
    }
}

} // verus!
