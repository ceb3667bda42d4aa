//! What a step does to a configuration, how long it is, and what becomes of the radius that
//! bounds it.

use crate::definite::lemma_tiny;
use crate::double::{exponent, significand, Double, HALF, ONE, TWO, UNIT_EXPONENT};
use crate::error::{
    half_ulp, least, lemma_half_ulp, lemma_least, lemma_product_error, lemma_scaled_order,
    lemma_sum_error, lemma_value_of_zero, size, value,
};
use crate::feasible::{greater, lemma_values_in_order};
use crate::kinematics::{evaluated_at, step_taken, stepped, IkSolve, PoseEvaluation};
use crate::limits::within_limits;
use crate::linearization::PoseReading;
use crate::qp::QuadraticProgram;
use crate::range::{lemma_product_within, lemma_sum_within, within};
use crate::reals::{lemma_associates, lemma_commutes, lemma_one, lemma_three, lemma_zero};
use crate::round_trip::lemma_value_of_two;
use crate::rounding::TWO_52;
use crate::slip::{lemma_value_of_half, lemma_value_of_negated, lemma_value_of_one};
use crate::sqp::{
    collapsed, improves, infinity_norm, moved_knot, next_radius, proposed, Candidate, SqpProblem,
    SqpState, MERIT_MARGIN, SMALLEST_RADIUS,
};
use crate::trajectory::all_clamped;
use vstd::arithmetic::power2::{
    lemma2_to64, lemma2_to64_rest, lemma_pow2_adds, lemma_pow2_pos, pow2,
};
use vstd::prelude::*;

verus! {

/// The norm of a step is the largest size in it: no entry is larger, and one is as large,
/// or the step has no entry that is a number other than zero.
pub proof fn lemma_norm_is_the_largest_size(step: Seq<Double>)
    ensures
        forall|i: int|
            0 <= i < step.len() && !step[i].nan() ==> (#[trigger] step[i]).absolute().at_most(
                infinity_norm(step),
            ),
        infinity_norm(step) == (Double { bits: 0 }) || exists|i: int|
            0 <= i < step.len() && infinity_norm(step) == (#[trigger] step[i]).absolute(),
        !infinity_norm(step).nan(),
    decreases step.len(),
{
    if step.len() > 0 {
        let fewer = step.drop_last();
        let last = step.last();
        lemma_norm_is_the_largest_size(fewer);
        let (norm, before) = (infinity_norm(step), infinity_norm(fewer));
        assert(norm == before || norm == last.absolute());
        if norm == before && before != (Double { bits: 0 }) {
            let i = choose|i: int|
                0 <= i < fewer.len() && before == (#[trigger] fewer[i]).absolute();
            assert(step[i] == fewer[i]);
        } else if norm == last.absolute() {
            assert(step[step.len() - 1] == last);
        }
        assert forall|i: int| 0 <= i < step.len() && !step[i].nan() implies (
        #[trigger] step[i]).absolute().at_most(norm) by {
            if i < fewer.len() {
                assert(fewer[i] == step[i]);
            }
        }
    }
}

/// A real moved into an interval.
pub open spec fn moved_into(x: real, low: real, high: real) -> real {
    if x < low {
        low
    } else if x > high {
        high
    } else {
        x
    }
}

/// A joint moved by a step and into its limits.
proof fn lemma_move_near(at: Double, by: Double, low: Double, high: Double)
    requires
        within(at, 1000000000int as real),
        within(by, 1000000000int as real),
        low.finite(),
        high.finite(),
        low.at_most(high),
    ensures
        is_moved(at, by, low, high, at.sum(by).clamped(low, high)),
{
    let billion = 1000000000int as real;
    lemma_half_ulp();
    lemma_sum_within(at, by, billion, billion);
    lemma_sum_error(at, by);
    lemma_values_in_order(at.sum(by), low);
    lemma_values_in_order(high, at.sum(by));
    lemma_values_in_order(low, high);
    lemma_scaled_order(half_ulp(), 0int as real, size(value(at) + value(by)));
}

/// The iterate that a step of the whole trajectory leads to: each joint of each knot is moved
/// by its own entry of the stacked step and into its limits, up to rounding.
pub proof fn lemma_every_joint_is_moved(
    problem: SqpProblem,
    state: SqpState,
    step: Seq<Double>,
    candidate: Candidate,
    k: int,
    j: int,
)
    requires
        proposed(problem, state, step, candidate),
        0 <= k < state.knots@.len(),
        0 <= j < problem.n(),
        state.knots@[k]@.len() == problem.n(),
        within(state.knots@[k]@[j], 1000000000int as real),
        within(step[k * problem.n() + j], 1000000000int as real),
        problem.lower@[j].finite(),
        problem.upper@[j].finite(),
        problem.lower@[j].at_most(problem.upper@[j]),
    ensures
        ({
            let by = step[k * problem.n() + j];
            is_moved(
                state.knots@[k]@[j],
                by,
                problem.lower@[j],
                problem.upper@[j],
                candidate.knots@[k]@[j],
            )
        }),
{
    assert(candidate.knots@[k]@ == moved_knot(
        state.knots@[k]@,
        step,
        k * problem.n(),
        problem.lower@,
        problem.upper@,
    ));
    lemma_move_near(
        state.knots@[k]@[j],
        step[k * problem.n() + j],
        problem.lower@[j],
        problem.upper@[j],
    );
}

/// Whether a joint ends up where a step leads it, in its limits, up to rounding.
pub open spec fn is_moved(at: Double, by: Double, low: Double, high: Double, to: Double) -> bool {
    let wanted = value(at) + value(by);
    size(value(to) - moved_into(wanted, value(low), value(high))) <= half_ulp() * size(wanted)
}

/// A step of inverse kinematics is the solver's answer to the step's program: each joint is
/// moved by its entry of that answer and into its limits, up to rounding.
pub proof fn lemma_every_joint_is_stepped<E, S>(
    solve: IkSolve,
    evaluate: E,
    answer: S,
    from: Vec<Double>,
    to: Vec<Double>,
    j: int,
) where
    E: Fn(&Vec<Double>) -> PoseReading,
    S: Fn(&QuadraticProgram) -> Result<Vec<Double>, String>,

    requires
        step_taken(solve, evaluate, answer, from, to),
        0 <= j < from@.len(),
        within(from@[j], 1000000000int as real),
        solve.lower@[j].finite(),
        solve.upper@[j].finite(),
        solve.lower@[j].at_most(solve.upper@[j]),
    ensures
        exists|program: QuadraticProgram, step: Vec<Double>|
            {
                &&& #[trigger] call_ensures(answer, (&program,), Ok::<Vec<Double>, String>(step))
                &&& within(step@[j], 1000000000int as real) ==> is_moved(
                    from@[j],
                    step@[j],
                    solve.lower@[j],
                    solve.upper@[j],
                    to@[j],
                )
            },
{
    let (evaluation, program, step) = choose|
        evaluation: PoseEvaluation,
        program: QuadraticProgram,
        step: Vec<Double>,
    |
        {
            &&& evaluated_at(evaluate, from, evaluation)
            &&& !evaluation.twist_norm.less(solve.convergence_threshold)
            &&& #[trigger] solve.models(program, from@, evaluation)
            &&& #[trigger] call_ensures(answer, (&program,), Ok::<Vec<Double>, String>(step))
            &&& to@ == stepped(from@, step@, solve.lower@, solve.upper@)
        };
    if within(step@[j], 1000000000int as real) {
        lemma_move_near(from@[j], step@[j], solve.lower@[j], solve.upper@[j]);
    }
    assert(call_ensures(answer, (&program,), Ok::<Vec<Double>, String>(step)));
}

/// A warm start is taken over: a joint that keeps its limits stays where it is, and one that
/// does not goes to the limit that it is beyond.
pub proof fn lemma_warm_start_is_kept(
    knots: Vec<Vec<Double>>,
    warm_start: Seq<Vec<Double>>,
    lower: Seq<Double>,
    upper: Seq<Double>,
    k: int,
    j: int,
)
    requires
        all_clamped(knots, warm_start, lower, upper),
        0 <= k < warm_start.len(),
        0 <= j < warm_start[k]@.len(),
        lower[j].at_most(upper[j]),
        !warm_start[k]@[j].nan(),
    ensures
        ({
            let (at, kept) = (warm_start[k]@[j], knots@[k]@[j]);
            &&& lower[j].at_most(at) && at.at_most(upper[j]) ==> kept == at
            &&& at.less(lower[j]) ==> kept == lower[j]
            &&& upper[j].less(at) ==> kept == upper[j]
        }),
{
    assert(knots@[k]@ == within_limits(warm_start[k]@, lower, upper));
}

/// The radius after a step: twice what it was where the step was accepted, but not more than
/// the largest; half of what it was where the step was not, up to rounding.
pub proof fn lemma_radius_doubles_or_halves(radius: Double, largest: Double)
    requires
        within(radius, 1000000000int as real),
        largest.finite(),
    ensures
        ({
            let twice = (2int as real) * value(radius);
            let half = value(radius) / (2int as real);
            let rounding = half_ulp() * size(twice) + least();
            &&& size(
                value(next_radius(radius, largest, true)) - if twice < value(largest) {
                    twice
                } else {
                    value(largest)
                },
            ) <= rounding
            &&& size(value(next_radius(radius, largest, false)) - half) <= rounding
        }),
{
    let billion = 1000000000int as real;
    let (two, half) = (Double { bits: TWO }, Double { bits: HALF });
    lemma_half_ulp();
    lemma_least();
    lemma_value_of_two();
    lemma_value_of_half();
    lemma_product_within(two, radius, 2int as real, billion);
    lemma_product_error(two, radius);
    lemma_product_within(half, radius, 1int as real, billion);
    lemma_product_error(half, radius);
    lemma_associates(2int as real, value(half), value(radius));
    lemma_one(value(radius));
    lemma_commutes(1int as real, value(radius));
    assert(value(half) * value(radius) == value(radius) / (2int as real));
    lemma_values_in_order(two.product(radius), largest);
    lemma_values_in_order(largest, two.product(radius));
    lemma_scaled_order(
        half_ulp(),
        size(value(radius) / (2int as real)),
        size((2int as real) * value(radius)),
    );
}

/// What is asked of a candidate's merit beyond being lower: the margin times the current
/// merit, or times one where that is more.
pub open spec fn margin_of(current: real) -> real {
    value(Double { bits: MERIT_MARGIN }) * greater(current, 1int as real)
}

/// A candidate improves on the current merit where it is lower by more than the margin, up to
/// rounding; and only there.
pub proof fn lemma_improvement_is_by_the_margin(candidate: Double, current: Double)
    requires
        candidate.finite(),
        within(current, 1000000000000000int as real),
    ensures
        ({
            let (to, from) = (value(candidate), value(current));
            let margin = margin_of(from);
            let rounding = (4int as real) * (half_ulp() * (size(from) + margin)) + (4int as real)
                * least();
            &&& improves(candidate, current) ==> to <= from - margin + rounding
            &&& to < from - margin - rounding ==> improves(candidate, current)
        }),
{
    lemma_half_ulp();
    lemma_least();
    lemma_margin_is_small();
    lemma_value_of_one();
    let (h, l, one) = (half_ulp(), least(), 1int as real);
    let quadrillion = 1000000000000000int as real;
    let unit = Double { bits: ONE };
    let least_gain = Double { bits: MERIT_MARGIN };
    let scale = current.larger(unit);
    lemma_values_in_order(current, unit);
    assert(value(scale) == greater(value(current), one));
    lemma_product_within(least_gain, scale, one, quadrillion);
    lemma_product_error(least_gain, scale);
    let part = least_gain.product(scale);
    lemma_value_of_negated(part);
    lemma_sum_within(
        current,
        part.negated(),
        quadrillion,
        (2int as real) * (one * quadrillion) + one,
    );
    lemma_sum_error(current, part.negated());
    let (from, m) = (value(current), value(least_gain) * value(scale));
    lemma_scaled_order(value(least_gain), 0int as real, value(scale));
    lemma_zero(value(least_gain));
    let all = size(from) + m;
    let ha = h * all;
    lemma_tiny(all);
    lemma_tiny(ha);
    lemma_tiny(l);
    lemma_scaled_order(h, m, all);
    assert(size(value(part) - m) <= ha + l);
    lemma_scaled_order(h, size(from - value(part)), all + ha + l);
    lemma_three(h, all, ha, l);
    lemma_values_in_order(candidate, current.difference(part));
}

/// The margin is positive and at most one.
proof fn lemma_margin_is_small()
    ensures
        within(Double { bits: MERIT_MARGIN }, 1int as real),
        value(Double { bits: MERIT_MARGIN }) > 0int as real,
{
    let margin = Double { bits: MERIT_MARGIN };
    let (zero, one) = (Double { bits: 0 }, Double { bits: ONE });
    lemma_value_of_zero(zero);
    lemma_value_of_one();
    assert(zero.less(margin) && margin.less(one));
    lemma_values_in_order(zero, margin);
    lemma_values_in_order(margin, one);
}

/// A radius has collapsed where it is below a sixty-fourth of the largest, up to rounding; and
/// only there.
pub proof fn lemma_collapse_is_at_a_sixty_fourth(radius: Double, largest: Double)
    requires
        radius.finite(),
        within(largest, 1000000000int as real),
    ensures
        ({
            let least_radius = value(largest) / (64int as real);
            let rounding = half_ulp() * size(least_radius) + least();
            &&& collapsed(radius, largest) ==> value(radius) <= least_radius + rounding
            &&& value(radius) < least_radius - rounding ==> collapsed(radius, largest)
        }),
{
    let share = Double { bits: SMALLEST_RADIUS };
    lemma_value_of_sixty_fourth();
    lemma_product_within(share, largest, 1int as real, 1000000000int as real);
    lemma_product_error(share, largest);
    lemma_associates(64int as real, value(share), value(largest));
    lemma_one(value(largest));
    lemma_commutes(1int as real, value(largest));
    assert(value(share) * value(largest) == value(largest) / (64int as real));
    lemma_values_in_order(radius, share.product(largest));
}

/// The value of the smallest share of a radius.
proof fn lemma_value_of_sixty_fourth()
    ensures
        (64int as real) * value(Double { bits: SMALLEST_RADIUS }) == 1int as real,
        (Double { bits: SMALLEST_RADIUS }).finite(),
{
    lemma2_to64();
    lemma2_to64_rest();
    assert(significand(SMALLEST_RADIUS as nat) == TWO_52);
    assert(exponent(SMALLEST_RADIUS as nat) == 1016);
    lemma_pow2_adds(52, 1016);
    lemma_pow2_adds(6, 1068);
    lemma_pow2_pos(UNIT_EXPONENT as nat);
    let u = pow2(UNIT_EXPONENT as nat) as real;
    let n = (Double { bits: SMALLEST_RADIUS }).scaled() as real;
    assert((64int as real) * n == u);
    assert((64int as real) * (n / u) == 1int as real) by (nonlinear_arith)
        requires
            (64int as real) * n == u,
            u > 0int as real,
    ;
}

} // verus!
