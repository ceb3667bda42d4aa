//! What the equality rows of a subproblem ask of a step: the slip of every interval to
//! first order, and in hard mode the pose of every knot.

use crate::configs::{EeTracking, TrajectoryConfig};
use crate::constraints::with_places;
use crate::cost::lemma_block_within;
use crate::diagnostics::{lateral_slip, BaseIndices, Heading};
use crate::differences::{
    ahead_of, behind_of, headings_follow, is_central_difference, is_yaw,
    lemma_slip_partials_are_central_differences, listed, may_differ,
};
use crate::double::Double;
use crate::error::{half_ulp, least, lemma_product_error, lemma_value_of_zero, size, value};
use crate::linearization::{slip_partials, Evaluation};
use crate::matrix::zero_row;
use crate::qp::QuadraticProgram;
use crate::range::{lemma_product_within, within};
use crate::slip::lemma_value_of_negated;
use crate::subproblem::models;
use vstd::arithmetic::div_mod::lemma_fundamental_div_mod_converse;
use vstd::prelude::*;

verus! {

/// Partials that are put in their places leave zero everywhere else.
proof fn lemma_places_hold_the_partials(
    values: Seq<Double>,
    start: int,
    partials: Seq<(usize, Double)>,
    count: nat,
    c: int,
)
    requires
        count <= partials.len(),
        0 <= c < values.len(),
        value(values[c]) == 0int as real,
        0 <= start,
        forall|i: int| 0 <= i < partials.len() ==> start + (#[trigger] partials[i]).0 < values.len(),
    ensures
        with_places(values, start, partials, count).len() == values.len(),
        value(with_places(values, start, partials, count)[c]) == listed(
            partials.take(count as int),
            c - start,
        ),
    decreases count,
{
    let first = partials.take(count as int);
    if count > 0 {
        lemma_places_hold_the_partials(values, start, partials, (count - 1) as nat, c);
        assert(first.drop_last() =~= partials.take(count - 1));
        assert(start + partials[count - 1].0 < values.len());
    }
}

/// Nothing is listed for a place that no partial has.
proof fn lemma_nothing_listed(partials: Seq<(usize, Double)>, place: int)
    requires
        forall|i: int| 0 <= i < partials.len() ==> (#[trigger] partials[i]).0 != place,
    ensures
        listed(partials, place) == 0int as real,
    decreases partials.len(),
{
    if partials.len() > 0 {
        assert forall|i: int| 0 <= i < partials.drop_last().len() implies (
        #[trigger] partials.drop_last()[i]).0 != place by {
            assert(partials[i].0 != place);
        }
        lemma_nothing_listed(partials.drop_last(), place);
        assert(partials[partials.len() - 1].0 != place);
    }
}

/// The no-slip row of an interval is the slope of the slip between its two knots, and zero
/// at all other knots; its target takes back the slip that there is. So a step satisfies
/// the row exactly where the slip vanishes to first order. `behind` and `ahead` are the
/// headings at the midpoint yaws of the two ends of a central difference.
pub proof fn lemma_slip_rows_follow_the_slip(
    program: QuadraticProgram,
    knots: Seq<Vec<Double>>,
    evaluation: Evaluation,
    config: TrajectoryConfig,
    base: BaseIndices,
    lower: Seq<Double>,
    upper: Seq<Double>,
    radius: Double,
    scale: Double,
    k: int,
    c: int,
    behind: Heading,
    ahead: Heading,
    step: Double,
)
    requires
        models(program, knots, evaluation, config, base, lower, upper, radius, scale),
        base.within(lower.len()),
        2 * lower.len() <= usize::MAX,
        0 <= k < knots.len() - 1,
        knots[k]@.len() == lower.len(),
        0 <= c < knots.len() * lower.len(),
        lateral_slip(knots[k]@, knots[k + 1]@, base, evaluation.headings@[k]).finite(),
    ensures
        ({
            let n = lower.len() as int;
            let (q_k, q_k1) = (knots[k]@, knots[k + 1]@);
            let heading = evaluation.headings@[k];
            let entry = value(program.a_eq@[k][c]);
            let place = c - k * n;
            &&& value(program.b_eq@[k]) == -value(lateral_slip(q_k, q_k1, base, heading))
            &&& !(0 <= place < 2 * n) ==> entry == 0int as real
            &&& 0 <= place < 2 * n && may_differ(q_k, q_k1, base, place, step) && headings_follow(
                heading,
                behind,
                ahead,
                is_yaw(place, base, n),
                step,
            ) ==> {
                let (b_k, b_k1) = behind_of(q_k, q_k1, place, step);
                let (a_k, a_k1) = ahead_of(q_k, q_k1, place, step);
                is_central_difference(
                    lateral_slip(b_k, b_k1, base, behind),
                    lateral_slip(a_k, a_k1, base, ahead),
                    step,
                    entry,
                )
            }
        }),
{
    let n = lower.len() as int;
    let (q_k, q_k1) = (knots[k]@, knots[k + 1]@);
    let heading = evaluation.headings@[k];
    let place = c - k * n;
    let partials = slip_partials(q_k, q_k1, base, heading);
    let dim = knots.len() * lower.len();
    lemma_value_of_negated(lateral_slip(q_k, q_k1, base, heading));
    lemma_value_of_zero(Double { bits: 0 });
    lemma_block_within(k, knots.len() as int, n);
    lemma_block_within(k + 1, knots.len() as int, n);
    assert((k + 1) * n == k * n + n) by (nonlinear_arith);
    lemma_places_hold_the_partials(zero_row(dim), k * n, partials, 6, c);
    assert(partials.take(6) =~= partials);
    if !(0 <= place < 2 * n) {
        lemma_nothing_listed(partials, place);
    } else if may_differ(q_k, q_k1, base, place, step) && headings_follow(
        heading,
        behind,
        ahead,
        is_yaw(place, base, n),
        step,
    ) {
        lemma_slip_partials_are_central_differences(
            q_k,
            q_k1,
            base,
            heading,
            behind,
            ahead,
            place,
            step,
        );
    }
}

/// In hard mode each axis of each knot has a row: the Jacobian's at the knot, zero at all
/// others, with the scaled pose error as its target, up to rounding.
pub proof fn lemma_pose_rows_follow_the_pose(
    program: QuadraticProgram,
    knots: Seq<Vec<Double>>,
    evaluation: Evaluation,
    config: TrajectoryConfig,
    base: BaseIndices,
    lower: Seq<Double>,
    upper: Seq<Double>,
    radius: Double,
    scale: Double,
    k: int,
    axis: int,
    c: int,
)
    requires
        models(program, knots, evaluation, config, base, lower, upper, radius, scale),
        config.ee_tracking == EeTracking::Hard,
        evaluation.shaped(knots.len(), lower.len()),
        0 <= k < knots.len(),
        0 <= axis < 6,
        0 <= c < knots.len() * lower.len(),
        within(scale, 1000000000int as real),
        within(evaluation.knots@[k].residual@[axis], 1000000000int as real),
    ensures
        ({
            let n = lower.len() as int;
            let r = knots.len() - 1 + 6 * k + axis;
            let wanted = value(scale) * value(evaluation.knots@[k].residual@[axis]);
            &&& 0 <= r < program.a_eq@.len() && program.a_eq@.len() == program.b_eq@.len()
            &&& size(value(program.b_eq@[r]) - wanted) <= half_ulp() * size(wanted) + least()
            &&& k * n <= c < k * n + n ==> value(program.a_eq@[r][c]) == value(
                evaluation.knots@[k].jacobian@[axis][c - k * n],
            )
            &&& !(k * n <= c < k * n + n) ==> value(program.a_eq@[r][c]) == 0int as real
        }),
{
    let billion = 1000000000int as real;
    let n = lower.len() as int;
    let r = knots.len() - 1 + 6 * k + axis;
    lemma_fundamental_div_mod_converse(6 * k + axis, 6, k, axis);
    lemma_value_of_zero(Double { bits: 0 });
    lemma_product_within(scale, evaluation.knots@[k].residual@[axis], billion, billion);
    lemma_product_error(scale, evaluation.knots@[k].residual@[axis]);
}

} // verus!
