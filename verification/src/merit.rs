//! The merit function of a trajectory: the cost that the subproblems minimize,
//! plus the size of the constraint violations with a fixed weight.

use crate::configs::{EeTracking, TrajectoryConfig};
use crate::constraints::velocity_limit;
use crate::cost::{knot_step, step_between};
use crate::diagnostics::{lateral_slip, slip_residual, BaseIndices, Heading};
use crate::double::{Double, HALF};
use crate::linearization::{
    forward_progress, forward_progress_linearization, knots_shaped, Evaluation, KnotEvaluation,
    Partials,
};
use crate::series::{square_sum, square_sum_of, total, total_of};
use vstd::prelude::*;

verus! {

/// Weight of constraint violations in the merit function: 1e4.
pub const MERIT_PENALTY: u64 = 0x40C3_8800_0000_0000;

/// The sum of the sizes of a series.
pub open spec fn size_sum(values: Seq<Double>) -> Double {
    total(Seq::new(values.len(), |i: int| values[i].absolute()))
}

/// How far a series of differences goes beyond a limit.
pub open spec fn excess_sum(values: Seq<Double>, limit: Double) -> Double {
    total(
        Seq::new(
            values.len(),
            |i: int| values[i].absolute().difference(limit).larger(Double { bits: 0 }),
        ),
    )
}

/// ½·w·v.
pub open spec fn half_weighted(weight: Double, value: Double) -> Double {
    (Double { bits: HALF }).product(weight).product(value)
}

/// The tracking cost of soft mode: ½·w·Σ‖r_k‖².
pub open spec fn tracking_merit(knots: Seq<KnotEvaluation>, weight: Double) -> Double {
    half_weighted(
        weight,
        total(Seq::new(knots.len(), |k: int| square_sum(knots[k].residual@))),
    )
}

/// The smoothness cost: ½·w·Σ‖d_k‖².
pub open spec fn smoothness_merit(knots: Seq<Vec<Double>>, weight: Double) -> Double {
    half_weighted(
        weight,
        total(
            Seq::new(
                (knots.len() - 1) as nat,
                |k: int| square_sum(step_between(knots[k]@, knots[k + 1]@)),
            ),
        ),
    )
}

/// The square of the distance driven backward.
pub open spec fn backward_square(progress: Double) -> Double {
    progress.smaller(Double { bits: 0 }).product(progress.smaller(Double { bits: 0 }))
}

/// The backward-motion cost: ½·w·Σmin(s_k, 0)²; none where the weight is not
/// positive.
pub open spec fn backward_merit(
    knots: Seq<Vec<Double>>,
    headings: Seq<Heading>,
    base: BaseIndices,
    weight: Double,
) -> Double {
    if (Double { bits: 0 }).less(weight) {
        half_weighted(
            weight,
            total(
                Seq::new(
                    (knots.len() - 1) as nat,
                    |k: int|
                        backward_square(
                            forward_progress(knots[k]@, knots[k + 1]@, base, headings[k]),
                        ),
                ),
            ),
        )
    } else {
        Double { bits: 0 }
    }
}

/// The lateral slip of all intervals: Σ|c_k|.
pub open spec fn slip_violation(
    knots: Seq<Vec<Double>>,
    headings: Seq<Heading>,
    base: BaseIndices,
) -> Double {
    total(
        Seq::new(
            (knots.len() - 1) as nat,
            |k: int| lateral_slip(knots[k]@, knots[k + 1]@, base, headings[k]).absolute(),
        ),
    )
}

/// The excess velocity of all joints over all intervals, against the real limit.
pub open spec fn velocity_violation(knots: Seq<Vec<Double>>, limit: Double) -> Double {
    total(
        Seq::new(
            (knots.len() - 1) as nat,
            |k: int| excess_sum(step_between(knots[k]@, knots[k + 1]@), limit),
        ),
    )
}

/// The pose error of all knots, for hard mode: Σ‖r_k‖₁.
pub open spec fn pose_violation(knots: Seq<KnotEvaluation>) -> Double {
    total(Seq::new(knots.len(), |k: int| size_sum(knots[k].residual@)))
}

/// The merit of an iterate: its cost plus the weighted constraint violations.
pub open spec fn merit_of(
    knots: Seq<Vec<Double>>,
    evaluation: Evaluation,
    config: TrajectoryConfig,
    base: BaseIndices,
) -> Double {
    let tracking = if config.ee_tracking == EeTracking::Soft {
        tracking_merit(evaluation.knots@, config.ee_weight)
    } else {
        Double { bits: 0 }
    };
    let cost = tracking.sum(smoothness_merit(knots, config.smoothness_weight)).sum(
        backward_merit(knots, evaluation.headings@, base, config.backward_weight),
    );
    let motion = slip_violation(knots, evaluation.headings@, base).sum(
        velocity_violation(knots, velocity_limit(config)),
    );
    let violation = if config.ee_tracking == EeTracking::Hard {
        motion.sum(pose_violation(evaluation.knots@))
    } else {
        motion
    };
    cost.sum((Double { bits: MERIT_PENALTY }).product(violation))
}

fn size_sum_of(values: &Vec<Double>) -> (result: Double)
    ensures
        result == size_sum(values@),
{
    let mut terms: Vec<Double> = Vec::new();
    let mut i: usize = 0;
    while i < values.len()
        invariant
            i <= values@.len(),
            terms@.len() == i,
            forall|j: int| 0 <= j < i ==> #[trigger] terms@[j] == values@[j].absolute(),
        decreases values@.len() - i,
    {
        terms.push(values[i].abs());
        i = i + 1;
    }
    assert(terms@ =~= Seq::new(values@.len(), |i: int| values@[i].absolute()));
    total_of(&terms)
}

fn excess_sum_of(values: &Vec<Double>, limit: Double) -> (result: Double)
    ensures
        result == excess_sum(values@, limit),
{
    let zero: Double = Double { bits: 0 };
    let mut terms: Vec<Double> = Vec::new();
    let mut i: usize = 0;
    while i < values.len()
        invariant
            i <= values@.len(),
            zero == (Double { bits: 0 }),
            terms@.len() == i,
            forall|j: int|
                0 <= j < i ==> #[trigger] terms@[j] == values@[j].absolute().difference(
                    limit,
                ).larger(zero),
        decreases values@.len() - i,
    {
        terms.push(values[i].abs().minus(limit).max(zero));
        i = i + 1;
    }
    assert(terms@ =~= Seq::new(
        values@.len(),
        |i: int| values@[i].absolute().difference(limit).larger(Double { bits: 0 }),
    ));
    total_of(&terms)
}

fn half_weigh(weight: Double, value: Double) -> (result: Double)
    ensures
        result == half_weighted(weight, value),
{
    (Double { bits: HALF }).times(weight).times(value)
}

/// The merit function: tracking, smoothness and backward-motion cost plus the
/// weighted sum of the violated constraints. It judges the true nonlinear
/// quantities, and velocities against the real limit.
pub fn merit(
    knots: &Vec<Vec<Double>>,
    evaluation: &Evaluation,
    config: &TrajectoryConfig,
    base: BaseIndices,
    n: usize,
) -> (result: Double)
    requires
        knots@.len() >= 1,
        knots_shaped(knots@, n as nat),
        evaluation.shaped(knots@.len(), n as nat),
        base.within(n as nat),
        2 * n <= usize::MAX,
    ensures
        result == merit_of(knots@, *evaluation, *config, base),
{
    let count: usize = knots.len();
    let intervals: usize = count - 1;
    let zero: Double = Double { bits: 0 };
    let limit: Double = config.max_joint_velocity.times(config.dt);

    let mut squares: Vec<Double> = Vec::new();
    let mut sizes: Vec<Double> = Vec::new();
    let mut k: usize = 0;
    while k < count
        invariant
            k <= count,
            evaluation.shaped(count as nat, n as nat),
            squares@.len() == k,
            sizes@.len() == k,
            forall|i: int|
                0 <= i < k ==> #[trigger] squares@[i] == square_sum(
                    evaluation.knots@[i].residual@,
                ),
            forall|i: int|
                0 <= i < k ==> #[trigger] sizes@[i] == size_sum(evaluation.knots@[i].residual@),
        decreases count - k,
    {
        squares.push(square_sum_of(&evaluation.knots[k].residual));
        sizes.push(size_sum_of(&evaluation.knots[k].residual));
        k = k + 1;
    }
    assert(squares@ =~= Seq::new(
        evaluation.knots@.len(),
        |k: int| square_sum(evaluation.knots@[k].residual@),
    ));
    assert(sizes@ =~= Seq::new(
        evaluation.knots@.len(),
        |k: int| size_sum(evaluation.knots@[k].residual@),
    ));

    let mut steps: Vec<Double> = Vec::new();
    let mut reverses: Vec<Double> = Vec::new();
    let mut slips: Vec<Double> = Vec::new();
    let mut excesses: Vec<Double> = Vec::new();
    let mut k: usize = 0;
    while k < intervals
        invariant
            k <= intervals,
            intervals == count - 1,
            count == knots@.len(),
            zero == (Double { bits: 0 }),
            2 * n <= usize::MAX,
            knots_shaped(knots@, n as nat),
            evaluation.shaped(count as nat, n as nat),
            base.within(n as nat),
            steps@.len() == k,
            reverses@.len() == k,
            slips@.len() == k,
            excesses@.len() == k,
            forall|i: int|
                0 <= i < k ==> #[trigger] steps@[i] == square_sum(
                    step_between(knots@[i]@, knots@[i + 1]@),
                ),
            forall|i: int|
                0 <= i < k ==> #[trigger] reverses@[i] == backward_square(
                    forward_progress(
                        knots@[i]@,
                        knots@[i + 1]@,
                        base,
                        evaluation.headings@[i],
                    ),
                ),
            forall|i: int|
                0 <= i < k ==> #[trigger] slips@[i] == lateral_slip(
                    knots@[i]@,
                    knots@[i + 1]@,
                    base,
                    evaluation.headings@[i],
                ).absolute(),
            forall|i: int|
                0 <= i < k ==> #[trigger] excesses@[i] == excess_sum(
                    step_between(knots@[i]@, knots@[i + 1]@),
                    limit,
                ),
        decreases intervals - k,
    {
        let heading: Heading = evaluation.headings[k];
        let step: Vec<Double> = knot_step(&knots[k], &knots[k + 1]);
        steps.push(square_sum_of(&step));
        excesses.push(excess_sum_of(&step, limit));
        slips.push(slip_residual(&knots[k], &knots[k + 1], base, heading).abs());
        let (progress, _): (Double, Partials) = forward_progress_linearization(
            &knots[k],
            &knots[k + 1],
            base,
            heading,
        );
        let reverse: Double = progress.min(zero);
        reverses.push(reverse.times(reverse));
        k = k + 1;
    }
    assert(steps@ =~= Seq::new(
        (knots@.len() - 1) as nat,
        |k: int| square_sum(step_between(knots@[k]@, knots@[k + 1]@)),
    ));
    assert(reverses@ =~= Seq::new(
        (knots@.len() - 1) as nat,
        |k: int|
            backward_square(
                forward_progress(knots@[k]@, knots@[k + 1]@, base, evaluation.headings@[k]),
            ),
    ));
    assert(slips@ =~= Seq::new(
        (knots@.len() - 1) as nat,
        |k: int|
            lateral_slip(knots@[k]@, knots@[k + 1]@, base, evaluation.headings@[k]).absolute(),
    ));
    assert(excesses@ =~= Seq::new(
        (knots@.len() - 1) as nat,
        |k: int| excess_sum(step_between(knots@[k]@, knots@[k + 1]@), limit),
    ));

    let tracking: Double = if config.ee_tracking == EeTracking::Soft {
        half_weigh(config.ee_weight, total_of(&squares))
    } else {
        zero
    };
    let backward: Double = if zero.lt(config.backward_weight) {
        half_weigh(config.backward_weight, total_of(&reverses))
    } else {
        zero
    };
    let cost: Double = tracking.plus(half_weigh(config.smoothness_weight, total_of(&steps))).plus(
        backward,
    );
    let motion: Double = total_of(&slips).plus(total_of(&excesses));
    let violation: Double = if config.ee_tracking == EeTracking::Hard {
        motion.plus(total_of(&sizes))
    } else {
        motion
    };
    cost.plus((Double { bits: MERIT_PENALTY }).times(violation))
}

} // verus!
