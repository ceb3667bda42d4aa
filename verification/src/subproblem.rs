//! One SQP subproblem: the quadratic model of the cost and the linearized
//! constraints at the current iterate, over the stacked step ΔQ.

use crate::arithmetic::{lemma_difference_sign, lemma_nearest_bound};
use crate::configs::{EeTracking, TrajectoryConfig};
use crate::constraints::{
    assemble_box, assemble_equalities, assemble_velocity, box_lower, box_upper, equality_rows,
    equality_targets, lemma_place, progressive_budget, velocity_bounds, velocity_limit,
    velocity_rows,
};
use crate::cost::{
    assemble_linear, assemble_quadratic, lemma_block_within, linear_term, quadratic_term,
};
use crate::diagnostics::{lateral_slip, BaseIndices};
use crate::double::Double;
use crate::linearization::{addressable, knots_shaped, Evaluation};
use crate::matrix::Matrix;
use crate::qp::QuadraticProgram;
use crate::text::{decimal, digits};
use vstd::prelude::*;
use vstd::string::*;

verus! {

/// Whether a quadratic program is the subproblem at an iterate, within a trust
/// radius and with the hard targets scaled.
pub open spec fn models(
    program: QuadraticProgram,
    knots: Seq<Vec<Double>>,
    evaluation: Evaluation,
    config: TrajectoryConfig,
    base: BaseIndices,
    lower: Seq<Double>,
    upper: Seq<Double>,
    radius: Double,
    scale: Double,
) -> bool {
    let n = lower.len();
    let tracking = config.ee_tracking;
    &&& program.shaped()
    &&& program.p@ == quadratic_term(knots, evaluation, config, base, n)
    &&& program.q@ == linear_term(knots, evaluation, config, base, n)
    &&& program.a_eq@ == equality_rows(knots, evaluation, tracking, base, n)
    &&& program.b_eq@ == equality_targets(knots, evaluation, tracking, base, scale)
    &&& program.a_in@ == velocity_rows(knots.len(), n)
    &&& program.b_in@ == velocity_bounds(knots, n, radius, velocity_limit(config))
    &&& program.lb@ == box_lower(knots, lower, n, radius)
    &&& program.ub@ == box_upper(knots, upper, n, radius)
}

/// Whether a pose error is a number in every axis.
pub open spec fn all_finite(values: Seq<Double>) -> bool {
    forall|i: int| 0 <= i < values.len() ==> (#[trigger] values[i]).finite()
}

/// The text that rejects a knot whose pose error is not a number.
pub open spec fn degenerate_knot(k: nat) -> Seq<char> {
    "non-finite pose residual at knot "@ + digits(k)
        + "; goal or configuration is degenerate"@
}

/// Whether all values are finite.
pub fn is_all_finite(values: &Vec<Double>) -> (result: bool)
    ensures
        result == all_finite(values@),
{
    let mut i: usize = 0;
    while i < values.len()
        invariant
            i <= values@.len(),
            forall|j: int| 0 <= j < i ==> (#[trigger] values@[j]).finite(),
        decreases values@.len() - i,
    {
        if !values[i].is_finite() {
            return false;
        }
        i = i + 1;
    }
    true
}

/// Assemble one SQP subproblem at the current iterate. Cost convention:
/// min ½ΔᵀPΔ + qᵀΔ with P = w_ee·JᵀJ blocks (soft mode) + smoothness difference
/// operator + backward-motion penalty + damping·I.
///
/// `hard_target_scale` relaxes the linearized hard-mode EE targets (JΔ = α·r
/// instead of JΔ = r): when the full target conflicts with the trust region or
/// velocity rows, shrinking α enlarges the feasible set by asking for less EE
/// correction this iteration. Unused in soft mode.
pub fn assemble_subproblem(
    knots: &Vec<Vec<Double>>,
    evaluation: &Evaluation,
    config: &TrajectoryConfig,
    base: BaseIndices,
    lower: &Vec<Double>,
    upper: &Vec<Double>,
    radius: Double,
    hard_target_scale: Double,
) -> (result: Result<QuadraticProgram, String>)
    requires
        knots@.len() >= 2,
        lower@.len() == upper@.len(),
        knots_shaped(knots@, lower@.len()),
        evaluation.shaped(knots@.len(), lower@.len()),
        base.within(lower@.len()),
        addressable(knots@.len(), lower@.len()),
    ensures
        match result {
            Ok(subproblem) => {
                &&& forall|k: int|
                    0 <= k < knots@.len() ==> all_finite(
                        (#[trigger] evaluation.knots@[k]).residual@,
                    )
                &&& models(
                    subproblem,
                    knots@,
                    *evaluation,
                    *config,
                    base,
                    lower@,
                    upper@,
                    radius,
                    hard_target_scale,
                )
            },
            Err(message) => exists|k: int|
                0 <= k < knots@.len() && !all_finite(
                    (#[trigger] evaluation.knots@[k]).residual@,
                ) && message@ == degenerate_knot(k as nat) && forall|i: int|
                    0 <= i < k ==> all_finite((#[trigger] evaluation.knots@[i]).residual@),
        },
{
    let n: usize = lower.len();
    let count: usize = knots.len();
    let mut k: usize = 0;
    while k < count
        invariant
            k <= count,
            count == knots@.len(),
            evaluation.shaped(count as nat, n as nat),
            forall|i: int|
                0 <= i < k ==> all_finite((#[trigger] evaluation.knots@[i]).residual@),
        ensures
            k == count,
            forall|i: int|
                0 <= i < count ==> all_finite((#[trigger] evaluation.knots@[i]).residual@),
        decreases count - k,
    {
        if !is_all_finite(&evaluation.knots[k].residual) {
            let mut text: String = "non-finite pose residual at knot ".to_owned();
            let number: String = decimal(k);
            text.append(number.as_str());
            text.append("; goal or configuration is degenerate");
            return Err(text);
        }
        k = k + 1;
    }
    let p: Matrix = assemble_quadratic(knots, evaluation, config, base, n);
    let q: Vec<Double> = assemble_linear(knots, evaluation, config, base, n);
    let (a_eq, b_eq): (Matrix, Vec<Double>) = assemble_equalities(
        knots,
        evaluation,
        config.ee_tracking,
        base,
        n,
        hard_target_scale,
    );
    let limit: Double = config.max_joint_velocity.times(config.dt);
    let (a_in, b_in): (Matrix, Vec<Double>) = assemble_velocity(knots, n, radius, limit);
    let (lb, ub): (Vec<Double>, Vec<Double>) = assemble_box(knots, lower, upper, n, radius);
    proof {
        lemma_block_within(count - 1, count as int, n as int);
    }
    Ok(QuadraticProgram { p, q, a_eq, b_eq, a_in, b_in, lb, ub })
}

/// Standing still is always within the box of an iterate that keeps the joint
/// limits: no lower bound is positive and no upper bound is negative.
pub proof fn lemma_zero_step_is_in_the_box(
    program: QuadraticProgram,
    knots: Seq<Vec<Double>>,
    evaluation: Evaluation,
    config: TrajectoryConfig,
    base: BaseIndices,
    lower: Seq<Double>,
    upper: Seq<Double>,
    radius: Double,
    scale: Double,
)
    requires
        models(program, knots, evaluation, config, base, lower, upper, radius, scale),
        forall|k: int, j: int|
            0 <= k < knots.len() && 0 <= j < lower.len() ==> lower[j].at_most(
                #[trigger] knots[k]@[j],
            ) && knots[k]@[j].at_most(upper[j]),
        (Double { bits: 0 }).at_most(radius),
    ensures
        program.lb@.len() == knots.len() * lower.len(),
        program.ub@.len() == knots.len() * lower.len(),
        forall|i: int|
            0 <= i < program.lb@.len() ==> (#[trigger] program.lb@[i]).at_most(Double { bits: 0 }),
        forall|i: int|
            0 <= i < program.ub@.len() ==> (Double { bits: 0 }).at_most(#[trigger] program.ub@[i]),
{
    let n = lower.len() as int;
    assert forall|i: int| 0 <= i < knots.len() * n implies (#[trigger] program.lb@[i]).at_most(
        Double { bits: 0 },
    ) && (Double { bits: 0 }).at_most(program.ub@[i]) by {
        assert(n > 0) by (nonlinear_arith)
            requires
                0 <= i < knots.len() * n,
                n >= 0,
        ;
        lemma_place(i, knots.len() as int, n);
        let value = knots[i / n]@[i % n];
        lemma_no_step_is_allowed(value, lower[i % n], upper[i % n], radius);
    }
    assert forall|i: int| 0 <= i < program.ub@.len() implies (Double { bits: 0 }).at_most(
        #[trigger] program.ub@[i],
    ) by {
        assert(program.lb@[i].at_most(Double { bits: 0 }));
    }
}

/// The bounds of one joint's step, where the joint keeps its limits.
proof fn lemma_no_step_is_allowed(value: Double, lower: Double, upper: Double, radius: Double)
    requires
        lower.at_most(value),
        value.at_most(upper),
        (Double { bits: 0 }).at_most(radius),
    ensures
        lower.difference(value).larger(radius.negated()).at_most(Double { bits: 0 }),
        (Double { bits: 0 }).at_most(upper.difference(value).smaller(radius)),
{
    if !lower.difference(value).nan() {
        lemma_difference_sign(lower, value);
    }
    if !value.difference(upper).nan() {
        lemma_difference_sign(value, upper);
    } else {
        lemma_infinite_difference(value, upper);
    }
}

/// Where a difference is not a number, neither is its opposite.
proof fn lemma_infinite_difference(a: Double, b: Double)
    requires
        !a.nan(),
        !b.nan(),
        a.difference(b).nan(),
    ensures
        b.difference(a).nan(),
{
    reveal(Double::sum);
    if a.finite() && b.finite() {
        let total = a.scaled() + b.negated().scaled();
        lemma_nearest_bound(total as nat, 1);
        lemma_nearest_bound((-total) as nat, 1);
    }
}

/// Standing still meets an interval's no-slip row exactly where the interval has
/// no lateral slip, measured by the residual that the diagnostics report.
pub proof fn lemma_fixed_point_has_no_slip(
    knots: Seq<Vec<Double>>,
    evaluation: Evaluation,
    tracking: EeTracking,
    base: BaseIndices,
    scale: Double,
    k: int,
)
    requires
        0 <= k < knots.len() - 1,
    ensures
        equality_targets(knots, evaluation, tracking, base, scale)[k].zero() <==> lateral_slip(
            knots[k]@,
            knots[k + 1]@,
            base,
            evaluation.headings@[k],
        ).zero(),
{
}

/// The budget of a velocity row is never below the real limit, and it is the
/// real limit wherever one step of the trust radius reaches it.
pub proof fn lemma_budget_reaches_the_limit(difference: Double, radius: Double, limit: Double)
    requires
        !limit.nan(),
    ensures
        limit.at_most(progressive_budget(difference, radius, limit)),
        difference.absolute().difference(radius).less(limit) ==> progressive_budget(
            difference,
            radius,
            limit,
        ) == limit,
{
}

} // verus!
