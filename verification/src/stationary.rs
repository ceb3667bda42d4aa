//! What a solution of the active-set method's system is: a step that is stationary on its
//! working set and puts every constrained joint on its target.

use crate::active_set::{
    active_limit, candidate_of, considered, constrains, kkt_rows, kkt_values, on_distinct_joints,
    seeded, ActiveSetStep, Constraint, ConstraintKind, LIMIT_TOLERANCE,
};
use crate::double::Double;
use crate::error::{half_ulp, lemma_sum_error, lemma_value_of_zero, size, value};
use crate::feasible::{applied, bound_rounding, lemma_applied_single, lemma_bound_from_here};
use crate::range::{lemma_sum_within, within};
use crate::reals::{lemma_commutes, lemma_one, lemma_zero};
use crate::slip::lemma_value_of_one;
use vstd::prelude::*;

verus! {

/// The multiplier of the constraint on a joint among the first `count`; none where there is
/// no such constraint.
pub open spec fn multiplier_of(
    working_set: Seq<Constraint>,
    lambdas: Seq<real>,
    joint: int,
    count: nat,
) -> real
    decreases count,
{
    if count == 0 {
        0int as real
    } else {
        multiplier_of(working_set, lambdas, joint, (count - 1) as nat)
            + if working_set[count - 1].joint_index == joint {
            lambdas[count - 1]
        } else {
            0int as real
        }
    }
}

/// The part of a stationarity row over the step.
proof fn lemma_hessian_part(
    hessian: Seq<Seq<Double>>,
    working_set: Seq<Constraint>,
    r: int,
    z: Seq<real>,
    count: nat,
)
    requires
        0 <= r < hessian.len(),
        count <= hessian.len(),
        hessian[r].len() == hessian.len(),
    ensures
        applied(kkt_rows(hessian, working_set)[r], z, count) == applied(hessian[r], z, count),
    decreases count,
{
    if count > 0 {
        lemma_hessian_part(hessian, working_set, r, z, (count - 1) as nat);
    }
}

/// The part of a stationarity row over the multipliers.
proof fn lemma_multiplier_part(
    hessian: Seq<Seq<Double>>,
    working_set: Seq<Constraint>,
    r: int,
    z: Seq<real>,
    count: nat,
)
    requires
        0 <= r < hessian.len(),
        hessian[r].len() == hessian.len(),
        count <= working_set.len(),
        z.len() == hessian.len() + working_set.len(),
    ensures
        applied(kkt_rows(hessian, working_set)[r], z, hessian.len() + count) == applied(
            hessian[r],
            z,
            hessian.len(),
        ) + multiplier_of(working_set, z.skip(hessian.len() as int), r, count),
    decreases count,
{
    let n = hessian.len();
    if count == 0 {
        lemma_hessian_part(hessian, working_set, r, z, n);
    } else {
        lemma_multiplier_part(hessian, working_set, r, z, (count - 1) as nat);
        let at = z[n + count - 1];
        lemma_value_of_one();
        lemma_value_of_zero(Double { bits: 0 });
        lemma_one(at);
        lemma_commutes(at, 1int as real);
        lemma_zero(at);
        lemma_commutes(at, 0int as real);
        assert(z.skip(n as int)[count - 1] == at);
    }
}

/// The system of a working set is stationarity and the constraints. A row of the step asks
/// that H·dq and the multiplier of the joint, if it is constrained, make up the gradient. A
/// row of a constraint asks that the joint goes from where it is to its target, up to
/// rounding.
pub proof fn lemma_system_is_stationarity_and_targets(
    hessian: Seq<Seq<Double>>,
    gradient: Seq<Double>,
    working_set: Seq<Constraint>,
    positions: Seq<Double>,
    z: Seq<real>,
    r: int,
)
    requires
        forall|i: int|
            0 <= i < hessian.len() ==> (#[trigger] hessian[i]).len() == hessian.len(),
        gradient.len() == hessian.len(),
        positions.len() == hessian.len(),
        on_distinct_joints(working_set, hessian.len()),
        z.len() == hessian.len() + working_set.len(),
        0 <= r < z.len(),
        r >= hessian.len() ==> within(
            working_set[r - hessian.len()].target,
            1000000000int as real,
        ) && within(
            positions[working_set[r - hessian.len()].joint_index as int],
            1000000000int as real,
        ),
    ensures
        ({
            let n = hessian.len() as int;
            let row = kkt_rows(hessian, working_set)[r];
            let wanted = kkt_values(gradient, working_set, positions)[r];
            &&& r < n ==> {
                &&& applied(row, z, z.len()) == applied(hessian[r], z, n as nat) + multiplier_of(
                    working_set,
                    z.skip(n),
                    r,
                    working_set.len(),
                )
                &&& value(wanted) == value(gradient[r])
            }
            &&& r >= n ==> {
                let joint = working_set[r - n].joint_index as int;
                let target = working_set[r - n].target;
                &&& applied(row, z, z.len()) == z[joint]
                &&& size(value(wanted) - (value(target) - value(positions[joint])))
                    <= bound_rounding(target, positions[joint])
            }
        }),
{
    let n = hessian.len() as int;
    let row = kkt_rows(hessian, working_set)[r];
    if r < n {
        assert(hessian[r].len() == n);
        lemma_multiplier_part(hessian, working_set, r, z, working_set.len());
    } else {
        let constraint = working_set[r - n];
        let joint = constraint.joint_index as int;
        lemma_value_of_one();
        lemma_value_of_zero(Double { bits: 0 });
        lemma_applied_single(row, z, joint, z.len());
        lemma_one(z[joint]);
        lemma_commutes(1int as real, z[joint]);
        lemma_bound_from_here(constraint.target, positions[joint]);
    }
}

/// The candidate of a system's solution is where the first values of the solution lead from
/// the configuration, up to rounding.
pub proof fn lemma_candidate_is_where_the_step_leads(
    before: ActiveSetStep,
    solution: Seq<Double>,
    after: ActiveSetStep,
    again: bool,
    j: int,
)
    requires
        considered(before, solution, after, again),
        0 <= j < before.positions@.len(),
        within(before.positions@[j], 1000000000int as real),
        within(solution[j], 1000000000int as real),
    ensures
        after.accepted is Some,
        ({
            let to = value(before.positions@[j]) + value(solution[j]);
            size(value(after.accepted->0@[j]) - to) <= half_ulp() * size(to)
        }),
{
    let billion = 1000000000int as real;
    lemma_sum_within(before.positions@[j], solution[j], billion, billion);
    lemma_sum_error(before.positions@[j], solution[j]);
    assert(after.accepted->0@ == candidate_of(before.positions@, solution));
}

/// Whether a joint is at or past its upper limit, within the tolerance.
pub open spec fn is_high(position: Double, upper: Double) -> bool {
    upper.difference(Double { bits: LIMIT_TOLERANCE }).at_most(position)
}

/// Whether a joint is at or past its lower limit, within the tolerance.
pub open spec fn is_low(position: Double, lower: Double) -> bool {
    position.at_most(lower.sum(Double { bits: LIMIT_TOLERANCE }))
}

/// The working set that a step starts from holds every equality, and of the joints that no
/// equality is on exactly those that are at or past a limit: with the upper limit where that
/// is the one, otherwise with the lower one.
pub proof fn lemma_seed_holds_the_active_limits(
    equalities: Seq<Constraint>,
    positions: Seq<Double>,
    lower: Seq<Double>,
    upper: Seq<Double>,
    count: nat,
    i: int,
)
    requires
        count <= positions.len() <= usize::MAX,
        positions.len() == lower.len() == upper.len(),
        0 <= i < count,
        !constrains(equalities, i),
    ensures
        ({
            let set = seeded(equalities, positions, lower, upper, count);
            let (high, low) = (is_high(positions[i], upper[i]), is_low(positions[i], lower[i]));
            &&& set.len() >= equalities.len()
            &&& forall|r: int| 0 <= r < equalities.len() ==> set[r] == #[trigger] equalities[r]
            &&& constrains(set, i) <==> high || low
            &&& forall|r: int|
                0 <= r < set.len() && (#[trigger] set[r]).joint_index == i ==> {
                    if high {
                        set[r].kind == ConstraintKind::UpperLimit && set[r].target == upper[i]
                    } else {
                        low && set[r].kind == ConstraintKind::LowerLimit && set[r].target
                            == lower[i]
                    }
                }
        }),
    decreases count,
{
    let set = seeded(equalities, positions, lower, upper, count);
    let k = count - 1;
    let before = seeded(equalities, positions, lower, upper, k as nat);
    if i < k {
        lemma_seed_holds_the_active_limits(equalities, positions, lower, upper, k as nat, i);
        assert(set == before || (set.len() == before.len() + 1 && set.drop_last() =~= before
            && set.last().joint_index != i));
        assert forall|r: int| 0 <= r < equalities.len() implies set[r]
            == #[trigger] equalities[r] by {
            assert(before[r] == equalities[r]);
        }
        if constrains(before, i) {
            let r = choose|r: int|
                0 <= r < before.len() && (#[trigger] before[r]).joint_index == i;
            assert(set[r].joint_index == i);
        }
        if constrains(set, i) {
            let r = choose|r: int| 0 <= r < set.len() && (#[trigger] set[r]).joint_index == i;
            assert(r < before.len() && before[r].joint_index == i);
        }
        assert forall|r: int| 0 <= r < set.len() && (#[trigger] set[r]).joint_index == i implies (
        if is_high(positions[i], upper[i]) {
            set[r].kind == ConstraintKind::UpperLimit && set[r].target == upper[i]
        } else {
            is_low(positions[i], lower[i]) && set[r].kind == ConstraintKind::LowerLimit
                && set[r].target == lower[i]
        }) by {
            assert(set[r] == before[r]);
        }
    } else {
        lemma_seed_so_far(equalities, positions, lower, upper, k as nat, i);
        match active_limit(i as usize, positions[i], lower[i], upper[i]) {
            Some(constraint) => {
                assert(set =~= before.push(constraint));
                assert(set[set.len() - 1].joint_index == i);
            },
            None => {},
        }
    }
}

/// The joints before the first `count` have no say on a later one.
proof fn lemma_seed_so_far(
    equalities: Seq<Constraint>,
    positions: Seq<Double>,
    lower: Seq<Double>,
    upper: Seq<Double>,
    count: nat,
    i: int,
)
    requires
        count <= i <= usize::MAX,
        !constrains(equalities, i),
    ensures
        ({
            let set = seeded(equalities, positions, lower, upper, count);
            &&& !constrains(set, i)
            &&& set.len() >= equalities.len()
            &&& forall|r: int| 0 <= r < equalities.len() ==> set[r] == #[trigger] equalities[r]
        }),
    decreases count,
{
    if count > 0 {
        let k = count - 1;
        let before = seeded(equalities, positions, lower, upper, k as nat);
        let set = seeded(equalities, positions, lower, upper, count);
        lemma_seed_so_far(equalities, positions, lower, upper, k as nat, i);
        if constrains(set, i) {
            let r = choose|r: int| 0 <= r < set.len() && (#[trigger] set[r]).joint_index == i;
            if r < before.len() {
                assert(before[r].joint_index == i);
            }
        }
    }
}

} // verus!
