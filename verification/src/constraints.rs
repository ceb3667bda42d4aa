//! The constraints of a subproblem: the no-slip and hard pose rows, the velocity
//! rows with their progressive budget, and the box of joint limits and trust region.

use crate::configs::{EeTracking, TrajectoryConfig};
use crate::cost::{lemma_block_within, lemma_partials_within, scaled, zeros};
use crate::diagnostics::{lateral_slip, BaseIndices, Heading};
use crate::double::{MINUS_ONE, ONE, Double};
use crate::linearization::{
    addressable, knots_shaped, nonholonomic_linearization, slip_partials, Evaluation,
    KnotEvaluation, Partials,
};
use crate::matrix::{zero_row, Matrix};
use vstd::prelude::*;

verus! {

/// A vector with the first `count` of six partials put in place.
pub open spec fn with_places(
    values: Seq<Double>,
    start: int,
    partials: Seq<(usize, Double)>,
    count: nat,
) -> Seq<Double>
    decreases count,
{
    if count == 0 {
        values
    } else {
        with_places(values, start, partials, (count - 1) as nat).update(
            start + partials[count - 1].0,
            partials[count - 1].1,
        )
    }
}

/// The equality row of an interval's no-slip constraint.
pub open spec fn slip_row(
    knots: Seq<Vec<Double>>,
    headings: Seq<Heading>,
    base: BaseIndices,
    n: nat,
    k: int,
) -> Seq<Double> {
    with_places(
        zero_row(knots.len() * n),
        k * n,
        slip_partials(knots[k]@, knots[k + 1]@, base, headings[k]),
        6,
    )
}

/// The equality row of one axis of a knot's pose: the Jacobian's, in the knot's
/// block.
pub open spec fn pose_row(
    knots: Seq<KnotEvaluation>,
    n: nat,
    k: int,
    axis: int,
) -> Seq<Double> {
    Seq::new(
        knots.len() * n,
        |c: int|
            if k * n <= c < k * n + n {
                knots[k].jacobian@[axis][c - k * n]
            } else {
                Double { bits: 0 }
            },
    )
}

/// The number of equality rows: one per interval and, in hard mode, six per
/// knot.
pub open spec fn equality_count(count: nat, tracking: EeTracking) -> nat {
    (count - 1 + if tracking == EeTracking::Hard {
        6 * count as int
    } else {
        0
    }) as nat
}

/// The equality rows: no slip in any interval and, in hard mode, the pose of
/// every knot.
pub open spec fn equality_rows(
    knots: Seq<Vec<Double>>,
    evaluation: Evaluation,
    tracking: EeTracking,
    base: BaseIndices,
    n: nat,
) -> Seq<Seq<Double>> {
    let intervals = knots.len() - 1;
    Seq::new(
        equality_count(knots.len(), tracking),
        |r: int|
            if r < intervals {
                slip_row(knots, evaluation.headings@, base, n, r)
            } else {
                pose_row(evaluation.knots@, n, (r - intervals) / 6, (r - intervals) % 6)
            },
    )
}

/// The equality targets: cancel the slip, and move along the pose error scaled
/// by α.
pub open spec fn equality_targets(
    knots: Seq<Vec<Double>>,
    evaluation: Evaluation,
    tracking: EeTracking,
    base: BaseIndices,
    scale: Double,
) -> Seq<Double> {
    let intervals = knots.len() - 1;
    Seq::new(
        equality_count(knots.len(), tracking),
        |r: int|
            if r < intervals {
                lateral_slip(knots[r]@, knots[r + 1]@, base, evaluation.headings@[r]).negated()
            } else {
                scale.product(
                    evaluation.knots@[(r - intervals) / 6].residual@[(r - intervals) % 6],
                )
            },
    )
}

/// Puts six partials in their places.
fn place_partials(values: &mut Vec<Double>, start: usize, partials: &Partials)
    requires
        forall|i: int| 0 <= i < 6 ==> start + (#[trigger] partials@[i]).0 < old(values)@.len(),
    ensures
        final(values)@ == with_places(old(values)@, start as int, partials@, 6),
        final(values)@.len() == old(values)@.len(),
{
    let ghost before = values@;
    let total: usize = values.len();
    let mut i: usize = 0;
    while i < 6
        invariant
            i <= 6,
            values@.len() == before.len(),
            before.len() == total,
            forall|t: int| 0 <= t < 6 ==> start + (#[trigger] partials@[t]).0 < before.len(),
            values@ == with_places(before, start as int, partials@, i as nat),
        decreases 6 - i,
    {
        assert(start + partials@[i as int].0 < before.len());
        let at: usize = start + partials[i].0;
        values[at] = partials[i].1;
        i = i + 1;
    }
}

/// One axis of a knot's Jacobian, in the knot's block of a row of `dim` zeros.
fn jacobian_row(evaluation: &Evaluation, n: usize, k: usize, axis: usize, dim: usize) -> (row: Vec<
    Double,
>)
    requires
        evaluation.shaped(evaluation.knots@.len(), n as nat),
        k < evaluation.knots@.len(),
        axis < 6,
        dim == evaluation.knots@.len() * n,
    ensures
        row@ == pose_row(evaluation.knots@, n as nat, k as int, axis as int),
{
    proof {
        lemma_block_within(k as int, evaluation.knots@.len() as int, n as int);
        assert(evaluation.knots@[k as int].shaped(n as nat));
    }
    let start: usize = k * n;
    let mut row: Vec<Double> = Vec::new();
    let mut c: usize = 0;
    while c < dim
        invariant
            c <= dim,
            start == k * n,
            start + n <= dim,
            k < evaluation.knots@.len(),
            axis < 6,
            evaluation.knots@[k as int].shaped(n as nat),
            dim == evaluation.knots@.len() * n,
            row@.len() == c,
            forall|j: int|
                0 <= j < c ==> #[trigger] row@[j] == pose_row(
                    evaluation.knots@,
                    n as nat,
                    k as int,
                    axis as int,
                )[j],
        decreases dim - c,
    {
        if start <= c && c - start < n {
            row.push(evaluation.knots[k].jacobian.get(axis, c - start));
        } else {
            row.push(Double { bits: 0 });
        }
        c = c + 1;
    }
    assert(row@ =~= pose_row(evaluation.knots@, n as nat, k as int, axis as int));
    row
}

/// Assembles the equality rows and their targets.
pub(crate) fn assemble_equalities(
    knots: &Vec<Vec<Double>>,
    evaluation: &Evaluation,
    tracking: EeTracking,
    base: BaseIndices,
    n: usize,
    scale: Double,
) -> (result: (Matrix, Vec<Double>))
    requires
        knots@.len() >= 1,
        knots_shaped(knots@, n as nat),
        evaluation.shaped(knots@.len(), n as nat),
        base.within(n as nat),
        addressable(knots@.len(), n as nat),
    ensures
        result.0.well_formed(),
        result.0@ == equality_rows(knots@, *evaluation, tracking, base, n as nat),
        result.0.width() == knots@.len() * n,
        result.1@ == equality_targets(knots@, *evaluation, tracking, base, scale),
{
    let count: usize = knots.len();
    let intervals: usize = count - 1;
    let dim: usize = count * n;
    let ghost all_rows = equality_rows(knots@, *evaluation, tracking, base, n as nat);
    let ghost all_targets = equality_targets(knots@, *evaluation, tracking, base, scale);
    let mut rows: Vec<Vec<Double>> = Vec::new();
    let mut targets: Vec<Double> = Vec::new();

    let mut k: usize = 0;
    while k < intervals
        invariant
            k <= intervals,
            intervals == count - 1,
            count == knots@.len(),
            dim == count * n,
            addressable(count as nat, n as nat),
            knots_shaped(knots@, n as nat),
            evaluation.shaped(count as nat, n as nat),
            base.within(n as nat),
            all_rows == equality_rows(knots@, *evaluation, tracking, base, n as nat),
            all_targets == equality_targets(knots@, *evaluation, tracking, base, scale),
            rows@.len() == k,
            targets@.len() == k,
            forall|r: int|
                0 <= r < k ==> (#[trigger] rows@[r])@ == all_rows[r] && rows@[r]@.len() == dim,
            forall|r: int| 0 <= r < k ==> #[trigger] targets@[r] == all_targets[r],
        decreases intervals - k,
    {
        let heading: Heading = evaluation.headings[k];
        let (residual, partials): (Double, Partials) = nonholonomic_linearization(
            &knots[k],
            &knots[k + 1],
            base,
            heading,
        );
        proof {
            lemma_block_within(k as int, count as int, n as int);
            lemma_block_within(k as int + 1, count as int, n as int);
            lemma_partials_within(partials@, knots@[k as int]@, knots@[k + 1]@, base, heading);
        }
        let mut row: Vec<Double> = zeros(dim);
        place_partials(&mut row, k * n, &partials);
        rows.push(row);
        targets.push(residual.neg());
        k = k + 1;
    }

    if tracking == EeTracking::Hard {
        let mut r: usize = 0;
        let total: usize = 6 * count;
        while r < total
            invariant
                r <= total,
                total == 6 * count,
                intervals == count - 1,
                count == knots@.len(),
                dim == count * n,
                7 * count <= usize::MAX,
                tracking == EeTracking::Hard,
                evaluation.shaped(count as nat, n as nat),
                all_rows == equality_rows(knots@, *evaluation, tracking, base, n as nat),
                all_targets == equality_targets(knots@, *evaluation, tracking, base, scale),
                rows@.len() == intervals + r,
                targets@.len() == intervals + r,
                forall|i: int|
                    0 <= i < intervals + r ==> (#[trigger] rows@[i])@ == all_rows[i]
                        && rows@[i]@.len() == dim,
                forall|i: int| 0 <= i < intervals + r ==> #[trigger] targets@[i] == all_targets[i],
            decreases total - r,
        {
            let at: usize = r / 6;
            let axis: usize = r % 6;
            assert(evaluation.knots@[at as int].shaped(n as nat));
            rows.push(jacobian_row(evaluation, n, at, axis, dim));
            targets.push(scale.times(evaluation.knots[at].residual[axis]));
            r = r + 1;
        }
    }
    assert(rows@.len() == all_rows.len());
    let a_eq: Matrix = Matrix::from_rows(rows, dim);
    assert(a_eq@ =~= all_rows);
    assert(targets@ =~= all_targets);
    (a_eq, targets)
}

/// A velocity row: the difference of a joint between neighbouring knots.
pub open spec fn velocity_row(dim: nat, n: nat, pair: int, upper: bool) -> Seq<Double> {
    let (plus, minus) = if upper {
        (Double { bits: ONE }, Double { bits: MINUS_ONE })
    } else {
        (Double { bits: MINUS_ONE }, Double { bits: ONE })
    };
    Seq::new(
        dim,
        |c: int|
            if c == pair + n {
                plus
            } else if c == pair {
                minus
            } else {
                Double { bits: 0 }
            },
    )
}

/// The distance that a joint may move in one interval.
pub open spec fn velocity_limit(config: TrajectoryConfig) -> Double {
    config.max_joint_velocity.product(config.dt)
}

/// The distance that a joint is asked to keep within in one interval: the limit
/// where one step can reach it, otherwise one step's worth of improvement.
pub open spec fn progressive_budget(difference: Double, radius: Double, limit: Double) -> Double {
    difference.absolute().difference(radius).larger(limit)
}

/// The velocity rows: two per joint and interval, over the stacked step. Joint
/// `j` of interval `k` has the rows `2·(k·n + j)` and `2·(k·n + j) + 1`.
pub open spec fn velocity_rows(count: nat, n: nat) -> Seq<Seq<Double>> {
    Seq::new(
        2 * ((count - 1) as nat * n),
        |r: int| velocity_row(count * n, n, r / 2, r % 2 == 0),
    )
}

/// The right-hand sides of the velocity rows.
pub open spec fn velocity_bounds(
    knots: Seq<Vec<Double>>,
    n: nat,
    radius: Double,
    limit: Double,
) -> Seq<Double> {
    Seq::new(
        2 * ((knots.len() - 1) as nat * n),
        |r: int|
            {
                let k = r / 2 / (n as int);
                let j = r / 2 % (n as int);
                let difference = knots[k + 1]@[j].difference(knots[k]@[j]);
                let budget = progressive_budget(difference, radius, limit);
                if r % 2 == 0 {
                    budget.difference(difference)
                } else {
                    budget.sum(difference)
                }
            },
    )
}

/// The lower box bounds: joint limits re-anchored at the iterate, intersected
/// with the trust region.
pub open spec fn box_lower(
    knots: Seq<Vec<Double>>,
    lower: Seq<Double>,
    n: nat,
    radius: Double,
) -> Seq<Double> {
    Seq::new(
        knots.len() * n,
        |i: int|
            lower[i % (n as int)].difference(knots[i / (n as int)]@[i % (n as int)]).larger(
                radius.negated(),
            ),
    )
}

/// The upper box bounds.
pub open spec fn box_upper(
    knots: Seq<Vec<Double>>,
    upper: Seq<Double>,
    n: nat,
    radius: Double,
) -> Seq<Double> {
    Seq::new(
        knots.len() * n,
        |i: int|
            upper[i % (n as int)].difference(knots[i / (n as int)]@[i % (n as int)]).smaller(
                radius,
            ),
    )
}

/// A place in the stack belongs to a knot and a joint.
pub proof fn lemma_place(i: int, count: int, n: int)
    requires
        0 <= i < count * n,
        0 < n,
    ensures
        0 <= i / n < count,
        0 <= i % n < n,
        i == (i / n) * n + i % n,
{
    vstd::arithmetic::div_mod::lemma_fundamental_div_mod(i, n);
    let (k, j) = (i / n, i % n);
    assert(0 <= j < n);
    assert(k * n == n * k) by (nonlinear_arith);
    assert(0 <= k < count) by (nonlinear_arith)
        requires
            i == n * k + j,
            0 <= j < n,
            0 <= i < count * n,
            0 < n,
    ;
}

/// One velocity row.
fn difference_row(dim: usize, n: usize, pair: usize, upper: bool) -> (row: Vec<Double>)
    requires
        pair + n < dim,
    ensures
        row@ == velocity_row(dim as nat, n as nat, pair as int, upper),
{
    let plus: Double = Double {
        bits: if upper {
            ONE
        } else {
            MINUS_ONE
        },
    };
    let minus: Double = Double {
        bits: if upper {
            MINUS_ONE
        } else {
            ONE
        },
    };
    let mut row: Vec<Double> = Vec::new();
    let mut c: usize = 0;
    while c < dim
        invariant
            c <= dim,
            pair + n < dim,
            row@.len() == c,
            plus == (Double {
                bits: if upper {
                    ONE
                } else {
                    MINUS_ONE
                },
            }),
            minus == (Double {
                bits: if upper {
                    MINUS_ONE
                } else {
                    ONE
                },
            }),
            forall|j: int|
                0 <= j < c ==> #[trigger] row@[j] == velocity_row(
                    dim as nat,
                    n as nat,
                    pair as int,
                    upper,
                )[j],
        decreases dim - c,
    {
        if c == pair + n {
            row.push(plus);
        } else if c == pair {
            row.push(minus);
        } else {
            row.push(Double { bits: 0 });
        }
        c = c + 1;
    }
    assert(row@ =~= velocity_row(dim as nat, n as nat, pair as int, upper));
    row
}

/// Assembles the velocity rows and their right-hand sides.
pub(crate) fn assemble_velocity(
    knots: &Vec<Vec<Double>>,
    n: usize,
    radius: Double,
    limit: Double,
) -> (result: (Matrix, Vec<Double>))
    requires
        knots@.len() >= 1,
        n > 0,
        knots_shaped(knots@, n as nat),
        addressable(knots@.len(), n as nat),
    ensures
        result.0.well_formed(),
        result.0@ == velocity_rows(knots@.len(), n as nat),
        result.0.width() == knots@.len() * n,
        result.1@ == velocity_bounds(knots@, n as nat, radius, limit),
{
    let count: usize = knots.len();
    let intervals: usize = count - 1;
    let dim: usize = count * n;
    proof {
        lemma_block_within(intervals as int, count as int, n as int);
    }
    let pairs: usize = intervals * n;
    let ghost all_rows = velocity_rows(knots@.len(), n as nat);
    let ghost all_bounds = velocity_bounds(knots@, n as nat, radius, limit);
    let mut rows: Vec<Vec<Double>> = Vec::new();
    let mut bounds: Vec<Double> = Vec::new();
    let mut pair: usize = 0;
    while pair < pairs
        invariant
            pair <= pairs,
            pairs == intervals * n,
            intervals == count - 1,
            count == knots@.len(),
            dim == count * n,
            dim == pairs + n,
            n > 0,
            knots_shaped(knots@, n as nat),
            all_rows == velocity_rows(knots@.len(), n as nat),
            all_bounds == velocity_bounds(knots@, n as nat, radius, limit),
            rows@.len() == 2 * pair,
            bounds@.len() == 2 * pair,
            forall|r: int|
                0 <= r < 2 * pair ==> (#[trigger] rows@[r])@ == all_rows[r] && rows@[r]@.len()
                    == dim,
            forall|r: int| 0 <= r < 2 * pair ==> #[trigger] bounds@[r] == all_bounds[r],
        decreases pairs - pair,
    {
        proof {
            lemma_place(pair as int, intervals as int, n as int);
        }
        let k: usize = pair / n;
        let j: usize = pair % n;
        let difference: Double = knots[k + 1][j].minus(knots[k][j]);
        let budget: Double = difference.abs().minus(radius).max(limit);
        rows.push(difference_row(dim, n, pair, true));
        bounds.push(budget.minus(difference));
        rows.push(difference_row(dim, n, pair, false));
        bounds.push(budget.plus(difference));
        pair = pair + 1;
    }
    let a_in: Matrix = Matrix::from_rows(rows, dim);
    assert(a_in@ =~= all_rows);
    assert(bounds@ =~= all_bounds);
    (a_in, bounds)
}

/// Assembles the box.
pub(crate) fn assemble_box(
    knots: &Vec<Vec<Double>>,
    lower: &Vec<Double>,
    upper: &Vec<Double>,
    n: usize,
    radius: Double,
) -> (result: (Vec<Double>, Vec<Double>))
    requires
        n > 0,
        knots_shaped(knots@, n as nat),
        lower@.len() == n,
        upper@.len() == n,
        knots@.len() * n <= usize::MAX,
    ensures
        result.0@ == box_lower(knots@, lower@, n as nat, radius),
        result.1@ == box_upper(knots@, upper@, n as nat, radius),
{
    let count: usize = knots.len();
    let dim: usize = count * n;
    let ghost all_lower = box_lower(knots@, lower@, n as nat, radius);
    let ghost all_upper = box_upper(knots@, upper@, n as nat, radius);
    let mut lb: Vec<Double> = Vec::new();
    let mut ub: Vec<Double> = Vec::new();
    let mut i: usize = 0;
    while i < dim
        invariant
            i <= dim,
            dim == count * n,
            count == knots@.len(),
            n > 0,
            knots_shaped(knots@, n as nat),
            lower@.len() == n,
            upper@.len() == n,
            all_lower == box_lower(knots@, lower@, n as nat, radius),
            all_upper == box_upper(knots@, upper@, n as nat, radius),
            lb@.len() == i,
            ub@.len() == i,
            forall|t: int| 0 <= t < i ==> #[trigger] lb@[t] == all_lower[t],
            forall|t: int| 0 <= t < i ==> #[trigger] ub@[t] == all_upper[t],
        decreases dim - i,
    {
        proof {
            lemma_place(i as int, count as int, n as int);
        }
        let k: usize = i / n;
        let j: usize = i % n;
        lb.push(lower[j].minus(knots[k][j]).max(radius.neg()));
        ub.push(upper[j].minus(knots[k][j]).min(radius));
        i = i + 1;
    }
    assert(lb@ =~= all_lower);
    assert(ub@ =~= all_upper);
    (lb, ub)
}

/// The scale of the hard targets leaves the no-slip rows alone: they ask for all of
/// the slip to be removed at every scale.
pub proof fn lemma_scale_spares_the_slip_rows(
    knots: Seq<Vec<Double>>,
    evaluation: Evaluation,
    tracking: EeTracking,
    base: BaseIndices,
    scale: Double,
    other: Double,
    k: int,
)
    requires
        0 <= k < knots.len() - 1,
    ensures
        equality_targets(knots, evaluation, tracking, base, scale)[k] == equality_targets(
            knots,
            evaluation,
            tracking,
            base,
            other,
        )[k],
{
}

} // verus!
