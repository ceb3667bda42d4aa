//! The quadratic model of a subproblem: end-effector tracking, smoothness, the
//! penalty on backward motion, and damping.

use crate::configs::{EeTracking, TrajectoryConfig};
use crate::diagnostics::{BaseIndices, Heading};
use crate::double::{ONE, Double};
use crate::linearization::{
    addressable, forward_progress, forward_progress_linearization, knots_shaped, progress_partials,
    slip_partials, Evaluation, KnotEvaluation, Partials,
};
use crate::matrix::{rectangular, with_entry, zero_row, zero_rows, Matrix};
use vstd::arithmetic::mul::{lemma_mul_inequality, lemma_mul_is_distributive_add};
use vstd::prelude::*;

verus! {

/// A matrix with a block added to it.
pub open spec fn with_block(
    rows: Seq<Seq<Double>>,
    row0: int,
    col0: int,
    block: Seq<Seq<Double>>,
) -> Seq<Seq<Double>> {
    Seq::new(
        rows.len(),
        |r: int|
            Seq::new(
                rows[r].len(),
                |c: int|
                    if row0 <= r < row0 + block.len() && col0 <= c < col0 + block[r - row0].len() {
                        rows[r][c].sum(block[r - row0][c - col0])
                    } else {
                        rows[r][c]
                    },
            ),
    )
}

/// Elementwise block accumulation.
pub fn add_block(p: &mut Matrix, row0: usize, col0: usize, block: &Matrix)
    requires
        old(p).well_formed(),
        block.well_formed(),
        row0 + block@.len() <= old(p)@.len(),
        col0 + block.width() <= old(p).width(),
    ensures
        final(p).well_formed(),
        final(p)@ == with_block(old(p)@, row0 as int, col0 as int, block@),
        final(p)@.len() == old(p)@.len(),
        final(p).width() == old(p).width(),
{
    let nrows: usize = block.nrows();
    let ncols: usize = block.ncols();
    let ghost before = p@;
    let ghost width = p.width();
    let mut r: usize = 0;
    while r < nrows
        invariant
            p.well_formed(),
            block.well_formed(),
            nrows == block@.len(),
            ncols == block.width(),
            r <= nrows,
            p.width() == width,
            p@.len() == before.len(),
            rectangular(before, width),
            row0 + nrows <= before.len(),
            col0 + ncols <= width,
            before.len() <= usize::MAX,
            width <= usize::MAX,
            forall|i: int, j: int|
                #![trigger p@[i][j]]
                0 <= i < before.len() && 0 <= j < width ==> p@[i][j] == if row0 <= i < row0 + r
                    && col0 <= j < col0 + ncols {
                    before[i][j].sum(block@[i - row0][j - col0])
                } else {
                    before[i][j]
                },
        decreases nrows - r,
    {
        let mut c: usize = 0;
        while c < ncols
            invariant
                p.well_formed(),
                block.well_formed(),
                nrows == block@.len(),
                ncols == block.width(),
                r < nrows,
                c <= ncols,
                p.width() == width,
                p@.len() == before.len(),
                rectangular(before, width),
                row0 + nrows <= before.len(),
                col0 + ncols <= width,
                before.len() <= usize::MAX,
                width <= usize::MAX,
                forall|i: int, j: int|
                    #![trigger p@[i][j]]
                    0 <= i < before.len() && 0 <= j < width ==> p@[i][j] == if (row0 <= i < row0
                        + r && col0 <= j < col0 + ncols) || (i == row0 + r && col0 <= j < col0
                        + c) {
                        before[i][j].sum(block@[i - row0][j - col0])
                    } else {
                        before[i][j]
                    },
            decreases ncols - c,
        {
            p.accumulate(row0 + r, col0 + c, block.get(r, c));
            c = c + 1;
        }
        r = r + 1;
    }
    proof {
        let goal = with_block(before, row0 as int, col0 as int, block@);
        assert forall|i: int| 0 <= i < before.len() implies p@[i] =~= #[trigger] goal[i] by {
            assert(p@[i].len() == width);
            assert(before[i].len() == width);
            assert forall|j: int| 0 <= j < width implies p@[i][j] == goal[i][j] by {
                if row0 <= i < row0 + nrows {
                    assert(block@[i - row0].len() == ncols);
                }
            }
        }
        assert(p@ =~= goal);
    }
}

/// A matrix with every entry multiplied by a factor.
pub open spec fn scaled_rows(rows: Seq<Seq<Double>>, factor: Double) -> Seq<Seq<Double>> {
    Seq::new(
        rows.len(),
        |r: int| Seq::new(rows[r].len(), |c: int| factor.product(rows[r][c])),
    )
}

/// The identity matrix.
pub open spec fn identity_rows(n: nat) -> Seq<Seq<Double>> {
    Seq::new(
        n,
        |r: int|
            Seq::new(
                n,
                |c: int|
                    if r == c {
                        Double { bits: ONE }
                    } else {
                        Double { bits: 0 }
                    },
            ),
    )
}

pub(crate) fn scaled(matrix: &Matrix, factor: Double) -> (result: Matrix)
    requires
        matrix.well_formed(),
    ensures
        result.well_formed(),
        result@ == scaled_rows(matrix@, factor),
        result.width() == matrix.width(),
{
    let nrows: usize = matrix.nrows();
    let ncols: usize = matrix.ncols();
    let mut rows: Vec<Vec<Double>> = Vec::new();
    let mut r: usize = 0;
    while r < nrows
        invariant
            matrix.well_formed(),
            nrows == matrix@.len(),
            ncols == matrix.width(),
            r <= nrows,
            rows@.len() == r,
            forall|i: int|
                0 <= i < r ==> (#[trigger] rows@[i])@ =~= scaled_rows(matrix@, factor)[i],
        decreases nrows - r,
    {
        let mut row: Vec<Double> = Vec::new();
        let mut c: usize = 0;
        while c < ncols
            invariant
                matrix.well_formed(),
                nrows == matrix@.len(),
                ncols == matrix.width(),
                r < nrows,
                c <= ncols,
                row@.len() == c,
                forall|j: int|
                    0 <= j < c ==> #[trigger] row@[j] == factor.product(matrix@[r as int][j]),
            decreases ncols - c,
        {
            row.push(factor.times(matrix.get(r, c)));
            c = c + 1;
        }
        assert(matrix@[r as int].len() == ncols);
        rows.push(row);
        r = r + 1;
    }
    assert forall|i: int| 0 <= i < rows@.len() implies (#[trigger] rows@[i])@.len() == ncols by {
        assert(matrix@[i].len() == ncols);
    }
    let result: Matrix = Matrix::from_rows(rows, ncols);
    assert(result@ =~= scaled_rows(matrix@, factor));
    result
}

fn identity(n: usize) -> (result: Matrix)
    ensures
        result.well_formed(),
        result@ == identity_rows(n as nat),
        result.width() == n,
{
    let mut rows: Vec<Vec<Double>> = Vec::new();
    let mut r: usize = 0;
    while r < n
        invariant
            r <= n,
            rows@.len() == r,
            forall|i: int| 0 <= i < r ==> (#[trigger] rows@[i])@ =~= identity_rows(n as nat)[i],
        decreases n - r,
    {
        let mut row: Vec<Double> = Vec::new();
        let mut c: usize = 0;
        while c < n
            invariant
                r < n,
                c <= n,
                row@.len() == c,
                forall|j: int|
                    0 <= j < c ==> #[trigger] row@[j] == identity_rows(n as nat)[r as int][j],
            decreases n - c,
        {
            if r == c {
                row.push(Double { bits: ONE });
            } else {
                row.push(Double { bits: 0 });
            }
            c = c + 1;
        }
        rows.push(row);
        r = r + 1;
    }
    let result: Matrix = Matrix::from_rows(rows, n);
    assert(result@ =~= identity_rows(n as nat));
    result
}

/// A knot's block lies within the stack.
pub proof fn lemma_block_within(k: int, count: int, n: int)
    requires
        0 <= k < count,
        0 <= n,
    ensures
        0 <= k * n,
        k * n + n <= count * n,
        (k + 1) * n == k * n + n,
{
    lemma_mul_inequality(k + 1, count, n);
    lemma_mul_is_distributive_add(n, k, 1);
    assert((k + 1) * n == k * n + n) by (nonlinear_arith);
    assert(0 <= k * n) by (nonlinear_arith)
        requires
            0 <= k,
            0 <= n,
    ;
}

/// The tracking cost of the first `count` knots: w·JᵀJ on each diagonal block.
pub open spec fn tracking_cost(
    rows: Seq<Seq<Double>>,
    knots: Seq<KnotEvaluation>,
    weight: Double,
    n: nat,
    count: nat,
) -> Seq<Seq<Double>>
    decreases count,
{
    if count == 0 {
        rows
    } else {
        let k = count - 1;
        with_block(
            tracking_cost(rows, knots, weight, n, k as nat),
            k * n,
            k * n,
            scaled_rows(knots[k].normal@, weight),
        )
    }
}

/// The smoothness cost of the first `count` intervals: the first-difference
/// operator, w·[I −I; −I I] on each pair of neighbouring blocks.
pub open spec fn smoothness_cost(
    rows: Seq<Seq<Double>>,
    weight: Double,
    n: nat,
    count: nat,
) -> Seq<Seq<Double>>
    decreases count,
{
    if count == 0 {
        rows
    } else {
        let k = count - 1;
        let plus = scaled_rows(identity_rows(n), weight);
        let minus = scaled_rows(identity_rows(n), weight.negated());
        let own = with_block(smoothness_cost(rows, weight, n, k as nat), k * n, k * n, plus);
        let next = with_block(own, (k + 1) * n, (k + 1) * n, plus);
        let right = with_block(next, k * n, (k + 1) * n, minus);
        with_block(right, (k + 1) * n, k * n, minus)
    }
}

/// A matrix with the first `count` of the 36 products of six partials added:
/// w·g·gᵀ, with the partials placed from `start` on.
pub open spec fn with_outer_product(
    rows: Seq<Seq<Double>>,
    start: int,
    weight: Double,
    partials: Seq<(usize, Double)>,
    count: nat,
) -> Seq<Seq<Double>>
    decreases count,
{
    if count == 0 {
        rows
    } else {
        let before = with_outer_product(rows, start, weight, partials, (count - 1) as nat);
        let a = partials[(count - 1) / 6];
        let b = partials[(count - 1) % 6];
        with_entry(
            before,
            start + a.0,
            start + b.0,
            before[start + a.0][start + b.0].sum(weight.product(a.1.product(b.1))),
        )
    }
}

/// Whether an interval is driven backward, so that the penalty applies.
pub open spec fn penalized(weight: Double, progress: Double) -> bool {
    (Double { bits: 0 }).less(weight) && progress.less(Double { bits: 0 })
}

/// The backward-motion cost of the first `count` intervals.
pub open spec fn backward_cost(
    rows: Seq<Seq<Double>>,
    knots: Seq<Vec<Double>>,
    headings: Seq<Heading>,
    base: BaseIndices,
    weight: Double,
    n: nat,
    count: nat,
) -> Seq<Seq<Double>>
    decreases count,
{
    if count == 0 {
        rows
    } else {
        let k = count - 1;
        let before = backward_cost(rows, knots, headings, base, weight, n, k as nat);
        if penalized(weight, forward_progress(knots[k]@, knots[k + 1]@, base, headings[k])) {
            with_outer_product(
                before,
                k * n,
                weight,
                progress_partials(knots[k]@, knots[k + 1]@, base, headings[k]),
                36,
            )
        } else {
            before
        }
    }
}

/// A matrix with a value added along its diagonal.
pub open spec fn damped(rows: Seq<Seq<Double>>, damping: Double) -> Seq<Seq<Double>> {
    Seq::new(rows.len(), |r: int| rows[r].update(r, rows[r][r].sum(damping)))
}

/// The quadratic term P of the subproblem.
pub open spec fn quadratic_term(
    knots: Seq<Vec<Double>>,
    evaluation: Evaluation,
    config: TrajectoryConfig,
    base: BaseIndices,
    n: nat,
) -> Seq<Seq<Double>> {
    let count = knots.len();
    let intervals = (count - 1) as nat;
    let empty = zero_rows(count * n, count * n);
    let followed = if config.ee_tracking == EeTracking::Soft {
        tracking_cost(empty, evaluation.knots@, config.ee_weight, n, count)
    } else {
        empty
    };
    let smooth = smoothness_cost(followed, config.smoothness_weight, n, intervals);
    let forward = backward_cost(
        smooth,
        knots,
        evaluation.headings@,
        base,
        config.backward_weight,
        n,
        intervals,
    );
    damped(forward, config.damping)
}

/// Adds w·g·gᵀ for six partials placed from `start` on.
fn add_outer_product(p: &mut Matrix, start: usize, weight: Double, partials: &Partials)
    requires
        old(p).well_formed(),
        old(p)@.len() == old(p).width(),
        forall|i: int| 0 <= i < 6 ==> start + (#[trigger] partials@[i]).0 < old(p).width(),
    ensures
        final(p).well_formed(),
        final(p)@ == with_outer_product(old(p)@, start as int, weight, partials@, 36),
        final(p)@.len() == old(p)@.len(),
        final(p).width() == old(p).width(),
{
    let ghost before = p@;
    let ghost width = p.width();
    let mut t: usize = 0;
    while t < 36
        invariant
            t <= 36,
            p.well_formed(),
            p.width() == width,
            p@.len() == width,
            before.len() == width,
            forall|i: int| 0 <= i < 6 ==> start + (#[trigger] partials@[i]).0 < width,
            p@ == with_outer_product(before, start as int, weight, partials@, t as nat),
        decreases 36 - t,
    {
        let a: (usize, Double) = partials[t / 6];
        let b: (usize, Double) = partials[t % 6];
        assert(start + partials@[t as int / 6].0 < width);
        assert(start + partials@[t as int % 6].0 < width);
        p.accumulate(start + a.0, start + b.0, weight.times(a.1.times(b.1)));
        t = t + 1;
    }
}

/// The places of six partials lie within two neighbouring blocks.
pub(crate) proof fn lemma_partials_within(
    partials: Seq<(usize, Double)>,
    q_k: Seq<Double>,
    q_k1: Seq<Double>,
    base: BaseIndices,
    heading: Heading,
)
    requires
        base.within(q_k.len()),
        2 * q_k.len() <= usize::MAX,
        partials == progress_partials(q_k, q_k1, base, heading) || partials == slip_partials(
            q_k,
            q_k1,
            base,
            heading,
        ),
    ensures
        partials.len() == 6,
        forall|i: int| 0 <= i < 6 ==> (#[trigger] partials[i]).0 < 2 * q_k.len(),
{
}

/// Assembles the quadratic term.
pub(crate) fn assemble_quadratic(
    knots: &Vec<Vec<Double>>,
    evaluation: &Evaluation,
    config: &TrajectoryConfig,
    base: BaseIndices,
    n: usize,
) -> (p: Matrix)
    requires
        knots@.len() >= 1,
        knots_shaped(knots@, n as nat),
        evaluation.shaped(knots@.len(), n as nat),
        base.within(n as nat),
        addressable(knots@.len(), n as nat),
    ensures
        p.well_formed(),
        p@ == quadratic_term(knots@, *evaluation, *config, base, n as nat),
        p@.len() == knots@.len() * n,
        p.width() == knots@.len() * n,
{
    let count: usize = knots.len();
    let intervals: usize = count - 1;
    let dim: usize = count * n;
    let mut p: Matrix = Matrix::zeros(dim, dim);
    let ghost empty = p@;

    // EE tracking cost (soft mode only; hard mode uses equality rows).
    if config.ee_tracking == EeTracking::Soft {
        let mut k: usize = 0;
        while k < count
            invariant
                k <= count,
                count == knots@.len(),
                dim == count * n,
                4 * (count * n) <= usize::MAX,
                evaluation.shaped(count as nat, n as nat),
                p.well_formed(),
                p@.len() == dim,
                p.width() == dim,
                p@ == tracking_cost(
                    empty,
                    evaluation.knots@,
                    config.ee_weight,
                    n as nat,
                    k as nat,
                ),
            decreases count - k,
        {
            proof {
                lemma_block_within(k as int, count as int, n as int);
                assert(evaluation.knots@[k as int].shaped(n as nat));
            }
            let block: Matrix = scaled(&evaluation.knots[k].normal, config.ee_weight);
            add_block(&mut p, k * n, k * n, &block);
            k = k + 1;
        }
    }
    let ghost followed = p@;

    // Smoothness on consecutive differences d_k = q_{k+1} − q_k.
    let weight: Double = config.smoothness_weight;
    let own: Matrix = scaled(&identity(n), weight);
    let cross: Matrix = scaled(&identity(n), weight.neg());
    let mut k: usize = 0;
    while k < intervals
        invariant
            k <= intervals,
            intervals == count - 1,
            dim == count * n,
            4 * (count * n) <= usize::MAX,
            p.well_formed(),
            p@.len() == dim,
            p.width() == dim,
            own.well_formed(),
            cross.well_formed(),
            own@ == scaled_rows(identity_rows(n as nat), weight),
            cross@ == scaled_rows(identity_rows(n as nat), weight.negated()),
            own.width() == n,
            cross.width() == n,
            p@ == smoothness_cost(followed, weight, n as nat, k as nat),
        decreases intervals - k,
    {
        proof {
            lemma_block_within(k as int, count as int, n as int);
            lemma_block_within(k as int + 1, count as int, n as int);
        }
        let here: usize = k * n;
        let there: usize = (k + 1) * n;
        add_block(&mut p, here, here, &own);
        add_block(&mut p, there, there, &own);
        add_block(&mut p, here, there, &cross);
        add_block(&mut p, there, here, &cross);
        k = k + 1;
    }
    let ghost smooth = p@;

    // One-sided penalty on the intervals that are driven backward.
    let mut k: usize = 0;
    while k < intervals
        invariant
            k <= intervals,
            intervals == count - 1,
            count == knots@.len(),
            dim == count * n,
            addressable(count as nat, n as nat),
            knots_shaped(knots@, n as nat),
            evaluation.shaped(count as nat, n as nat),
            base.within(n as nat),
            p.well_formed(),
            p@.len() == dim,
            p.width() == dim,
            p@ == backward_cost(
                smooth,
                knots@,
                evaluation.headings@,
                base,
                config.backward_weight,
                n as nat,
                k as nat,
            ),
        decreases intervals - k,
    {
        let heading: Heading = evaluation.headings[k];
        let (progress, partials): (Double, Partials) = forward_progress_linearization(
            &knots[k],
            &knots[k + 1],
            base,
            heading,
        );
        if (Double { bits: 0 }).lt(config.backward_weight) && progress.lt(Double { bits: 0 }) {
            proof {
                lemma_block_within(k as int, count as int, n as int);
                lemma_block_within(k as int + 1, count as int, n as int);
                lemma_partials_within(
                    partials@,
                    knots@[k as int]@,
                    knots@[k + 1]@,
                    base,
                    heading,
                );
            }
            add_outer_product(&mut p, k * n, config.backward_weight, &partials);
        }
        k = k + 1;
    }
    let ghost forward = p@;

    // Damping keeps P positive definite even where J loses rank.
    let mut i: usize = 0;
    while i < dim
        invariant
            i <= dim,
            p.well_formed(),
            p@.len() == dim,
            p.width() == dim,
            forward.len() == dim,
            rectangular(forward, dim as nat),
            forall|r: int|
                0 <= r < dim ==> #[trigger] p@[r] == if r < i {
                    damped(forward, config.damping)[r]
                } else {
                    forward[r]
                },
        decreases dim - i,
    {
        p.accumulate(i, i, config.damping);
        i = i + 1;
    }
    assert(p@ =~= damped(forward, config.damping));
    p
}

/// A vector with a segment taken away from it.
pub open spec fn minus_segment(values: Seq<Double>, start: int, segment: Seq<Double>) -> Seq<
    Double,
> {
    Seq::new(
        values.len(),
        |i: int|
            if start <= i < start + segment.len() {
                values[i].difference(segment[i - start])
            } else {
                values[i]
            },
    )
}

/// A vector with a segment added to it.
pub open spec fn plus_segment(values: Seq<Double>, start: int, segment: Seq<Double>) -> Seq<
    Double,
> {
    Seq::new(
        values.len(),
        |i: int|
            if start <= i < start + segment.len() {
                values[i].sum(segment[i - start])
            } else {
                values[i]
            },
    )
}

/// Each value multiplied by a weight.
pub open spec fn weighted(weight: Double, values: Seq<Double>) -> Seq<Double> {
    Seq::new(values.len(), |i: int| weight.product(values[i]))
}

/// The difference d_k = q_{k+1} − q_k between neighbouring knots.
pub open spec fn step_between(q_k: Seq<Double>, q_k1: Seq<Double>) -> Seq<Double> {
    Seq::new(q_k.len(), |j: int| q_k1[j].difference(q_k[j]))
}

/// The linear tracking term of the first `count` knots: −w·Jᵀr on each block.
pub open spec fn tracking_gradient(
    values: Seq<Double>,
    knots: Seq<KnotEvaluation>,
    weight: Double,
    n: nat,
    count: nat,
) -> Seq<Double>
    decreases count,
{
    if count == 0 {
        values
    } else {
        let k = count - 1;
        minus_segment(
            tracking_gradient(values, knots, weight, n, k as nat),
            k * n,
            weighted(weight, knots[k].gradient@),
        )
    }
}

/// The linear smoothness term of the first `count` intervals: −w·d on the first
/// and +w·d on the second block of each.
pub open spec fn smoothness_gradient(
    values: Seq<Double>,
    knots: Seq<Vec<Double>>,
    weight: Double,
    n: nat,
    count: nat,
) -> Seq<Double>
    decreases count,
{
    if count == 0 {
        values
    } else {
        let k = count - 1;
        let pull = weighted(weight, step_between(knots[k]@, knots[k + 1]@));
        plus_segment(
            minus_segment(smoothness_gradient(values, knots, weight, n, k as nat), k * n, pull),
            (k + 1) * n,
            pull,
        )
    }
}

/// A vector with the first `count` of six partials added, times a factor.
pub open spec fn with_partials(
    values: Seq<Double>,
    start: int,
    factor: Double,
    partials: Seq<(usize, Double)>,
    count: nat,
) -> Seq<Double>
    decreases count,
{
    if count == 0 {
        values
    } else {
        let before = with_partials(values, start, factor, partials, (count - 1) as nat);
        let at = start + partials[count - 1].0;
        before.update(at, before[at].sum(factor.product(partials[count - 1].1)))
    }
}

/// The linear backward-motion term of the first `count` intervals: w·s·g.
pub open spec fn backward_gradient(
    values: Seq<Double>,
    knots: Seq<Vec<Double>>,
    headings: Seq<Heading>,
    base: BaseIndices,
    weight: Double,
    n: nat,
    count: nat,
) -> Seq<Double>
    decreases count,
{
    if count == 0 {
        values
    } else {
        let k = count - 1;
        let before = backward_gradient(values, knots, headings, base, weight, n, k as nat);
        let progress = forward_progress(knots[k]@, knots[k + 1]@, base, headings[k]);
        if penalized(weight, progress) {
            with_partials(
                before,
                k * n,
                weight.product(progress),
                progress_partials(knots[k]@, knots[k + 1]@, base, headings[k]),
                6,
            )
        } else {
            before
        }
    }
}

/// The linear term q of the subproblem.
pub open spec fn linear_term(
    knots: Seq<Vec<Double>>,
    evaluation: Evaluation,
    config: TrajectoryConfig,
    base: BaseIndices,
    n: nat,
) -> Seq<Double> {
    let count = knots.len();
    let intervals = (count - 1) as nat;
    let empty = zero_row(count * n);
    let followed = if config.ee_tracking == EeTracking::Soft {
        tracking_gradient(empty, evaluation.knots@, config.ee_weight, n, count)
    } else {
        empty
    };
    let smooth = smoothness_gradient(followed, knots, config.smoothness_weight, n, intervals);
    backward_gradient(
        smooth,
        knots,
        evaluation.headings@,
        base,
        config.backward_weight,
        n,
        intervals,
    )
}

/// A vector of zeros.
pub(crate) fn zeros(count: usize) -> (values: Vec<Double>)
    ensures
        values@ == zero_row(count as nat),
{
    let mut values: Vec<Double> = Vec::new();
    let mut i: usize = 0;
    while i < count
        invariant
            i <= count,
            values@.len() == i,
            forall|j: int| 0 <= j < i ==> values@[j] == (Double { bits: 0 }),
        decreases count - i,
    {
        values.push(Double { bits: 0 });
        i = i + 1;
    }
    assert(values@ =~= zero_row(count as nat));
    values
}

/// Takes a segment away from a vector, or adds it.
fn combine_segment(values: &mut Vec<Double>, start: usize, segment: &Vec<Double>, subtract: bool)
    requires
        start + segment@.len() <= old(values)@.len(),
    ensures
        subtract ==> final(values)@ == minus_segment(old(values)@, start as int, segment@),
        !subtract ==> final(values)@ == plus_segment(old(values)@, start as int, segment@),
        final(values)@.len() == old(values)@.len(),
{
    let ghost goal = if subtract {
        minus_segment(values@, start as int, segment@)
    } else {
        plus_segment(values@, start as int, segment@)
    };
    let ghost before = values@;
    let total: usize = values.len();
    let mut j: usize = 0;
    while j < segment.len()
        invariant
            j <= segment@.len(),
            start + segment@.len() <= before.len(),
            before.len() == values@.len(),
            before.len() == total,
            goal == if subtract {
                minus_segment(before, start as int, segment@)
            } else {
                plus_segment(before, start as int, segment@)
            },
            forall|i: int|
                0 <= i < before.len() ==> #[trigger] values@[i] == if i < start + j {
                    goal[i]
                } else {
                    before[i]
                },
        decreases segment@.len() - j,
    {
        let value: Double = values[start + j];
        let change: Double = segment[j];
        values[start + j] = if subtract {
            value.minus(change)
        } else {
            value.plus(change)
        };
        j = j + 1;
    }
    assert(values@ =~= goal);
}

fn weigh(weight: Double, values: &Vec<Double>) -> (result: Vec<Double>)
    ensures
        result@ == weighted(weight, values@),
{
    let mut result: Vec<Double> = Vec::new();
    let mut i: usize = 0;
    while i < values.len()
        invariant
            i <= values@.len(),
            result@.len() == i,
            forall|j: int| 0 <= j < i ==> #[trigger] result@[j] == weight.product(values@[j]),
        decreases values@.len() - i,
    {
        result.push(weight.times(values[i]));
        i = i + 1;
    }
    assert(result@ =~= weighted(weight, values@));
    result
}

/// The difference between neighbouring knots.
pub fn knot_step(q_k: &Vec<Double>, q_k1: &Vec<Double>) -> (step: Vec<Double>)
    requires
        q_k@.len() == q_k1@.len(),
    ensures
        step@ == step_between(q_k@, q_k1@),
{
    let mut step: Vec<Double> = Vec::new();
    let mut j: usize = 0;
    while j < q_k.len()
        invariant
            j <= q_k@.len(),
            q_k@.len() == q_k1@.len(),
            step@.len() == j,
            forall|i: int| 0 <= i < j ==> #[trigger] step@[i] == q_k1@[i].difference(q_k@[i]),
        decreases q_k@.len() - j,
    {
        step.push(q_k1[j].minus(q_k[j]));
        j = j + 1;
    }
    assert(step@ =~= step_between(q_k@, q_k1@));
    step
}

fn add_partials(values: &mut Vec<Double>, start: usize, factor: Double, partials: &Partials)
    requires
        forall|i: int| 0 <= i < 6 ==> start + (#[trigger] partials@[i]).0 < old(values)@.len(),
    ensures
        final(values)@ == with_partials(old(values)@, start as int, factor, partials@, 6),
        final(values)@.len() == old(values)@.len(),
{
    let ghost before = values@;
    let total: usize = values.len();
    let mut i: usize = 0;
    while i < 6
        invariant
            i <= 6,
            values@.len() == before.len(),
            before.len() == total,
            forall|t: int| 0 <= t < 6 ==> start + (#[trigger] partials@[t]).0 < before.len(),
            values@ == with_partials(before, start as int, factor, partials@, i as nat),
        decreases 6 - i,
    {
        assert(start + partials@[i as int].0 < before.len());
        let at: usize = start + partials[i].0;
        let value: Double = values[at];
        values[at] = value.plus(factor.times(partials[i].1));
        i = i + 1;
    }
}

/// Assembles the linear term.
pub(crate) fn assemble_linear(
    knots: &Vec<Vec<Double>>,
    evaluation: &Evaluation,
    config: &TrajectoryConfig,
    base: BaseIndices,
    n: usize,
) -> (q: Vec<Double>)
    requires
        knots@.len() >= 1,
        knots_shaped(knots@, n as nat),
        evaluation.shaped(knots@.len(), n as nat),
        base.within(n as nat),
        addressable(knots@.len(), n as nat),
    ensures
        q@ == linear_term(knots@, *evaluation, *config, base, n as nat),
        q@.len() == knots@.len() * n,
{
    let count: usize = knots.len();
    let intervals: usize = count - 1;
    let dim: usize = count * n;
    let mut q: Vec<Double> = zeros(dim);
    let ghost empty = q@;

    if config.ee_tracking == EeTracking::Soft {
        let mut k: usize = 0;
        while k < count
            invariant
                k <= count,
                count == knots@.len(),
                dim == count * n,
                4 * (count * n) <= usize::MAX,
                evaluation.shaped(count as nat, n as nat),
                q@.len() == dim,
                q@ == tracking_gradient(
                    empty,
                    evaluation.knots@,
                    config.ee_weight,
                    n as nat,
                    k as nat,
                ),
            decreases count - k,
        {
            proof {
                lemma_block_within(k as int, count as int, n as int);
                assert(evaluation.knots@[k as int].shaped(n as nat));
            }
            let pull: Vec<Double> = weigh(config.ee_weight, &evaluation.knots[k].gradient);
            combine_segment(&mut q, k * n, &pull, true);
            k = k + 1;
        }
    }
    let ghost followed = q@;

    let mut k: usize = 0;
    while k < intervals
        invariant
            k <= intervals,
            intervals == count - 1,
            count == knots@.len(),
            dim == count * n,
            4 * (count * n) <= usize::MAX,
            knots_shaped(knots@, n as nat),
            q@.len() == dim,
            q@ == smoothness_gradient(
                followed,
                knots@,
                config.smoothness_weight,
                n as nat,
                k as nat,
            ),
        decreases intervals - k,
    {
        proof {
            lemma_block_within(k as int, count as int, n as int);
            lemma_block_within(k as int + 1, count as int, n as int);
        }
        let step: Vec<Double> = knot_step(&knots[k], &knots[k + 1]);
        let pull: Vec<Double> = weigh(config.smoothness_weight, &step);
        combine_segment(&mut q, k * n, &pull, true);
        combine_segment(&mut q, (k + 1) * n, &pull, false);
        k = k + 1;
    }
    let ghost smooth = q@;

    let mut k: usize = 0;
    while k < intervals
        invariant
            k <= intervals,
            intervals == count - 1,
            count == knots@.len(),
            dim == count * n,
            addressable(count as nat, n as nat),
            knots_shaped(knots@, n as nat),
            evaluation.shaped(count as nat, n as nat),
            base.within(n as nat),
            q@.len() == dim,
            q@ == backward_gradient(
                smooth,
                knots@,
                evaluation.headings@,
                base,
                config.backward_weight,
                n as nat,
                k as nat,
            ),
        decreases intervals - k,
    {
        let heading: Heading = evaluation.headings[k];
        let (progress, partials): (Double, Partials) = forward_progress_linearization(
            &knots[k],
            &knots[k + 1],
            base,
            heading,
        );
        if (Double { bits: 0 }).lt(config.backward_weight) && progress.lt(Double { bits: 0 }) {
            proof {
                lemma_block_within(k as int, count as int, n as int);
                lemma_block_within(k as int + 1, count as int, n as int);
                lemma_partials_within(
                    partials@,
                    knots@[k as int]@,
                    knots@[k + 1]@,
                    base,
                    heading,
                );
            }
            add_partials(&mut q, k * n, config.backward_weight.times(progress), &partials);
        }
        k = k + 1;
    }
    q
}

} // verus!
