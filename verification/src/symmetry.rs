//! The quadratic term of a subproblem is symmetric.

use crate::arithmetic::lemma_product_commutes;
use crate::configs::{EeTracking, TrajectoryConfig};
use crate::cost::{
    backward_cost, damped, identity_rows, lemma_block_within, lemma_partials_within, quadratic_term,
    scaled_rows, smoothness_cost, tracking_cost, with_block, with_outer_product,
};
use crate::diagnostics::{BaseIndices, Heading};
use crate::double::Double;
use crate::linearization::{
    addressable, knots_shaped, progress_partials, Evaluation, KnotEvaluation,
};
use crate::matrix::{rectangular, zero_rows};
use crate::products::{column_terms, gram};
use vstd::prelude::*;

verus! {

/// A matrix is symmetric, entry by entry.
pub open spec fn symmetric(rows: Seq<Seq<Double>>) -> bool {
    forall|r: int, c: int|
        0 <= r < rows.len() && 0 <= c < rows.len() ==> #[trigger] rows[r][c] == rows[c][r]
}

/// A symmetric block added on the diagonal keeps a matrix symmetric.
proof fn lemma_diagonal_block(rows: Seq<Seq<Double>>, start: int, block: Seq<Seq<Double>>)
    requires
        symmetric(rows),
        rectangular(rows, rows.len()),
        symmetric(block),
        rectangular(block, block.len()),
    ensures
        symmetric(with_block(rows, start, start, block)),
        rectangular(with_block(rows, start, start, block), rows.len()),
{
    let result = with_block(rows, start, start, block);
    assert forall|r: int, c: int| 0 <= r < result.len() && 0 <= c < result.len() implies (
    #[trigger] result[r][c]) == result[c][r] by {
        assert(rows[r][c] == rows[c][r]);
        if start <= r < start + block.len() && start <= c < start + block.len() {
            assert(block[r - start][c - start] == block[c - start][r - start]);
            assert(block[r - start].len() == block.len());
            assert(block[c - start].len() == block.len());
        } else {
            if start <= r < start + block.len() {
                assert(block[r - start].len() == block.len());
            }
            if start <= c < start + block.len() {
                assert(block[c - start].len() == block.len());
            }
        }
    }
}

/// A symmetric block added on both sides of the diagonal keeps a matrix
/// symmetric.
proof fn lemma_mirrored_blocks(
    rows: Seq<Seq<Double>>,
    here: int,
    there: int,
    block: Seq<Seq<Double>>,
)
    requires
        symmetric(rows),
        rectangular(rows, rows.len()),
        symmetric(block),
        rectangular(block, block.len()),
        here + block.len() <= there,
    ensures
        symmetric(with_block(with_block(rows, here, there, block), there, here, block)),
        rectangular(
            with_block(with_block(rows, here, there, block), there, here, block),
            rows.len(),
        ),
{
    let size = block.len() as int;
    let right = with_block(rows, here, there, block);
    let result = with_block(right, there, here, block);
    assert forall|r: int, c: int| 0 <= r < rows.len() && 0 <= c < rows.len() implies (
    #[trigger] result[r][c]) == result[c][r] by {
        assert(rows[r][c] == rows[c][r]);
        if here <= r < here + size {
            assert(block[r - here].len() == size);
            if there <= c < there + size {
                assert(block[r - here][c - there] == block[c - there][r - here]);
            }
        }
        if there <= r < there + size {
            assert(block[r - there].len() == size);
            if here <= c < here + size {
                assert(block[r - there][c - here] == block[c - here][r - there]);
            }
        }
        if here <= c < here + size {
            assert(block[c - here].len() == size);
        }
        if there <= c < there + size {
            assert(block[c - there].len() == size);
        }
    }
}

/// A multiple of a symmetric matrix is symmetric.
proof fn lemma_scaled_symmetric(rows: Seq<Seq<Double>>, factor: Double)
    requires
        symmetric(rows),
        rectangular(rows, rows.len()),
    ensures
        symmetric(scaled_rows(rows, factor)),
        rectangular(scaled_rows(rows, factor), rows.len()),
{
    let result = scaled_rows(rows, factor);
    assert forall|r: int, c: int| 0 <= r < result.len() && 0 <= c < result.len() implies (
    #[trigger] result[r][c]) == result[c][r] by {
        assert(rows[r][c] == rows[c][r]);
    }
}

/// Whether six partials are in six different places.
pub open spec fn distinct_places(partials: Seq<(usize, Double)>) -> bool {
    &&& partials.len() == 6
    &&& forall|i: int, j: int|
        0 <= i < 6 && 0 <= j < 6 && i != j ==> (#[trigger] partials[i]).0 != (
        #[trigger] partials[j]).0
}

/// What the first `count` products of six partials add to an entry.
pub(crate) proof fn lemma_outer_product_entry(
    rows: Seq<Seq<Double>>,
    start: int,
    weight: Double,
    partials: Seq<(usize, Double)>,
    count: nat,
    r: int,
    c: int,
)
    requires
        distinct_places(partials),
        rectangular(rows, rows.len()),
        0 <= start,
        forall|i: int| 0 <= i < 6 ==> start + (#[trigger] partials[i]).0 < rows.len(),
        count <= 36,
        0 <= r < rows.len(),
        0 <= c < rows.len(),
    ensures
        with_outer_product(rows, start, weight, partials, count).len() == rows.len(),
        rectangular(with_outer_product(rows, start, weight, partials, count), rows.len()),
        forall|i: int, j: int|
            0 <= i < 6 && 0 <= j < 6 && r == start + (#[trigger] partials[i]).0 && c == start + (
            #[trigger] partials[j]).0 ==> with_outer_product(
                rows,
                start,
                weight,
                partials,
                count,
            )[r][c] == if 6 * i + j < count {
                rows[r][c].sum(weight.product(partials[i].1.product(partials[j].1)))
            } else {
                rows[r][c]
            },
        (forall|i: int| 0 <= i < 6 ==> r != start + (#[trigger] partials[i]).0) || (forall|j: int|
            0 <= j < 6 ==> c != start + (#[trigger] partials[j]).0) ==> with_outer_product(
            rows,
            start,
            weight,
            partials,
            count,
        )[r][c] == rows[r][c],
    decreases count,
{
    if count > 0 {
        let t = count - 1;
        let (a, b) = (t / 6, t % 6);
        lemma_outer_product_entry(rows, start, weight, partials, t as nat, r, c);
        lemma_outer_product_entry(
            rows,
            start,
            weight,
            partials,
            t as nat,
            start + partials[a].0,
            start + partials[b].0,
        );
        let before = with_outer_product(rows, start, weight, partials, t as nat);
        let after = with_outer_product(rows, start, weight, partials, count);
        assert(before[start + partials[a].0].len() == rows.len());
        assert(rectangular(after, rows.len()));
        assert forall|i: int, j: int|
            0 <= i < 6 && 0 <= j < 6 && r == start + (#[trigger] partials[i]).0 && c == start + (
            #[trigger] partials[j]).0 implies after[r][c] == if 6 * i + j < count {
            rows[r][c].sum(weight.product(partials[i].1.product(partials[j].1)))
        } else {
            rows[r][c]
        } by {
            if 6 * i + j == t {
                assert(i == a && j == b);
            } else {
                assert(i != a || j != b);
                if i != a {
                    assert(partials[i].0 != partials[a].0);
                }
                if j != b {
                    assert(partials[j].0 != partials[b].0);
                }
            }
        }
    }
}

/// The products of six partials in different places keep a matrix symmetric.
proof fn lemma_outer_product_symmetric(
    rows: Seq<Seq<Double>>,
    start: int,
    weight: Double,
    partials: Seq<(usize, Double)>,
)
    requires
        symmetric(rows),
        rectangular(rows, rows.len()),
        distinct_places(partials),
        0 <= start,
        forall|i: int| 0 <= i < 6 ==> start + (#[trigger] partials[i]).0 < rows.len(),
    ensures
        symmetric(with_outer_product(rows, start, weight, partials, 36)),
        rectangular(with_outer_product(rows, start, weight, partials, 36), rows.len()),
        with_outer_product(rows, start, weight, partials, 36).len() == rows.len(),
{
    let result = with_outer_product(rows, start, weight, partials, 36);
    lemma_outer_product_entry(
        rows,
        start,
        weight,
        partials,
        36,
        start + partials[0].0,
        start + partials[0].0,
    );
    assert forall|r: int, c: int| 0 <= r < rows.len() && 0 <= c < rows.len() implies (
    #[trigger] result[r][c]) == result[c][r] by {
        lemma_outer_product_entry(rows, start, weight, partials, 36, r, c);
        lemma_outer_product_entry(rows, start, weight, partials, 36, c, r);
        assert(rows[r][c] == rows[c][r]);
        if (exists|i: int| 0 <= i < 6 && r == start + (#[trigger] partials[i]).0) && (exists|
            j: int,
        |
            0 <= j < 6 && c == start + (#[trigger] partials[j]).0) {
            let i = choose|i: int| 0 <= i < 6 && r == start + (#[trigger] partials[i]).0;
            let j = choose|j: int| 0 <= j < 6 && c == start + (#[trigger] partials[j]).0;
            lemma_product_commutes(partials[i].1, partials[j].1);
        }
    }
}

/// The tracking cost of symmetric blocks is symmetric.
proof fn lemma_tracking_symmetric(
    rows: Seq<Seq<Double>>,
    knots: Seq<KnotEvaluation>,
    weight: Double,
    n: nat,
    count: nat,
)
    requires
        symmetric(rows),
        rectangular(rows, rows.len()),
        count <= knots.len(),
        forall|k: int|
            0 <= k < knots.len() ==> symmetric((#[trigger] knots[k]).normal@) && rectangular(
                knots[k].normal@,
                n,
            ) && knots[k].normal@.len() == n,
    ensures
        symmetric(tracking_cost(rows, knots, weight, n, count)),
        rectangular(tracking_cost(rows, knots, weight, n, count), rows.len()),
        tracking_cost(rows, knots, weight, n, count).len() == rows.len(),
    decreases count,
{
    if count > 0 {
        let k = count - 1;
        lemma_tracking_symmetric(rows, knots, weight, n, k as nat);
        lemma_scaled_symmetric(knots[k].normal@, weight);
        lemma_diagonal_block(
            tracking_cost(rows, knots, weight, n, k as nat),
            k * n,
            scaled_rows(knots[k].normal@, weight),
        );
    }
}

/// The smoothness cost is symmetric.
proof fn lemma_smoothness_symmetric(
    rows: Seq<Seq<Double>>,
    weight: Double,
    n: nat,
    count: nat,
)
    requires
        symmetric(rows),
        rectangular(rows, rows.len()),
    ensures
        symmetric(smoothness_cost(rows, weight, n, count)),
        rectangular(smoothness_cost(rows, weight, n, count), rows.len()),
        smoothness_cost(rows, weight, n, count).len() == rows.len(),
    decreases count,
{
    if count > 0 {
        let k = count - 1;
        let before = smoothness_cost(rows, weight, n, k as nat);
        let plus = scaled_rows(identity_rows(n), weight);
        let minus = scaled_rows(identity_rows(n), weight.negated());
        lemma_smoothness_symmetric(rows, weight, n, k as nat);
        lemma_scaled_symmetric(identity_rows(n), weight);
        lemma_scaled_symmetric(identity_rows(n), weight.negated());
        lemma_diagonal_block(before, k * n, plus);
        let own = with_block(before, k * n, k * n, plus);
        lemma_diagonal_block(own, (k + 1) * n, plus);
        let next = with_block(own, (k + 1) * n, (k + 1) * n, plus);
        assert((k + 1) * n == k * n + n) by (nonlinear_arith);
        lemma_mirrored_blocks(next, k * n, (k + 1) * n, minus);
    }
}

/// The backward-motion cost is symmetric where the base joints differ.
proof fn lemma_backward_symmetric(
    rows: Seq<Seq<Double>>,
    knots: Seq<Vec<Double>>,
    headings: Seq<Heading>,
    base: BaseIndices,
    weight: Double,
    n: nat,
    count: nat,
)
    requires
        symmetric(rows),
        rectangular(rows, rows.len()),
        rows.len() == knots.len() * n,
        knots_shaped(knots, n),
        base.within(n),
        base.x != base.y && base.y != base.yaw && base.x != base.yaw,
        count < knots.len(),
        2 * n <= usize::MAX,
    ensures
        symmetric(backward_cost(rows, knots, headings, base, weight, n, count)),
        rectangular(backward_cost(rows, knots, headings, base, weight, n, count), rows.len()),
        backward_cost(rows, knots, headings, base, weight, n, count).len() == rows.len(),
    decreases count,
{
    if count > 0 {
        let k = count - 1;
        lemma_backward_symmetric(rows, knots, headings, base, weight, n, k as nat);
        let before = backward_cost(rows, knots, headings, base, weight, n, k as nat);
        let partials = progress_partials(knots[k]@, knots[k + 1]@, base, headings[k]);
        lemma_block_within(k, knots.len() as int, n as int);
        lemma_block_within(k + 1, knots.len() as int, n as int);
        assert(knots[k]@.len() == n);
        lemma_partials_within(partials, knots[k]@, knots[k + 1]@, base, headings[k]);
        lemma_outer_product_symmetric(before, k * n, weight, partials);
    }
}

/// The product JᵀJ is symmetric to the last bit: its entries are added up in the
/// same order, and multiplication is commutative.
pub proof fn lemma_gram_is_symmetric(rows: Seq<Seq<Double>>, n: nat)
    ensures
        symmetric(gram(rows, n)),
{
    assert forall|a: int, b: int| 0 <= a < n && 0 <= b < n implies #[trigger] gram(
        rows,
        n,
    )[a][b] == gram(rows, n)[b][a] by {
        assert forall|r: int| 0 <= r < rows.len() implies #[trigger] column_terms(rows, a, b)[r]
            == column_terms(rows, b, a)[r] by {
            lemma_product_commutes(rows[r][a], rows[r][b]);
        }
        assert(column_terms(rows, a, b) =~= column_terms(rows, b, a));
    }
}

/// The quadratic term is symmetric, which the conic solver takes for granted. The
/// three base joints have to differ.
pub proof fn lemma_quadratic_term_is_symmetric(
    knots: Seq<Vec<Double>>,
    evaluation: Evaluation,
    config: TrajectoryConfig,
    base: BaseIndices,
    n: nat,
)
    requires
        knots.len() >= 1,
        knots_shaped(knots, n),
        evaluation.shaped(knots.len(), n),
        base.within(n),
        addressable(knots.len(), n),
        base.x != base.y && base.y != base.yaw && base.x != base.yaw,
    ensures
        symmetric(quadratic_term(knots, evaluation, config, base, n)),
{
    let count = knots.len();
    let intervals = (count - 1) as nat;
    let empty = zero_rows(count * n, count * n);
    assert forall|k: int| 0 <= k < count implies rectangular(
        (#[trigger] evaluation.knots@[k]).normal@,
        n,
    ) && evaluation.knots@[k].normal@.len() == n && symmetric(
        evaluation.knots@[k].normal@,
    ) by {
        assert(evaluation.knots@[k].shaped(n));
        lemma_gram_is_symmetric(evaluation.knots@[k].jacobian@, n);
    }
    lemma_tracking_symmetric(empty, evaluation.knots@, config.ee_weight, n, count);
    let followed = if config.ee_tracking == EeTracking::Soft {
        tracking_cost(empty, evaluation.knots@, config.ee_weight, n, count)
    } else {
        empty
    };
    lemma_smoothness_symmetric(followed, config.smoothness_weight, n, intervals);
    let smooth = smoothness_cost(followed, config.smoothness_weight, n, intervals);
    lemma_backward_symmetric(
        smooth,
        knots,
        evaluation.headings@,
        base,
        config.backward_weight,
        n,
        intervals,
    );
    let forward = backward_cost(
        smooth,
        knots,
        evaluation.headings@,
        base,
        config.backward_weight,
        n,
        intervals,
    );
    let result = damped(forward, config.damping);
    assert forall|r: int, c: int| 0 <= r < result.len() && 0 <= c < result.len() implies (
    #[trigger] result[r][c]) == result[c][r] by {
        assert(forward[r][c] == forward[c][r]);
        assert(forward[r].len() == forward.len());
        assert(forward[c].len() == forward.len());
    }
}

} // verus!
