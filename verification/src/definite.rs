//! The quadratic term of a subproblem: it is the cost of a step to second order, and
//! positive definite, since damping keeps it above damping·|x|², up to rounding.

use crate::configs::{EeTracking, TrajectoryConfig};
use crate::cost::{
    backward_cost, damped, identity_rows, lemma_block_within, lemma_partials_within, penalized,
    quadratic_term, scaled_rows, smoothness_cost, tracking_cost, with_block, with_outer_product,
};
use crate::diagnostics::{BaseIndices, Heading};
use crate::differences::listed;
use crate::double::{Double, UNIT_EXPONENT};
use crate::error::{
    half_ulp, least, lemma_distributes, lemma_half_ulp, lemma_least, lemma_least_is_small,
    lemma_product_error, lemma_scaled_order, lemma_sum_error, lemma_value_of_zero, size, value,
};
use crate::finiteness::{lemma_parts_of_product, lemma_parts_of_sum};
use crate::forms::{
    adds_up, entries_near, form, is_diagonal, is_outer_product, lemma_form_adds,
    lemma_form_near, lemma_form_of_diagonal, lemma_form_of_outer_product, lemma_form_of_zero,
    inner_upto, sizes_upto, squares_upto,
};
use crate::linearization::{
    addressable, forward_progress, knots_shaped, progress_partials, Evaluation, KnotEvaluation,
};
use crate::matrix::{rectangular, zero_rows};
use crate::products::column_terms;
use crate::reals::{
    lemma_associates, lemma_bounded_product, lemma_commutes, lemma_exchanges, lemma_minus,
    lemma_one, lemma_square, lemma_zero,
};
use crate::series::total;
use crate::slip::{lemma_value_of_negated, lemma_value_of_one};
use crate::symmetry::{distinct_places, lemma_outer_product_entry};
use vstd::arithmetic::power2::{lemma_pow2_pos, pow2};
use vstd::prelude::*;

verus! {

/// Whether an error per term covers its rounding, over so many terms: each term is off
/// by at most `term`, and is not larger than `bound`.
pub open spec fn covers(term: real, bound: real, error: real, terms: real) -> bool {
    &&& 0int as real <= term && 0int as real <= bound && term <= error
    &&& term + half_ulp() * (terms * (bound + error)) <= error
}

/// One more term of a sum.
pub(crate) proof fn lemma_accumulate(
    sum: Double,
    exact: real,
    add: Double,
    part: real,
    count: real,
    term: real,
    bound: real,
    error: real,
    terms: real,
)
    requires
        sum.sum(add).finite(),
        size(value(sum) - exact) <= count * error,
        size(exact) <= count * bound,
        size(value(add) - part) <= term,
        size(part) <= bound,
        covers(term, bound, error, terms),
        0int as real <= count,
        count + (1int as real) <= terms,
    ensures
        size(value(sum.sum(add)) - (exact + part)) <= (count + (1int as real)) * error,
        size(exact + part) <= (count + (1int as real)) * bound,
{
    lemma_half_ulp();
    let one = 1int as real;
    let h = half_ulp();
    lemma_sum_error(sum, add);
    lemma_distributes(error, count, one);
    lemma_distributes(bound, count, one);
    lemma_one(error);
    lemma_one(bound);
    lemma_distributes(count + one, bound, error);
    lemma_scaled_order(bound + error, count + one, terms);
    let m = size(value(sum) + value(add));
    assert(m <= (count + one) * (bound + error));
    lemma_scaled_order(h, m, terms * (bound + error));
}

/// Ten thousand half units are less than a whole.
pub(crate) proof fn lemma_tiny(y: real)
    requires
        y >= 0int as real,
    ensures
        (10000int as real) * (half_ulp() * y) <= y,
        half_ulp() * y >= 0int as real,
{
    lemma_half_ulp();
    let h = half_ulp();
    lemma_scaled_order(y, (10000int as real) * h, 1int as real);
    lemma_one(y);
    lemma_associates(10000int as real, h, y);
    lemma_scaled_order(h, 0int as real, y);
    lemma_zero(h);
}

/// The exact inner product of two columns, over the first `count` rows.
pub open spec fn column_product(rows: Seq<Seq<Double>>, a: int, b: int, count: nat) -> real
    decreases count,
{
    if count == 0 {
        0int as real
    } else {
        column_product(rows, a, b, (count - 1) as nat) + value(rows[count - 1][a]) * value(
            rows[count - 1][b],
        )
    }
}

/// Whether no entry is larger than a bound.
pub open spec fn entries_bounded(rows: Seq<Seq<Double>>, most: real) -> bool {
    forall|r: int, c: int|
        0 <= r < rows.len() && 0 <= c < rows[r].len() ==> size(value(#[trigger] rows[r][c]))
            <= most
}

/// A product of two numbers that are not larger than a bound.
proof fn lemma_product_of_bounded(a: Double, b: Double, most: real)
    requires
        a.product(b).finite(),
        size(value(a)) <= most,
        size(value(b)) <= most,
        1int as real <= most,
    ensures
        size(value(a.product(b)) - value(a) * value(b)) <= (2int as real) * (half_ulp() * (most
            * most)),
        size(value(a) * value(b)) <= most * most,
{
    lemma_half_ulp();
    lemma_least();
    lemma_least_is_small();
    lemma_product_error(a, b);
    lemma_bounded_product(value(a), value(b), most, most);
    let (h, square) = (half_ulp(), most * most);
    lemma_scaled_order(h, size(value(a) * value(b)), square);
    lemma_scaled_order(most, 1int as real, most);
    lemma_one(most);
    lemma_scaled_order(h, 1int as real, square);
    lemma_one(h);
}

/// The inner product of two columns, rounded.
proof fn lemma_column_product(
    rows: Seq<Seq<Double>>,
    a: int,
    b: int,
    most: real,
    count: nat,
    width: nat,
)
    requires
        rows.len() == 6,
        rectangular(rows, width),
        0 <= a < width,
        0 <= b < width,
        entries_bounded(rows, most),
        1int as real <= most,
        count <= 6,
        total(column_terms(rows, a, b).take(count as int)).finite(),
    ensures
        ({
            let square = most * most;
            let sum = total(column_terms(rows, a, b).take(count as int));
            let exact = column_product(rows, a, b, count);
            &&& size(value(sum) - exact) <= (count as real) * ((16int as real) * (half_ulp()
                * square))
            &&& size(exact) <= (count as real) * square
        }),
    decreases count,
{
    let h = half_ulp();
    let square = most * most;
    let error = (16int as real) * (h * square);
    let terms = column_terms(rows, a, b);
    lemma_zero(error);
    lemma_zero(square);
    lemma_commutes(error, 0int as real);
    lemma_commutes(square, 0int as real);
    if count == 0 {
        assert(terms.take(0).len() == 0);
        lemma_value_of_zero(Double { bits: 0 });
    } else {
        let r = count - 1;
        assert(terms.take(count as int).drop_last() =~= terms.take(r));
        assert(terms.take(count as int).last() == rows[r][a].product(rows[r][b]));
        let (sum, add) = (total(terms.take(r)), rows[r][a].product(rows[r][b]));
        lemma_parts_of_sum(sum, add);
        lemma_column_product(rows, a, b, most, r as nat, width);
        assert(rows[r].len() == width);
        lemma_product_of_bounded(rows[r][a], rows[r][b], most);
        lemma_scaled_order(most, 1int as real, most);
        lemma_one(most);
        lemma_tiny(square);
        lemma_tiny(h * square);
        let term = (2int as real) * (h * square);
        assert(covers(term, square, error, 6int as real)) by {
            lemma_distributes(h, (6int as real) * square, (6int as real) * error);
            lemma_distributes(6int as real, square, error);
            lemma_exchanges(h, 6int as real, square);
            lemma_exchanges(h, 6int as real, error);
            lemma_exchanges(h, 16int as real, h * square);
        }
        let exact = column_product(rows, a, b, r as nat);
        lemma_accumulate(
            sum,
            exact,
            add,
            value(rows[r][a]) * value(rows[r][b]),
            r as real,
            term,
            square,
            error,
            6int as real,
        );
        assert((r as real) + (1int as real) == count as real);
    }
}

/// Whether every entry is finite.
pub open spec fn entries_finite(rows: Seq<Seq<Double>>) -> bool {
    forall|r: int, c: int|
        0 <= r < rows.len() && 0 <= c < rows.len() ==> (#[trigger] rows[r][c]).finite()
}

/// Whether a matrix holds an exact one, but for the rounding of `count` terms.
pub open spec fn rounds_to(
    rows: Seq<Seq<Double>>,
    exact: spec_fn(int, int) -> real,
    count: nat,
    bound: real,
    error: real,
) -> bool {
    forall|r: int, c: int|
        0 <= r < rows.len() && 0 <= c < rows.len() ==> size(
            value(#[trigger] rows[r][c]) - exact(r, c),
        ) <= (count as real) * error && size(exact(r, c)) <= (count as real) * bound
}

/// Whether an entry is kept, or a number near an exact part is added to it.
pub open spec fn grows(before: Double, after: Double, part: real, term: real, bound: real) -> bool {
    ||| after == before && part == 0int as real
    ||| exists|add: Double|
        after == #[trigger] before.sum(add) && size(value(add) - part) <= term && size(part)
            <= bound
}

/// Whether every entry of a matrix grows by a part.
pub open spec fn all_grow(
    before: Seq<Seq<Double>>,
    after: Seq<Seq<Double>>,
    part: spec_fn(int, int) -> real,
    term: real,
    bound: real,
) -> bool {
    &&& after.len() == before.len()
    &&& forall|r: int, c: int|
        0 <= r < before.len() && 0 <= c < before.len() ==> grows(
            before[r][c],
            #[trigger] after[r][c],
            part(r, c),
            term,
            bound,
        )
}

/// A matrix whose entries come to be finite has been finite.
proof fn lemma_grown_from_finite(
    before: Seq<Seq<Double>>,
    after: Seq<Seq<Double>>,
    part: spec_fn(int, int) -> real,
    term: real,
    bound: real,
)
    requires
        all_grow(before, after, part, term, bound),
        entries_finite(after),
    ensures
        entries_finite(before),
{
    assert forall|r: int, c: int| 0 <= r < before.len() && 0 <= c < before.len() implies (
    #[trigger] before[r][c]).finite() by {
        assert(after[r][c].finite());
        assert(grows(before[r][c], after[r][c], part(r, c), term, bound));
        if after[r][c] != before[r][c] {
            let add = choose|add: Double|
                after[r][c] == #[trigger] before[r][c].sum(add) && size(value(add) - part(r, c))
                    <= term && size(part(r, c)) <= bound;
            lemma_parts_of_sum(before[r][c], add);
        }
    }
}

/// A matrix that has grown holds the exact sum.
proof fn lemma_grown_rounds(
    before: Seq<Seq<Double>>,
    after: Seq<Seq<Double>>,
    exact: spec_fn(int, int) -> real,
    part: spec_fn(int, int) -> real,
    sum: spec_fn(int, int) -> real,
    count: nat,
    term: real,
    bound: real,
    error: real,
    terms: real,
)
    requires
        rounds_to(before, exact, count, bound, error),
        all_grow(before, after, part, term, bound),
        adds_up(sum, exact, part, before.len()),
        entries_finite(after),
        covers(term, bound, error, terms),
        (count as real) + (1int as real) <= terms,
    ensures
        rounds_to(after, sum, count + 1, bound, error),
{
    let one = 1int as real;
    assert(((count + 1) as real) == (count as real) + one);
    lemma_distributes(error, count as real, one);
    lemma_distributes(bound, count as real, one);
    lemma_one(error);
    lemma_one(bound);
    assert forall|r: int, c: int| 0 <= r < after.len() && 0 <= c < after.len() implies size(
        value(#[trigger] after[r][c]) - sum(r, c),
    ) <= ((count + 1) as real) * error && size(sum(r, c)) <= ((count + 1) as real) * bound by {
        assert(grows(before[r][c], after[r][c], part(r, c), term, bound));
        assert(sum(r, c) == exact(r, c) + part(r, c));
        assert(after[r][c].finite());
        assert(size(value(before[r][c]) - exact(r, c)) <= (count as real) * error);
        if after[r][c] == before[r][c] && part(r, c) == 0int as real {
        } else {
            let add = choose|add: Double|
                after[r][c] == #[trigger] before[r][c].sum(add) && size(value(add) - part(r, c))
                    <= term && size(part(r, c)) <= bound;
            lemma_accumulate(
                before[r][c],
                exact(r, c),
                add,
                part(r, c),
                count as real,
                term,
                bound,
                error,
                terms,
            );
        }
    }
}

/// Whether a matrix holds, but for rounding, an exact one whose form at `x` is `low`.
pub open spec fn has_form(
    rows: Seq<Seq<Double>>,
    x: Seq<real>,
    low: real,
    count: nat,
    bound: real,
    error: real,
) -> bool {
    exists|exact: spec_fn(int, int) -> real|
        #[trigger] rounds_to(rows, exact, count, bound, error) && form(exact, x) == low
}

/// Whether a matrix holds, but for rounding, an exact one whose form at `x` is not
/// below `low`.
pub open spec fn stays_above(
    rows: Seq<Seq<Double>>,
    x: Seq<real>,
    low: real,
    count: nat,
    bound: real,
    error: real,
) -> bool {
    exists|exact: spec_fn(int, int) -> real|
        #[trigger] rounds_to(rows, exact, count, bound, error) && form(exact, x) >= low
}

/// A part adds its form.
proof fn lemma_grown_has_form(
    before: Seq<Seq<Double>>,
    after: Seq<Seq<Double>>,
    part: spec_fn(int, int) -> real,
    x: Seq<real>,
    low: real,
    gain: real,
    count: nat,
    term: real,
    bound: real,
    error: real,
    terms: real,
)
    requires
        has_form(before, x, low, count, bound, error),
        all_grow(before, after, part, term, bound),
        form(part, x) == gain,
        x.len() == before.len(),
        entries_finite(after),
        covers(term, bound, error, terms),
        (count as real) + (1int as real) <= terms,
    ensures
        has_form(after, x, low + gain, count + 1, bound, error),
{
    let exact = choose|exact: spec_fn(int, int) -> real|
        #[trigger] rounds_to(before, exact, count, bound, error) && form(exact, x) == low;
    let sum = |r: int, c: int| exact(r, c) + part(r, c);
    lemma_grown_rounds(before, after, exact, part, sum, count, term, bound, error, terms);
    lemma_form_adds(sum, exact, part, x);
    assert(rounds_to(after, sum, count + 1, bound, error));
}

/// More terms allow for more rounding.
proof fn lemma_more_terms(
    rows: Seq<Seq<Double>>,
    x: Seq<real>,
    low: real,
    count: nat,
    more: nat,
    bound: real,
    error: real,
)
    requires
        has_form(rows, x, low, count, bound, error),
        count <= more,
        0int as real <= bound,
        0int as real <= error,
    ensures
        has_form(rows, x, low, more, bound, error),
{
    let exact = choose|exact: spec_fn(int, int) -> real|
        #[trigger] rounds_to(rows, exact, count, bound, error) && form(exact, x) == low;
    lemma_scaled_order(bound, count as real, more as real);
    lemma_scaled_order(error, count as real, more as real);
    assert(rounds_to(rows, exact, more, bound, error));
}

/// A block that is placed in a matrix, and nothing around it.
pub open spec fn placed(
    block: spec_fn(int, int) -> real,
    row0: int,
    col0: int,
    n: int,
) -> spec_fn(int, int) -> real {
    |r: int, c: int|
        if row0 <= r < row0 + n && col0 <= c < col0 + n {
            block(r - row0, c - col0)
        } else {
            0int as real
        }
}

/// Adding a block is to grow by it.
proof fn lemma_block_grows(
    rows: Seq<Seq<Double>>,
    row0: int,
    col0: int,
    block: Seq<Seq<Double>>,
    exact: spec_fn(int, int) -> real,
    term: real,
    bound: real,
)
    requires
        rectangular(rows, rows.len()),
        rectangular(block, block.len()),
        entries_finite(with_block(rows, row0, col0, block)),
        0 <= row0 && row0 + block.len() <= rows.len(),
        0 <= col0 && col0 + block.len() <= rows.len(),
        forall|r: int, c: int|
            0 <= r < block.len() && 0 <= c < block.len() && (#[trigger] block[r][c]).finite()
                ==> size(value(block[r][c]) - exact(r, c)) <= term && size(exact(r, c)) <= bound,
    ensures
        all_grow(
            rows,
            with_block(rows, row0, col0, block),
            placed(exact, row0, col0, block.len() as int),
            term,
            bound,
        ),
        rectangular(with_block(rows, row0, col0, block), rows.len()),
{
    let after = with_block(rows, row0, col0, block);
    let n = block.len() as int;
    let part = placed(exact, row0, col0, n);
    assert forall|r: int| 0 <= r < after.len() implies (#[trigger] after[r]).len()
        == rows.len() by {
        assert(rows[r].len() == rows.len());
    }
    assert forall|r: int, c: int| 0 <= r < rows.len() && 0 <= c < rows.len() implies grows(
        rows[r][c],
        #[trigger] after[r][c],
        part(r, c),
        term,
        bound,
    ) by {
        assert(rows[r].len() == rows.len());
        assert(after[r][c].finite());
        if row0 <= r < row0 + n {
            assert(block[r - row0].len() == n);
            if col0 <= c < col0 + n {
                let add = block[r - row0][c - col0];
                assert(after[r][c] == rows[r][c].sum(add));
                lemma_parts_of_sum(rows[r][c], add);
            }
        }
    }
}

/// The cube of a bound.
pub open spec fn cube(most: real) -> real {
    (most * most) * most
}

/// By how much a term of the quadratic term may be off, for weights, Jacobians and
/// partials that are not larger than a bound.
pub open spec fn term_error(most: real) -> real {
    (104int as real) * (half_ulp() * cube(most))
}

/// How large such a term may be.
pub open spec fn term_bound(most: real) -> real {
    (6int as real) * cube(most)
}

pub(crate) proof fn lemma_cube(most: real)
    requires
        1int as real <= most,
    ensures
        most <= most * most,
        most * most <= cube(most),
        1int as real <= cube(most),
        0int as real <= half_ulp() * cube(most),
        half_ulp() * (most * most) <= half_ulp() * cube(most),
        half_ulp() * most <= half_ulp() * cube(most),
        half_ulp() <= half_ulp() * cube(most),
        least() <= half_ulp() * cube(most),
{
    lemma_half_ulp();
    lemma_least_is_small();
    let h = half_ulp();
    lemma_scaled_order(most, 1int as real, most);
    lemma_one(most);
    lemma_scaled_order(most * most, 1int as real, most);
    lemma_one(most * most);
    lemma_scaled_order(h, 1int as real, cube(most));
    lemma_scaled_order(h, most * most, cube(most));
    lemma_scaled_order(h, most, cube(most));
    lemma_one(h);
}

/// A weight times a number near an exact one.
pub(crate) proof fn lemma_weighted(
    weight: Double,
    factor: Double,
    exact: real,
    most: real,
)
    requires
        weight.product(factor).finite(),
        1int as real <= most,
        size(value(weight)) <= most,
        size(value(factor) - exact) <= (96int as real) * (half_ulp() * (most * most)),
        size(exact) <= (6int as real) * (most * most),
    ensures
        size(value(weight.product(factor)) - value(weight) * exact) <= term_error(most),
        size(value(weight) * exact) <= term_bound(most),
{
    lemma_half_ulp();
    lemma_cube(most);
    let h = half_ulp();
    let square = most * most;
    let (w, f) = (value(weight), value(factor));
    lemma_product_error(weight, factor);
    lemma_tiny(square);
    assert(size(f) <= (7int as real) * square);
    lemma_bounded_product(w, f, most, (7int as real) * square);
    lemma_bounded_product(w, exact, most, (6int as real) * square);
    lemma_bounded_product(w, f - exact, most, (96int as real) * (h * square));
    lemma_distributes(w, f, exact);
    lemma_exchanges(most, 7int as real, square);
    lemma_exchanges(most, 6int as real, square);
    lemma_exchanges(most, 96int as real, h * square);
    lemma_exchanges(most, h, square);
    lemma_commutes(most, square);
    lemma_scaled_order(h, size(w * f), (7int as real) * cube(most));
    lemma_exchanges(h, 7int as real, cube(most));
}

/// The exact block of one knot's tracking cost, over the first `count` axes.
pub open spec fn tracking_block(
    weight: real,
    jacobian: Seq<Seq<Double>>,
    count: nat,
) -> spec_fn(int, int) -> real {
    |a: int, b: int| weight * column_product(jacobian, a, b, count)
}

/// A row of a Jacobian at the place of its knot in a stacked step.
pub open spec fn row_of(jacobian: Seq<Seq<Double>>, axis: int, start: int, n: int) -> spec_fn(
    int,
) -> real {
    |r: int|
        if start <= r < start + n {
            value(jacobian[axis][r - start])
        } else {
            0int as real
        }
}

/// The sum of the squares of the first `count` axes of J·x.
pub open spec fn turned(
    jacobian: Seq<Seq<Double>>,
    count: nat,
    start: int,
    n: int,
    x: Seq<real>,
) -> real
    decreases count,
{
    if count == 0 {
        0int as real
    } else {
        let part = inner_upto(row_of(jacobian, count - 1, start, n), x, x.len());
        turned(jacobian, (count - 1) as nat, start, n, x) + part * part
    }
}

/// The form of w·JᵀJ is w·|J·x|².
proof fn lemma_tracking_block_form(
    weight: real,
    jacobian: Seq<Seq<Double>>,
    count: nat,
    start: int,
    n: int,
    x: Seq<real>,
)
    ensures
        form(placed(tracking_block(weight, jacobian, count), start, start, n), x) == weight
            * turned(jacobian, count, start, n, x),
    decreases count,
{
    let part = placed(tracking_block(weight, jacobian, count), start, start, n);
    lemma_zero(weight);
    if count == 0 {
        lemma_form_of_zero(part, x);
    } else {
        let k = count - 1;
        let before = placed(tracking_block(weight, jacobian, k as nat), start, start, n);
        lemma_tracking_block_form(weight, jacobian, k as nat, start, n, x);
        let row = row_of(jacobian, k, start, n);
        let outer = |r: int, c: int| weight * (row(r) * row(c));
        assert(is_outer_product(outer, weight, row, x.len()));
        assert forall|r: int, c: int| 0 <= r < x.len() && 0 <= c < x.len() implies #[trigger] part(
            r,
            c,
        ) == before(r, c) + outer(r, c) by {
            if start <= r < start + n && start <= c < start + n {
                lemma_distributes(
                    weight,
                    column_product(jacobian, r - start, c - start, k as nat),
                    row(r) * row(c),
                );
            } else {
                lemma_zero(row(r));
                lemma_zero(row(c));
                lemma_commutes(row(c), 0int as real);
            }
        }
        lemma_form_adds(part, before, outer, x);
        lemma_form_of_outer_product(outer, weight, row, x);
        let inner = inner_upto(row, x, x.len());
        lemma_distributes(weight, turned(jacobian, k as nat, start, n, x), inner * inner);
    }
}

/// What is asked of a knot's evaluation.
pub open spec fn knot_bounded(knot: KnotEvaluation, n: nat, most: real) -> bool {
    knot.shaped(n) && entries_bounded(knot.jacobian@, most)
}

/// The tracking cost at a step: w·Σ|J_k·x_k|² over the first `count` knots.
pub open spec fn tracking_energy(
    knots: Seq<KnotEvaluation>,
    weight: real,
    n: nat,
    count: nat,
    x: Seq<real>,
) -> real
    decreases count,
{
    if count == 0 {
        0int as real
    } else {
        let k = count - 1;
        tracking_energy(knots, weight, n, k as nat, x) + weight * turned(
            knots[k].jacobian@,
            6,
            k * n,
            n as int,
            x,
        )
    }
}

/// The tracking cost adds its energy.
proof fn lemma_tracking_has_form(
    rows: Seq<Seq<Double>>,
    knots: Seq<KnotEvaluation>,
    weight: Double,
    n: nat,
    count: nat,
    x: Seq<real>,
    low: real,
    start: nat,
    most: real,
    error: real,
    terms: real,
)
    requires
        rectangular(rows, rows.len()),
        rows.len() == x.len(),
        rows.len() == knots.len() * n,
        count <= knots.len(),
        forall|k: int| 0 <= k < knots.len() ==> knot_bounded(#[trigger] knots[k], n, most),
        has_form(rows, x, low, start, term_bound(most), error),
        entries_finite(tracking_cost(rows, knots, weight, n, count)),
        1int as real <= most,
        size(value(weight)) <= most,
        covers(term_error(most), term_bound(most), error, terms),
        ((start + count) as real) <= terms,
    ensures
        has_form(
            tracking_cost(rows, knots, weight, n, count),
            x,
            low + tracking_energy(knots, value(weight), n, count, x),
            start + count,
            term_bound(most),
            error,
        ),
        entries_finite(rows),
        rectangular(tracking_cost(rows, knots, weight, n, count), rows.len()),
        tracking_cost(rows, knots, weight, n, count).len() == rows.len(),
    decreases count,
{
    if count > 0 {
        let k = count - 1;
        let before = tracking_cost(rows, knots, weight, n, k as nat);
        let after = tracking_cost(rows, knots, weight, n, count);
        let jacobian = knots[k].jacobian@;
        let block = scaled_rows(knots[k].normal@, weight);
        let exact = tracking_block(value(weight), jacobian, 6);
        assert(knot_bounded(knots[k], n, most));
        lemma_block_within(k, knots.len() as int, n as int);
        lemma_tracking_is_rectangular(rows, knots, weight, n, k as nat);
        assert forall|r: int, c: int|
            0 <= r < block.len() && 0 <= c < block.len() && (
            #[trigger] block[r][c]).finite() implies size(value(block[r][c]) - exact(r, c))
            <= term_error(most) && size(exact(r, c)) <= term_bound(most) by {
            let factor = knots[k].normal@[r][c];
            assert(block[r][c] == weight.product(factor));
            lemma_parts_of_product(weight, factor);
            let terms = column_terms(jacobian, r, c);
            assert(terms.take(6) =~= terms);
            lemma_column_product(jacobian, r, c, most, 6, n);
            lemma_weighted(weight, factor, column_product(jacobian, r, c, 6), most);
        }
        let part = placed(exact, k * n, k * n, n as int);
        lemma_block_grows(
            before,
            k * n,
            k * n,
            block,
            exact,
            term_error(most),
            term_bound(most),
        );
        lemma_grown_from_finite(before, after, part, term_error(most), term_bound(most));
        lemma_tracking_has_form(
            rows,
            knots,
            weight,
            n,
            k as nat,
            x,
            low,
            start,
            most,
            error,
            terms,
        );
        lemma_tracking_block_form(value(weight), jacobian, 6, k * n, n as int, x);
        lemma_grown_has_form(
            before,
            after,
            part,
            x,
            low + tracking_energy(knots, value(weight), n, k as nat, x),
            value(weight) * turned(jacobian, 6, k * n, n as int, x),
            (start + k) as nat,
            term_error(most),
            term_bound(most),
            error,
            terms,
        );
    }
}

proof fn lemma_tracking_is_rectangular(
    rows: Seq<Seq<Double>>,
    knots: Seq<KnotEvaluation>,
    weight: Double,
    n: nat,
    count: nat,
)
    requires
        rectangular(rows, rows.len()),
    ensures
        rectangular(tracking_cost(rows, knots, weight, n, count), rows.len()),
        tracking_cost(rows, knots, weight, n, count).len() == rows.len(),
    decreases count,
{
    if count > 0 {
        lemma_tracking_is_rectangular(rows, knots, weight, n, (count - 1) as nat);
    }
}

/// The exact multiple of the identity.
pub open spec fn diagonal_block(weight: real) -> spec_fn(int, int) -> real {
    |a: int, b: int|
        if a == b {
            weight
        } else {
            0int as real
        }
}

/// The multiple of the identity, rounded.
proof fn lemma_identity_block(weight: Double, n: nat, most: real)
    requires
        1int as real <= most,
        size(value(weight)) <= most,
    ensures
        ({
            let block = scaled_rows(identity_rows(n), weight);
            let exact = diagonal_block(value(weight));
            &&& block.len() == n
            &&& rectangular(block, n)
            &&& forall|r: int, c: int|
                0 <= r < block.len() && 0 <= c < block.len() && (#[trigger] block[r][c]).finite()
                    ==> size(value(block[r][c]) - exact(r, c)) <= term_error(most) && size(
                    exact(r, c),
                ) <= term_bound(most)
        }),
{
    let block = scaled_rows(identity_rows(n), weight);
    let exact = diagonal_block(value(weight));
    lemma_half_ulp();
    lemma_cube(most);
    lemma_value_of_one();
    lemma_value_of_zero(Double { bits: 0 });
    let (h, w) = (half_ulp(), value(weight));
    lemma_one(w);
    lemma_zero(w);
    lemma_zero(h);
    lemma_scaled_order(h, size(w), most);
    assert forall|r: int, c: int|
        0 <= r < block.len() && 0 <= c < block.len() && (
        #[trigger] block[r][c]).finite() implies size(value(block[r][c]) - exact(r, c))
        <= term_error(most) && size(exact(r, c)) <= term_bound(most) by {
        let factor = identity_rows(n)[r][c];
        assert(block[r][c] == weight.product(factor));
        lemma_product_error(weight, factor);
    }
}

/// The vector whose inner product is the difference of two neighbouring joints.
pub open spec fn difference_vector(start: int, n: int, joint: int) -> spec_fn(int) -> real {
    |r: int|
        if r == start + n + joint {
            1int as real
        } else if r == start + joint {
            -(1int as real)
        } else {
            0int as real
        }
}

/// The cost of the first `count` differences over one interval.
pub open spec fn difference_cost(
    weight: real,
    start: int,
    n: int,
    count: nat,
    r: int,
    c: int,
) -> real
    decreases count,
{
    if count == 0 {
        0int as real
    } else {
        let v = difference_vector(start, n, count - 1);
        difference_cost(weight, start, n, (count - 1) as nat, r, c) + weight * (v(r) * v(c))
    }
}

/// The sum of the squares of the first `count` differences between two neighbouring knots.
pub open spec fn steps_squared(start: int, n: int, count: nat, x: Seq<real>) -> real
    decreases count,
{
    if count == 0 {
        0int as real
    } else {
        let step = x[start + n + count - 1] - x[start + count - 1];
        steps_squared(start, n, (count - 1) as nat, x) + step * step
    }
}

/// The inner product with a difference vector.
proof fn lemma_inner_of_difference(start: int, n: int, joint: int, x: Seq<real>, count: nat)
    requires
        0 <= start,
        0 <= joint < n,
    ensures
        inner_upto(difference_vector(start, n, joint), x, count) == (if start + n + joint < count {
            x[start + n + joint]
        } else {
            0int as real
        }) - (if start + joint < count {
            x[start + joint]
        } else {
            0int as real
        }),
    decreases count,
{
    if count > 0 {
        let at = x[count - 1];
        lemma_inner_of_difference(start, n, joint, x, (count - 1) as nat);
        lemma_zero(at);
        lemma_commutes(at, 0int as real);
        lemma_one(at);
        lemma_commutes(at, 1int as real);
        lemma_minus(1int as real, at);
    }
}

/// The form of the differences over an interval is w·|x_{k+1} − x_k|².
proof fn lemma_difference_cost_form(
    weight: real,
    start: int,
    n: int,
    count: nat,
    x: Seq<real>,
    cost: spec_fn(int, int) -> real,
)
    requires
        0 <= start,
        count <= n,
        start + 2 * n <= x.len(),
        forall|r: int, c: int|
            0 <= r < x.len() && 0 <= c < x.len() ==> #[trigger] cost(r, c) == difference_cost(
                weight,
                start,
                n,
                count,
                r,
                c,
            ),
    ensures
        form(cost, x) == weight * steps_squared(start, n, count, x),
    decreases count,
{
    if count == 0 {
        lemma_form_of_zero(cost, x);
        lemma_zero(weight);
    } else {
        let j = count - 1;
        let v = difference_vector(start, n, j);
        let before = |r: int, c: int| difference_cost(weight, start, n, j as nat, r, c);
        let outer = |r: int, c: int| weight * (v(r) * v(c));
        lemma_difference_cost_form(weight, start, n, j as nat, x, before);
        assert(is_outer_product(outer, weight, v, x.len()));
        assert(adds_up(cost, before, outer, x.len()));
        lemma_form_adds(cost, before, outer, x);
        lemma_form_of_outer_product(outer, weight, v, x);
        lemma_inner_of_difference(start, n, j, x, x.len());
        let step = x[start + n + j] - x[start + j];
        lemma_distributes(weight, steps_squared(start, n, j as nat, x), step * step);
    }
}

proof fn lemma_signs(w: real)
    by (nonlinear_arith)
    ensures
        w * ((1int as real) * (1int as real)) == w,
        w * ((1int as real) * (-(1int as real))) == -w,
        w * ((-(1int as real)) * (1int as real)) == -w,
        w * ((-(1int as real)) * (-(1int as real))) == w,
{
}

/// Which joint of the two knots of an interval a place is.
spec fn joint_of(start: int, n: int, r: int) -> int {
    if r < start + n {
        r - start
    } else {
        r - start - n
    }
}

/// The cost of the differences over an interval is w·[I −I; −I I].
proof fn lemma_difference_cost_entry(
    weight: real,
    start: int,
    n: int,
    count: nat,
    r: int,
    c: int,
)
    requires
        0 <= n,
        count <= n,
    ensures
        difference_cost(weight, start, n, count, r, c) == if start <= r < start + 2 * n && start
            <= c < start + 2 * n && joint_of(start, n, r) == joint_of(start, n, c) && joint_of(
            start,
            n,
            r,
        ) < count {
            if r == c {
                weight
            } else {
                -weight
            }
        } else {
            0int as real
        },
    decreases count,
{
    if count > 0 {
        let j = count - 1;
        lemma_difference_cost_entry(weight, start, n, j as nat, r, c);
        let v = difference_vector(start, n, j);
        lemma_signs(weight);
        lemma_zero(v(r));
        lemma_zero(v(c));
        lemma_commutes(v(c), 0int as real);
        lemma_zero(weight);
    }
}

/// The smoothness cost of one interval adds its energy.
#[verifier::rlimit(40)]
proof fn lemma_interval_has_form(
    before: Seq<Seq<Double>>,
    weight: Double,
    start: int,
    n: nat,
    x: Seq<real>,
    low: real,
    count: nat,
    most: real,
    error: real,
    terms: real,
)
    requires
        rectangular(before, before.len()),
        before.len() == x.len(),
        0 <= start,
        start + 2 * n <= before.len(),
        has_form(before, x, low, count, term_bound(most), error),
        entries_finite(with_differences(before, weight, start, n)),
        1int as real <= most,
        size(value(weight)) <= most,
        weight.finite(),
        covers(term_error(most), term_bound(most), error, terms),
        ((count + 4) as real) <= terms,
    ensures
        has_form(
            with_differences(before, weight, start, n),
            x,
            low + value(weight) * steps_squared(start, n as int, n, x),
            count + 4,
            term_bound(most),
            error,
        ),
        rectangular(with_differences(before, weight, start, n), before.len()),
        with_differences(before, weight, start, n).len() == before.len(),
        entries_finite(before),
{
    let (e0, b) = (term_error(most), term_bound(most));
    let w = value(weight);
    let next = start + n as int;
    let plus = scaled_rows(identity_rows(n), weight);
    let minus = scaled_rows(identity_rows(n), weight.negated());
    lemma_value_of_negated(weight);
    lemma_identity_block(weight, n, most);
    lemma_identity_block(weight.negated(), n, most);
    let first = with_block(before, start, start, plus);
    let second = with_block(first, next, next, plus);
    let third = with_block(second, start, next, minus);
    let last = with_block(third, next, start, minus);
    let p1 = placed(diagonal_block(w), start, start, n as int);
    let p2 = placed(diagonal_block(w), next, next, n as int);
    let p3 = placed(diagonal_block(-w), start, next, n as int);
    let p4 = placed(diagonal_block(-w), next, start, n as int);
    assert(rectangular(first, before.len())) by {
        assert forall|r: int| 0 <= r < first.len() implies (#[trigger] first[r]).len()
            == before.len() by {
            assert(before[r].len() == before.len());
        }
    }
    assert(rectangular(second, before.len())) by {
        assert forall|r: int| 0 <= r < second.len() implies (#[trigger] second[r]).len()
            == before.len() by {
            assert(first[r].len() == before.len());
        }
    }
    assert(rectangular(third, before.len())) by {
        assert forall|r: int| 0 <= r < third.len() implies (#[trigger] third[r]).len()
            == before.len() by {
            assert(second[r].len() == before.len());
        }
    }
    lemma_block_grows(third, next, start, minus, diagonal_block(-w), e0, b);
    lemma_grown_from_finite(third, last, p4, e0, b);
    lemma_block_grows(second, start, next, minus, diagonal_block(-w), e0, b);
    lemma_grown_from_finite(second, third, p3, e0, b);
    lemma_block_grows(first, next, next, plus, diagonal_block(w), e0, b);
    lemma_grown_from_finite(first, second, p2, e0, b);
    lemma_block_grows(before, start, start, plus, diagonal_block(w), e0, b);
    lemma_grown_from_finite(before, first, p1, e0, b);
    let (g1, g2, g3, g4) = (form(p1, x), form(p2, x), form(p3, x), form(p4, x));
    lemma_grown_has_form(before, first, p1, x, low, g1, count, e0, b, error, terms);
    lemma_grown_has_form(first, second, p2, x, low + g1, g2, count + 1, e0, b, error, terms);
    lemma_grown_has_form(
        second,
        third,
        p3,
        x,
        low + g1 + g2,
        g3,
        count + 2,
        e0,
        b,
        error,
        terms,
    );
    lemma_grown_has_form(
        third,
        last,
        p4,
        x,
        low + g1 + g2 + g3,
        g4,
        count + 3,
        e0,
        b,
        error,
        terms,
    );
    let s2 = |r: int, c: int| p1(r, c) + p2(r, c);
    let s3 = |r: int, c: int| s2(r, c) + p3(r, c);
    let s4 = |r: int, c: int| s3(r, c) + p4(r, c);
    lemma_form_adds(s2, p1, p2, x);
    lemma_form_adds(s3, s2, p3, x);
    lemma_form_adds(s4, s3, p4, x);
    assert forall|r: int, c: int| 0 <= r < x.len() && 0 <= c < x.len() implies #[trigger] s4(r, c)
        == difference_cost(w, start, n as int, n, r, c) by {
        lemma_difference_cost_entry(w, start, n as int, n, r, c);
    }
    lemma_difference_cost_form(w, start, n as int, n, x, s4);
    let gain = g1 + g2 + g3 + g4;
    assert(has_form(last, x, low + g1 + g2 + g3 + g4, count + 4, b, error));
    let exact = choose|exact: spec_fn(int, int) -> real|
        #[trigger] rounds_to(last, exact, count + 4, b, error) && form(exact, x) == low + g1 + g2
            + g3 + g4;
    assert(gain == w * steps_squared(start, n as int, n, x));
    assert(rounds_to(last, exact, count + 4, b, error) && form(exact, x) == low + gain);
}

/// A matrix with w·[I −I; −I I] added at two neighbouring blocks.
pub open spec fn with_differences(
    rows: Seq<Seq<Double>>,
    weight: Double,
    start: int,
    n: nat,
) -> Seq<Seq<Double>> {
    let next = start + n as int;
    let plus = scaled_rows(identity_rows(n), weight);
    let minus = scaled_rows(identity_rows(n), weight.negated());
    with_block(
        with_block(
            with_block(with_block(rows, start, start, plus), next, next, plus),
            start,
            next,
            minus,
        ),
        next,
        start,
        minus,
    )
}

/// The smoothness cost at a step: w·Σ|x_{k+1} − x_k|² over the first `count` intervals.
pub open spec fn smoothness_energy(weight: real, n: nat, count: nat, x: Seq<real>) -> real
    decreases count,
{
    if count == 0 {
        0int as real
    } else {
        let k = count - 1;
        smoothness_energy(weight, n, k as nat, x) + weight * steps_squared(k * n, n as int, n, x)
    }
}

/// The smoothness cost adds its energy.
proof fn lemma_smoothness_has_form(
    rows: Seq<Seq<Double>>,
    weight: Double,
    n: nat,
    knots: nat,
    count: nat,
    x: Seq<real>,
    low: real,
    start: nat,
    most: real,
    error: real,
    terms: real,
)
    requires
        rectangular(rows, rows.len()),
        rows.len() == x.len(),
        rows.len() == knots * n,
        count < knots,
        has_form(rows, x, low, start, term_bound(most), error),
        entries_finite(smoothness_cost(rows, weight, n, count)),
        1int as real <= most,
        weight.finite(),
        size(value(weight)) <= most,
        covers(term_error(most), term_bound(most), error, terms),
        ((start + 4 * count) as real) <= terms,
    ensures
        has_form(
            smoothness_cost(rows, weight, n, count),
            x,
            low + smoothness_energy(value(weight), n, count, x),
            start + 4 * count,
            term_bound(most),
            error,
        ),
        entries_finite(rows),
    decreases count,
{
    if count > 0 {
        let k = count - 1;
        let before = smoothness_cost(rows, weight, n, k as nat);
        lemma_smoothness_is_rectangular(rows, weight, n, k as nat);
        lemma_block_within(k, knots as int, n as int);
        lemma_block_within(k + 1, knots as int, n as int);
        assert(smoothness_cost(rows, weight, n, count) == with_differences(
            before,
            weight,
            k * n,
            n,
        ));
        lemma_smoothness_was_finite(rows, weight, n, knots, count, most);
        lemma_smoothness_has_form(
            rows,
            weight,
            n,
            knots,
            k as nat,
            x,
            low,
            start,
            most,
            error,
            terms,
        );
        lemma_interval_has_form(
            before,
            weight,
            k * n,
            n,
            x,
            low + smoothness_energy(value(weight), n, k as nat, x),
            (start + 4 * k) as nat,
            most,
            error,
            terms,
        );
    }
}

/// A finite smoothness cost was finite one interval before.
proof fn lemma_smoothness_was_finite(
    rows: Seq<Seq<Double>>,
    weight: Double,
    n: nat,
    knots: nat,
    count: nat,
    most: real,
)
    requires
        rectangular(rows, rows.len()),
        rows.len() == knots * n,
        0 < count < knots,
        entries_finite(smoothness_cost(rows, weight, n, count)),
        1int as real <= most,
        weight.finite(),
        size(value(weight)) <= most,
    ensures
        entries_finite(smoothness_cost(rows, weight, n, (count - 1) as nat)),
{
    let before = smoothness_cost(rows, weight, n, (count - 1) as nat);
    let after = smoothness_cost(rows, weight, n, count);
    lemma_smoothness_is_rectangular(rows, weight, n, (count - 1) as nat);
    let k = count - 1;
    let plus = scaled_rows(identity_rows(n), weight);
    let minus = scaled_rows(identity_rows(n), weight.negated());
    let own = with_block(before, k * n, k * n, plus);
    let next = with_block(own, (k + 1) * n, (k + 1) * n, plus);
    let right = with_block(next, k * n, (k + 1) * n, minus);
    lemma_block_was_finite(right, (k + 1) * n, k * n, minus);
    lemma_block_was_finite(next, k * n, (k + 1) * n, minus);
    lemma_block_was_finite(own, (k + 1) * n, (k + 1) * n, plus);
    lemma_block_was_finite(before, k * n, k * n, plus);
}

proof fn lemma_block_was_finite(
    rows: Seq<Seq<Double>>,
    row0: int,
    col0: int,
    block: Seq<Seq<Double>>,
)
    requires
        rectangular(rows, rows.len()),
        entries_finite(with_block(rows, row0, col0, block)),
    ensures
        entries_finite(rows),
        rectangular(with_block(rows, row0, col0, block), rows.len()),
{
    let after = with_block(rows, row0, col0, block);
    assert forall|r: int| 0 <= r < after.len() implies (#[trigger] after[r]).len()
        == rows.len() by {
        assert(rows[r].len() == rows.len());
    }
    assert forall|r: int, c: int| 0 <= r < rows.len() && 0 <= c < rows.len() implies (
    #[trigger] rows[r][c]).finite() by {
        assert(rows[r].len() == rows.len());
        assert(after[r][c].finite());
        if after[r][c] != rows[r][c] {
            lemma_parts_of_sum(rows[r][c], block[r - row0][c - col0]);
        }
    }
}

proof fn lemma_smoothness_is_rectangular(
    rows: Seq<Seq<Double>>,
    weight: Double,
    n: nat,
    count: nat,
)
    requires
        rectangular(rows, rows.len()),
    ensures
        rectangular(smoothness_cost(rows, weight, n, count), rows.len()),
        smoothness_cost(rows, weight, n, count).len() == rows.len(),
    decreases count,
{
    if count > 0 {
        lemma_smoothness_is_rectangular(rows, weight, n, (count - 1) as nat);
    }
}

/// The partial that is listed for the place of one of six.
proof fn lemma_listed_place(partials: Seq<(usize, Double)>, place: int)
    requires
        distinct_places(partials),
    ensures
        forall|i: int|
            0 <= i < 6 && (#[trigger] partials[i]).0 == place ==> listed(partials, place) == value(
                partials[i].1,
            ),
        (forall|i: int| 0 <= i < 6 ==> (#[trigger] partials[i]).0 != place) ==> listed(
            partials,
            place,
        ) == 0int as real,
{
    let five = partials.drop_last();
    let four = five.drop_last();
    let three = four.drop_last();
    let two = three.drop_last();
    let one = two.drop_last();
    assert(one.drop_last().len() == 0);
    reveal_with_fuel(listed, 7);
    assert(partials[0].0 != partials[1].0 && partials[0].0 != partials[2].0 && partials[0].0
        != partials[3].0 && partials[0].0 != partials[4].0 && partials[0].0 != partials[5].0);
    assert(partials[1].0 != partials[2].0 && partials[1].0 != partials[3].0 && partials[1].0
        != partials[4].0 && partials[1].0 != partials[5].0);
    assert(partials[2].0 != partials[3].0 && partials[2].0 != partials[4].0 && partials[2].0
        != partials[5].0);
    assert(partials[3].0 != partials[4].0 && partials[3].0 != partials[5].0);
    assert(partials[4].0 != partials[5].0);
}

/// Whether six partials are not larger than a bound.
pub open spec fn partials_bounded(partials: Seq<(usize, Double)>, most: real) -> bool {
    forall|i: int| 0 <= i < 6 ==> size(value((#[trigger] partials[i]).1)) <= most
}

/// The exact product w·g·gᵀ of six partials.
pub open spec fn penalty_part(
    weight: real,
    partials: Seq<(usize, Double)>,
    start: int,
) -> spec_fn(int, int) -> real {
    |r: int, c: int| weight * (listed(partials, r - start) * listed(partials, c - start))
}

/// Adding the product of six partials is to grow by it.
proof fn lemma_penalty_grows(
    rows: Seq<Seq<Double>>,
    start: int,
    weight: Double,
    partials: Seq<(usize, Double)>,
    most: real,
)
    requires
        rectangular(rows, rows.len()),
        distinct_places(partials),
        0 <= start,
        forall|i: int| 0 <= i < 6 ==> start + (#[trigger] partials[i]).0 < rows.len(),
        partials_bounded(partials, most),
        1int as real <= most,
        size(value(weight)) <= most,
        entries_finite(with_outer_product(rows, start, weight, partials, 36)),
    ensures
        all_grow(
            rows,
            with_outer_product(rows, start, weight, partials, 36),
            penalty_part(value(weight), partials, start),
            term_error(most),
            term_bound(most),
        ),
        rectangular(with_outer_product(rows, start, weight, partials, 36), rows.len()),
{
    let after = with_outer_product(rows, start, weight, partials, 36);
    let part = penalty_part(value(weight), partials, start);
    let w = value(weight);
    lemma_cube(most);
    lemma_tiny(most * most);
    if rows.len() > 0 {
        lemma_outer_product_entry(rows, start, weight, partials, 36, 0, 0);
    } else {
        assert(start + partials[0].0 < rows.len());
    }
    assert forall|r: int, c: int| 0 <= r < rows.len() && 0 <= c < rows.len() implies grows(
        rows[r][c],
        #[trigger] after[r][c],
        part(r, c),
        term_error(most),
        term_bound(most),
    ) by {
        lemma_outer_product_entry(rows, start, weight, partials, 36, r, c);
        lemma_listed_place(partials, r - start);
        lemma_listed_place(partials, c - start);
        assert(after[r][c].finite());
        if (exists|i: int| 0 <= i < 6 && r == start + (#[trigger] partials[i]).0) && (exists|j: int|
            0 <= j < 6 && c == start + (#[trigger] partials[j]).0) {
            let i = choose|i: int| 0 <= i < 6 && r == start + (#[trigger] partials[i]).0;
            let j = choose|j: int| 0 <= j < 6 && c == start + (#[trigger] partials[j]).0;
            let factor = partials[i].1.product(partials[j].1);
            let add = weight.product(factor);
            assert(6 * i + j < 36);
            assert(after[r][c] == rows[r][c].sum(add));
            lemma_parts_of_sum(rows[r][c], add);
            lemma_parts_of_product(weight, factor);
            lemma_product_of_bounded(partials[i].1, partials[j].1, most);
            lemma_weighted(weight, factor, value(partials[i].1) * value(partials[j].1), most);
        } else {
            let (a, b) = (listed(partials, r - start), listed(partials, c - start));
            assert(a == 0int as real || b == 0int as real);
            lemma_zero(a);
            lemma_zero(b);
            lemma_commutes(b, 0int as real);
            lemma_zero(w);
            assert(after[r][c] == rows[r][c]);
        }
    }
}

/// The penalty on backward motion at a step: w·Σ(g_k·x)² over those of the first `count`
/// intervals that are driven backward, where g_k are the partials of the progress.
pub open spec fn backward_energy(
    knots: Seq<Vec<Double>>,
    headings: Seq<Heading>,
    base: BaseIndices,
    weight: Double,
    n: nat,
    count: nat,
    x: Seq<real>,
) -> real
    decreases count,
{
    if count == 0 {
        0int as real
    } else {
        let k = count - 1;
        let before = backward_energy(knots, headings, base, weight, n, k as nat, x);
        let progress = forward_progress(knots[k]@, knots[k + 1]@, base, headings[k]);
        let partials = progress_partials(knots[k]@, knots[k + 1]@, base, headings[k]);
        let gain = inner_upto(|r: int| listed(partials, r - k * n), x, x.len());
        if (Double { bits: 0 }).less(weight) && progress.less(Double { bits: 0 }) {
            before + value(weight) * (gain * gain)
        } else {
            before
        }
    }
}

/// The penalty on backward motion adds its energy.
proof fn lemma_backward_has_form(
    rows: Seq<Seq<Double>>,
    knots: Seq<Vec<Double>>,
    headings: Seq<Heading>,
    base: BaseIndices,
    weight: Double,
    n: nat,
    count: nat,
    x: Seq<real>,
    low: real,
    start: nat,
    most: real,
    error: real,
    terms: real,
)
    requires
        rectangular(rows, rows.len()),
        rows.len() == x.len(),
        rows.len() == knots.len() * n,
        knots_shaped(knots, n),
        base.within(n),
        base.x != base.y && base.y != base.yaw && base.x != base.yaw,
        count < knots.len(),
        2 * n <= usize::MAX,
        has_form(rows, x, low, start, term_bound(most), error),
        entries_finite(backward_cost(rows, knots, headings, base, weight, n, count)),
        1int as real <= most,
        weight.finite(),
        size(value(weight)) <= most,
        forall|k: int|
            0 <= k < knots.len() - 1 ==> partials_bounded(
                #[trigger] progress_partials(knots[k]@, knots[k + 1]@, base, headings[k]),
                most,
            ),
        covers(term_error(most), term_bound(most), error, terms),
        ((start + count) as real) <= terms,
    ensures
        has_form(
            backward_cost(rows, knots, headings, base, weight, n, count),
            x,
            low + backward_energy(knots, headings, base, weight, n, count, x),
            start + count,
            term_bound(most),
            error,
        ),
        entries_finite(rows),
        rectangular(backward_cost(rows, knots, headings, base, weight, n, count), rows.len()),
        backward_cost(rows, knots, headings, base, weight, n, count).len() == rows.len(),
    decreases count,
{
    if count > 0 {
        let k = count - 1;
        let before = backward_cost(rows, knots, headings, base, weight, n, k as nat);
        let after = backward_cost(rows, knots, headings, base, weight, n, count);
        let partials = progress_partials(knots[k]@, knots[k + 1]@, base, headings[k]);
        lemma_backward_is_rectangular(rows, knots, headings, base, weight, n, k as nat);
        lemma_block_within(k, knots.len() as int, n as int);
        lemma_block_within(k + 1, knots.len() as int, n as int);
        assert(knots[k]@.len() == n);
        lemma_partials_within(partials, knots[k]@, knots[k + 1]@, base, headings[k]);
        let progress = forward_progress(knots[k]@, knots[k + 1]@, base, headings[k]);
        let part = penalty_part(value(weight), partials, k * n);
        let (e0, b) = (term_error(most), term_bound(most));
        lemma_cube(most);
        if penalized(weight, progress) {
            assert(partials_bounded(partials, most));
            lemma_penalty_grows(before, k * n, weight, partials, most);
            lemma_grown_from_finite(before, after, part, e0, b);
        }
        lemma_backward_has_form(
            rows,
            knots,
            headings,
            base,
            weight,
            n,
            k as nat,
            x,
            low,
            start,
            most,
            error,
            terms,
        );
        let reached = low + backward_energy(knots, headings, base, weight, n, k as nat, x);
        if penalized(weight, progress) {
            let place = |r: int| listed(partials, r - k * n);
            let gain = inner_upto(place, x, x.len());
            assert(is_outer_product(part, value(weight), place, x.len()));
            lemma_form_of_outer_product(part, value(weight), place, x);
            lemma_grown_has_form(
                before,
                after,
                part,
                x,
                reached,
                value(weight) * (gain * gain),
                (start + k) as nat,
                e0,
                b,
                error,
                terms,
            );
        } else {
            lemma_more_terms(before, x, reached, (start + k) as nat, start + count, b, error);
        }
    }
}

proof fn lemma_backward_is_rectangular(
    rows: Seq<Seq<Double>>,
    knots: Seq<Vec<Double>>,
    headings: Seq<Heading>,
    base: BaseIndices,
    weight: Double,
    n: nat,
    count: nat,
)
    requires
        rectangular(rows, rows.len()),
        rows.len() == knots.len() * n,
        knots_shaped(knots, n),
        base.within(n),
        base.x != base.y && base.y != base.yaw && base.x != base.yaw,
        count < knots.len(),
        2 * n <= usize::MAX,
    ensures
        rectangular(backward_cost(rows, knots, headings, base, weight, n, count), rows.len()),
        backward_cost(rows, knots, headings, base, weight, n, count).len() == rows.len(),
    decreases count,
{
    if count > 0 {
        let k = count - 1;
        let before = backward_cost(rows, knots, headings, base, weight, n, k as nat);
        let partials = progress_partials(knots[k]@, knots[k + 1]@, base, headings[k]);
        lemma_backward_is_rectangular(rows, knots, headings, base, weight, n, k as nat);
        lemma_block_within(k, knots.len() as int, n as int);
        lemma_block_within(k + 1, knots.len() as int, n as int);
        assert(knots[k]@.len() == n);
        lemma_partials_within(partials, knots[k]@, knots[k + 1]@, base, headings[k]);
        assert(k * n + partials[0].0 < rows.len());
        lemma_outer_product_entry(before, k * n, weight, partials, 36, 0, 0);
    }
}

/// A number that is not below zero has such a value.
proof fn lemma_value_of_positive(x: Double)
    requires
        x.finite(),
        (Double { bits: 0 }).at_most(x) || (Double { bits: 0 }).less(x),
    ensures
        value(x) >= 0int as real,
{
    let u = pow2(UNIT_EXPONENT as nat) as real;
    lemma_pow2_pos(UNIT_EXPONENT as nat);
    if x.negative() {
        assert(x.zero());
        lemma_value_of_zero(x);
    } else {
        let n = x.scaled() as real;
        assert(n / u >= 0int as real) by (nonlinear_arith)
            requires
                n >= 0int as real,
                u > 0int as real,
        ;
    }
}

/// By how much rounding can change a term of the quadratic term of `count` knots.
pub open spec fn entry_error(most: real, count: nat) -> real {
    (2int as real) * (term_error(most) + half_ulp() * (((6 * count) as real) * term_bound(most)))
}

/// By how much rounding can lower the quadratic form: of `count` knots, with weights,
/// Jacobians and partials that are not larger than `most`.
pub open spec fn form_rounding(most: real, count: nat) -> real {
    let terms = (6 * count) as real;
    terms * ((2int as real) * (term_error(most) + half_ulp() * (terms * term_bound(most))))
}

/// The cost of a step, to second order: in soft mode how far it moves the poses, how it
/// changes the motion between neighbouring knots, what it adds to the progress of the
/// intervals that are driven backward, and the damping.
pub open spec fn energy(
    knots: Seq<Vec<Double>>,
    evaluation: Evaluation,
    config: TrajectoryConfig,
    base: BaseIndices,
    n: nat,
    x: Seq<real>,
) -> real {
    let count = knots.len();
    let intervals = (count - 1) as nat;
    let tracking = if config.ee_tracking == EeTracking::Soft {
        tracking_energy(evaluation.knots@, value(config.ee_weight), n, count, x)
    } else {
        0int as real
    };
    tracking + smoothness_energy(value(config.smoothness_weight), n, intervals, x)
        + backward_energy(
        knots,
        evaluation.headings@,
        base,
        config.backward_weight,
        n,
        intervals,
        x,
    ) + value(config.damping) * squares_upto(x, x.len())
}

/// The quadratic term of a subproblem is the cost of a step to second order: at every x the
/// form xᵀPx is the energy of x, up to rounding.
pub proof fn lemma_quadratic_term_is_the_energy(
    knots: Seq<Vec<Double>>,
    evaluation: Evaluation,
    config: TrajectoryConfig,
    base: BaseIndices,
    n: nat,
    most: real,
    x: Seq<real>,
)
    requires
        2 <= knots.len() <= 700000000000000,
        knots_shaped(knots, n),
        evaluation.shaped(knots.len(), n),
        base.within(n),
        addressable(knots.len(), n),
        base.x != base.y && base.y != base.yaw && base.x != base.yaw,
        x.len() == knots.len() * n,
        entries_finite(quadratic_term(knots, evaluation, config, base, n)),
        config.ee_weight.finite(),
        config.smoothness_weight.finite(),
        config.backward_weight.finite(),
        1int as real <= most,
        size(value(config.ee_weight)) <= most,
        size(value(config.smoothness_weight)) <= most,
        size(value(config.backward_weight)) <= most,
        size(value(config.damping)) <= most,
        forall|k: int|
            0 <= k < knots.len() ==> entries_bounded(
                (#[trigger] evaluation.knots@[k]).jacobian@,
                most,
            ),
        forall|k: int|
            0 <= k < knots.len() - 1 ==> partials_bounded(
                #[trigger] progress_partials(
                    knots[k]@,
                    knots[k + 1]@,
                    base,
                    evaluation.headings@[k],
                ),
                most,
            ),
    ensures
        ({
            let p = quadratic_term(knots, evaluation, config, base, n);
            let sizes = sizes_upto(x, x.len());
            let spent = energy(knots, evaluation, config, base, n, x);
            let terms = (6 * knots.len() - 4) as nat;
            &&& has_form(p, x, spent, terms, term_bound(most), entry_error(most, knots.len()))
            &&& size(form(|r: int, c: int| value(p[r][c]), x) - spent) <= form_rounding(
                most,
                knots.len(),
            ) * (sizes * sizes)
        }),
{
    let count = knots.len();
    let intervals = (count - 1) as nat;
    let (e0, b) = (term_error(most), term_bound(most));
    let terms = (6 * count) as real;
    let h = half_ulp();
    let error = (2int as real) * (e0 + h * (terms * b));
    let zero = 0int as real;
    lemma_half_ulp();
    lemma_cube(most);
    // The error per term covers its rounding.
    assert(covers(e0, b, error, terms)) by {
        lemma_scaled_order(terms, zero, b);
        lemma_zero(terms);
        lemma_scaled_order(h, zero, terms * b);
        lemma_zero(h);
        lemma_distributes(terms, b, error);
        lemma_distributes(h, terms * b, terms * error);
        lemma_associates(h, terms, error);
        lemma_scaled_order(h, terms, (4200000000000000int as real));
        assert(h * (9007199254740992int as real) == 1int as real);
        lemma_scaled_order(error, h * terms, (1int as real) / (2int as real));
    }
    let empty = zero_rows(count * n, count * n);
    let nothing = |r: int, c: int| zero;
    lemma_value_of_zero(Double { bits: 0 });
    lemma_zero(error);
    lemma_zero(b);
    lemma_commutes(error, zero);
    lemma_commutes(b, zero);
    lemma_form_of_zero(nothing, x);
    assert(rectangular(empty, empty.len()));
    assert(rounds_to(empty, nothing, 0, b, error)) by {
        assert((0nat as real) == zero);
        assert forall|r: int, c: int| 0 <= r < empty.len() && 0 <= c < empty.len() implies size(
            value(#[trigger] empty[r][c]) - nothing(r, c),
        ) <= (0nat as real) * error && size(nothing(r, c)) <= (0nat as real) * b by {
            assert(empty[r][c] == (Double { bits: 0 }));
        }
    }
    assert(has_form(empty, x, zero, 0, b, error));
    let soft = config.ee_tracking == EeTracking::Soft;
    let followed = if soft {
        tracking_cost(empty, evaluation.knots@, config.ee_weight, n, count)
    } else {
        empty
    };
    let smooth = smoothness_cost(followed, config.smoothness_weight, n, intervals);
    let forward = backward_cost(
        smooth,
        knots,
        evaluation.headings@,
        base,
        config.backward_weight,
        n,
        intervals,
    );
    let p = damped(forward, config.damping);
    lemma_tracking_is_rectangular(empty, evaluation.knots@, config.ee_weight, n, count);
    lemma_smoothness_is_rectangular(followed, config.smoothness_weight, n, intervals);
    lemma_backward_is_rectangular(
        smooth,
        knots,
        evaluation.headings@,
        base,
        config.backward_weight,
        n,
        intervals,
    );
    // The damping, from the end backward: what comes before it is finite.
    let part = diagonal_block(value(config.damping));
    assert forall|r: int, c: int| 0 <= r < forward.len() && 0 <= c < forward.len() implies grows(
        forward[r][c],
        #[trigger] p[r][c],
        part(r, c),
        e0,
        b,
    ) by {
        assert(forward[r].len() == forward.len());
        if r == c {
            assert(p[r][c] == forward[r][c].sum(config.damping));
        }
    }
    lemma_grown_from_finite(forward, p, part, e0, b);
    lemma_backward_was_finite(
        smooth,
        knots,
        evaluation.headings@,
        base,
        config.backward_weight,
        n,
        intervals,
        most,
    );
    lemma_all_smoothness_was_finite(
        followed,
        config.smoothness_weight,
        n,
        count,
        intervals,
        most,
    );
    let tracking = if soft {
        tracking_energy(evaluation.knots@, value(config.ee_weight), n, count, x)
    } else {
        zero
    };
    let smoothness = smoothness_energy(value(config.smoothness_weight), n, intervals, x);
    let backward = backward_energy(
        knots,
        evaluation.headings@,
        base,
        config.backward_weight,
        n,
        intervals,
        x,
    );
    if soft {
        assert forall|k: int| 0 <= k < count implies knot_bounded(
            #[trigger] evaluation.knots@[k],
            n,
            most,
        ) by {
            assert(evaluation.knots@[k].shaped(n));
        }
        lemma_tracking_has_form(
            empty,
            evaluation.knots@,
            config.ee_weight,
            n,
            count,
            x,
            zero,
            0,
            most,
            error,
            terms,
        );
    } else {
        lemma_more_terms(empty, x, zero, 0, count, b, error);
    }
    lemma_smoothness_has_form(
        followed,
        config.smoothness_weight,
        n,
        count,
        intervals,
        x,
        tracking,
        count,
        most,
        error,
        terms,
    );
    lemma_backward_has_form(
        smooth,
        knots,
        evaluation.headings@,
        base,
        config.backward_weight,
        n,
        intervals,
        x,
        tracking + smoothness,
        count + 4 * intervals,
        most,
        error,
        terms,
    );
    let damping = value(config.damping);
    assert(is_diagonal(part, damping, x.len()));
    lemma_form_of_diagonal(part, damping, x);
    let low = damping * squares_upto(x, x.len());
    let made = count + 5 * intervals;
    let reached = tracking + smoothness + backward;
    lemma_grown_has_form(forward, p, part, x, reached, low, made, e0, b, error, terms);
    // What rounding takes off.
    let exact = choose|exact: spec_fn(int, int) -> real|
        #[trigger] rounds_to(p, exact, made + 1, b, error) && form(exact, x) == reached + low;
    let rounded = |r: int, c: int| value(p[r][c]);
    lemma_scaled_order(error, (made + 1) as real, terms);
    assert forall|r: int, c: int| 0 <= r < x.len() && 0 <= c < x.len() implies size(
        #[trigger] rounded(r, c) - exact(r, c),
    ) <= terms * error by {
        assert(size(value(p[r][c]) - exact(r, c)) <= ((made + 1) as real) * error);
    }
    assert(entries_near(rounded, exact, terms * error, x.len()));
    lemma_form_near(rounded, exact, terms * error, x);
}

/// The quadratic term of a subproblem is positive definite, up to rounding: at every
/// x the form xᵀPx is at least damping·|x|², less what rounding can take off. The
/// tracking, smoothness and backward terms are sums of squares with weights that are
/// not negative.
pub proof fn lemma_quadratic_term_is_positive_definite(
    knots: Seq<Vec<Double>>,
    evaluation: Evaluation,
    config: TrajectoryConfig,
    base: BaseIndices,
    n: nat,
    most: real,
    x: Seq<real>,
)
    requires
        2 <= knots.len() <= 700000000000000,
        knots_shaped(knots, n),
        evaluation.shaped(knots.len(), n),
        base.within(n),
        addressable(knots.len(), n),
        base.x != base.y && base.y != base.yaw && base.x != base.yaw,
        x.len() == knots.len() * n,
        entries_finite(quadratic_term(knots, evaluation, config, base, n)),
        config.ee_weight.finite() && (Double { bits: 0 }).at_most(config.ee_weight),
        config.smoothness_weight.finite() && (Double { bits: 0 }).at_most(config.smoothness_weight),
        config.backward_weight.finite(),
        1int as real <= most,
        size(value(config.ee_weight)) <= most,
        size(value(config.smoothness_weight)) <= most,
        size(value(config.backward_weight)) <= most,
        size(value(config.damping)) <= most,
        forall|k: int|
            0 <= k < knots.len() ==> entries_bounded(
                (#[trigger] evaluation.knots@[k]).jacobian@,
                most,
            ),
        forall|k: int|
            0 <= k < knots.len() - 1 ==> partials_bounded(
                #[trigger] progress_partials(
                    knots[k]@,
                    knots[k + 1]@,
                    base,
                    evaluation.headings@[k],
                ),
                most,
            ),
    ensures
        ({
            let p = quadratic_term(knots, evaluation, config, base, n);
            let sizes = sizes_upto(x, x.len());
            let low = value(config.damping) * squares_upto(x, x.len());
            let terms = (6 * knots.len() - 4) as nat;
            &&& stays_above(p, x, low, terms, term_bound(most), entry_error(most, knots.len()))
            &&& form(|r: int, c: int| value(p[r][c]), x) >= low - form_rounding(most, knots.len())
                * (sizes * sizes)
        }),
{
    lemma_quadratic_term_is_the_energy(knots, evaluation, config, base, n, most, x);
    lemma_value_of_positive(config.ee_weight);
    lemma_value_of_positive(config.smoothness_weight);
    lemma_tracking_is_not_negative(
        evaluation.knots@,
        value(config.ee_weight),
        n,
        knots.len(),
        x,
    );
    lemma_smoothness_is_not_negative(
        value(config.smoothness_weight),
        n,
        (knots.len() - 1) as nat,
        x,
    );
    lemma_backward_is_not_negative(
        knots,
        evaluation.headings@,
        base,
        config.backward_weight,
        n,
        (knots.len() - 1) as nat,
        x,
    );
    let p = quadratic_term(knots, evaluation, config, base, n);
    let spent = energy(knots, evaluation, config, base, n, x);
    let terms = (6 * knots.len() - 4) as nat;
    let (b, error) = (term_bound(most), entry_error(most, knots.len()));
    let exact = choose|exact: spec_fn(int, int) -> real|
        #[trigger] rounds_to(p, exact, terms, b, error) && form(exact, x) == spent;
    assert(rounds_to(p, exact, terms, b, error) && form(exact, x) >= value(config.damping)
        * squares_upto(x, x.len()));
}

proof fn lemma_turned_is_not_negative(
    jacobian: Seq<Seq<Double>>,
    count: nat,
    start: int,
    n: int,
    x: Seq<real>,
)
    ensures
        turned(jacobian, count, start, n, x) >= 0int as real,
    decreases count,
{
    if count > 0 {
        lemma_turned_is_not_negative(jacobian, (count - 1) as nat, start, n, x);
        lemma_square(inner_upto(row_of(jacobian, count - 1, start, n), x, x.len()));
    }
}

proof fn lemma_tracking_is_not_negative(
    knots: Seq<KnotEvaluation>,
    weight: real,
    n: nat,
    count: nat,
    x: Seq<real>,
)
    requires
        weight >= 0int as real,
    ensures
        tracking_energy(knots, weight, n, count, x) >= 0int as real,
    decreases count,
{
    if count > 0 {
        let k = count - 1;
        lemma_tracking_is_not_negative(knots, weight, n, k as nat, x);
        lemma_turned_is_not_negative(knots[k].jacobian@, 6, k * n, n as int, x);
        lemma_scaled_order(
            weight,
            0int as real,
            turned(knots[k].jacobian@, 6, k * n, n as int, x),
        );
        lemma_zero(weight);
    }
}

proof fn lemma_steps_are_not_negative(start: int, n: int, count: nat, x: Seq<real>)
    ensures
        steps_squared(start, n, count, x) >= 0int as real,
    decreases count,
{
    if count > 0 {
        lemma_steps_are_not_negative(start, n, (count - 1) as nat, x);
        lemma_square(x[start + n + count - 1] - x[start + count - 1]);
    }
}

proof fn lemma_smoothness_is_not_negative(weight: real, n: nat, count: nat, x: Seq<real>)
    requires
        weight >= 0int as real,
    ensures
        smoothness_energy(weight, n, count, x) >= 0int as real,
    decreases count,
{
    if count > 0 {
        let k = count - 1;
        lemma_smoothness_is_not_negative(weight, n, k as nat, x);
        lemma_steps_are_not_negative(k * n, n as int, n, x);
        lemma_scaled_order(weight, 0int as real, steps_squared(k * n, n as int, n, x));
        lemma_zero(weight);
    }
}

proof fn lemma_backward_is_not_negative(
    knots: Seq<Vec<Double>>,
    headings: Seq<Heading>,
    base: BaseIndices,
    weight: Double,
    n: nat,
    count: nat,
    x: Seq<real>,
)
    requires
        weight.finite(),
    ensures
        backward_energy(knots, headings, base, weight, n, count, x) >= 0int as real,
    decreases count,
{
    if count > 0 {
        let k = count - 1;
        let partials = progress_partials(knots[k]@, knots[k + 1]@, base, headings[k]);
        let gain = inner_upto(|r: int| listed(partials, r - k * n), x, x.len());
        lemma_backward_is_not_negative(knots, headings, base, weight, n, k as nat, x);
        if (Double { bits: 0 }).less(weight) {
            lemma_value_of_positive(weight);
            lemma_square(gain);
            lemma_scaled_order(value(weight), 0int as real, gain * gain);
            lemma_zero(value(weight));
        }
    }
}

/// A finite matrix was finite before the penalties were added.
proof fn lemma_backward_was_finite(
    rows: Seq<Seq<Double>>,
    knots: Seq<Vec<Double>>,
    headings: Seq<Heading>,
    base: BaseIndices,
    weight: Double,
    n: nat,
    count: nat,
    most: real,
)
    requires
        rectangular(rows, rows.len()),
        rows.len() == knots.len() * n,
        knots_shaped(knots, n),
        base.within(n),
        base.x != base.y && base.y != base.yaw && base.x != base.yaw,
        count < knots.len(),
        2 * n <= usize::MAX,
        entries_finite(backward_cost(rows, knots, headings, base, weight, n, count)),
        1int as real <= most,
        size(value(weight)) <= most,
        forall|k: int|
            0 <= k < knots.len() - 1 ==> partials_bounded(
                #[trigger] progress_partials(knots[k]@, knots[k + 1]@, base, headings[k]),
                most,
            ),
    ensures
        entries_finite(rows),
    decreases count,
{
    if count > 0 {
        let k = count - 1;
        let before = backward_cost(rows, knots, headings, base, weight, n, k as nat);
        let after = backward_cost(rows, knots, headings, base, weight, n, count);
        let partials = progress_partials(knots[k]@, knots[k + 1]@, base, headings[k]);
        lemma_backward_is_rectangular(rows, knots, headings, base, weight, n, k as nat);
        lemma_block_within(k, knots.len() as int, n as int);
        lemma_block_within(k + 1, knots.len() as int, n as int);
        assert(knots[k]@.len() == n);
        lemma_partials_within(partials, knots[k]@, knots[k + 1]@, base, headings[k]);
        if penalized(weight, forward_progress(knots[k]@, knots[k + 1]@, base, headings[k])) {
            assert(partials_bounded(partials, most));
            lemma_penalty_grows(before, k * n, weight, partials, most);
            lemma_grown_from_finite(
                before,
                after,
                penalty_part(value(weight), partials, k * n),
                term_error(most),
                term_bound(most),
            );
        }
        lemma_backward_was_finite(rows, knots, headings, base, weight, n, k as nat, most);
    }
}

/// A finite matrix was finite before the smoothness cost was added.
proof fn lemma_all_smoothness_was_finite(
    rows: Seq<Seq<Double>>,
    weight: Double,
    n: nat,
    knots: nat,
    count: nat,
    most: real,
)
    requires
        rectangular(rows, rows.len()),
        rows.len() == knots * n,
        count < knots,
        entries_finite(smoothness_cost(rows, weight, n, count)),
        1int as real <= most,
        weight.finite(),
        size(value(weight)) <= most,
    ensures
        entries_finite(rows),
    decreases count,
{
    if count > 0 {
        lemma_smoothness_was_finite(rows, weight, n, knots, count, most);
        lemma_all_smoothness_was_finite(rows, weight, n, knots, (count - 1) as nat, most);
    }
}

} // verus!
