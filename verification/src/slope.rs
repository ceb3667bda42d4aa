//! The linear term of a subproblem: it is the slope of the cost along a step.

use crate::arithmetic::lemma_product_commutes;
use crate::configs::{EeTracking, TrajectoryConfig};
use crate::cost::{
    backward_gradient, lemma_block_within, lemma_partials_within, linear_term, minus_segment,
    penalized, plus_segment, smoothness_gradient, step_between, tracking_gradient, weighted,
    with_partials,
};
use crate::definite::{
    covers, entries_bounded, grows, lemma_accumulate, lemma_cube, lemma_tiny, lemma_weighted,
    partials_bounded, term_bound, term_error,
};
use crate::diagnostics::{BaseIndices, Heading};
use crate::double::Double;
use crate::error::{
    half_ulp, least, lemma_distributes, lemma_half_ulp, lemma_least, lemma_least_is_small,
    lemma_product_error, lemma_scaled_order, lemma_sum_error, lemma_value_of_zero, size, value,
};
use crate::finiteness::{lemma_parts_of_product, lemma_parts_of_sum};
use crate::forms::{inner_upto, sizes_upto};
use crate::linearization::{
    forward_progress, knots_shaped, progress_partials, Evaluation, KnotEvaluation,
};
use crate::matrix::zero_row;
use crate::products::transposed_image;
use crate::reals::{
    lemma_associates, lemma_bounded_product, lemma_commutes, lemma_exchanges, lemma_minus,
    lemma_one, lemma_zero,
};
use crate::slip::lemma_value_of_negated;
use crate::subproblem::all_finite;
use crate::sums::{added, image_products, lemma_transposed_image_near, sizes_added, sum_rounding};
use vstd::prelude::*;

verus! {

/// Whether a list holds an exact one, but for the rounding of `count` terms.
pub open spec fn list_rounds_to(
    values: Seq<Double>,
    exact: spec_fn(int) -> real,
    count: nat,
    bound: real,
    error: real,
) -> bool {
    forall|i: int|
        0 <= i < values.len() ==> size(value(#[trigger] values[i]) - exact(i)) <= (count as real)
            * error && size(exact(i)) <= (count as real) * bound
}

/// Whether a list holds, but for rounding, an exact one whose inner product with `x` is
/// `slope`.
pub open spec fn has_slope(
    values: Seq<Double>,
    x: Seq<real>,
    slope: real,
    count: nat,
    bound: real,
    error: real,
) -> bool {
    exists|exact: spec_fn(int) -> real|
        #[trigger] list_rounds_to(values, exact, count, bound, error) && inner_upto(
            exact,
            x,
            x.len(),
        ) == slope
}

/// Whether every entry of a list grows by a part.
pub open spec fn list_grows(
    before: Seq<Double>,
    after: Seq<Double>,
    part: spec_fn(int) -> real,
    term: real,
    bound: real,
) -> bool {
    &&& after.len() == before.len()
    &&& forall|i: int|
        0 <= i < before.len() ==> grows(before[i], #[trigger] after[i], part(i), term, bound)
}

/// The inner product with a sum.
proof fn lemma_inner_adds(
    sum: spec_fn(int) -> real,
    a: spec_fn(int) -> real,
    b: spec_fn(int) -> real,
    x: Seq<real>,
    count: nat,
)
    requires
        forall|i: int| 0 <= i < count ==> #[trigger] sum(i) == a(i) + b(i),
    ensures
        inner_upto(sum, x, count) == inner_upto(a, x, count) + inner_upto(b, x, count),
    decreases count,
{
    if count > 0 {
        lemma_inner_adds(sum, a, b, x, (count - 1) as nat);
        assert(sum(count - 1) == a(count - 1) + b(count - 1));
        lemma_distributes(x[count - 1], a(count - 1), b(count - 1));
    }
}

/// A part adds its slope.
proof fn lemma_grown_has_slope(
    before: Seq<Double>,
    after: Seq<Double>,
    part: spec_fn(int) -> real,
    x: Seq<real>,
    slope: real,
    gain: real,
    count: nat,
    term: real,
    bound: real,
    error: real,
    terms: real,
)
    requires
        has_slope(before, x, slope, count, bound, error),
        list_grows(before, after, part, term, bound),
        inner_upto(part, x, x.len()) == gain,
        x.len() == before.len(),
        all_finite(after),
        covers(term, bound, error, terms),
        (count as real) + (1int as real) <= terms,
    ensures
        has_slope(after, x, slope + gain, count + 1, bound, error),
{
    let exact = choose|exact: spec_fn(int) -> real|
        #[trigger] list_rounds_to(before, exact, count, bound, error) && inner_upto(
            exact,
            x,
            x.len(),
        ) == slope;
    let sum = |i: int| exact(i) + part(i);
    let one = 1int as real;
    assert(((count + 1) as real) == (count as real) + one);
    lemma_distributes(error, count as real, one);
    lemma_distributes(bound, count as real, one);
    lemma_one(error);
    lemma_one(bound);
    assert forall|i: int| 0 <= i < after.len() implies size(value(#[trigger] after[i]) - sum(i))
        <= ((count + 1) as real) * error && size(sum(i)) <= ((count + 1) as real) * bound by {
        assert(grows(before[i], after[i], part(i), term, bound));
        assert(after[i].finite());
        assert(size(value(before[i]) - exact(i)) <= (count as real) * error);
        if after[i] == before[i] && part(i) == 0int as real {
        } else {
            let add = choose|add: Double|
                after[i] == #[trigger] before[i].sum(add) && size(value(add) - part(i)) <= term
                    && size(part(i)) <= bound;
            lemma_accumulate(
                before[i],
                exact(i),
                add,
                part(i),
                count as real,
                term,
                bound,
                error,
                terms,
            );
        }
    }
    lemma_inner_adds(sum, exact, part, x, x.len());
    assert(list_rounds_to(after, sum, count + 1, bound, error));
}

/// More terms allow for more rounding.
proof fn lemma_more_slope_terms(
    values: Seq<Double>,
    x: Seq<real>,
    slope: real,
    count: nat,
    more: nat,
    bound: real,
    error: real,
)
    requires
        has_slope(values, x, slope, count, bound, error),
        count <= more,
        0int as real <= bound,
        0int as real <= error,
    ensures
        has_slope(values, x, slope, more, bound, error),
{
    let exact = choose|exact: spec_fn(int) -> real|
        #[trigger] list_rounds_to(values, exact, count, bound, error) && inner_upto(
            exact,
            x,
            x.len(),
        ) == slope;
    lemma_scaled_order(bound, count as real, more as real);
    lemma_scaled_order(error, count as real, more as real);
    assert(list_rounds_to(values, exact, more, bound, error));
}

/// A list whose entries come to be finite has been finite.
proof fn lemma_list_was_finite(
    before: Seq<Double>,
    after: Seq<Double>,
    part: spec_fn(int) -> real,
    term: real,
    bound: real,
)
    requires
        list_grows(before, after, part, term, bound),
        all_finite(after),
    ensures
        all_finite(before),
{
    assert forall|i: int| 0 <= i < before.len() implies (#[trigger] before[i]).finite() by {
        assert(after[i].finite());
        assert(grows(before[i], after[i], part(i), term, bound));
        if after[i] != before[i] {
            let add = choose|add: Double|
                after[i] == #[trigger] before[i].sum(add) && size(value(add) - part(i)) <= term
                    && size(part(i)) <= bound;
            lemma_parts_of_sum(before[i], add);
        }
    }
}

/// A segment that is placed in a list, and nothing around it.
pub open spec fn segment_at(segment: spec_fn(int) -> real, start: int, n: int) -> spec_fn(
    int,
) -> real {
    |i: int|
        if start <= i < start + n {
            segment(i - start)
        } else {
            0int as real
        }
}

/// The first `count` terms of the inner product of a segment with the part of `x` that starts
/// at a place.
pub open spec fn segment_inner(
    segment: spec_fn(int) -> real,
    start: int,
    count: nat,
    x: Seq<real>,
) -> real
    decreases count,
{
    if count == 0 {
        0int as real
    } else {
        segment_inner(segment, start, (count - 1) as nat, x) + segment(count - 1) * x[start + count
            - 1]
    }
}

proof fn lemma_segment_inner(
    segment: spec_fn(int) -> real,
    start: int,
    n: nat,
    x: Seq<real>,
    count: nat,
)
    requires
        0 <= start,
    ensures
        inner_upto(segment_at(segment, start, n as int), x, count) == segment_inner(
            segment,
            start,
            if count <= start {
                0
            } else if count <= start + n {
                (count - start) as nat
            } else {
                n
            },
            x,
        ),
    decreases count,
{
    if count > 0 {
        lemma_segment_inner(segment, start, n, x, (count - 1) as nat);
        lemma_zero(x[count - 1]);
        lemma_commutes(x[count - 1], 0int as real);
    }
}

/// Taking away a segment is to grow by its opposite.
proof fn lemma_minus_grows(
    values: Seq<Double>,
    start: int,
    segment: Seq<Double>,
    exact: spec_fn(int) -> real,
    opposite: spec_fn(int) -> real,
    term: real,
    bound: real,
)
    requires
        0 <= start,
        start + segment.len() <= values.len(),
        all_finite(minus_segment(values, start, segment)),
        forall|j: int|
            0 <= j < segment.len() && (#[trigger] segment[j]).finite() ==> size(
                value(segment[j]) - exact(j),
            ) <= term && size(exact(j)) <= bound,
        forall|j: int| 0 <= j < segment.len() ==> #[trigger] opposite(j) == -exact(j),
    ensures
        list_grows(
            values,
            minus_segment(values, start, segment),
            segment_at(opposite, start, segment.len() as int),
            term,
            bound,
        ),
{
    let after = minus_segment(values, start, segment);
    let part = segment_at(opposite, start, segment.len() as int);
    assert forall|i: int| 0 <= i < values.len() implies grows(
        values[i],
        #[trigger] after[i],
        part(i),
        term,
        bound,
    ) by {
        assert(after[i].finite());
        if start <= i < start + segment.len() {
            let taken = segment[i - start];
            assert(after[i] == values[i].sum(taken.negated()));
            lemma_parts_of_sum(values[i], taken.negated());
            lemma_value_of_negated(taken);
            assert(taken.finite());
            assert(opposite(i - start) == -exact(i - start));
        }
    }
}

/// Adding a segment is to grow by it.
proof fn lemma_plus_grows(
    values: Seq<Double>,
    start: int,
    segment: Seq<Double>,
    exact: spec_fn(int) -> real,
    term: real,
    bound: real,
)
    requires
        0 <= start,
        start + segment.len() <= values.len(),
        all_finite(plus_segment(values, start, segment)),
        forall|j: int|
            0 <= j < segment.len() && (#[trigger] segment[j]).finite() ==> size(
                value(segment[j]) - exact(j),
            ) <= term && size(exact(j)) <= bound,
    ensures
        list_grows(
            values,
            plus_segment(values, start, segment),
            segment_at(exact, start, segment.len() as int),
            term,
            bound,
        ),
{
    let after = plus_segment(values, start, segment);
    let part = segment_at(exact, start, segment.len() as int);
    assert forall|i: int| 0 <= i < values.len() implies grows(
        values[i],
        #[trigger] after[i],
        part(i),
        term,
        bound,
    ) by {
        assert(after[i].finite());
        if start <= i < start + segment.len() {
            let given = segment[i - start];
            assert(after[i] == values[i].sum(given));
            lemma_parts_of_sum(values[i], given);
        }
    }
}

/// The exact entry of w·Jᵀr.
pub open spec fn pull_of(knot: KnotEvaluation, weight: real) -> spec_fn(int) -> real {
    |c: int| weight * added(image_products(knot.jacobian@, knot.residual@, c), 6)
}

/// Whether no entry of a list is larger than a bound.
pub open spec fn list_bounded(values: Seq<Double>, most: real) -> bool {
    forall|i: int| 0 <= i < values.len() ==> size(value(#[trigger] values[i])) <= most
}

/// What is asked of a knot's evaluation.
pub open spec fn pull_bounded(knot: KnotEvaluation, n: nat, most: real) -> bool {
    &&& knot.shaped(n)
    &&& entries_bounded(knot.jacobian@, most)
    &&& list_bounded(knot.residual@, most)
}

/// The entries of w·Jᵀr, rounded.
proof fn lemma_pull_near(knot: KnotEvaluation, weight: Double, n: nat, c: int, most: real)
    requires
        pull_bounded(knot, n, most),
        1int as real <= most,
        size(value(weight)) <= most,
        0 <= c < n,
        weight.product(knot.gradient@[c]).finite(),
    ensures
        size(value(weight.product(knot.gradient@[c])) - pull_of(knot, value(weight))(c))
            <= term_error(most),
        size(pull_of(knot, value(weight))(c)) <= term_bound(most),
{
    lemma_half_ulp();
    lemma_least();
    lemma_least_is_small();
    let factor = knot.gradient@[c];
    lemma_parts_of_product(weight, factor);
    let terms = image_products(knot.jacobian@, knot.residual@, c);
    lemma_transposed_image_near(knot.jacobian@, n, knot.residual@, c);
    let square = most * most;
    assert forall|a: int| 0 <= a < 6 implies size(#[trigger] terms[a]) <= square by {
        assert(knot.jacobian@[a].len() == n);
        assert(size(value(knot.jacobian@[a][c])) <= most);
        assert(size(value(knot.residual@[a])) <= most);
        lemma_bounded_product(
            value(knot.jacobian@[a][c]),
            value(knot.residual@[a]),
            most,
            most,
        );
    }
    assert(added(terms, 6) == terms[0] + terms[1] + terms[2] + terms[3] + terms[4] + terms[5]) by {
        reveal_with_fuel(added, 7);
    }
    assert(sizes_added(terms, 6) == size(terms[0]) + size(terms[1]) + size(terms[2]) + size(
        terms[3],
    ) + size(terms[4]) + size(terms[5])) by {
        reveal_with_fuel(sizes_added, 7);
    }
    let h = half_ulp();
    lemma_scaled_order(h, sizes_added(terms, 6), (6int as real) * square);
    lemma_exchanges(h, 6int as real, square);
    lemma_cube(most);
    lemma_scaled_order(h, 1int as real, square);
    lemma_one(h);
    assert((14int as real) * ((6int as real) * (h * square)) + (12int as real) * least() <= (
    96int as real) * (h * square));
    assert(sum_rounding(terms, 6) == (14int as real) * (h * sizes_added(terms, 6)) + (12int as real)
        * least());
    assert(factor == transposed_image(knot.jacobian@, n, knot.residual@)[c]);
    assert(knot.jacobian@.len() == 6);
    let off = size(value(factor) - added(terms, 6));
    assert(off <= sum_rounding(terms, 6));
    assert(h * sizes_added(terms, 6) <= (6int as real) * (h * square));
    lemma_scaled_order(14int as real, h * sizes_added(terms, 6), (6int as real) * (h * square));
    lemma_weighted(weight, factor, added(terms, 6), most);
}

/// The slope of the tracking cost along a step: −w·Σ(J_kᵀr_k)·x_k over the first `count`
/// knots.
pub open spec fn tracking_slope(
    knots: Seq<KnotEvaluation>,
    weight: real,
    n: nat,
    count: nat,
    x: Seq<real>,
) -> real
    decreases count,
{
    if count == 0 {
        0int as real
    } else {
        let k = count - 1;
        tracking_slope(knots, weight, n, k as nat, x) - segment_inner(
            pull_of(knots[k], weight),
            k * n,
            n,
            x,
        )
    }
}

/// The inner product of an opposite.
proof fn lemma_opposite_inner(
    segment: spec_fn(int) -> real,
    opposite: spec_fn(int) -> real,
    start: int,
    count: nat,
    x: Seq<real>,
)
    requires
        forall|j: int| 0 <= j < count ==> #[trigger] opposite(j) == -segment(j),
    ensures
        segment_inner(opposite, start, count, x) == -segment_inner(segment, start, count, x),
    decreases count,
{
    if count > 0 {
        lemma_opposite_inner(segment, opposite, start, (count - 1) as nat, x);
        assert(opposite(count - 1) == -segment(count - 1));
        lemma_minus(segment(count - 1), x[start + count - 1]);
    }
}

proof fn lemma_tracking_length(
    values: Seq<Double>,
    knots: Seq<KnotEvaluation>,
    weight: Double,
    n: nat,
    count: nat,
)
    ensures
        tracking_gradient(values, knots, weight, n, count).len() == values.len(),
    decreases count,
{
    if count > 0 {
        lemma_tracking_length(values, knots, weight, n, (count - 1) as nat);
    }
}

/// The tracking gradient adds its slope.
proof fn lemma_tracking_has_slope(
    values: Seq<Double>,
    knots: Seq<KnotEvaluation>,
    weight: Double,
    n: nat,
    count: nat,
    x: Seq<real>,
    slope: real,
    start: nat,
    most: real,
    error: real,
    terms: real,
)
    requires
        values.len() == x.len(),
        values.len() == knots.len() * n,
        count <= knots.len(),
        forall|k: int| 0 <= k < knots.len() ==> pull_bounded(#[trigger] knots[k], n, most),
        has_slope(values, x, slope, start, term_bound(most), error),
        all_finite(tracking_gradient(values, knots, weight, n, count)),
        1int as real <= most,
        size(value(weight)) <= most,
        covers(term_error(most), term_bound(most), error, terms),
        ((start + count) as real) <= terms,
    ensures
        has_slope(
            tracking_gradient(values, knots, weight, n, count),
            x,
            slope + tracking_slope(knots, value(weight), n, count, x),
            start + count,
            term_bound(most),
            error,
        ),
    decreases count,
{
    if count > 0 {
        let k = count - 1;
        let (e0, b) = (term_error(most), term_bound(most));
        let before = tracking_gradient(values, knots, weight, n, k as nat);
        let after = tracking_gradient(values, knots, weight, n, count);
        let exact = pull_of(knots[k], value(weight));
        let opposite = |j: int| -exact(j);
        let segment = weighted(weight, knots[k].gradient@);
        let part = segment_at(opposite, k * n, n as int);
        lemma_tracking_length(values, knots, weight, n, k as nat);
        lemma_block_within(k, knots.len() as int, n as int);
        assert(pull_bounded(knots[k], n, most));
        assert forall|j: int| 0 <= j < segment.len() && (#[trigger] segment[j]).finite() implies
            size(value(segment[j]) - exact(j)) <= e0 && size(exact(j)) <= b by {
            lemma_pull_near(knots[k], weight, n, j, most);
        }
        lemma_minus_grows(before, k * n, segment, exact, opposite, e0, b);
        lemma_list_was_finite(before, after, part, e0, b);
        lemma_tracking_has_slope(
            values,
            knots,
            weight,
            n,
            k as nat,
            x,
            slope,
            start,
            most,
            error,
            terms,
        );
        lemma_segment_inner(opposite, k * n, n, x, x.len());
        lemma_opposite_inner(exact, opposite, k * n, n, x);
        lemma_grown_has_slope(
            before,
            after,
            part,
            x,
            slope + tracking_slope(knots, value(weight), n, k as nat, x),
            -segment_inner(exact, k * n, n, x),
            (start + k) as nat,
            e0,
            b,
            error,
            terms,
        );
    }
}

/// The sum of the products of the first `count` differences between two neighbouring knots,
/// of the knots and of the step.
pub open spec fn steps_multiplied(
    q_k: Seq<Double>,
    q_k1: Seq<Double>,
    start: int,
    n: int,
    count: nat,
    x: Seq<real>,
) -> real
    decreases count,
{
    if count == 0 {
        0int as real
    } else {
        let j = count - 1;
        let step = value(q_k1[j]) - value(q_k[j]);
        steps_multiplied(q_k, q_k1, start, n, j as nat, x) + step * (x[start + n + j] - x[start
            + j])
    }
}

/// The slope of the smoothness cost along a step: w·Σ(q_{k+1} − q_k)·(x_{k+1} − x_k) over the
/// first `count` intervals.
pub open spec fn smoothness_slope(
    knots: Seq<Vec<Double>>,
    weight: real,
    n: nat,
    count: nat,
    x: Seq<real>,
) -> real
    decreases count,
{
    if count == 0 {
        0int as real
    } else {
        let k = count - 1;
        smoothness_slope(knots, weight, n, k as nat, x) + weight * steps_multiplied(
            knots[k]@,
            knots[k + 1]@,
            k * n,
            n as int,
            n,
            x,
        )
    }
}

/// The exact entries of w·(q_{k+1} − q_k).
pub open spec fn step_of(q_k: Seq<Double>, q_k1: Seq<Double>, weight: real) -> spec_fn(
    int,
) -> real {
    |j: int| weight * (value(q_k1[j]) - value(q_k[j]))
}

/// The two segments of an interval together.
proof fn lemma_steps_multiplied(
    q_k: Seq<Double>,
    q_k1: Seq<Double>,
    weight: real,
    start: int,
    n: int,
    count: nat,
    x: Seq<real>,
)
    ensures
        segment_inner(step_of(q_k, q_k1, weight), start + n, count, x) - segment_inner(
            step_of(q_k, q_k1, weight),
            start,
            count,
            x,
        ) == weight * steps_multiplied(q_k, q_k1, start, n, count, x),
    decreases count,
{
    lemma_zero(weight);
    if count > 0 {
        let j = count - 1;
        lemma_steps_multiplied(q_k, q_k1, weight, start, n, j as nat, x);
        let step = value(q_k1[j]) - value(q_k[j]);
        let (near, far) = (x[start + j], x[start + n + j]);
        lemma_distributes(
            weight,
            steps_multiplied(q_k, q_k1, start, n, j as nat, x),
            step * (far - near),
        );
        lemma_distributes(weight * step, far, near);
        lemma_associates(weight, step, far - near);
    }
}

/// The entries of w·(q_{k+1} − q_k), rounded.
proof fn lemma_step_near(
    q_k: Seq<Double>,
    q_k1: Seq<Double>,
    weight: Double,
    j: int,
    most: real,
)
    requires
        0 <= j < q_k.len(),
        1int as real <= most,
        size(value(weight)) <= most,
        size(value(q_k[j])) <= most,
        size(value(q_k1[j])) <= most,
        weight.product(q_k1[j].difference(q_k[j])).finite(),
    ensures
        size(
            value(weight.product(q_k1[j].difference(q_k[j]))) - step_of(
                q_k,
                q_k1,
                value(weight),
            )(j),
        ) <= term_error(most),
        size(step_of(q_k, q_k1, value(weight))(j)) <= term_bound(most),
{
    lemma_half_ulp();
    lemma_cube(most);
    let factor = q_k1[j].difference(q_k[j]);
    lemma_parts_of_product(weight, factor);
    lemma_parts_of_sum(q_k1[j], q_k[j].negated());
    lemma_value_of_negated(q_k[j]);
    lemma_sum_error(q_k1[j], q_k[j].negated());
    let d = value(q_k1[j]) - value(q_k[j]);
    let h = half_ulp();
    lemma_scaled_order(h, size(d), (2int as real) * (most * most));
    lemma_exchanges(h, 2int as real, most * most);
    lemma_tiny(most * most);
    lemma_weighted(weight, factor, d, most);
}

proof fn lemma_smoothness_length(
    values: Seq<Double>,
    knots: Seq<Vec<Double>>,
    weight: Double,
    n: nat,
    count: nat,
)
    ensures
        smoothness_gradient(values, knots, weight, n, count).len() == values.len(),
    decreases count,
{
    if count > 0 {
        lemma_smoothness_length(values, knots, weight, n, (count - 1) as nat);
    }
}

/// The smoothness gradient adds its slope.
proof fn lemma_smoothness_has_slope(
    values: Seq<Double>,
    knots: Seq<Vec<Double>>,
    weight: Double,
    n: nat,
    count: nat,
    x: Seq<real>,
    slope: real,
    start: nat,
    most: real,
    error: real,
    terms: real,
)
    requires
        values.len() == x.len(),
        values.len() == knots.len() * n,
        count < knots.len(),
        knots_shaped(knots, n),
        forall|k: int| 0 <= k < knots.len() ==> list_bounded((#[trigger] knots[k])@, most),
        all_finite(values) ==> has_slope(values, x, slope, start, term_bound(most), error),
        all_finite(smoothness_gradient(values, knots, weight, n, count)),
        1int as real <= most,
        size(value(weight)) <= most,
        covers(term_error(most), term_bound(most), error, terms),
        ((start + 2 * count) as real) <= terms,
    ensures
        has_slope(
            smoothness_gradient(values, knots, weight, n, count),
            x,
            slope + smoothness_slope(knots, value(weight), n, count, x),
            start + 2 * count,
            term_bound(most),
            error,
        ),
        all_finite(values),
    decreases count,
{
    if count > 0 {
        let k = count - 1;
        let (e0, b) = (term_error(most), term_bound(most));
        let w = value(weight);
        let (q_k, q_k1) = (knots[k]@, knots[k + 1]@);
        assert(q_k.len() == n && q_k1.len() == n);
        assert(list_bounded(knots[k]@, most) && list_bounded(knots[k + 1]@, most));
        let before = smoothness_gradient(values, knots, weight, n, k as nat);
        let pull = weighted(weight, step_between(q_k, q_k1));
        let middle = minus_segment(before, k * n, pull);
        let after = plus_segment(middle, (k + 1) * n, pull);
        assert(after == smoothness_gradient(values, knots, weight, n, count));
        let exact = step_of(q_k, q_k1, w);
        let opposite = |j: int| -exact(j);
        let (p1, p2) = (
            segment_at(opposite, k * n, n as int),
            segment_at(exact, (k + 1) * n, n as int),
        );
        lemma_smoothness_length(values, knots, weight, n, k as nat);
        lemma_block_within(k, knots.len() as int, n as int);
        lemma_block_within(k + 1, knots.len() as int, n as int);
        assert((k + 1) * n == k * n + n) by (nonlinear_arith);
        assert forall|j: int| 0 <= j < pull.len() && (#[trigger] pull[j]).finite() implies size(
            value(pull[j]) - exact(j),
        ) <= e0 && size(exact(j)) <= b by {
            assert(pull[j] == weight.product(q_k1[j].difference(q_k[j])));
            lemma_step_near(q_k, q_k1, weight, j, most);
        }
        lemma_plus_grows(middle, (k + 1) * n, pull, exact, e0, b);
        lemma_list_was_finite(middle, after, p2, e0, b);
        lemma_minus_grows(before, k * n, pull, exact, opposite, e0, b);
        lemma_list_was_finite(before, middle, p1, e0, b);
        lemma_smoothness_has_slope(
            values,
            knots,
            weight,
            n,
            k as nat,
            x,
            slope,
            start,
            most,
            error,
            terms,
        );
        lemma_segment_inner(opposite, k * n, n, x, x.len());
        lemma_segment_inner(exact, (k + 1) * n, n, x, x.len());
        lemma_opposite_inner(exact, opposite, k * n, n, x);
        lemma_steps_multiplied(q_k, q_k1, w, k * n, n as int, n, x);
        let reached = slope + smoothness_slope(knots, w, n, k as nat, x);
        let (g1, g2) = (
            -segment_inner(exact, k * n, n, x),
            segment_inner(exact, (k + 1) * n, n, x),
        );
        let made = (start + 2 * k) as nat;
        lemma_grown_has_slope(before, middle, p1, x, reached, g1, made, e0, b, error, terms);
        lemma_grown_has_slope(middle, after, p2, x, reached + g1, g2, made + 1, e0, b, error, terms);
        assert(reached + g1 + g2 == slope + smoothness_slope(knots, w, n, count, x));
    }
}

/// The first `count` of the partials of an interval, along a step.
pub open spec fn gain_along(
    partials: Seq<(usize, Double)>,
    start: int,
    count: nat,
    x: Seq<real>,
) -> real
    decreases count,
{
    if count == 0 {
        0int as real
    } else {
        let partial = partials[count - 1];
        gain_along(partials, start, (count - 1) as nat, x) + value(partial.1) * x[start + partial.0]
    }
}

/// The slope of the penalty on backward motion along a step: w·Σs_k·(g_k·x) over those of
/// the first `count` intervals that are driven backward, where s_k is the progress and g_k
/// are its partials.
pub open spec fn backward_slope(
    knots: Seq<Vec<Double>>,
    headings: Seq<Heading>,
    base: BaseIndices,
    weight: Double,
    n: nat,
    count: nat,
    x: Seq<real>,
) -> real
    decreases count,
{
    if count == 0 {
        0int as real
    } else {
        let k = count - 1;
        let before = backward_slope(knots, headings, base, weight, n, k as nat, x);
        let progress = forward_progress(knots[k]@, knots[k + 1]@, base, headings[k]);
        let partials = progress_partials(knots[k]@, knots[k + 1]@, base, headings[k]);
        if (Double { bits: 0 }).less(weight) && progress.less(Double { bits: 0 }) {
            before + (value(weight) * value(progress)) * gain_along(partials, k * n, 6, x)
        } else {
            before
        }
    }
}

/// One more partial, rounded.
proof fn lemma_partial_near(weight: Double, progress: Double, partial: Double, most: real)
    requires
        1int as real <= most,
        size(value(weight)) <= most,
        size(value(progress)) <= most,
        size(value(partial)) <= most,
        weight.product(progress).product(partial).finite(),
    ensures
        ({
            let exact = value(partial) * (value(weight) * value(progress));
            &&& size(value(weight.product(progress).product(partial)) - exact) <= term_error(most)
            &&& size(exact) <= term_bound(most)
        }),
{
    lemma_half_ulp();
    lemma_least_is_small();
    lemma_cube(most);
    let factor = weight.product(progress);
    lemma_product_commutes(factor, partial);
    lemma_parts_of_product(factor, partial);
    lemma_product_error(weight, progress);
    lemma_bounded_product(value(weight), value(progress), most, most);
    let (h, square) = (half_ulp(), most * most);
    lemma_scaled_order(h, size(value(weight) * value(progress)), square);
    lemma_scaled_order(h, 1int as real, square);
    lemma_one(h);
    lemma_weighted(partial, factor, value(weight) * value(progress), most);
}

proof fn lemma_partials_length(
    values: Seq<Double>,
    start: int,
    factor: Double,
    partials: Seq<(usize, Double)>,
    count: nat,
)
    requires
        0 <= start,
        count <= 6 <= partials.len(),
        forall|i: int| 0 <= i < 6 ==> start + (#[trigger] partials[i]).0 < values.len(),
    ensures
        with_partials(values, start, factor, partials, count).len() == values.len(),
    decreases count,
{
    if count > 0 {
        lemma_partials_length(values, start, factor, partials, (count - 1) as nat);
        assert(start + partials[count - 1].0 < values.len());
    }
}

/// The partials of one interval add their slope.
proof fn lemma_partials_have_slope(
    values: Seq<Double>,
    start: int,
    weight: Double,
    progress: Double,
    partials: Seq<(usize, Double)>,
    count: nat,
    x: Seq<real>,
    slope: real,
    made: nat,
    most: real,
    error: real,
    terms: real,
)
    requires
        values.len() == x.len(),
        0 <= start,
        count <= 6 <= partials.len(),
        forall|i: int| 0 <= i < 6 ==> start + (#[trigger] partials[i]).0 < values.len(),
        partials_bounded(partials, most),
        1int as real <= most,
        size(value(weight)) <= most,
        size(value(progress)) <= most,
        all_finite(values) ==> has_slope(values, x, slope, made, term_bound(most), error),
        all_finite(with_partials(values, start, weight.product(progress), partials, count)),
        covers(term_error(most), term_bound(most), error, terms),
        ((made + count) as real) <= terms,
    ensures
        has_slope(
            with_partials(values, start, weight.product(progress), partials, count),
            x,
            slope + (value(weight) * value(progress)) * gain_along(partials, start, count, x),
            made + count,
            term_bound(most),
            error,
        ),
        all_finite(values),
    decreases count,
{
    let ws = value(weight) * value(progress);
    lemma_zero(ws);
    if count > 0 {
        let p = count - 1;
        let (e0, b) = (term_error(most), term_bound(most));
        let factor = weight.product(progress);
        let before = with_partials(values, start, factor, partials, p as nat);
        let after = with_partials(values, start, factor, partials, count);
        let partial = partials[p];
        let at = start + partial.0;
        let v = value(partial.1) * ws;
        let one = |j: int| v;
        let part = segment_at(one, at, 1);
        lemma_partials_length(values, start, factor, partials, p as nat);
        assert forall|i: int| 0 <= i < before.len() implies grows(
            before[i],
            #[trigger] after[i],
            part(i),
            e0,
            b,
        ) by {
            assert(after[i].finite());
            if i == at {
                let add = factor.product(partial.1);
                assert(after[i] == before[i].sum(add));
                lemma_parts_of_sum(before[i], add);
                lemma_partial_near(weight, progress, partial.1, most);
            }
        }
        lemma_list_was_finite(before, after, part, e0, b);
        lemma_partials_have_slope(
            values,
            start,
            weight,
            progress,
            partials,
            p as nat,
            x,
            slope,
            made,
            most,
            error,
            terms,
        );
        lemma_segment_inner(one, at, 1, x, x.len());
        reveal_with_fuel(segment_inner, 2);
        let before_gain = gain_along(partials, start, p as nat, x);
        lemma_distributes(ws, before_gain, value(partial.1) * x[at]);
        lemma_associates(ws, value(partial.1), x[at]);
        lemma_commutes(ws, value(partial.1));
        lemma_grown_has_slope(
            before,
            after,
            part,
            x,
            slope + ws * before_gain,
            v * x[at],
            (made + p) as nat,
            e0,
            b,
            error,
            terms,
        );
    }
}

proof fn lemma_backward_length(
    values: Seq<Double>,
    knots: Seq<Vec<Double>>,
    headings: Seq<Heading>,
    base: BaseIndices,
    weight: Double,
    n: nat,
    count: nat,
)
    requires
        values.len() == knots.len() * n,
        count < knots.len(),
        knots_shaped(knots, n),
        base.within(n),
        2 * n <= usize::MAX,
    ensures
        backward_gradient(values, knots, headings, base, weight, n, count).len() == values.len(),
    decreases count,
{
    if count > 0 {
        let k = count - 1;
        let progress = forward_progress(knots[k]@, knots[k + 1]@, base, headings[k]);
        let partials = progress_partials(knots[k]@, knots[k + 1]@, base, headings[k]);
        lemma_backward_length(values, knots, headings, base, weight, n, k as nat);
        assert(knots[k]@.len() == n);
        lemma_block_within(k, knots.len() as int, n as int);
        lemma_block_within(k + 1, knots.len() as int, n as int);
        assert((k + 1) * n == k * n + n) by (nonlinear_arith);
        lemma_partials_within(partials, knots[k]@, knots[k + 1]@, base, headings[k]);
        lemma_partials_length(
            backward_gradient(values, knots, headings, base, weight, n, k as nat),
            k * n,
            weight.product(progress),
            partials,
            6,
        );
    }
}

/// Whether the progress of every interval and its partials are not larger than a bound.
pub open spec fn progress_bounded(
    knots: Seq<Vec<Double>>,
    headings: Seq<Heading>,
    base: BaseIndices,
    most: real,
) -> bool {
    forall|k: int|
        0 <= k < knots.len() - 1 ==> size(
            value(#[trigger] forward_progress(knots[k]@, knots[k + 1]@, base, headings[k])),
        ) <= most && partials_bounded(
            progress_partials(knots[k]@, knots[k + 1]@, base, headings[k]),
            most,
        )
}

/// The gradient of the penalty on backward motion adds its slope.
proof fn lemma_backward_has_slope(
    values: Seq<Double>,
    knots: Seq<Vec<Double>>,
    headings: Seq<Heading>,
    base: BaseIndices,
    weight: Double,
    n: nat,
    count: nat,
    x: Seq<real>,
    slope: real,
    start: nat,
    most: real,
    error: real,
    terms: real,
)
    requires
        values.len() == x.len(),
        values.len() == knots.len() * n,
        count < knots.len(),
        knots_shaped(knots, n),
        base.within(n),
        2 * n <= usize::MAX,
        progress_bounded(knots, headings, base, most),
        all_finite(values) ==> has_slope(values, x, slope, start, term_bound(most), error),
        all_finite(backward_gradient(values, knots, headings, base, weight, n, count)),
        1int as real <= most,
        size(value(weight)) <= most,
        covers(term_error(most), term_bound(most), error, terms),
        ((start + 6 * count) as real) <= terms,
    ensures
        has_slope(
            backward_gradient(values, knots, headings, base, weight, n, count),
            x,
            slope + backward_slope(knots, headings, base, weight, n, count, x),
            start + 6 * count,
            term_bound(most),
            error,
        ),
        all_finite(values),
    decreases count,
{
    if count > 0 {
        let k = count - 1;
        let before = backward_gradient(values, knots, headings, base, weight, n, k as nat);
        let progress = forward_progress(knots[k]@, knots[k + 1]@, base, headings[k]);
        let partials = progress_partials(knots[k]@, knots[k + 1]@, base, headings[k]);
        let reached = slope + backward_slope(knots, headings, base, weight, n, k as nat, x);
        let made = (start + 6 * k) as nat;
        assert(knots[k]@.len() == n);
        lemma_backward_length(values, knots, headings, base, weight, n, k as nat);
        lemma_block_within(k, knots.len() as int, n as int);
        lemma_block_within(k + 1, knots.len() as int, n as int);
        assert((k + 1) * n == k * n + n) by (nonlinear_arith);
        lemma_partials_within(partials, knots[k]@, knots[k + 1]@, base, headings[k]);
        lemma_cube(most);
        assert(size(value(progress)) <= most && partials_bounded(partials, most));
        if all_finite(before) {
            lemma_backward_has_slope(
                values,
                knots,
                headings,
                base,
                weight,
                n,
                k as nat,
                x,
                slope,
                start,
                most,
                error,
                terms,
            );
        }
        if penalized(weight, progress) {
            lemma_partials_have_slope(
                before,
                k * n,
                weight,
                progress,
                partials,
                6,
                x,
                reached,
                made,
                most,
                error,
                terms,
            );
        } else {
            lemma_more_slope_terms(
                before,
                x,
                reached,
                made,
                start + 6 * count,
                term_bound(most),
                error,
            );
        }
    }
}

/// The slope of the cost along a step: in soft mode that of the tracking cost, that of the
/// smoothness cost, and that of the penalty on the intervals that are driven backward.
pub open spec fn cost_slope(
    knots: Seq<Vec<Double>>,
    evaluation: Evaluation,
    config: TrajectoryConfig,
    base: BaseIndices,
    n: nat,
    x: Seq<real>,
) -> real {
    let count = knots.len();
    let intervals = (count - 1) as nat;
    let tracking = if config.ee_tracking == EeTracking::Soft {
        tracking_slope(evaluation.knots@, value(config.ee_weight), n, count, x)
    } else {
        0int as real
    };
    tracking + smoothness_slope(knots, value(config.smoothness_weight), n, intervals, x)
        + backward_slope(
        knots,
        evaluation.headings@,
        base,
        config.backward_weight,
        n,
        intervals,
        x,
    )
}

/// By how much rounding can change an entry of the linear term: of `count` knots, with
/// weights, knots, readings and partials that are not larger than `most`.
pub open spec fn slope_rounding(most: real, count: nat) -> real {
    let terms = (9 * count) as real;
    terms * ((2int as real) * (term_error(most) + half_ulp() * (terms * term_bound(most))))
}

/// The linear term of a subproblem is the slope of the cost: at every x the inner product
/// q·x is the slope of the cost along x, up to rounding.
pub proof fn lemma_linear_term_is_the_slope(
    knots: Seq<Vec<Double>>,
    evaluation: Evaluation,
    config: TrajectoryConfig,
    base: BaseIndices,
    n: nat,
    most: real,
    x: Seq<real>,
)
    requires
        2 <= knots.len() <= 400000000000000,
        knots_shaped(knots, n),
        evaluation.shaped(knots.len(), n),
        base.within(n),
        2 * n <= usize::MAX,
        x.len() == knots.len() * n,
        all_finite(linear_term(knots, evaluation, config, base, n)),
        1int as real <= most,
        size(value(config.ee_weight)) <= most,
        size(value(config.smoothness_weight)) <= most,
        size(value(config.backward_weight)) <= most,
        forall|k: int| 0 <= k < knots.len() ==> list_bounded((#[trigger] knots[k])@, most),
        forall|k: int|
            0 <= k < knots.len() ==> pull_bounded(#[trigger] evaluation.knots@[k], n, most),
        progress_bounded(knots, evaluation.headings@, base, most),
    ensures
        ({
            let q = linear_term(knots, evaluation, config, base, n);
            size(
                inner_upto(|i: int| value(q[i]), x, x.len()) - cost_slope(
                    knots,
                    evaluation,
                    config,
                    base,
                    n,
                    x,
                ),
            ) <= slope_rounding(most, knots.len()) * sizes_upto(x, x.len())
        }),
{
    let count = knots.len();
    let intervals = (count - 1) as nat;
    let (e0, b) = (term_error(most), term_bound(most));
    let terms = (9 * count) as real;
    let h = half_ulp();
    let error = (2int as real) * (e0 + h * (terms * b));
    let zero = 0int as real;
    lemma_half_ulp();
    lemma_cube(most);
    // The error per term covers its rounding.
    assert(covers(e0, b, error, terms)) by {
        lemma_scaled_order(terms, zero, b);
        lemma_zero(terms);
        lemma_scaled_order(h, zero, terms * b);
        lemma_zero(h);
        lemma_distributes(terms, b, error);
        lemma_distributes(h, terms * b, terms * error);
        lemma_associates(h, terms, error);
        lemma_scaled_order(h, terms, (4200000000000000int as real));
        assert(h * (9007199254740992int as real) == 1int as real);
        lemma_scaled_order(error, h * terms, (1int as real) / (2int as real));
    }
    let empty = zero_row(count * n);
    let nothing = |i: int| zero;
    lemma_value_of_zero(Double { bits: 0 });
    lemma_zero(error);
    lemma_zero(b);
    lemma_commutes(error, zero);
    lemma_commutes(b, zero);
    lemma_inner_adds(nothing, nothing, nothing, x, x.len());
    assert(list_rounds_to(empty, nothing, 0, b, error)) by {
        assert((0nat as real) == zero);
        assert forall|i: int| 0 <= i < empty.len() implies size(
            value(#[trigger] empty[i]) - nothing(i),
        ) <= (0nat as real) * error && size(nothing(i)) <= (0nat as real) * b by {
            assert(empty[i] == (Double { bits: 0 }));
        }
    }
    assert(has_slope(empty, x, zero, 0, b, error));
    let soft = config.ee_tracking == EeTracking::Soft;
    let followed = if soft {
        tracking_gradient(empty, evaluation.knots@, config.ee_weight, n, count)
    } else {
        empty
    };
    let smooth = smoothness_gradient(followed, knots, config.smoothness_weight, n, intervals);
    let q = linear_term(knots, evaluation, config, base, n);
    let tracking = if soft {
        tracking_slope(evaluation.knots@, value(config.ee_weight), n, count, x)
    } else {
        zero
    };
    let smoothness = smoothness_slope(knots, value(config.smoothness_weight), n, intervals, x);
    lemma_tracking_length(empty, evaluation.knots@, config.ee_weight, n, count);
    lemma_smoothness_length(followed, knots, config.smoothness_weight, n, intervals);
    lemma_backward_length(
        smooth,
        knots,
        evaluation.headings@,
        base,
        config.backward_weight,
        n,
        intervals,
    );
    if soft {
        if all_finite(followed) {
            lemma_tracking_has_slope(
                empty,
                evaluation.knots@,
                config.ee_weight,
                n,
                count,
                x,
                zero,
                0,
                most,
                error,
                terms,
            );
        }
    } else {
        lemma_more_slope_terms(empty, x, zero, 0, count, b, error);
    }
    if all_finite(smooth) {
        lemma_smoothness_has_slope(
            followed,
            knots,
            config.smoothness_weight,
            n,
            intervals,
            x,
            tracking,
            count,
            most,
            error,
            terms,
        );
    }
    lemma_backward_has_slope(
        smooth,
        knots,
        evaluation.headings@,
        base,
        config.backward_weight,
        n,
        intervals,
        x,
        tracking + smoothness,
        count + 2 * intervals,
        most,
        error,
        terms,
    );
    let made = count + 8 * intervals;
    let reached = cost_slope(knots, evaluation, config, base, n, x);
    let exact = choose|exact: spec_fn(int) -> real|
        #[trigger] list_rounds_to(q, exact, made, b, error) && inner_upto(exact, x, x.len())
            == reached;
    let rounded = |i: int| value(q[i]);
    lemma_scaled_order(error, made as real, terms);
    assert forall|i: int| 0 <= i < x.len() implies size(#[trigger] rounded(i) - exact(i)) <= terms
        * error by {
        assert(size(value(q[i]) - exact(i)) <= (made as real) * error);
    }
    lemma_inner_near(rounded, exact, terms * error, x, x.len());
}

/// The inner products with two lists that are near each other are.
proof fn lemma_inner_near(
    a: spec_fn(int) -> real,
    b: spec_fn(int) -> real,
    off: real,
    x: Seq<real>,
    count: nat,
)
    requires
        forall|i: int| 0 <= i < count ==> size(#[trigger] a(i) - b(i)) <= off,
    ensures
        size(inner_upto(a, x, count) - inner_upto(b, x, count)) <= off * sizes_upto(x, count),
    decreases count,
{
    lemma_zero(off);
    if count > 0 {
        let i = count - 1;
        lemma_inner_near(a, b, off, x, i as nat);
        assert(size(a(i) - b(i)) <= off);
        lemma_distributes(x[i], a(i), b(i));
        lemma_bounded_product(a(i) - b(i), x[i], off, size(x[i]));
        lemma_distributes(off, sizes_upto(x, i as nat), size(x[i]));
    }
}

} // verus!
