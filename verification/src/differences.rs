//! The partials of the slip and of the progress are their central differences.

use crate::diagnostics::{lateral_slip, BaseIndices, Heading};
use crate::double::{Double, HALF};
use crate::error::{
    half_ulp, lemma_distributes, lemma_half_ulp, lemma_least, lemma_least_is_small,
    lemma_scaled_order, lemma_size_of_product, lemma_sum_error, size, value,
};
use crate::finiteness::{lemma_parts_of_product, lemma_parts_of_sum};
use crate::linearization::{forward_progress, progress_partials, slip_partials};
use crate::range::{lemma_product_within, lemma_sum_within, within};
use crate::reals::{
    lemma_associates, lemma_bounded_product, lemma_commutes, lemma_minus, lemma_zero,
};
use crate::slip::{
    lemma_position_partials, lemma_progress_is_slip_across, lemma_value_of_half,
    lemma_value_of_negated, lemma_yaw_partials, moderate, quarter_back, slack, travel_x, travel_y,
};
use vstd::prelude::*;

verus! {

/// An interval with a step added to one place of [q_k ‖ q_k1].
pub open spec fn ahead_of(
    q_k: Seq<Double>,
    q_k1: Seq<Double>,
    place: int,
    step: Double,
) -> (Seq<Double>, Seq<Double>) {
    let n = q_k.len() as int;
    if place < n {
        (q_k.update(place, q_k[place].sum(step)), q_k1)
    } else {
        (q_k, q_k1.update(place - n, q_k1[place - n].sum(step)))
    }
}

/// An interval with a step taken off one place of [q_k ‖ q_k1].
pub open spec fn behind_of(
    q_k: Seq<Double>,
    q_k1: Seq<Double>,
    place: int,
    step: Double,
) -> (Seq<Double>, Seq<Double>) {
    ahead_of(q_k, q_k1, place, step.negated())
}

/// The partial that is listed for a place, or zero where none is.
pub open spec fn listed(partials: Seq<(usize, Double)>, place: int) -> real
    decreases partials.len(),
{
    if partials.len() == 0 {
        0int as real
    } else if partials.last().0 == place {
        value(partials.last().1)
    } else {
        listed(partials.drop_last(), place)
    }
}

/// Ten to the minus sixth.
pub open spec fn millionth() -> real {
    (1int as real) / (1000000int as real)
}

/// Whether a step is ten to the minus sixth, to a billionth of it.
pub open spec fn is_small_step(step: Double) -> bool {
    &&& step.finite()
    &&& size(value(step) - millionth()) <= millionth() / (1000000000int as real)
}

/// Whether the base stays within 99 of the origin, along x and y.
pub open spec fn near_origin(q: Seq<Double>, base: BaseIndices) -> bool {
    &&& q[base.x as int].finite() && q[base.y as int].finite()
    &&& size(value(q[base.x as int])) <= 99int as real
    &&& size(value(q[base.y as int])) <= 99int as real
}

/// What is asked of the headings at the two ends of a central difference: off the yaws
/// they are the heading itself; on a yaw, where the midpoint turns by the step in all,
/// the sine and cosine change as their derivatives say, to 2e-15.
pub open spec fn headings_follow(
    heading: Heading,
    behind: Heading,
    ahead: Heading,
    turns: bool,
    step: Double,
) -> bool {
    &&& moderate(heading) && moderate(behind) && moderate(ahead)
    &&& if turns {
        let off = (2int as real) / (1000000000000000int as real);
        &&& size(value(ahead.sin) - value(behind.sin) - value(heading.cos) * value(step)) <= off
        &&& size(value(ahead.cos) - value(behind.cos) + value(heading.sin) * value(step)) <= off
    } else {
        behind == heading && ahead == heading
    }
}

/// Whether a place is one of the two yaws.
pub open spec fn is_yaw(place: int, base: BaseIndices, n: int) -> bool {
    place == base.yaw || place == n + base.yaw
}

/// Whether two values of a quantity, at the two ends of a step either way, have a slope
/// as their central difference, to ten to the minus sixth.
pub open spec fn is_central_difference(
    behind: Double,
    ahead: Double,
    step: Double,
    slope: real,
) -> bool {
    size((value(ahead) - value(behind)) / ((2int as real) * value(step)) - slope) <= millionth()
}

/// A quotient is near a slope where the numerator is near its multiple.
proof fn lemma_quotient_near(a: real, b: real, slope: real, near: real)
    requires
        b > 0int as real,
        size(a - b * slope) <= b * near,
    ensures
        size(a / b - slope) <= near,
{
    let q = a / b;
    assert(b * q == a) by (nonlinear_arith)
        requires
            q == a / b,
            b > 0int as real,
    ;
    lemma_distributes(b, q, slope);
    lemma_size_of_product(b, q - slope);
    assert(b * size(q - slope) <= b * near);
    if size(q - slope) > near {
        lemma_above(b, near, size(q - slope));
    }
}

proof fn lemma_above(b: real, low: real, high: real)
    by (nonlinear_arith)
    requires
        b > 0int as real,
        low < high,
    ensures
        b * low < b * high,
{
}

/// How large a slack is near the origin.
proof fn lemma_slack_is_small(x: real, y: real)
    requires
        size(x) <= 200int as real,
        size(y) <= 200int as real,
    ensures
        slack(x, y) <= (3203int as real) * half_ulp(),
{
    lemma_half_ulp();
    lemma_least();
    lemma_least_is_small();
    let h = half_ulp();
    lemma_scaled_order((8int as real) * h, size(x) + size(y), 400int as real);
}

/// A place that is moved by a step either way is two steps further, to rounding.
proof fn lemma_moved_place(z: Double, step: Double)
    requires
        z.sum(step).finite(),
        z.sum(step.negated()).finite(),
        step.finite(),
        size(value(z)) <= 99int as real,
        size(value(step)) <= 1int as real,
    ensures
        size(value(z.sum(step)) - value(z.sum(step.negated())) - (2int as real) * value(step))
            <= (200int as real) * half_ulp(),
        size(value(z.sum(step))) <= 101int as real,
        size(value(z.sum(step.negated()))) <= 101int as real,
{
    lemma_half_ulp();
    lemma_value_of_negated(step);
    lemma_sum_error(z, step);
    lemma_sum_error(z, step.negated());
    let h = half_ulp();
    lemma_scaled_order(h, size(value(z) + value(step)), 100int as real);
    lemma_scaled_order(h, size(value(z) - value(step)), 100int as real);
}

/// The numerator of a central difference over one position.
proof fn lemma_position_numerator(change: real, slope: real, gap: real, step: real, rough: real)
    requires
        size(change - slope * gap) <= rough,
        size(slope) <= 2int as real,
        size(gap - (2int as real) * step) <= (200int as real) * half_ulp(),
        rough <= (6406int as real) * half_ulp(),
        step >= millionth() / (2int as real),
    ensures
        size(change - ((2int as real) * step) * slope) <= ((2int as real) * step) * millionth(),
{
    lemma_half_ulp();
    let h = half_ulp();
    let b = (2int as real) * step;
    lemma_distributes(slope, gap, b);
    lemma_bounded_product(slope, gap - b, 2int as real, (200int as real) * h);
    lemma_commutes(slope, b);
    lemma_scaled_order(millionth(), millionth(), b);
    assert(size(change - b * slope) <= (6806int as real) * h);
    assert((6806int as real) * h <= millionth() * millionth()) by {
        assert(h * (9007199254740992int as real) == 1int as real);
        assert(millionth() * millionth() == (1int as real) / (1000000000000int as real))
            by (nonlinear_arith);
    }
    lemma_commutes(millionth(), b);
}

/// The numerator of a central difference over one yaw.
proof fn lemma_yaw_numerator(
    change: real,
    slope: real,
    step: real,
    off: real,
    travelled: real,
    rough: real,
)
    requires
        size(change - (2int as real) * slope * step) <= off * travelled + ((2int as real) + (
        4int as real) * size(step)) * rough,
        off == (2int as real) / (1000000000000000int as real),
        travelled <= 400int as real,
        size(step) <= (2int as real) * millionth(),
        step >= (999int as real) / (1000int as real) * millionth(),
        0int as real <= rough,
        rough <= (3203int as real) * half_ulp(),
    ensures
        size(change - ((2int as real) * step) * slope) <= ((2int as real) * step) * millionth(),
{
    lemma_half_ulp();
    let h = half_ulp();
    let b = (2int as real) * step;
    lemma_associates(2int as real, slope, step);
    lemma_associates(2int as real, step, slope);
    lemma_commutes(slope, step);
    lemma_scaled_order(off, travelled, 400int as real);
    lemma_scaled_order(rough, (2int as real) + (4int as real) * size(step), (201int as real) / (
    100int as real));
    let low = (999int as real) / (500int as real) * millionth();
    lemma_scaled_order(millionth(), low, b);
    lemma_commutes(millionth(), b);
    assert(millionth() * low == (999int as real) / (500000000000000int as real))
        by (nonlinear_arith)
        requires
            millionth() == (1int as real) / (1000000int as real),
            low == (999int as real) / (500int as real) * millionth(),
    ;
    assert(h * (9007199254740992int as real) == 1int as real);
}

/// What a law on central differences asks of an interval and of a place in it.
pub open spec fn may_differ(
    q_k: Seq<Double>,
    q_k1: Seq<Double>,
    base: BaseIndices,
    place: int,
    step: Double,
) -> bool {
    let n = q_k.len() as int;
    &&& q_k1.len() == n
    &&& n + n <= usize::MAX
    &&& base.within(n as nat)
    &&& base.x != base.y && base.x != base.yaw && base.y != base.yaw
    &&& 0 <= place < n + n
    &&& is_small_step(step)
    &&& near_origin(q_k, base)
    &&& near_origin(q_k1, base)
}

/// The six places of the slip's partials.
proof fn lemma_listed_slip(
    q_k: Seq<Double>,
    q_k1: Seq<Double>,
    base: BaseIndices,
    heading: Heading,
    place: int,
    step: Double,
)
    requires
        may_differ(q_k, q_k1, base, place, step),
    ensures
        ({
            let n = q_k.len() as int;
            let partials = slip_partials(q_k, q_k1, base, heading);
            let slope = listed(partials, place);
            &&& place == base.x ==> slope == value(partials[0].1)
            &&& place == base.y ==> slope == value(partials[1].1)
            &&& place == base.yaw ==> slope == value(partials[2].1)
            &&& place == n + base.x ==> slope == value(partials[3].1)
            &&& place == n + base.y ==> slope == value(partials[4].1)
            &&& place == n + base.yaw ==> slope == value(partials[5].1)
            &&& place != base.x && place != base.y && place != base.yaw && place != n + base.x
                && place != n + base.y && place != n + base.yaw ==> slope == 0int as real
        }),
{
    let partials = slip_partials(q_k, q_k1, base, heading);
    let five = partials.drop_last();
    let four = five.drop_last();
    let three = four.drop_last();
    let two = three.drop_last();
    let one = two.drop_last();
    assert(one.drop_last().len() == 0);
    reveal_with_fuel(listed, 7);
}

/// The numerator over a position: the slip changes by its partial times the step.
proof fn lemma_slip_over_position(
    q_k: Seq<Double>,
    q_k1: Seq<Double>,
    base: BaseIndices,
    heading: Heading,
    place: int,
    step: Double,
)
    requires
        may_differ(q_k, q_k1, base, place, step),
        moderate(heading),
        !is_yaw(place, base, q_k.len() as int),
        ({
            let (b_k, b_k1) = behind_of(q_k, q_k1, place, step);
            let (a_k, a_k1) = ahead_of(q_k, q_k1, place, step);
            &&& lateral_slip(b_k, b_k1, base, heading).finite()
            &&& lateral_slip(a_k, a_k1, base, heading).finite()
        }),
    ensures
        ({
            let (b_k, b_k1) = behind_of(q_k, q_k1, place, step);
            let (a_k, a_k1) = ahead_of(q_k, q_k1, place, step);
            let slope = listed(slip_partials(q_k, q_k1, base, heading), place);
            size(
                value(lateral_slip(a_k, a_k1, base, heading)) - value(
                    lateral_slip(b_k, b_k1, base, heading),
                ) - ((2int as real) * value(step)) * slope,
            ) <= ((2int as real) * value(step)) * millionth()
        }),
{
    let n = q_k.len() as int;
    let (b_k, b_k1) = behind_of(q_k, q_k1, place, step);
    let (a_k, a_k1) = ahead_of(q_k, q_k1, place, step);
    let (x, y) = (base.x as int, base.y as int);
    let slope = listed(slip_partials(q_k, q_k1, base, heading), place);
    lemma_listed_slip(q_k, q_k1, base, heading, place, step);
    lemma_half_ulp();
    lemma_value_of_negated(heading.sin);
    lemma_value_of_negated(heading.cos);
    let change = value(lateral_slip(a_k, a_k1, base, heading)) - value(
        lateral_slip(b_k, b_k1, base, heading),
    );
    let partials = slip_partials(b_k, b_k1, base, heading);
    lemma_zero(value(partials[0].1));
    lemma_zero(value(partials[1].1));
    lemma_zero(value(partials[3].1));
    lemma_zero(value(partials[4].1));
    lemma_slip_has_finite_parts(a_k, a_k1, base, heading);
    lemma_slip_has_finite_parts(b_k, b_k1, base, heading);
    if place == x || place == y || place == n + x || place == n + y {
        let z = if place < n {
            q_k[place]
        } else {
            q_k1[place - n]
        };
        lemma_moved_place(z, step);
        lemma_position_partials(b_k, b_k1, a_k, a_k1, base, heading);
        lemma_slack_is_small(travel_x(b_k, b_k1, base), travel_y(b_k, b_k1, base));
        lemma_slack_is_small(travel_x(a_k, a_k1, base), travel_y(a_k, a_k1, base));
        let gap = value(z.sum(step)) - value(z.sum(step.negated()));
        let rough = slack(travel_x(b_k, b_k1, base), travel_y(b_k, b_k1, base)) + slack(
            travel_x(a_k, a_k1, base),
            travel_y(a_k, a_k1, base),
        );
        assert(size(change - slope * gap) <= rough);
        lemma_position_numerator(change, slope, gap, value(step), rough);
    } else {
        assert(change == 0int as real);
        lemma_zero((2int as real) * value(step));
        lemma_scaled_order(millionth(), 0int as real, (2int as real) * value(step));
        lemma_zero(millionth());
        lemma_commutes(millionth(), 0int as real);
    }
}

/// The coordinates of a finite slip are finite.
proof fn lemma_slip_has_finite_parts(
    q_k: Seq<Double>,
    q_k1: Seq<Double>,
    base: BaseIndices,
    heading: Heading,
)
    requires
        lateral_slip(q_k, q_k1, base, heading).finite(),
    ensures
        q_k[base.x as int].finite(),
        q_k[base.y as int].finite(),
        q_k1[base.x as int].finite(),
        q_k1[base.y as int].finite(),
{
    let (x, y) = (base.x as int, base.y as int);
    let dx = q_k1[x].difference(q_k[x]);
    let dy = q_k1[y].difference(q_k[y]);
    lemma_parts_of_sum(heading.sin.product(dx), heading.cos.product(dy).negated());
    lemma_parts_of_product(heading.sin, dx);
    lemma_parts_of_product(heading.cos, dy);
    lemma_parts_of_sum(q_k1[x], q_k[x].negated());
    lemma_parts_of_sum(q_k1[y], q_k[y].negated());
}

/// The slip, the progress and their yaw partials of a base that is not far out are
/// finite.
proof fn lemma_terms_in_range(
    q_k: Seq<Double>,
    q_k1: Seq<Double>,
    base: BaseIndices,
    heading: Heading,
)
    requires
        base_within(q_k, base),
        base_within(q_k1, base),
        moderate(heading),
    ensures
        lateral_slip(q_k, q_k1, base, heading).finite(),
        forward_progress(q_k, q_k1, base, heading).finite(),
        slip_partials(q_k, q_k1, base, heading)[2].1.finite(),
        progress_partials(q_k, q_k1, base, heading)[2].1.finite(),
{
    let (x, y) = (base.x as int, base.y as int);
    let most = 200int as real;
    lemma_value_of_negated(q_k[x]);
    lemma_value_of_negated(q_k[y]);
    lemma_sum_within(q_k1[x], q_k[x].negated(), most, most);
    lemma_sum_within(q_k1[y], q_k[y].negated(), most, most);
    let dx = q_k1[x].difference(q_k[x]);
    let dy = q_k1[y].difference(q_k[y]);
    let (two, wide) = (2int as real, 800int as real);
    lemma_product_within(heading.sin, dx, two, wide);
    lemma_product_within(heading.sin, dy, two, wide);
    lemma_product_within(heading.cos, dx, two, wide);
    lemma_product_within(heading.cos, dy, two, wide);
    let (a, b) = (heading.sin.product(dx), heading.cos.product(dy));
    let (c, d) = (heading.cos.product(dx), heading.sin.product(dy));
    let part = 3201int as real;
    lemma_value_of_negated(a);
    lemma_value_of_negated(b);
    lemma_sum_within(a, b.negated(), part, part);
    lemma_sum_within(b, a.negated(), part, part);
    lemma_sum_within(c, d, part, part);
    lemma_value_of_half();
    let half = Double { bits: HALF };
    lemma_product_within(half, c.sum(d), 1int as real, 12804int as real);
    lemma_product_within(half, b.sum(a.negated()), 1int as real, 12804int as real);
}

/// Whether the base stays within 200 of the origin, along x and y.
spec fn base_within(q: Seq<Double>, base: BaseIndices) -> bool {
    within(q[base.x as int], 200int as real) && within(q[base.y as int], 200int as real)
}

/// The ends of a central difference are not far out.
proof fn lemma_ends_in_range(
    q_k: Seq<Double>,
    q_k1: Seq<Double>,
    base: BaseIndices,
    place: int,
    step: Double,
)
    requires
        may_differ(q_k, q_k1, base, place, step),
    ensures
        base_within(q_k, base),
        base_within(q_k1, base),
        base_within(ahead_of(q_k, q_k1, place, step).0, base),
        base_within(ahead_of(q_k, q_k1, place, step).1, base),
        base_within(behind_of(q_k, q_k1, place, step).0, base),
        base_within(behind_of(q_k, q_k1, place, step).1, base),
{
    let n = q_k.len() as int;
    let (x, y) = (base.x as int, base.y as int);
    lemma_value_of_negated(step);
    if place == x || place == y || place == n + x || place == n + y {
        let z = if place < n {
            q_k[place]
        } else {
            q_k1[place - n]
        };
        lemma_sum_within(z, step, 99int as real, 1int as real);
        lemma_sum_within(z, step.negated(), 99int as real, 1int as real);
    }
}

/// The partials of the slip are its central differences, over each of the places of
/// [q_k ‖ q_k1], with a step of 1e-6: the partial that is listed for the place, or zero
/// where none is, to 1e-6. `behind` and `ahead` are the headings at the midpoint yaws
/// of the two ends.
pub proof fn lemma_slip_partials_are_central_differences(
    q_k: Seq<Double>,
    q_k1: Seq<Double>,
    base: BaseIndices,
    heading: Heading,
    behind: Heading,
    ahead: Heading,
    place: int,
    step: Double,
)
    requires
        may_differ(q_k, q_k1, base, place, step),
        headings_follow(heading, behind, ahead, is_yaw(place, base, q_k.len() as int), step),
    ensures
        ({
            let (b_k, b_k1) = behind_of(q_k, q_k1, place, step);
            let (a_k, a_k1) = ahead_of(q_k, q_k1, place, step);
            is_central_difference(
                lateral_slip(b_k, b_k1, base, behind),
                lateral_slip(a_k, a_k1, base, ahead),
                step,
                listed(slip_partials(q_k, q_k1, base, heading), place),
            )
        }),
{
    let n = q_k.len() as int;
    let (b_k, b_k1) = behind_of(q_k, q_k1, place, step);
    let (a_k, a_k1) = ahead_of(q_k, q_k1, place, step);
    let slope = listed(slip_partials(q_k, q_k1, base, heading), place);
    let change = value(lateral_slip(a_k, a_k1, base, ahead)) - value(
        lateral_slip(b_k, b_k1, base, behind),
    );
    lemma_ends_in_range(q_k, q_k1, base, place, step);
    lemma_terms_in_range(q_k, q_k1, base, heading);
    lemma_terms_in_range(b_k, b_k1, base, behind);
    lemma_terms_in_range(a_k, a_k1, base, ahead);
    if is_yaw(place, base, n) {
        lemma_listed_slip(q_k, q_k1, base, heading, place, step);
        assert(lateral_slip(a_k, a_k1, base, ahead) == lateral_slip(q_k, q_k1, base, ahead));
        assert(lateral_slip(b_k, b_k1, base, behind) == lateral_slip(q_k, q_k1, base, behind));
        let off = (2int as real) / (1000000000000000int as real);
        lemma_yaw_partials(q_k, q_k1, base, heading, behind, ahead, value(step), off);
        let (x, y) = (travel_x(q_k, q_k1, base), travel_y(q_k, q_k1, base));
        lemma_slack_is_small(x, y);
        lemma_half_ulp();
        lemma_least();
        lemma_scaled_order((8int as real) * half_ulp(), 0int as real, size(x) + size(y));
        lemma_zero((8int as real) * half_ulp());
        lemma_yaw_numerator(change, slope, value(step), off, size(x) + size(y), slack(x, y));
    } else {
        lemma_slip_over_position(q_k, q_k1, base, heading, place, step);
    }
    lemma_quotient_near(change, (2int as real) * value(step), slope, millionth());
}

/// The partials of the forward progress are its central differences, as those of the
/// slip are.
pub proof fn lemma_progress_partials_are_central_differences(
    q_k: Seq<Double>,
    q_k1: Seq<Double>,
    base: BaseIndices,
    heading: Heading,
    behind: Heading,
    ahead: Heading,
    place: int,
    step: Double,
)
    requires
        may_differ(q_k, q_k1, base, place, step),
        headings_follow(heading, behind, ahead, is_yaw(place, base, q_k.len() as int), step),
    ensures
        ({
            let (b_k, b_k1) = behind_of(q_k, q_k1, place, step);
            let (a_k, a_k1) = ahead_of(q_k, q_k1, place, step);
            is_central_difference(
                forward_progress(b_k, b_k1, base, behind),
                forward_progress(a_k, a_k1, base, ahead),
                step,
                listed(progress_partials(q_k, q_k1, base, heading), place),
            )
        }),
{
    let (b_k, b_k1) = behind_of(q_k, q_k1, place, step);
    let (a_k, a_k1) = ahead_of(q_k, q_k1, place, step);
    lemma_ends_in_range(q_k, q_k1, base, place, step);
    lemma_terms_in_range(q_k, q_k1, base, heading);
    lemma_terms_in_range(b_k, b_k1, base, behind);
    lemma_terms_in_range(a_k, a_k1, base, ahead);
    lemma_progress_is_slip_across(q_k, q_k1, base, heading);
    lemma_progress_is_slip_across(b_k, b_k1, base, behind);
    lemma_progress_is_slip_across(a_k, a_k1, base, ahead);
    lemma_value_of_negated(heading.sin);
    lemma_value_of_negated(behind.sin);
    lemma_value_of_negated(ahead.sin);
    lemma_minus(value(heading.sin), value(step));
    lemma_slip_partials_are_central_differences(
        q_k,
        q_k1,
        base,
        quarter_back(heading),
        quarter_back(behind),
        quarter_back(ahead),
        place,
        step,
    );
}

} // verus!
