//! Where the legs of a rounded path end, and how they are turned there: an orientation is
//! always taken at the fraction of the segment that its point is at.

use crate::arithmetic::{lemma_difference_lowers, lemma_difference_sign, lemma_half_lowers};
use crate::double::{Double, HALF, ONE};
use crate::error::{
    half_ulp, least, lemma_distributes, lemma_half_ulp, lemma_product_error, lemma_scaled_order,
    lemma_size_of_product, lemma_sum_error, lemma_value_of_zero, size, value,
};
use crate::feasible::{lemma_sum_is_a_number, lemma_values_in_order};
use crate::path::{
    corner_between, corners_of, fillet_exit, fillets_of, legs, longest_cut, run_end, traced, Corner,
    CornerAngles, Leg, Orientation,
};
use crate::quotients::{lemma_least_is_tiny, lemma_quotient_error};
use crate::range::{
    large, lemma_large, lemma_product_within, lemma_quotient_in_range, lemma_sum_within,
    vector_within, within,
};
use crate::reals::{
    lemma_associates, lemma_bounded_product, lemma_commutes, lemma_exchanges, lemma_one,
    lemma_strict_order, lemma_zero,
};
use crate::slip::{lemma_value_of_half, lemma_value_of_negated, lemma_value_of_one};
use crate::vector::Vector3;
use vstd::prelude::*;

verus! {

/// The part of a segment that a fillet cuts off and the part that is left make up the
/// whole segment, up to rounding.
proof fn lemma_parts_of_a_segment(cut: Double, length: Double)
    requires
        cut.finite(),
        length.finite(),
        0int as real <= value(cut) <= value(length),
        value(length) > 0int as real,
    ensures
        ({
            let off = cut.quotient(length);
            let left = length.difference(cut).quotient(length);
            &&& off.finite() && left.finite()
            &&& size(value(off)) <= 2int as real && size(value(left)) <= 2int as real
            &&& size(value(off) + value(left) - (1int as real)) <= (5int as real) * half_ulp()
        }),
{
    lemma_half_ulp();
    lemma_least_is_tiny();
    lemma_large();
    let (h, l, one) = (half_ulp(), least(), 1int as real);
    let (c, len) = (value(cut), value(length));
    let rest = length.difference(cut);
    lemma_value_of_negated(cut);
    lemma_rest_in_range(length, cut);
    lemma_sum_error(length, cut.negated());
    let m = value(rest);
    lemma_scaled_order(h, size(len - c), len);
    lemma_scaled_order(len, (10000int as real) * h, one);
    lemma_one(len);
    lemma_commutes(len, (10000int as real) * h);
    lemma_associates(10000int as real, h, len);
    let hl = h * len;
    assert(size(m - (len - c)) <= hl);
    lemma_scaled_order(len, 2int as real, large());
    lemma_commutes(len, 2int as real);
    lemma_commutes(len, large());
    lemma_quotient_in_range(cut, length);
    lemma_quotient_in_range(rest, length);
    lemma_quotient_error(cut, length);
    lemma_quotient_error(rest, length);
    let (r, t) = (value(cut.quotient(length)), value(rest.quotient(length)));
    lemma_scaled_order(h, c, len);
    lemma_scaled_order(h, size(m), (2int as real) * len);
    lemma_exchanges(h, 2int as real, len);
    lemma_scaled_order(len, l * (100int as real), h);
    lemma_commutes(len, h);
    lemma_associates(len, l, 100int as real);
    lemma_commutes(len, l);
    lemma_commutes(l * len, 100int as real);
    let ll = l * len;
    lemma_scaled_order(len, 0int as real, h);
    lemma_zero(len);
    assert(size(r * len - c) <= hl + ll);
    assert(size(t * len - m) <= (2int as real) * hl + ll);
    lemma_associates(5int as real, h, len);
    lemma_over_length(r + t - one, len, (5int as real) * h, r, t);
    lemma_size_over(r, len, 2int as real);
    lemma_size_over(t, len, 2int as real);
}

/// What is left of a length.
pub(crate) proof fn lemma_rest_in_range(length: Double, cut: Double)
    requires
        cut.finite(),
        length.finite(),
        0int as real <= value(cut) <= value(length),
    ensures
        length.difference(cut).finite(),
{
    let zero = Double { bits: 0 };
    lemma_value_of_zero(zero);
    lemma_values_in_order(zero, cut);
    lemma_values_in_order(cut, length);
    lemma_values_in_order(zero, length);
    lemma_value_of_negated(cut);
    lemma_value_of_negated(length);
    lemma_sum_is_a_number(length, cut.negated());
    lemma_sum_is_a_number(cut, length.negated());
    lemma_difference_sign(cut, length);
    lemma_difference_lowers(length, cut);
}

/// A number whose multiple is bounded by a multiple is bounded.
pub(crate) proof fn lemma_size_over(x: real, len: real, bound: real)
    requires
        len > 0int as real,
        size(x * len) <= bound * len,
    ensures
        size(x) <= bound,
{
    lemma_size_of_product(x, len);
    if size(x) > bound {
        lemma_strict_order(len, bound, size(x));
        lemma_commutes(len, bound);
        lemma_commutes(len, size(x));
    }
}

/// The same of a sum of two parts.
proof fn lemma_over_length(x: real, len: real, bound: real, r: real, t: real)
    requires
        len > 0int as real,
        x == r + t - (1int as real),
        size(r * len + t * len - len) <= bound * len,
    ensures
        size(x) <= bound,
{
    lemma_distributes(len, r + t, -(1int as real));
    lemma_distributes(len, r, t);
    lemma_commutes(len, r);
    lemma_commutes(len, t);
    lemma_one(len);
    lemma_commutes(len, x);
    assert(len * (-(1int as real)) == -len) by (nonlinear_arith);
    lemma_size_over(x, len, bound);
}

/// How far a point may be from where its orientation is taken, in one coordinate.
pub open spec fn alignment_rounding(from: real, to: real) -> real {
    (32int as real) * (half_ulp() * (size(from) + size(to))) + (8int as real) * least()
}

/// A part of a coordinate's difference, rounded.
proof fn lemma_part_near(from: Double, to: Double, ratio: Double)
    requires
        within(from, 1000000int as real),
        within(to, 1000000int as real),
        ratio.finite(),
        size(value(ratio)) <= 2int as real,
    ensures
        ({
            let part = to.difference(from).product(ratio);
            let s = size(value(from)) + size(value(to));
            &&& within(part, 100000000int as real)
            &&& size(value(part) - value(ratio) * (value(to) - value(from))) <= (6int as real) * (
            half_ulp() * s) + least()
        }),
{
    lemma_half_ulp();
    lemma_least_is_tiny();
    let (h, l) = (half_ulp(), least());
    let million = 1000000int as real;
    let (a, b, r) = (value(from), value(to), value(ratio));
    let s = size(a) + size(b);
    let d = b - a;
    lemma_value_of_negated(from);
    lemma_sum_within(to, from.negated(), million, million);
    lemma_sum_error(to, from.negated());
    let segment = to.difference(from);
    let x = value(segment);
    lemma_scaled_order(h, size(d), s);
    let hs = h * s;
    lemma_product_within(segment, ratio, 4000000int as real, 2int as real);
    lemma_product_error(segment, ratio);
    lemma_bounded_product(r, x - d, 2int as real, hs);
    lemma_distributes(r, x, d);
    lemma_commutes(r, x);
    lemma_scaled_order(s, h, 1int as real);
    lemma_one(s);
    lemma_commutes(s, h);
    lemma_bounded_product(x, r, (2int as real) * s, 2int as real);
    lemma_scaled_order(h, size(x * r), (4int as real) * s);
    lemma_exchanges(h, 4int as real, s);
}

/// A coordinate of the point where a run ends.
proof fn lemma_end_coordinate(from: Double, to: Double, off: Double, left: Double)
    requires
        within(from, 1000000int as real),
        within(to, 1000000int as real),
        off.finite(),
        size(value(off)) <= 2int as real,
        size(value(off) + value(left) - (1int as real)) <= (5int as real) * half_ulp(),
    ensures
        size(
            value(to.difference(to.difference(from).product(off))) - (value(from) + value(left) * (
            value(to) - value(from))),
        ) <= alignment_rounding(value(from), value(to)),
{
    lemma_half_ulp();
    lemma_least_is_tiny();
    let (h, l, one) = (half_ulp(), least(), 1int as real);
    let (a, b, r, t) = (value(from), value(to), value(off), value(left));
    let s = size(a) + size(b);
    let d = b - a;
    let hs = h * s;
    lemma_part_near(from, to, off);
    let part = to.difference(from).product(off);
    lemma_value_of_negated(part);
    lemma_sum_within(to, part.negated(), 1000000int as real, 100000000int as real);
    lemma_sum_error(to, part.negated());
    lemma_scaled_order(s, (10000int as real) * h, one);
    lemma_one(s);
    lemma_commutes(s, (10000int as real) * h);
    lemma_associates(10000int as real, h, s);
    lemma_bounded_product(r, d, 2int as real, s);
    lemma_scaled_order(h, size(b - value(part)), (4int as real) * s + l);
    lemma_distributes(h, (4int as real) * s, l);
    lemma_exchanges(h, 4int as real, s);
    lemma_scaled_order(l, h, one);
    lemma_one(l);
    lemma_commutes(l, h);
    let e = r + t - one;
    lemma_bounded_product(e, d, (5int as real) * h, s);
    lemma_associates(5int as real, h, s);
    lemma_distributes(d, r + t, one);
    lemma_distributes(d, r, t);
    lemma_one(d);
    lemma_commutes(one, d);
}

/// A coordinate of the point where a fillet is left.
proof fn lemma_exit_coordinate(from: Double, to: Double, off: Double)
    requires
        within(from, 1000000int as real),
        within(to, 1000000int as real),
        off.finite(),
        size(value(off)) <= 2int as real,
    ensures
        size(
            value(from.sum(to.difference(from).product(off))) - (value(from) + value(off) * (value(
                to,
            ) - value(from))),
        ) <= alignment_rounding(value(from), value(to)),
{
    lemma_half_ulp();
    lemma_least_is_tiny();
    let (h, l, one) = (half_ulp(), least(), 1int as real);
    let (a, b, r) = (value(from), value(to), value(off));
    let s = size(a) + size(b);
    let d = b - a;
    lemma_part_near(from, to, off);
    let part = to.difference(from).product(off);
    lemma_sum_within(from, part, 1000000int as real, 100000000int as real);
    lemma_sum_error(from, part);
    lemma_scaled_order(s, (10000int as real) * h, one);
    lemma_one(s);
    lemma_commutes(s, (10000int as real) * h);
    lemma_associates(10000int as real, h, s);
    lemma_bounded_product(r, d, 2int as real, s);
    lemma_scaled_order(h, size(a + value(part)), (4int as real) * s + l);
    lemma_distributes(h, (4int as real) * s, l);
    lemma_exchanges(h, 4int as real, s);
    lemma_scaled_order(l, h, one);
    lemma_one(l);
    lemma_commutes(l, h);
}

/// Whether a coordinate is at a fraction of the way from one value to another, up to
/// rounding.
pub open spec fn part_way(point: Double, from: Double, to: Double, t: Double) -> bool {
    size(value(point) - (value(from) + value(t) * (value(to) - value(from)))) <= alignment_rounding(
        value(from),
        value(to),
    )
}

/// Whether an orientation is taken where a point is: at the waypoint, or at the fraction of
/// the segment, in each coordinate up to rounding.
pub open spec fn aligned(positions: Seq<Vector3>, point: Vector3, orientation: Orientation) -> bool {
    match orientation {
        Orientation::Waypoint(i) => i < positions.len() && point == positions[i as int],
        Orientation::Between { segment, t } => {
            let (from, to) = (positions[segment as int], positions[segment + 1]);
            &&& segment + 1 < positions.len()
            &&& t.finite()
            &&& part_way(point.x, from.x, to.x, t)
            &&& part_way(point.y, from.y, to.y, t)
            &&& part_way(point.z, from.z, to.z, t)
        },
    }
}

/// A fillet cuts off no more than either of its segments.
proof fn lemma_cut_fits(
    positions: Seq<Vector3>,
    angles: Seq<CornerAngles>,
    radius: Double,
    i: int,
)
    requires
        0 <= i < positions.len(),
        fillets_of(positions, angles, radius)[i] is Some,
    ensures
        ({
            let cut = fillets_of(positions, angles, radius)[i]->0.cut;
            let (before, after) = (
                positions[i].difference(positions[i - 1]).length(),
                positions[i + 1].difference(positions[i]).length(),
            );
            &&& 0 < i < positions.len() - 1
            &&& cut.finite() && before.finite() && after.finite()
            &&& value(cut) > 0int as real
            &&& value(cut) <= value(before)
            &&& value(cut) <= value(after)
        }),
{
    let zero = Double { bits: 0 };
    let corner = corners_of(positions)[i]->0;
    assert(corners_of(positions)[i] is Some);
    assert(corner_between(positions[i - 1], positions[i], positions[i + 1]) is Some);
    let cut = fillets_of(positions, angles, radius)[i]->0.cut;
    let shorter = corner.len_in.smaller(corner.len_out);
    lemma_values_in_order(corner.len_in, corner.len_out);
    lemma_value_of_zero(zero);
    assert(!shorter.negative());
    lemma_half_lowers(shorter);
    assert(!longest_cut(corner).less(cut));
    assert(cut.at_most(longest_cut(corner)));
    assert(longest_cut(corner).at_most(shorter));
    assert(cut.finite());
    lemma_values_in_order(zero, cut);
    lemma_values_in_order(cut, longest_cut(corner));
    lemma_values_in_order(longest_cut(corner), shorter);
}

/// Where a straight run of a rounded path ends, its orientation is taken.
pub proof fn lemma_run_end_is_aligned(
    positions: Seq<Vector3>,
    angles: Seq<CornerAngles>,
    radius: Double,
    i: int,
)
    requires
        0 < i < positions.len() <= usize::MAX,
        vector_within(positions[i - 1], 1000000int as real),
        vector_within(positions[i], 1000000int as real),
    ensures
        ({
            let (point, orientation) = run_end(
                positions,
                fillets_of(positions, angles, radius)[i],
                i,
            );
            &&& aligned(positions, point, orientation)
            &&& orientation matches Orientation::Between { segment, .. } && segment == i - 1
        }),
{
    let (from, to) = (positions[i - 1], positions[i]);
    match fillets_of(positions, angles, radius)[i] {
        Some(fillet) => {
            lemma_cut_fits(positions, angles, radius, i);
            let length = to.difference(from).length();
            lemma_parts_of_a_segment(fillet.cut, length);
            let (off, left) = (
                fillet.cut.quotient(length),
                length.difference(fillet.cut).quotient(length),
            );
            lemma_end_coordinate(from.x, to.x, off, left);
            lemma_end_coordinate(from.y, to.y, off, left);
            lemma_end_coordinate(from.z, to.z, off, left);
        },
        None => {
            lemma_value_of_one();
            lemma_whole_way(from.x, to.x);
            lemma_whole_way(from.y, to.y);
            lemma_whole_way(from.z, to.z);
        },
    }
}

/// The end of a segment is the whole way along it.
proof fn lemma_whole_way(from: Double, to: Double)
    ensures
        part_way(to, from, to, Double { bits: ONE }),
{
    lemma_value_of_one();
    lemma_half_ulp();
    lemma_least_is_tiny();
    lemma_one(value(to) - value(from));
    let s = size(value(from)) + size(value(to));
    lemma_scaled_order(half_ulp(), 0int as real, s);
    lemma_zero(half_ulp());
}

/// Where the fillet of a rounded path is left, its orientation is taken.
pub proof fn lemma_fillet_exit_is_aligned(
    positions: Seq<Vector3>,
    angles: Seq<CornerAngles>,
    radius: Double,
    i: int,
)
    requires
        0 <= i < positions.len() <= usize::MAX,
        fillets_of(positions, angles, radius)[i] is Some,
        vector_within(positions[i], 1000000int as real),
        vector_within(positions[i + 1], 1000000int as real),
    ensures
        ({
            let fillet = fillets_of(positions, angles, radius)[i]->0;
            let (point, orientation) = fillet_exit(positions, fillet, i);
            &&& aligned(positions, point, orientation)
            &&& orientation matches Orientation::Between { segment, .. } && segment == i
        }),
{
    let fillet = fillets_of(positions, angles, radius)[i]->0;
    lemma_cut_fits(positions, angles, radius, i);
    let (from, to) = (positions[i], positions[i + 1]);
    let length = to.difference(from).length();
    lemma_parts_of_a_segment(fillet.cut, length);
    let off = fillet.cut.quotient(length);
    lemma_exit_coordinate(from.x, to.x, off);
    lemma_exit_coordinate(from.y, to.y, off);
    lemma_exit_coordinate(from.z, to.z, off);
}

/// A leg of a rounded path sets out and ends in the orientations that are taken at its
/// points.
pub open spec fn leg_is_aligned(positions: Seq<Vector3>, leg: Leg) -> bool {
    &&& aligned(positions, leg.from, leg.start_rotation)
    &&& aligned(positions, leg.to, leg.end_rotation)
}

/// Every leg of a rounded path, run or arc, sets out and ends in the orientation that the
/// waypoints' slerp has at its point.
pub proof fn lemma_every_leg_is_aligned(
    positions: Seq<Vector3>,
    angles: Seq<CornerAngles>,
    radius: Double,
    count: nat,
)
    requires
        count < positions.len() <= usize::MAX,
        forall|i: int|
            0 <= i < positions.len() ==> vector_within(#[trigger] positions[i], 1000000int as real),
    ensures
        ({
            let fillets = fillets_of(positions, angles, radius);
            let way = legs(positions, fillets, count);
            &&& forall|k: int| 0 <= k < way.len() ==> leg_is_aligned(positions, #[trigger] way[k])
            &&& aligned(
                positions,
                traced(positions, fillets, count).1,
                traced(positions, fillets, count).2,
            )
        }),
    decreases count,
{
    if count > 0 {
        let i = count as int;
        let fillets = fillets_of(positions, angles, radius);
        lemma_every_leg_is_aligned(positions, angles, radius, (count - 1) as nat);
        lemma_run_end_is_aligned(positions, angles, radius, i);
        if fillets[i] is Some {
            lemma_cut_fits(positions, angles, radius, i);
            lemma_fillet_exit_is_aligned(positions, angles, radius, i);
        }
        let before = legs(positions, fillets, (count - 1) as nat);
        let way = legs(positions, fillets, count);
        assert forall|k: int| 0 <= k < way.len() implies leg_is_aligned(
            positions,
            #[trigger] way[k],
        ) by {
            if k < before.len() {
                assert(way[k] == before[k]);
            }
        }
    } else {
        assert(legs(positions, fillets_of(positions, angles, radius), 0).len() == 0);
    }
}

/// The longest cut is half of the shorter of the two segments at a corner, up to rounding.
proof fn lemma_longest_cut_near(corner: Corner)
    requires
        corner.len_in.finite(),
        corner.len_out.finite(),
        longest_cut(corner).finite(),
        value(corner.len_in) >= 0int as real,
        value(corner.len_out) >= 0int as real,
    ensures
        ({
            let (a, b) = (value(corner.len_in), value(corner.len_out));
            let shorter = if a < b {
                a
            } else {
                b
            };
            size(value(longest_cut(corner)) - shorter / (2int as real)) <= half_ulp() * shorter
                + least()
        }),
{
    lemma_half_ulp();
    lemma_value_of_half();
    lemma_values_in_order(corner.len_out, corner.len_in);
    let half = Double { bits: HALF };
    let shorter = corner.len_in.smaller(corner.len_out);
    let (f, v) = (value(half), value(shorter));
    lemma_product_error(half, shorter);
    lemma_associates(2int as real, f, v);
    lemma_one(v);
    lemma_commutes(1int as real, v);
    assert(f * v == v / (2int as real));
    lemma_scaled_order(half_ulp(), size(f * v), v);
}

/// A fillet cuts off what its radius asks for, or half of the shorter of its segments where
/// that is less, up to rounding.
pub proof fn lemma_cut_is_asked_for_or_half(
    positions: Seq<Vector3>,
    angles: Seq<CornerAngles>,
    radius: Double,
    i: int,
)
    requires
        0 <= i < positions.len(),
        fillets_of(positions, angles, radius)[i] is Some,
        radius.product(angles[i].half_tan).finite(),
    ensures
        ({
            let fillet = fillets_of(positions, angles, radius)[i]->0;
            let wanted = value(radius) * value(angles[i].half_tan);
            let (before, after) = (
                value(positions[i].difference(positions[i - 1]).length()),
                value(positions[i + 1].difference(positions[i]).length()),
            );
            let shorter = if before < after {
                before
            } else {
                after
            };
            let half = shorter / (2int as real);
            let rounding = half_ulp() * (size(wanted) + shorter) + (2int as real) * least();
            &&& fillet.clamped ==> size(value(fillet.cut) - half) <= rounding && wanted >= half
                - rounding
            &&& !fillet.clamped ==> size(value(fillet.cut) - wanted) <= rounding && wanted <= half
                + rounding
        }),
{
    lemma_half_ulp();
    lemma_least_is_tiny();
    lemma_cut_fits(positions, angles, radius, i);
    let corner = corners_of(positions)[i]->0;
    assert(corners_of(positions)[i] is Some);
    assert(corner_between(positions[i - 1], positions[i], positions[i + 1]) is Some);
    let wanted = radius.product(angles[i].half_tan);
    let fillet = fillets_of(positions, angles, radius)[i]->0;
    let shorter = corner.len_in.smaller(corner.len_out);
    lemma_values_in_order(corner.len_out, corner.len_in);
    lemma_half_lowers(shorter);
    lemma_values_in_order(longest_cut(corner), wanted);
    lemma_longest_cut_near(corner);
    lemma_product_error(radius, angles[i].half_tan);
    let w = size(value(radius) * value(angles[i].half_tan));
    lemma_distributes(half_ulp(), w, value(shorter));
    lemma_scaled_order(half_ulp(), 0int as real, w);
    lemma_scaled_order(half_ulp(), 0int as real, value(shorter));
    lemma_zero(half_ulp());
}

/// Neighbouring fillets do not overlap: what they cut off the segment between them is no more
/// than the segment, up to rounding.
pub proof fn lemma_neighbouring_fillets_leave_room(
    positions: Seq<Vector3>,
    angles: Seq<CornerAngles>,
    radius: Double,
    i: int,
)
    requires
        0 <= i < positions.len() - 1,
        fillets_of(positions, angles, radius)[i] is Some,
        fillets_of(positions, angles, radius)[i + 1] is Some,
    ensures
        ({
            let fillets = fillets_of(positions, angles, radius);
            let length = value(positions[i + 1].difference(positions[i]).length());
            value(fillets[i]->0.cut) + value(fillets[i + 1]->0.cut) <= length + (2int as real) * (
            half_ulp() * length) + (2int as real) * least()
        }),
{
    let length = value(positions[i + 1].difference(positions[i]).length());
    lemma_cut_is_at_most_half(positions, angles, radius, i, length);
    lemma_cut_is_at_most_half(positions, angles, radius, i + 1, length);
}

/// A cut is at most half of either segment, up to rounding.
proof fn lemma_cut_is_at_most_half(
    positions: Seq<Vector3>,
    angles: Seq<CornerAngles>,
    radius: Double,
    i: int,
    length: real,
)
    requires
        0 <= i < positions.len(),
        fillets_of(positions, angles, radius)[i] is Some,
        length == value(positions[i].difference(positions[i - 1]).length()) || length == value(
            positions[i + 1].difference(positions[i]).length(),
        ),
    ensures
        value(fillets_of(positions, angles, radius)[i]->0.cut) <= length / (2int as real)
            + half_ulp() * length + least(),
{
    lemma_half_ulp();
    lemma_cut_fits(positions, angles, radius, i);
    let corner = corners_of(positions)[i]->0;
    assert(corners_of(positions)[i] is Some);
    assert(corner_between(positions[i - 1], positions[i], positions[i + 1]) is Some);
    let cut = fillets_of(positions, angles, radius)[i]->0.cut;
    let shorter = corner.len_in.smaller(corner.len_out);
    lemma_values_in_order(corner.len_out, corner.len_in);
    lemma_half_lowers(shorter);
    lemma_values_in_order(cut, longest_cut(corner));
    lemma_longest_cut_near(corner);
    assert(value(cut) <= value(longest_cut(corner)));
    lemma_scaled_order(half_ulp(), value(shorter), length);
}

} // verus!
