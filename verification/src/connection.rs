//! Where the poses of a path's pieces lie: a line is followed from its start to its end,
//! and an arc sets out from where the leg before it ended.

use crate::double::Double;
use crate::error::{
    half_ulp, least, lemma_distributes, lemma_half_ulp, lemma_least, lemma_product_error,
    lemma_scaled_order, lemma_size_of_product, lemma_sum_error, lemma_zero_product,
    lemma_zero_units, size, value,
};
use crate::finiteness::{lemma_parts_of_product, lemma_parts_of_sum};
use crate::path::{pose_on, CornerFillet, Leg, PathPiece, PieceKind, Placement, Sample};
use crate::reals::{
    lemma_bounded_product, lemma_commutes, lemma_exchanges, lemma_one, lemma_zero,
};
use crate::slip::{lemma_tenth, lemma_value_of_negated};
use crate::vector::Vector3;
use vstd::prelude::*;

verus! {

/// Whether a coordinate is at a fraction of the way between two others, up to
/// rounding.
pub open spec fn at_fraction(point: Double, from: Double, to: Double, t: real) -> bool {
    size(value(point) - (value(from) + (value(to) - value(from)) * t)) <= (8int as real) * (
    half_ulp() * (size(value(from)) + size(value(to)))) + (2int as real) * least()
}

/// One coordinate of a pose on a line.
proof fn lemma_coordinate(from: Double, to: Double, t: Double)
    requires
        from.sum(to.difference(from).product(t)).finite(),
        size(value(t)) <= 1int as real,
    ensures
        at_fraction(from.sum(to.difference(from).product(t)), from, to, value(t)),
{
    lemma_half_ulp();
    lemma_least();
    let (h, l) = (half_ulp(), least());
    let direction = to.difference(from);
    let part = direction.product(t);
    lemma_parts_of_sum(from, part);
    lemma_parts_of_product(direction, t);
    lemma_value_of_negated(from);
    lemma_sum_error(to, from.negated());
    lemma_product_error(direction, t);
    lemma_sum_error(from, part);
    let (f, b, d, m, u) = (value(from), value(to), value(direction), value(part), value(t));
    let s = size(f) + size(b);
    let one = 1int as real;
    lemma_tenth(h, s);
    lemma_tenth(h, l);
    // |d − (b − f)| ≤ h·s
    lemma_scaled_order(h, size(b - f), s);
    assert(size(d - (b - f)) <= h * s);
    // |m − d·t| ≤ h·|d| + l
    lemma_size_of_product(d, u);
    lemma_scaled_order(size(d), size(u), one);
    assert(size(d * u) <= size(d));
    lemma_scaled_order(h, size(d * u), (2int as real) * s);
    lemma_exchanges(h, 2int as real, s);
    // |d·t − (b − f)·t| ≤ h·s
    lemma_distributes(u, d, b - f);
    lemma_size_of_product(d - (b - f), u);
    lemma_scaled_order(size(d - (b - f)), size(u), one);
    assert(size(d * u - (b - f) * u) <= h * s);
    // |f + m|
    lemma_size_of_product(b - f, u);
    lemma_scaled_order(size(b - f), size(u), one);
    let n = size(f + m);
    assert(n <= (2int as real) * s + (2int as real) * s + (2int as real) * l);
    lemma_last_rounding(h, s, l, n);
}

proof fn lemma_last_rounding(h: real, s: real, l: real, n: real)
    requires
        h > 0int as real,
        n <= (4int as real) * s + (2int as real) * l,
    ensures
        h * n <= (4int as real) * (h * s) + (2int as real) * (h * l),
{
    lemma_scaled_order(h, n, (4int as real) * s + (2int as real) * l);
    lemma_distributes(h, (4int as real) * s, (2int as real) * l);
    lemma_exchanges(h, 4int as real, s);
    lemma_exchanges(h, 2int as real, l);
}

/// Whether all coordinates are at a fraction of the way, up to rounding.
pub open spec fn point_at_fraction(point: Vector3, from: Vector3, to: Vector3, t: real) -> bool {
    &&& at_fraction(point.x, from.x, to.x, t)
    &&& at_fraction(point.y, from.y, to.y, t)
    &&& at_fraction(point.z, from.z, to.z, t)
}

/// A pose on a line lies at its fraction of the way from the start of the leg to its
/// end, up to rounding: at the start for the fraction zero, at the end for one.
pub proof fn lemma_line_is_followed(
    leg: Leg,
    positions: Seq<Vector3>,
    fillets: Seq<Option<CornerFillet>>,
    t: Double,
)
    requires
        leg.leads(positions, fillets),
        size(value(t)) <= 1int as real,
        leg.piece matches Some(piece) && piece.kind is Line && (pose_on(
            piece,
            t,
        ) matches Sample::OnPiece { placement: Placement::Point(point), .. }
            ==> point.x.finite() && point.y.finite() && point.z.finite()),
    ensures
        leg.piece matches Some(piece) && (pose_on(piece, t) matches Sample::OnPiece {
            placement: Placement::Point(point),
            from,
            to,
            ..
        } && point_at_fraction(point, leg.from, leg.to, value(t)) && from == leg.start_rotation
            && to == leg.end_rotation),
{
    lemma_coordinate(leg.from.x, leg.to.x, t);
    lemma_coordinate(leg.from.y, leg.to.y, t);
    lemma_coordinate(leg.from.z, leg.to.z, t);
}

/// An arc sets out from where its leg starts: at the fraction zero its turn is zero,
/// and the center and the offset add up to the start, up to rounding.
pub proof fn lemma_arc_sets_out_from_its_start(
    leg: Leg,
    positions: Seq<Vector3>,
    fillets: Seq<Option<CornerFillet>>,
)
    requires
        leg.leads(positions, fillets),
        leg.piece matches Some(piece) && (piece.kind matches PieceKind::Arc {
            center,
            start_offset,
            axis,
            sweep,
        } && start_offset.x.finite() && start_offset.y.finite() && start_offset.z.finite()
            && axis.x.finite() && axis.y.finite() && axis.z.finite() && sweep.finite()),
    ensures
        leg.piece matches Some(piece) && (pose_on(piece, Double { bits: 0 })
            matches Sample::OnPiece { placement: Placement::OnArc { center, offset, turn }, .. }
            && turn.x.zero() && turn.y.zero() && turn.z.zero() && sets_out(
            center.x,
            offset.x,
            leg.from.x,
        ) && sets_out(center.y, offset.y, leg.from.y) && sets_out(
            center.z,
            offset.z,
            leg.from.z,
        )),
{
    let piece = leg.piece->Some_0;
    let center = piece.kind->Arc_center;
    let axis = piece.kind->axis;
    let sweep = piece.kind->sweep;
    let zero = Double { bits: 0 };
    lemma_times_nothing(sweep, zero);
    lemma_times_nothing(axis.x, sweep.product(zero));
    lemma_times_nothing(axis.y, sweep.product(zero));
    lemma_times_nothing(axis.z, sweep.product(zero));
    lemma_offset(leg.from.x, center.x);
    lemma_offset(leg.from.y, center.y);
    lemma_offset(leg.from.z, center.z);
}

/// Whether a center and an offset add up to a coordinate, up to rounding.
pub open spec fn sets_out(center: Double, offset: Double, from: Double) -> bool {
    size(value(center) + value(offset) - value(from)) <= half_ulp() * size(
        value(from) - value(center),
    )
}

pub(crate) proof fn lemma_offset(from: Double, center: Double)
    requires
        from.difference(center).finite(),
    ensures
        sets_out(center, from.difference(center), from),
{
    lemma_parts_of_sum(from, center.negated());
    lemma_value_of_negated(center);
    lemma_sum_error(from, center.negated());
}

proof fn lemma_times_nothing(a: Double, zero: Double)
    requires
        a.finite(),
        zero.zero(),
    ensures
        a.product(zero).zero(),
{
    reveal(Double::product);
    lemma_zero_units();
    lemma_zero_product(a);
}

/// Whether a coordinate of a turn is a share of that of the whole turn, up to rounding.
pub open spec fn is_share(turn: Double, axis: Double, sweep: Double, t: Double) -> bool {
    let whole = value(axis) * (value(sweep) * value(t));
    size(value(turn) - whole) <= (3int as real) * (half_ulp() * size(whole)) + (3int as real) * (
    least() * (size(value(axis)) + (1int as real)))
}

/// A coordinate of a turn.
proof fn lemma_share(axis: Double, sweep: Double, t: Double)
    requires
        axis.product(sweep.product(t)).finite(),
    ensures
        is_share(axis.product(sweep.product(t)), axis, sweep, t),
{
    lemma_half_ulp();
    lemma_least();
    let (h, l, one) = (half_ulp(), least(), 1int as real);
    let part = sweep.product(t);
    lemma_parts_of_product(axis, part);
    lemma_product_error(sweep, t);
    lemma_product_error(axis, part);
    let (a, b, p) = (value(axis), value(sweep) * value(t), value(part));
    let whole = a * b;
    let off = h * size(b) + l;
    lemma_scaled_order(h, 0int as real, size(b));
    lemma_zero(h);
    lemma_bounded_product(a, p - b, size(a), off);
    lemma_distributes(a, p, b);
    lemma_distributes(size(a), h * size(b), l);
    lemma_exchanges(size(a), h, size(b));
    lemma_size_of_product(a, b);
    lemma_commutes(size(a), l);
    let (hw, la) = (h * size(whole), l * size(a));
    assert(size(a * p - whole) <= hw + la);
    lemma_tenth(h, size(whole));
    lemma_scaled_order(l, 0int as real, size(a));
    lemma_zero(l);
    lemma_tenth(h, la);
    lemma_scaled_order(h, size(a * p), (2int as real) * size(whole) + la);
    lemma_distributes(h, (2int as real) * size(whole), la);
    lemma_exchanges(h, 2int as real, size(whole));
    lemma_distributes(l, size(a), one);
    lemma_one(l);
}

/// An arc is followed evenly: at a fraction of it, the turn about the axis is that fraction of
/// the sweep, up to rounding, and the orientations are those of its ends.
pub proof fn lemma_arc_is_turned_evenly(piece: PathPiece, t: Double)
    requires
        piece.kind is Arc,
        pose_on(piece, t) matches Sample::OnPiece {
            placement: Placement::OnArc { turn, .. },
            ..
        } ==> turn.x.finite() && turn.y.finite() && turn.z.finite(),
    ensures
        piece.kind matches PieceKind::Arc { center, start_offset, axis, sweep } && (pose_on(
            piece,
            t,
        ) matches Sample::OnPiece {
            placement: Placement::OnArc { center: middle, offset, turn },
            from,
            to,
            t: fraction,
        } && middle == center && offset == start_offset && is_share(turn.x, axis.x, sweep, t)
            && is_share(turn.y, axis.y, sweep, t) && is_share(turn.z, axis.z, sweep, t) && from
            == piece.start_rotation && to == piece.end_rotation && fraction == t),
{
    let axis = piece.kind->axis;
    let sweep = piece.kind->sweep;
    lemma_share(axis.x, sweep, t);
    lemma_share(axis.y, sweep, t);
    lemma_share(axis.z, sweep, t);
}

} // verus!
