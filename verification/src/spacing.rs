//! How the poses of a path are spaced: evenly along its segments, or evenly along its
//! length.

use crate::alignment::{lemma_rest_in_range, lemma_size_over};
use crate::arithmetic::{lemma_count_in_range, lemma_difference_lowers, lemma_difference_sign};
use crate::definite::lemma_tiny;
use crate::double::{lemma_order_of_values, units, Double, ONE, UNIT_EXPONENT};
use crate::error::{
    half_ulp, least, lemma_distributes, lemma_half_ulp, lemma_nearest_error, lemma_product_error,
    lemma_relative, lemma_scaled_order, lemma_size_of_product, lemma_sum_error, lemma_value_of_zero,
    lemma_zero_rounds_to_zero, lemma_zero_units, size, units_in_one, value,
};
use crate::feasible::{lemma_sum_is_a_number, lemma_values_in_order};
use crate::finiteness::{
    lemma_parts_of_product, lemma_product_not_below, lemma_total_not_below, not_below_zero,
};
use crate::path::{
    length_of, locate, plain_samples, pose_count, pose_on, rounded_samples, sample_at, PathPiece,
    Sample,
};
use crate::quotients::{lemma_least_is_tiny, lemma_quotient_error};
use crate::range::{large, lemma_large, lemma_product_within, lemma_quotient_in_range, within};
use crate::reals::{
    lemma_associates, lemma_bounded_product, lemma_commutes, lemma_exchanges, lemma_one,
    lemma_same_multiples, lemma_strict_order, lemma_zero,
};
use crate::rounding::{nearest_magnitude, TWO_53};
use crate::series::total;
use crate::slip::{lemma_value_of_negated, lemma_value_of_one};
use crate::sums::{added, lemma_positive_terms, lemma_total_near, rounds};
use vstd::arithmetic::div_mod::{lemma_fundamental_div_mod, lemma_mod_bound};
use vstd::arithmetic::power2::{lemma_pow2_pos, pow2};
use vstd::prelude::*;

verus! {

/// A count as a number is the count, up to rounding.
pub proof fn lemma_count_near(count: nat)
    requires
        0 < count <= usize::MAX,
    ensures
        Double::of_count(count).finite(),
        size(value(Double::of_count(count)) - count as real) <= half_ulp() * (count as real),
        within(Double::of_count(count), 40000000000000000000int as real),
        value(Double::of_count(count)) > 0int as real,
{
    lemma_count_in_range(count);
    lemma_half_ulp();
    lemma_pow2_pos(UNIT_EXPONENT as nat);
    let one = pow2(UNIT_EXPONENT as nat);
    let num = count * one;
    let result = units(nearest_magnitude(num, 1));
    lemma_nearest_error(num, 1);
    assert(result * 1 == result);
    assert(num >= 0) by (nonlinear_arith)
        requires
            num == count * one,
            one > 0,
    ;
    let u = units_in_one();
    lemma_relative(result as int, num as int, u);
    let exact = (num as real) / u;
    assert(exact * u == num as real) by (nonlinear_arith)
        requires
            exact == (num as real) / u,
            u > 0int as real,
    ;
    assert((count as real) * u == num as real) by (nonlinear_arith)
        requires
            u == one as real,
            num == count * one,
    ;
    lemma_same_multiples(exact, count as real, u);
    let c = count as real;
    lemma_scaled_order(c, (10000int as real) * half_ulp(), 1int as real);
    lemma_one(c);
    lemma_commutes(c, (10000int as real) * half_ulp());
    lemma_associates(10000int as real, half_ulp(), c);
}

/// The poses of a path with sharp corners divide every segment evenly: the pose of an index
/// is `index / poses_per_segment` segments along, up to rounding, and so many poses on is
/// the same place of the next segment.
pub proof fn lemma_plain_samples_are_even(waypoints: nat, poses_per_segment: nat, index: int)
    requires
        waypoints >= 1,
        0 < index < pose_count(waypoints, poses_per_segment),
        pose_count(waypoints, poses_per_segment) <= usize::MAX,
    ensures
        plain_samples(waypoints, poses_per_segment)[0] == Sample::Waypoint(0),
        ({
            let steps = poses_per_segment as real;
            &&& plain_samples(waypoints, poses_per_segment)[index] matches Sample::Along {
                segment,
                t,
            } && {
                &&& segment as int * poses_per_segment < index <= (segment + 1) * poses_per_segment
                &&& size(
                    ((segment as int * poses_per_segment) as real + value(t) * steps) - (
                    index as real),
                ) <= (4int as real) * (half_ulp() * steps)
            }
        }),
{
    let p = poses_per_segment as int;
    let intervals = (waypoints - 1) as nat;
    assert(p > 0) by (nonlinear_arith)
        requires
            p >= 0,
            0 < index < 1 + intervals * p,
    ;
    let (segment, place) = ((index - 1) / p, (index - 1) % p);
    lemma_fundamental_div_mod(index - 1, p);
    lemma_mod_bound(index - 1, p);
    assert(p * segment == segment * p) by (nonlinear_arith);
    assert((segment + 1) * p == segment * p + p) by (nonlinear_arith);
    assert(0 <= segment <= index && p <= intervals * p) by (nonlinear_arith)
        requires
            p > 0,
            segment * p + place == index - 1,
            0 <= place < p,
            0 < index < 1 + intervals * p,
            intervals >= 0,
    ;
    let m = (place + 1) as nat;
    lemma_count_near(m);
    lemma_count_near(poses_per_segment);
    lemma_ratio_near(m, poses_per_segment);
}

/// The ratio of two counts.
proof fn lemma_ratio_near(m: nat, p: nat)
    requires
        0 < m <= p <= usize::MAX,
    ensures
        ({
            let t = Double::of_count(m).quotient(Double::of_count(p));
            &&& t.finite()
            &&& size(value(t) * (p as real) - m as real) <= (4int as real) * (half_ulp() * (
            p as real))
        }),
{
    lemma_count_near(m);
    lemma_count_near(p);
    lemma_half_ulp();
    lemma_least_is_tiny();
    lemma_large();
    let (a, b) = (Double::of_count(m), Double::of_count(p));
    let (h, l, one) = (half_ulp(), least(), 1int as real);
    let (x, y) = (value(a), value(b));
    let (mr, pr) = (m as real, p as real);
    let t = a.quotient(b);
    let hp = h * pr;
    lemma_scaled_order(h, mr, pr);
    lemma_scaled_order(pr, (10000int as real) * h, one);
    lemma_one(pr);
    lemma_commutes(pr, (10000int as real) * h);
    lemma_associates(10000int as real, h, pr);
    lemma_scaled_order(y, 2int as real, large());
    lemma_commutes(y, 2int as real);
    lemma_commutes(y, large());
    lemma_quotient_in_range(a, b);
    lemma_quotient_error(a, b);
    let v = value(t);
    lemma_scaled_order(h, x, pr + hp);
    lemma_distributes(h, pr, hp);
    lemma_scaled_order(hp, (10000int as real) * h, one);
    lemma_one(hp);
    lemma_commutes(hp, (10000int as real) * h);
    lemma_associates(10000int as real, h, hp);
    lemma_scaled_order(l, y, (2int as real) * pr);
    lemma_exchanges(l, 2int as real, pr);
    lemma_scaled_order(pr, l * (1000int as real), h);
    lemma_commutes(pr, h);
    lemma_associates(pr, l, 1000int as real);
    lemma_commutes(pr, l);
    lemma_commutes(l * pr, 1000int as real);
    let quarter = hp / (4int as real);
    assert(size(v * y - x) <= hp + quarter);
    assert(size(v * y) <= pr + (3int as real) * hp);
    // The ratio is hardly above one.
    lemma_scaled_order(y, 1int as real, 2int as real);
    assert(size(v * y) <= (2int as real) * y);
    lemma_size_over(v, y, 2int as real);
    lemma_tighter(v, x, y, mr, pr, hp);
}

/// From the rounded counts to the counts.
proof fn lemma_tighter(v: real, x: real, y: real, m: real, p: real, e: real)
    requires
        size(v) <= 2int as real,
        size(x - m) <= e,
        size(y - p) <= e,
        size(v * y - x) <= e + e / (4int as real),
        p > 0int as real,
        m <= p,
        e >= 0int as real,
        e * (10000int as real) <= p,
        m > 0int as real,
    ensures
        size(v * p - m) <= (4int as real) * e,
{
    lemma_distributes(v, p, y);
    // |v| is at most one and a bit.
    assert(size(v * y) <= p + (3int as real) * e);
    let bound = (11int as real) / (10int as real);
    assert(size(v * y) <= bound * y) by {
        assert(bound * y >= bound * (p - e)) by {
            lemma_scaled_order(bound, p - e, y);
        }
    }
    lemma_size_over(v, y, bound);
    lemma_bounded_product(v, p - y, bound, e);
}

/// The lengths of the pieces of a path.
pub open spec fn lengths(pieces: Seq<PathPiece>) -> Seq<real> {
    Seq::new(pieces.len(), |i: int| value(pieces[i].length))
}

/// How far along a path a piece sets out.
pub open spec fn set_out(pieces: Seq<PathPiece>, piece: nat) -> real {
    added(lengths(pieces), piece)
}

/// Whether every piece has a finite, positive length.
pub open spec fn have_lengths(pieces: Seq<PathPiece>) -> bool {
    forall|i: int|
        0 <= i < pieces.len() ==> (#[trigger] pieces[i]).length.finite() && value(pieces[i].length)
            > 0int as real
}

/// A distance that falls on a piece is as far along the path as it says: what lies before
/// the piece and the fraction of the piece make it up, up to rounding. One that falls on
/// none is not short of the end by more than rounding.
pub proof fn lemma_located_at_the_distance(
    pieces: Seq<PathPiece>,
    distance: Double,
    from: nat,
    most: real,
)
    requires
        have_lengths(pieces),
        from <= pieces.len(),
        distance.finite(),
        0int as real <= value(distance) <= most,
    ensures
        ({
            let along = set_out(pieces, from) + value(distance);
            match locate(pieces, distance, from) {
                Some((piece, t)) => {
                    let length = value(pieces[piece as int].length);
                    &&& from <= piece < pieces.len()
                    &&& t.finite()
                    &&& size(set_out(pieces, piece) + value(t) * length - along) <= ((piece - from
                        + 1) as real) * (half_ulp() * most) + least() * length
                },
                None => set_out(pieces, pieces.len()) - along <= ((pieces.len() - from) as real) * (
                half_ulp() * most),
            }
        }),
    decreases pieces.len() - from,
{
    lemma_half_ulp();
    lemma_least_is_tiny();
    lemma_large();
    let (h, l, one) = (half_ulp(), least(), 1int as real);
    let d = value(distance);
    let hm = h * most;
    lemma_scaled_order(h, d, most);
    lemma_scaled_order(h, 0int as real, most);
    lemma_zero(h);
    lemma_zero(hm);
    lemma_commutes(hm, 0int as real);
    if from < pieces.len() {
        let length = pieces[from as int].length;
        let len = value(length);
        lemma_values_in_order(distance, length);
        lemma_scaled_order(len, one, large());
        lemma_one(len);
        lemma_commutes(len, large());
        if distance.at_most(length) {
            lemma_quotient_in_range(distance, length);
            lemma_quotient_error(distance, length);
            lemma_one(hm);
            lemma_commutes(one, hm);
        } else {
            let rest = distance.difference(length);
            lemma_rest_in_range(distance, length);
            lemma_value_of_negated(length);
            lemma_sum_error(distance, length.negated());
            lemma_scaled_order(h, d - len, most);
            lemma_difference_keeps(distance, length);
            lemma_located_at_the_distance(pieces, rest, from + 1, most);
            assert(set_out(pieces, from + 1) == set_out(pieces, from) + len);
            match locate(pieces, rest, from + 1) {
                Some((piece, t)) => {
                    let count = (piece - from) as real;
                    lemma_distributes(hm, count, one);
                    lemma_one(hm);
                    lemma_commutes(hm, one);
                },
                None => {
                    let count = (pieces.len() - from - 1) as real;
                    lemma_distributes(hm, count, one);
                    lemma_one(hm);
                    lemma_commutes(hm, one);
                },
            }
        }
    }
}

/// What is left of a distance is neither negative nor more than there was.
proof fn lemma_difference_keeps(distance: Double, length: Double)
    requires
        distance.finite(),
        length.finite(),
        0int as real <= value(length) <= value(distance),
        distance.difference(length).finite(),
    ensures
        0int as real <= value(distance.difference(length)) <= value(distance),
{
    let zero = Double { bits: 0 };
    let rest = distance.difference(length);
    lemma_value_of_zero(zero);
    lemma_values_in_order(zero, length);
    lemma_values_in_order(length, distance);
    lemma_value_of_negated(distance);
    lemma_sum_is_a_number(length, distance.negated());
    lemma_difference_sign(length, distance);
    lemma_difference_lowers(distance, length);
    lemma_values_in_order(zero, rest);
    lemma_values_in_order(rest, distance);
}

/// The length of a path is the sum of the lengths of its pieces, rounded.
proof fn lemma_length_is_total(pieces: Seq<PathPiece>, count: nat)
    requires
        count <= pieces.len(),
    ensures
        length_of(pieces, count) == total(Seq::new(count, |i: int| pieces[i].length)),
    decreases count,
{
    if count > 0 {
        lemma_length_is_total(pieces, (count - 1) as nat);
        let all = Seq::new(count, |i: int| pieces[i].length);
        assert(all.drop_last() =~= Seq::new((count - 1) as nat, |i: int| pieces[i].length));
    }
}

/// The length of a path, up to rounding.
pub proof fn lemma_length_near(pieces: Seq<PathPiece>)
    requires
        have_lengths(pieces),
        pieces.len() <= 1000000,
        length_of(pieces, pieces.len()).finite(),
    ensures
        ({
            let n = pieces.len();
            let all = set_out(pieces, n);
            &&& all >= 0int as real
            &&& size(value(length_of(pieces, n)) - all) <= ((2 * n + 2) as real) * (half_ulp() * all)
                + ((2 * n) as real) * least()
        }),
{
    lemma_half_ulp();
    lemma_least_is_tiny();
    let n = pieces.len();
    let all = Seq::new(n, |i: int| pieces[i].length);
    let terms = lengths(pieces);
    lemma_length_is_total(pieces, n);
    assert forall|i: int| 0 <= i < n implies rounds(#[trigger] all[i], terms[i]) by {
        assert(pieces[i].length.finite());
        lemma_scaled_order(half_ulp(), 0int as real, size(terms[i]));
        lemma_zero(half_ulp());
    }
    lemma_total_near(all, terms);
    assert forall|i: int| 0 <= i < n implies #[trigger] terms[i] >= 0int as real by {
        assert(value(pieces[i].length) > 0int as real);
    }
    lemma_positive_terms(terms, n);
}

/// The distance that belongs to an index is its share of a length, up to rounding.
pub proof fn lemma_share_near(length: Double, index: nat, last: nat, share: real)
    requires
        within(length, 1000000000int as real),
        value(length) >= 0int as real,
        0 < index <= last <= usize::MAX,
        share * (last as real) == index as real,
    ensures
        ({
            let distance = length.product(Double::of_count(index)).quotient(Double::of_count(last));
            &&& distance.finite()
            &&& value(distance) >= 0int as real
            &&& size(value(distance) - share * value(length)) <= (6int as real) * (half_ulp()
                * value(length)) + (6int as real) * least()
        }),
{
    lemma_half_ulp();
    lemma_least_is_tiny();
    lemma_large();
    lemma_count_near(index);
    lemma_count_near(last);
    let (h, l, one) = (half_ulp(), least(), 1int as real);
    let (a, b) = (Double::of_count(index), Double::of_count(last));
    let (x, y, t) = (value(a), value(b), value(length));
    let (i, n) = (index as real, last as real);
    let m = length.product(a);
    lemma_product_within(length, a, 1000000000int as real, 40000000000000000000int as real);
    lemma_product_error(length, a);
    let v = value(m);
    // Everything in multiples of t·n.
    let tn = t * n;
    lemma_scaled_order(t, 0int as real, n);
    lemma_zero(t);
    lemma_tiny(n);
    lemma_scaled_order(h, i, n);
    let hn = h * n;
    lemma_scaled_order(t, size(x - i), hn);
    lemma_size_of_scaled(t, x, i);
    lemma_exchanges(t, h, n);
    let e = h * tn;
    assert(size(t * x - t * i) <= e);
    lemma_scaled_order(t, i, n);
    lemma_scaled_order(t, 0int as real, i);
    lemma_tiny(tn);
    lemma_scaled_order(t, 0int as real, x);
    assert(0int as real <= t * x && t * x <= tn + e);
    lemma_scaled_order(h, t * x, tn + e);
    lemma_distributes(h, tn, e);
    lemma_tiny(e);
    lemma_scaled_order(h, 0int as real, t * x);
    lemma_zero(h);
    let tiny = e / (10000int as real);
    assert(size(v - t * x) <= e + tiny + l);
    lemma_product_not_negative(length, a);
    lemma_scaled_order(large(), (9int as real) / (10int as real), y);
    lemma_commutes(large(), (9int as real) / (10int as real));
    lemma_quotient_in_range(m, b);
    lemma_quotient_error(m, b);
    lemma_quotient_not_negative(m, b);
    let d = value(m.quotient(b));
    lemma_scaled_order(h, v, tn + (3int as real) * e + l);
    lemma_distributes(h, tn + (3int as real) * e, l);
    lemma_distributes(h, tn, (3int as real) * e);
    lemma_exchanges(h, 3int as real, e);
    lemma_tiny(l);
    assert(size(d * y - v) <= e + (4int as real) * tiny + l + l * y);
    // The share of the length, times the rounded count.
    let s = share * t;
    lemma_share_in_unit(share, n, i);
    lemma_scaled_order(t, 0int as real, share);
    lemma_scaled_order(t, share, one);
    lemma_one(t);
    lemma_commutes(t, share);
    lemma_bounded_product(s, n - y, t, hn);
    lemma_distributes(s, n, y);
    lemma_associates(t, share, n);
    assert(s * n == t * i);
    lemma_distributes(y, d, s);
    lemma_commutes(y, s);
    lemma_commutes(y, d);
    assert(size((d - s) * y) <= (5int as real) * e + (2int as real) * l + l * y);
    // Back from multiples of the count.
    let ht = h * t;
    lemma_associates(h, t, n);
    lemma_scaled_order(h, 0int as real, t);
    lemma_scaled_order(ht, n, ((11int as real) / (10int as real)) * y);
    lemma_exchanges(ht, (11int as real) / (10int as real), y);
    lemma_scaled_order(l, (9int as real) / (10int as real), y);
    lemma_commutes(l, (9int as real) / (10int as real));
    let six = 6int as real;
    lemma_distributes(y, six * ht, six * l);
    lemma_associates(six, ht, y);
    lemma_associates(six, l, y);
    lemma_size_over(d - s, y, six * ht + six * l);
}

/// The size of a multiple of a difference.
proof fn lemma_size_of_scaled(t: real, x: real, i: real)
    requires
        t >= 0int as real,
    ensures
        size(t * x - t * i) == t * size(x - i),
{
    lemma_distributes(t, x, i);
    lemma_size_of_product(t, x - i);
}

/// A share is between none and all.
proof fn lemma_share_in_unit(share: real, n: real, i: real)
    requires
        share * n == i,
        0int as real <= i <= n,
        n > 0int as real,
    ensures
        0int as real <= share <= 1int as real,
{
    if share < 0int as real {
        lemma_strict_order(n, share, 0int as real);
        lemma_zero(n);
        lemma_commutes(n, share);
    }
    if share > 1int as real {
        lemma_strict_order(n, 1int as real, share);
        lemma_one(n);
        lemma_commutes(n, share);
    }
}

/// The product of numbers that are not negative.
proof fn lemma_product_not_negative(a: Double, b: Double)
    requires
        a.product(b).finite(),
        value(a) >= 0int as real,
        value(b) >= 0int as real,
    ensures
        value(a.product(b)) >= 0int as real,
{
    let zero = Double { bits: 0 };
    lemma_parts_of_product(a, b);
    lemma_value_of_zero(zero);
    lemma_values_in_order(zero, a);
    lemma_values_in_order(zero, b);
    lemma_values_in_order(zero, a.product(b));
    lemma_product_not_below(a, b);
}

/// The quotient of a number that is not negative by one that is positive.
proof fn lemma_quotient_not_negative(a: Double, b: Double)
    requires
        a.finite(),
        b.finite(),
        a.quotient(b).finite(),
        value(a) >= 0int as real,
        value(b) > 0int as real,
    ensures
        value(a.quotient(b)) >= 0int as real,
{
    reveal(Double::quotient);
    let zero = Double { bits: 0 };
    lemma_value_of_zero(zero);
    lemma_values_in_order(zero, a);
    lemma_values_in_order(zero, b);
    lemma_values_in_order(zero, a.quotient(b));
    lemma_order_of_values(zero, b);
    lemma_order_of_values(zero, a);
    if a.zero() {
        lemma_zero_units();
        lemma_zero_rounds_to_zero(units(b.magnitude()));
        lemma_value_of_zero(a.quotient(b));
    }
}

/// How far a pose may be from its share of the length of a path of some pieces.
pub open spec fn spacing_rounding(pieces: nat, length: real) -> real {
    ((8 * pieces + 40) as real) * (half_ulp() * length) + ((8 * pieces + 40) as real) * least()
}

/// The poses of a rounded path are evenly spaced: a pose is on a piece, at a fraction of it,
/// and what lies before the piece together with that fraction is the share of the whole
/// length that its index has among the poses, up to rounding.
pub proof fn lemma_rounded_samples_are_even(
    pieces: Seq<PathPiece>,
    waypoints: nat,
    poses_per_segment: nat,
    index: int,
    share: real,
)
    requires
        have_lengths(pieces),
        0 < pieces.len() <= 1000000,
        within(length_of(pieces, pieces.len()), 1000000000int as real),
        waypoints >= 1,
        pose_count(waypoints, poses_per_segment) <= usize::MAX,
        0 < index < pose_count(waypoints, poses_per_segment) - 1,
        share * ((pose_count(waypoints, poses_per_segment) - 1) as real) == index as real,
    ensures
        exists|piece: int, t: Double|
            {
                &&& 0 <= piece < pieces.len()
                &&& rounded_samples(pieces, waypoints, poses_per_segment)[index]
                    == #[trigger] pose_on(pieces[piece], t)
                &&& size(
                    set_out(pieces, piece as nat) + value(t) * value(pieces[piece].length) - share
                        * set_out(pieces, pieces.len()),
                ) <= spacing_rounding(pieces.len(), set_out(pieces, pieces.len()))
            },
{
    lemma_half_ulp();
    lemma_least_is_tiny();
    let n = pieces.len();
    let last = (pose_count(waypoints, poses_per_segment) - 1) as nat;
    let length = length_of(pieces, n);
    let distance = length.product(Double::of_count(index as nat)).quotient(
        Double::of_count(last),
    );
    let (h, l) = (half_ulp(), least());
    let (s, t, d) = (set_out(pieces, n), value(length), value(distance));
    lemma_length_near(pieces);
    lemma_length_not_negative(pieces);
    lemma_share_near(length, index as nat, last, share);
    lemma_share_in_unit(share, last as real, index as real);
    lemma_scaled_order(t, share, 1int as real);
    lemma_scaled_order(t, 0int as real, share);
    lemma_one(t);
    lemma_zero(t);
    lemma_commutes(t, share);
    lemma_tiny(t);
    let most = (2int as real) * t + (6int as real) * l;
    lemma_distributes(h, (2int as real) * t, (6int as real) * l);
    lemma_exchanges(h, 2int as real, t);
    lemma_exchanges(h, 6int as real, l);
    lemma_located_at_the_distance(pieces, distance, 0, most);
    lemma_pieces_within(pieces);
    let off = size(share * t - share * s);
    lemma_distributes(share, t, s);
    lemma_size_of_product(share, t - s);
    lemma_scaled_order(size(t - s), share, 1int as real);
    lemma_one(size(t - s));
    lemma_commutes(size(t - s), share);
    lemma_tiny(l);
    match locate(pieces, distance, 0) {
        Some((piece, fraction)) => {
            let len = value(pieces[piece as int].length);
            lemma_scaled_order(l, len, s);
            lemma_scaled_order(h * most, (piece + 1) as real, n as real);
            lemma_commutes(h * most, (piece + 1) as real);
            lemma_commutes(h * most, n as real);
            lemma_spacing_adds_up(n, s, t, h * most);
            assert(sample_at(pieces, index as nat, last) == pose_on(
                pieces[piece as int],
                fraction,
            ));
        },
        None => {
            let one = Double { bits: ONE };
            lemma_value_of_one();
            lemma_one(value(pieces[n - 1].length));
            lemma_commutes(1int as real, value(pieces[n - 1].length));
            assert(set_out(pieces, n) == set_out(pieces, (n - 1) as nat) + value(
                pieces[n - 1].length,
            ));
            lemma_spacing_adds_up(n, s, t, h * most);
            lemma_scaled_order(s, share, 1int as real);
            lemma_one(s);
            lemma_commutes(s, share);
            lemma_scaled_order(l, 0int as real, s);
            lemma_zero(l);
            assert(sample_at(pieces, index as nat, last) == pose_on(pieces[n - 1], one));
        },
    }
}

/// No piece is longer than the path.
proof fn lemma_pieces_within(pieces: Seq<PathPiece>)
    requires
        have_lengths(pieces),
    ensures
        forall|i: int|
            0 <= i < pieces.len() ==> value((#[trigger] pieces[i]).length) <= set_out(
                pieces,
                pieces.len(),
            ),
{
    let terms = lengths(pieces);
    assert forall|i: int| 0 <= i < pieces.len() implies #[trigger] terms[i] >= 0int as real by {
        assert(value(pieces[i].length) > 0int as real);
    }
    lemma_positive_terms(terms, pieces.len());
    assert forall|i: int| 0 <= i < pieces.len() implies value((#[trigger] pieces[i]).length)
        <= set_out(pieces, pieces.len()) by {
        assert(terms[i] <= added(terms, pieces.len()));
    }
}

/// A path has no negative length.
proof fn lemma_length_not_negative(pieces: Seq<PathPiece>)
    requires
        have_lengths(pieces),
        length_of(pieces, pieces.len()).finite(),
    ensures
        value(length_of(pieces, pieces.len())) >= 0int as real,
{
    let zero = Double { bits: 0 };
    let all = Seq::new(pieces.len(), |i: int| pieces[i].length);
    lemma_length_is_total(pieces, pieces.len());
    lemma_value_of_zero(zero);
    assert forall|i: int| 0 <= i < all.len() implies not_below_zero(#[trigger] all[i]) by {
        assert(pieces[i].length.finite());
        lemma_values_in_order(zero, pieces[i].length);
    }
    lemma_total_not_below(all);
    lemma_values_in_order(zero, total(all));
}

/// The roundings of a pose's place, together.
proof fn lemma_spacing_adds_up(n: nat, s: real, t: real, step: real)
    requires
        n <= 1000000,
        s >= 0int as real,
        t >= 0int as real,
        step == (2int as real) * (half_ulp() * t) + (6int as real) * (half_ulp() * least()),
        size(t - s) <= ((2 * n + 2) as real) * (half_ulp() * s) + ((2 * n) as real) * least(),
    ensures
        (n as real) * step + least() * s + (6int as real) * (half_ulp() * t) + (6int as real)
            * least() + size(t - s) <= spacing_rounding(n, s),
{
    lemma_half_ulp();
    lemma_least_is_tiny();
    let (h, l, k) = (half_ulp(), least(), n as real);
    let (hs, ht) = (h * s, h * t);
    let million = 10000000int as real;
    lemma_commutes(h, TWO_53 as int as real);
    assert(TWO_53 as int as real == 9007199254740992int as real);
    assert(million * h <= 1int as real);
    lemma_scaled_order(h, 0int as real, s);
    lemma_zero(h);
    // What is left over of h·t.
    let khs = k * hs;
    let kl = k * l;
    lemma_multiple(n, hs);
    lemma_multiple(n, l);
    assert(size(t - s) <= (2int as real) * khs + (2int as real) * hs + (2int as real) * kl);
    lemma_scaled_order(h, t, s + (2int as real) * khs + (2int as real) * hs + (2int as real) * kl);
    lemma_distributes(h, s + (2int as real) * khs + (2int as real) * hs, (2int as real) * kl);
    lemma_distributes(h, s + (2int as real) * khs, (2int as real) * hs);
    lemma_distributes(h, s, (2int as real) * khs);
    lemma_exchanges(h, 2int as real, khs);
    lemma_exchanges(h, 2int as real, hs);
    lemma_exchanges(h, 2int as real, kl);
    lemma_rounded_multiple(h, k, hs);
    lemma_rounded_multiple(h, k, l);
    lemma_tiny(hs);
    assert(ht <= (2int as real) * hs + l);
    lemma_scaled_order(k, ht, (2int as real) * hs + l);
    lemma_distributes(k, (2int as real) * hs, l);
    lemma_exchanges(k, 2int as real, hs);
    let kht = k * ht;
    lemma_distributes(k, (2int as real) * ht, (6int as real) * (h * l));
    lemma_exchanges(k, 2int as real, ht);
    lemma_exchanges(k, 6int as real, h * l);
    lemma_exchanges(k, h, l);
    assert(k * step <= (4int as real) * khs + (2int as real) * kl + (6int as real) * l);
    lemma_scaled_order(s, l, h);
    lemma_commutes(s, l);
    lemma_commutes(s, h);
    lemma_scaled_order(k, 0int as real, hs);
    lemma_scaled_order(k, 0int as real, l);
    lemma_zero(k);
}

/// A multiple by a count, taken apart.
proof fn lemma_multiple(n: nat, x: real)
    ensures
        ((2 * n + 2) as real) * x == (2int as real) * ((n as real) * x) + (2int as real) * x,
        ((2 * n) as real) * x == (2int as real) * ((n as real) * x),
        ((8 * n + 40) as real) * x == (8int as real) * ((n as real) * x) + (40int as real) * x,
{
    let k = n as real;
    lemma_associates(2int as real, k, x);
    lemma_associates(8int as real, k, x);
    lemma_distributes(x, (2int as real) * k, 2int as real);
    lemma_distributes(x, (8int as real) * k, 40int as real);
}

/// A rounding of a multiple by at most a million is less than a tenth of what is multiplied.
proof fn lemma_rounded_multiple(h: real, k: real, x: real)
    requires
        h > 0int as real,
        (10000000int as real) * h <= 1int as real,
        0int as real <= k <= 1000000int as real,
        x >= 0int as real,
    ensures
        0int as real <= h * (k * x),
        (10int as real) * (h * (k * x)) <= x,
{
    lemma_scaled_order(x, k, 1000000int as real);
    lemma_scaled_order(x, 0int as real, k);
    lemma_zero(x);
    lemma_commutes(x, k);
    lemma_scaled_order(h, 0int as real, k * x);
    lemma_zero(h);
    lemma_scaled_order(h, k * x, (1000000int as real) * x);
    lemma_commutes(x, 1000000int as real);
    lemma_exchanges(h, 1000000int as real, x);
    lemma_scaled_order(x, (10000000int as real) * h, 1int as real);
    lemma_one(x);
    lemma_commutes(x, (10000000int as real) * h);
    lemma_associates(10000000int as real, h, x);
}

} // verus!
