//! What is read off a configuration and a path: which joints the base is, where it heads
//! halfway, how far the end effector is off, and how fast a joint moves.

use crate::arrival::{lemma_finite_norm, lemma_positive_root};
use crate::configs::{DifferentialIkConfig, PathConfig, Pose, TrajectoryConfig};
use crate::cost::step_between;
use crate::definite::lemma_tiny;
use crate::diagnostics::{
    are_headings, are_slips, base_of, base_rejection, is_pose_error, lateral_slip, middle_yaw,
    BaseIndices, Heading, PoseError,
};
use crate::double::{Double, HALF, ONE};
use crate::error::{
    half_ulp, least, lemma_distributes, lemma_half_ulp, lemma_product_error, lemma_scaled_order,
    lemma_size_of_product, lemma_sum_error, size, value,
};
use crate::feasible::{lemma_value_of_absolute, lemma_values_in_order};
use crate::finiteness::{lemma_parts_of_product, lemma_parts_of_sum};
use crate::path::{
    are_angles, corner_between, corners_of, interpolated, lemma_path_is_connected, positions_of,
    straight, CornerAngles, FLAT, SHORT,
};
use crate::pipeline::{direction_of_travel, pinned_also};
use crate::quotients::{lemma_least_is_tiny, lemma_quotient_error};
use crate::reals::{
    lemma_associates, lemma_commutes, lemma_exchanges, lemma_one, lemma_square, lemma_three,
    lemma_zero,
};
use crate::slip::{
    lemma_slip_is_exact_to_rounding, lemma_tenth, lemma_value_of_half, lemma_value_of_negated,
    moderate, slack,
};
use crate::tally::lemma_sum_of_three;
use crate::text::{digit, digits, lemma_first_position};
use crate::trajectory::{any_too_fast, too_fast, VELOCITY_SLACK};
use crate::vector::Vector3;
use vstd::prelude::*;

verus! {

/// The base joints are those of the given names, in the order x, y, yaw, and each is the
/// first joint of its name.
pub proof fn lemma_base_joints_are_named(joints: Seq<String>, base: Seq<String>)
    requires
        base_rejection(joints, base) is None,
        joints.len() <= usize::MAX,
    ensures
        base.len() == 3,
        ({
            let found = base_of(joints, base);
            &&& found.x < joints.len() && joints[found.x as int]@ == base[0]@
            &&& found.y < joints.len() && joints[found.y as int]@ == base[1]@
            &&& found.yaw < joints.len() && joints[found.yaw as int]@ == base[2]@
            &&& forall|j: int| 0 <= j < found.x ==> (#[trigger] joints[j])@ != base[0]@
            &&& forall|j: int| 0 <= j < found.y ==> (#[trigger] joints[j])@ != base[1]@
            &&& forall|j: int| 0 <= j < found.yaw ==> (#[trigger] joints[j])@ != base[2]@
        }),
{
    lemma_first_position(joints, base[0]@);
    lemma_first_position(joints, base[1]@);
    lemma_first_position(joints, base[2]@);
}

/// Base joints are rejected exactly where there are not three of them or a name is not that
/// of a joint.
pub proof fn lemma_base_rejection(joints: Seq<String>, base: Seq<String>)
    ensures
        base_rejection(joints, base) is Some <==> base.len() != 3 || exists|i: int|
            0 <= i < 3 && forall|j: int|
                0 <= j < joints.len() ==> (#[trigger] joints[j])@ != (#[trigger] base[i])@,
{
    lemma_first_position(joints, base[0]@);
    lemma_first_position(joints, base[1]@);
    lemma_first_position(joints, base[2]@);
    if base.len() == 3 && base_rejection(joints, base) is Some {
        if forall|j: int| 0 <= j < joints.len() ==> (#[trigger] joints[j])@ != base[0]@ {
            assert(base[0]@ == base[0]@);
        } else if forall|j: int| 0 <= j < joints.len() ==> (#[trigger] joints[j])@ != base[1]@ {
            assert(base[1]@ == base[1]@);
        } else {
            assert(base[2]@ == base[2]@);
        }
    }
}

/// The middle of two yaws is their average, up to rounding.
pub proof fn lemma_middle_yaw_is_the_average(
    q_k: Seq<Double>,
    q_k1: Seq<Double>,
    base: BaseIndices,
)
    requires
        middle_yaw(q_k, q_k1, base).finite(),
    ensures
        ({
            let (a, b) = (value(q_k[base.yaw as int]), value(q_k1[base.yaw as int]));
            size(value(middle_yaw(q_k, q_k1, base)) - (a + b) / (2int as real)) <= (2int as real)
                * (half_ulp() * size(a + b)) + least()
        }),
{
    lemma_half_ulp();
    lemma_least_is_tiny();
    lemma_value_of_half();
    let (h, one) = (half_ulp(), 1int as real);
    let half = Double { bits: HALF };
    let sum = q_k[base.yaw as int].sum(q_k1[base.yaw as int]);
    lemma_parts_of_product(half, sum);
    lemma_sum_error(q_k[base.yaw as int], q_k1[base.yaw as int]);
    lemma_product_error(half, sum);
    let s = value(q_k[base.yaw as int]) + value(q_k1[base.yaw as int]);
    let (f, v) = (value(half), value(sum));
    lemma_associates(2int as real, f, v);
    lemma_one(v);
    lemma_commutes(one, v);
    assert(f * v == v / (2int as real));
    lemma_scaled_order(size(s), h, one);
    lemma_one(size(s));
    lemma_commutes(size(s), h);
    lemma_scaled_order(h, size(f * v), size(s));
}

/// The heading of an interval is what is given for the average of the yaws at its ends, up to
/// rounding.
pub proof fn lemma_headings_are_halfway<H>(
    knots: Seq<Vec<Double>>,
    base: BaseIndices,
    heading: H,
    headings: Seq<Heading>,
    k: int,
) where H: Fn(Double) -> Heading
    requires
        are_headings(knots, base, heading, headings),
        0 <= k < knots.len() - 1,
        middle_yaw(knots[k]@, knots[k + 1]@, base).finite(),
    ensures
        headings.len() == knots.len() - 1,
        exists|yaw: Double|
            {
                let sum = value(knots[k]@[base.yaw as int]) + value(
                    knots[k + 1]@[base.yaw as int],
                );
                &&& #[trigger] call_ensures(heading, (yaw,), headings[k])
                &&& size(value(yaw) - sum / (2int as real)) <= (2int as real) * (half_ulp() * size(
                    sum,
                )) + least()
            },
{
    lemma_middle_yaw_is_the_average(knots[k]@, knots[k + 1]@, base);
    assert(call_ensures(
        heading,
        (middle_yaw(knots[k]@, knots[k + 1]@, base),),
        headings[k],
    ));
}

/// One coordinate of the direction of travel.
proof fn lemma_travel(from: Double, to: Double)
    requires
        to.difference(from).finite(),
    ensures
        size(value(to.difference(from)) - (value(to) - value(from))) <= half_ulp() * size(
            value(to) - value(from),
        ),
{
    lemma_parts_of_sum(to, from.negated());
    lemma_value_of_negated(from);
    lemma_sum_error(to, from.negated());
}

/// The direction of travel leads from the first position to the second, up to rounding.
pub proof fn lemma_travel_is_toward_the_second_position(positions: Seq<Vector3>)
    requires
        positions.len() >= 2,
        direction_of_travel(positions).x.finite(),
        direction_of_travel(positions).y.finite(),
    ensures
        ({
            let (x, y) = (
                value(positions[1].x) - value(positions[0].x),
                value(positions[1].y) - value(positions[0].y),
            );
            &&& size(value(direction_of_travel(positions).x) - x) <= half_ulp() * size(x)
            &&& size(value(direction_of_travel(positions).y) - y) <= half_ulp() * size(y)
        }),
{
    lemma_travel(positions[0].x, positions[1].x);
    lemma_travel(positions[0].y, positions[1].y);
}

/// Pinning a joint adds its constraint and leaves all else as it was.
pub proof fn lemma_pinning_adds_one_constraint(
    before: DifferentialIkConfig,
    after: DifferentialIkConfig,
    joint_name: Seq<char>,
    target_value: Double,
)
    requires
        pinned_also(before, after, joint_name, target_value),
    ensures
        ({
            let (old_list, new_list) = (
                before.equality_constraints@,
                after.equality_constraints@,
            );
            let count = old_list.len() as int;
            &&& after.num_steps == before.num_steps
            &&& after.damping_factor == before.damping_factor
            &&& after.convergence_threshold == before.convergence_threshold
            &&& new_list.len() == count + 1
            &&& forall|i: int| 0 <= i < count ==> #[trigger] new_list[i] == old_list[i]
            &&& new_list[count].joint_name@ == joint_name
            &&& new_list[count].target_value == target_value
        }),
{
    let (old_list, new_list) = (before.equality_constraints@, after.equality_constraints@);
    assert forall|i: int| 0 <= i < old_list.len() implies #[trigger] new_list[i] == old_list[i] by {
        assert(new_list.drop_last()[i] == old_list[i]);
    }
}

/// The number that a text of decimal digits reads.
pub open spec fn reads(text: Seq<char>) -> int
    decreases text.len(),
{
    if text.len() == 0 {
        0
    } else {
        10 * reads(text.drop_last()) + (text.last() as int - 48)
    }
}

/// A number in decimal reads as the number, has digits only, and no zero in front.
pub proof fn lemma_digits_read_back(number: nat)
    ensures
        reads(digits(number)) == number,
        forall|i: int| 0 <= i < digits(number).len() ==> '0' <= #[trigger] digits(number)[i] <= '9',
        digits(number).len() >= 1,
        number > 0 ==> digits(number)[0] != '0',
    decreases number,
{
    let text = digits(number);
    if number < 10 {
        assert(text.drop_last() =~= Seq::<char>::empty());
        assert(digit(number) as int == 48 + number);
        reveal_with_fuel(reads, 2);
    } else {
        lemma_digits_read_back(number / 10);
        assert(text.drop_last() =~= digits(number / 10));
        assert(digit(number % 10) as int == 48 + number % 10);
    }
}

/// What rounding can make of a speed at its limit.
pub open spec fn speed_rounding(step: real, limit: real, dt: real) -> real {
    (6int as real) * (half_ulp() * (step + limit)) + (2int as real) * (least() * dt)
}

/// A joint is too fast where its step is longer than the speed limit allows for, up to
/// rounding; and only there.
pub proof fn lemma_too_fast_is_beyond_the_limit(
    from: Double,
    to: Double,
    config: TrajectoryConfig,
)
    requires
        to.difference(from).finite(),
        config.dt.finite(),
        value(config.dt) > 0int as real,
        config.max_joint_velocity.sum(Double { bits: VELOCITY_SLACK }).finite(),
        value(config.max_joint_velocity) + value(Double { bits: VELOCITY_SLACK }) >= 0int as real,
        to.difference(from).absolute().quotient(config.dt).finite(),
    ensures
        ({
            let step = size(value(to) - value(from));
            let dt = value(config.dt);
            let limit = (value(config.max_joint_velocity) + value(Double { bits: VELOCITY_SLACK }))
                * dt;
            let fast = too_fast(to.difference(from), config);
            &&& fast ==> step >= limit - speed_rounding(step, limit, dt)
            &&& step > limit + speed_rounding(step, limit, dt) ==> fast
        }),
{
    lemma_half_ulp();
    lemma_least_is_tiny();
    let (h, l, one) = (half_ulp(), least(), 1int as real);
    let slack = Double { bits: VELOCITY_SLACK };
    let d = to.difference(from);
    let ratio = d.absolute().quotient(config.dt);
    let allowed = config.max_joint_velocity.sum(slack);
    lemma_travel(from, to);
    lemma_value_of_absolute(d);
    lemma_quotient_error(d.absolute(), config.dt);
    lemma_sum_error(config.max_joint_velocity, slack);
    lemma_values_in_order(allowed, ratio);
    let step = size(value(to) - value(from));
    let dt = value(config.dt);
    let speed = value(config.max_joint_velocity) + value(slack);
    let limit = speed * dt;
    lemma_scaled_order(dt, 0int as real, speed);
    lemma_zero(dt);
    lemma_commutes(dt, speed);
    let (r, a) = (value(ratio), value(allowed));
    // The ratio, times dt.
    lemma_tenth(h, step);
    lemma_tenth(h, h * step);
    lemma_scaled_order(h, value(d.absolute()), step + h * step);
    lemma_distributes(h, step, h * step);
    assert(size(r * dt - step) <= (3int as real) * (h * step) + l * dt);
    // What is allowed, times dt.
    lemma_scaled_order(dt, size(a - speed), h * speed);
    lemma_distributes(dt, a, speed);
    lemma_size_of_product(a - speed, dt);
    lemma_commutes(dt, size(a - speed));
    lemma_commutes(dt, a - speed);
    lemma_commutes(dt, h * speed);
    lemma_associates(h, speed, dt);
    lemma_commutes(dt, a);
    assert(size(a * dt - limit) <= h * limit);
    lemma_tenth(h, limit);
    lemma_distributes(h, step, limit);
    lemma_scaled_order(l, 0int as real, dt);
    lemma_zero(l);
    if a < r {
        lemma_scaled_order(dt, a, r);
        lemma_commutes(dt, r);
    } else {
        lemma_scaled_order(dt, r, a);
        lemma_commutes(dt, r);
    }
}

/// A trajectory exceeds the velocity limit exactly where some joint is too fast between some
/// two neighbouring knots.
pub proof fn lemma_any_joint_counts(
    knots: Seq<Vec<Double>>,
    config: TrajectoryConfig,
    n: nat,
    k: int,
    j: int,
)
    requires
        0 <= k < knots.len() - 1,
        0 <= j < n,
        knots[k]@.len() == n,
        too_fast(knots[k + 1]@[j].difference(knots[k]@[j]), config),
    ensures
        any_too_fast(knots, config, n),
{
    assert(too_fast(step_between(knots[k]@, knots[k + 1]@)[j], config));
}

/// The position error of a knot is the distance of the end effector from its goal: its square
/// is the sum of the squares of the three differences, up to rounding.
pub proof fn lemma_position_error_is_the_distance<P>(
    compare: P,
    goal: Vector3,
    knot: Vec<Double>,
    place: int,
    error: PoseError,
) where P: Fn(usize, &Vec<Double>) -> (Vector3, Double)
    requires
        is_pose_error(compare, goal, knot, place, error),
        error.position.finite(),
    ensures
        exists|actual: Vector3, angle: Double|
            {
                let offset = actual.difference(goal);
                let all = value(offset.x) * value(offset.x) + value(offset.y) * value(offset.y)
                    + value(offset.z) * value(offset.z);
                let found = value(error.position);
                &&& #[trigger] call_ensures(compare, (place as usize, &knot), (actual, angle))
                &&& error.orientation == angle
                &&& size(found * found - all) <= (20int as real) * (half_ulp() * all) + (
                24int as real) * least()
            },
{
    let (actual, angle) = choose|actual: Vector3, angle: Double|
        #[trigger] call_ensures(compare, (place as usize, &knot), (actual, angle))
            && error.position == actual.difference(goal).length() && error.orientation == angle;
    lemma_length_squared(actual.difference(goal));
    assert(call_ensures(compare, (place as usize, &knot), (actual, angle)));
}

/// The sum of the squares of the components, rounded.
proof fn lemma_components_squared(v: Vector3)
    requires
        v.inner(v).finite(),
    ensures
        ({
            let all = value(v.x) * value(v.x) + value(v.y) * value(v.y) + value(v.z) * value(v.z);
            &&& all >= 0int as real
            &&& size(value(v.inner(v)) - all) <= (5int as real) * (half_ulp() * all) + (5int as real)
                * least()
        }),
{
    lemma_half_ulp();
    lemma_least_is_tiny();
    let (h, l) = (half_ulp(), least());
    let (p, q, r) = (v.x.product(v.x), v.y.product(v.y), v.z.product(v.z));
    lemma_parts_of_sum(p.sum(q), r);
    lemma_parts_of_sum(p, q);
    lemma_sum_of_three(p, q, r);
    lemma_product_error(v.x, v.x);
    lemma_product_error(v.y, v.y);
    lemma_product_error(v.z, v.z);
    let (a, b, c) = (value(v.x) * value(v.x), value(v.y) * value(v.y), value(v.z) * value(v.z));
    lemma_square(value(v.x));
    lemma_square(value(v.y));
    lemma_square(value(v.z));
    let all = a + b + c;
    let ha = h * all;
    lemma_three(h, a, b, c);
    lemma_tiny(a);
    lemma_tiny(b);
    lemma_tiny(c);
    lemma_tiny(all);
    lemma_tiny(ha);
    lemma_tiny(l);
    let sizes = size(value(p)) + size(value(q)) + size(value(r));
    assert(sizes <= all + ha + (3int as real) * l);
    lemma_scaled_order(h, sizes, all + ha + (3int as real) * l);
    lemma_three(h, all, ha, (3int as real) * l);
    lemma_exchanges(h, 3int as real, l);
    assert(h * sizes <= ha + h * ha + (3int as real) * (h * l));
    assert(size(value(p) + value(q) + value(r) - all) <= ha + (3int as real) * l);
}

/// The square of a length is the sum of the squares of the components, up to rounding.
pub proof fn lemma_length_squared(v: Vector3)
    requires
        v.length().finite(),
    ensures
        ({
            let all = value(v.x) * value(v.x) + value(v.y) * value(v.y) + value(v.z) * value(v.z);
            let found = value(v.length());
            size(found * found - all) <= (20int as real) * (half_ulp() * all) + (24int as real)
                * least()
        }),
{
    lemma_half_ulp();
    lemma_least_is_tiny();
    let (h, l) = (half_ulp(), least());
    let sum = v.inner(v);
    lemma_finite_norm(sum);
    lemma_positive_root(sum);
    lemma_components_squared(v);
    let all = value(v.x) * value(v.x) + value(v.y) * value(v.y) + value(v.z) * value(v.z);
    let ha = h * all;
    lemma_tiny(all);
    lemma_tiny(ha);
    lemma_tiny(l);
    lemma_scaled_order(h, value(sum), all + (5int as real) * ha + (5int as real) * l);
    lemma_three(h, all, (5int as real) * ha, (5int as real) * l);
    lemma_exchanges(h, 5int as real, ha);
    lemma_exchanges(h, 5int as real, l);
    lemma_both_roundings(
        value(v.length()) * value(v.length()),
        value(sum),
        all,
        h * value(sum),
        ha,
        l,
    );
}

/// The rounding of a sum and that of its root.
proof fn lemma_both_roundings(a: real, b: real, c: real, first: real, second: real, l: real)
    requires
        l >= 0int as real,
        second >= 0int as real,
        first <= (2int as real) * second + l,
        size(a - b) <= (6int as real) * first + (10int as real) * l,
        size(b - c) <= (5int as real) * second + (5int as real) * l,
    ensures
        size(a - c) <= (20int as real) * second + (21int as real) * l,
{
}

/// Every slip is that of its own interval: sin·Δx − cos·Δy of the base between the knot of
/// its place and the next one, with the heading that is given for the average of their yaws,
/// up to rounding.
pub proof fn lemma_every_slip_is_of_its_interval<H>(
    knots: Seq<Vec<Double>>,
    base: BaseIndices,
    heading: H,
    slips: Seq<Double>,
    k: int,
) where H: Fn(Double) -> Heading
    requires
        are_slips(knots, base, heading, slips),
        0 <= k < knots.len() - 1,
        slips[k].finite(),
        middle_yaw(knots[k]@, knots[k + 1]@, base).finite(),
        forall|yaw: Double, found: Heading|
            call_ensures(heading, (yaw,), found) ==> moderate(found),
    ensures
        slips.len() == knots.len() - 1,
        exists|yaw: Double, found: Heading|
            {
                let (here, next) = (knots[k]@, knots[k + 1]@);
                let (x, y) = (
                    value(next[base.x as int]) - value(here[base.x as int]),
                    value(next[base.y as int]) - value(here[base.y as int]),
                );
                let sum = value(here[base.yaw as int]) + value(next[base.yaw as int]);
                &&& #[trigger] call_ensures(heading, (yaw,), found)
                &&& size(value(yaw) - sum / (2int as real)) <= (2int as real) * (half_ulp() * size(
                    sum,
                )) + least()
                &&& size(value(slips[k]) - (value(found.sin) * x - value(found.cos) * y)) <= slack(
                    x,
                    y,
                )
            },
{
    let headings = choose|headings: Seq<Heading>|
        {
            &&& #[trigger] are_headings(knots, base, heading, headings)
            &&& forall|k: int|
                0 <= k < slips.len() ==> #[trigger] slips[k] == lateral_slip(
                    knots[k]@,
                    knots[k + 1]@,
                    base,
                    headings[k],
                )
        };
    let yaw = middle_yaw(knots[k]@, knots[k + 1]@, base);
    assert(slips[k] == lateral_slip(knots[k]@, knots[k + 1]@, base, headings[k]));
    lemma_middle_yaw_is_the_average(knots[k]@, knots[k + 1]@, base);
    assert(call_ensures(heading, (yaw,), headings[k]));
    lemma_slip_is_exact_to_rounding(knots[k]@, knots[k + 1]@, base, headings[k]);
}

/// The positions of waypoints are theirs, coordinate by coordinate and in their order.
pub proof fn lemma_positions_are_those_of_the_waypoints(waypoints: Seq<Pose>, i: int)
    requires
        0 <= i < waypoints.len(),
    ensures
        positions_of(waypoints).len() == waypoints.len(),
        positions_of(waypoints)[i].x == waypoints[i].xyz@[0],
        positions_of(waypoints)[i].y == waypoints[i].xyz@[1],
        positions_of(waypoints)[i].z == waypoints[i].xyz@[2],
{
}

/// Every corner is measured by its own cosine, that of the segments before and after its
/// waypoint; the ends of a path, and waypoints without a corner, have no turn.
pub proof fn lemma_every_corner_is_measured<A>(
    positions: Seq<Vector3>,
    measure: A,
    angles: Seq<CornerAngles>,
    i: int,
) where A: Fn(Double) -> CornerAngles
    requires
        are_angles(corners_of(positions), measure, angles),
        0 <= i < positions.len(),
    ensures
        angles.len() == positions.len(),
        0 < i < positions.len() - 1 ==> match corner_between(
            positions[i - 1],
            positions[i],
            positions[i + 1],
        ) {
            Some(corner) => call_ensures(measure, (corner.cosine,), angles[i]),
            None => angles[i].turn == (Double { bits: 0 }),
        },
        i == 0 || i == positions.len() - 1 ==> angles[i].turn == (Double { bits: 0 }),
{
    assert(corners_of(positions).len() == positions.len());
    match corners_of(positions)[i] {
        Some(corner) => {
            assert(call_ensures(measure, (corner.cosine,), angles[i]));
        },
        None => {
            assert(angles[i] == straight());
        },
    }
}

/// Corners are rounded where a radius is given: then every pose between the ends of a path
/// of three or more waypoints, whose first segment has a length, is on a piece of the rounded
/// path.
pub proof fn lemma_radius_rounds_the_path(
    config: PathConfig,
    angles: Seq<CornerAngles>,
    index: int,
)
    requires
        3 <= config.waypoints@.len() <= usize::MAX,
        (Double { bits: 0 }).less(config.corner_radius),
        (Double { bits: SHORT }).less(
            positions_of(config.waypoints@)[1].difference(
                positions_of(config.waypoints@)[0],
            ).length(),
        ),
        0 < index < interpolated(config, angles).len() - 1,
    ensures
        interpolated(config, angles)[index] is OnPiece,
{
    let positions = positions_of(config.waypoints@);
    lemma_path_is_connected(positions, angles, config.corner_radius);
}

/// A waypoint is a corner exactly where both its segments have a length, they span a plane, and
/// the turn is one that can be measured; and a corner holds the lengths of its own segments.
pub proof fn lemma_corners_need_a_plane(before: Vector3, here: Vector3, after: Vector3)
    ensures
        ({
            let (first, second) = (here.difference(before), after.difference(here));
            let (u, v) = (first.shrunk(first.length()), second.shrunk(second.length()));
            let short = Double { bits: SHORT };
            let corner = corner_between(before, here, after);
            &&& corner is Some ==> {
                &&& short.at_most(first.length()) && first.length().finite()
                &&& short.at_most(second.length()) && second.length().finite()
                &&& (Double { bits: FLAT }).at_most(u.outer(v).length())
                &&& corner->0.cosine.less(Double { bits: ONE })
                &&& corner->0.len_in == first.length()
                &&& corner->0.len_out == second.length()
                &&& corner->0.u == u
                &&& corner->0.v == v
            }
            &&& corner is None ==> !(short.at_most(first.length()) && first.length().finite()
                && short.at_most(second.length()) && second.length().finite() && (Double {
                bits: FLAT,
            }).at_most(u.outer(v).length()) && u.inner(v).less(Double { bits: ONE }))
        }),
{
}

} // verus!
