//! Read-only trajectory diagnostics: end-effector pose-tracking error and
//! differential-drive lateral-slip residuals. Never feeds back into the solvers.

use crate::double::{
    exponent, lemma_units_increase, significand, units, Double, HALF, UNIT_EXPONENT,
};
use crate::error::{size, value};
use crate::rounding::INFINITE;
use crate::text::{decimal, digits, first_position, position};
use crate::vector::Vector3;
use vstd::arithmetic::mul::{lemma_mul_is_associative, lemma_mul_strict_inequality};
use vstd::arithmetic::power2::{
    lemma2_to64, lemma2_to64_rest, lemma_pow2_adds, lemma_pow2_pos, pow2,
};
use vstd::prelude::*;
use vstd::string::*;

verus! {

/// Chain indices of the planar base joints.
#[derive(Clone, Copy, Debug, PartialEq, Eq, Structural)]
pub struct BaseIndices {
    pub x: usize,
    pub y: usize,
    pub yaw: usize,
}

/// The text that rejects a list of base joints of the wrong length.
pub open spec fn wrong_base_count(count: nat) -> Seq<char> {
    "base_joint_names must list exactly [x, y, yaw], got "@ + digits(count) + " entries"@
}

/// The text that rejects a base joint that the chain does not have.
pub open spec fn missing_base_joint(name: Seq<char>) -> Seq<char> {
    "base joint '"@ + name + "' not in serial chain"@
}

/// Why a list of base joints is rejected: its length, or the first name that
/// the chain does not have.
pub open spec fn base_rejection(joints: Seq<String>, base: Seq<String>) -> Option<Seq<char>> {
    if base.len() != 3 {
        Some(wrong_base_count(base.len()))
    } else if first_position(joints, base[0]@) is None {
        Some(missing_base_joint(base[0]@))
    } else if first_position(joints, base[1]@) is None {
        Some(missing_base_joint(base[1]@))
    } else if first_position(joints, base[2]@) is None {
        Some(missing_base_joint(base[2]@))
    } else {
        None
    }
}

/// The indices of three base joints that the chain has.
pub open spec fn base_of(joints: Seq<String>, base: Seq<String>) -> BaseIndices {
    BaseIndices {
        x: first_position(joints, base[0]@)->Some_0 as usize,
        y: first_position(joints, base[1]@)->Some_0 as usize,
        yaw: first_position(joints, base[2]@)->Some_0 as usize,
    }
}

fn missing_joint_text(name: &String) -> (text: String)
    ensures
        text@ == missing_base_joint(name@),
{
    let mut text: String = "base joint '".to_owned();
    text.append(name.as_str());
    text.append("' not in serial chain");
    text
}

/// Find the [x, y, yaw] planar base joints in the serial chain.
///
/// Each base joint resolves to the first chain joint of its name. A list of
/// another length, and the first name that the chain does not have, are errors.
pub fn resolve_base_indices(joint_names: &[String], base_joint_names: &[String]) -> (result: Result<
    BaseIndices,
    String,
>)
    ensures
        match result {
            Ok(base) => {
                &&& base_rejection(joint_names@, base_joint_names@) is None
                &&& base == base_of(joint_names@, base_joint_names@)
                &&& base.within(joint_names@.len())
            },
            Err(message) => base_rejection(joint_names@, base_joint_names@) == Some(message@),
        },
{
    if base_joint_names.len() != 3 {
        let mut text: String = "base_joint_names must list exactly [x, y, yaw], got ".to_owned();
        let count: String = decimal(base_joint_names.len());
        text.append(count.as_str());
        text.append(" entries");
        return Err(text);
    }
    let x: usize = match position(joint_names, &base_joint_names[0]) {
        Some(index) => index,
        None => {
            return Err(missing_joint_text(&base_joint_names[0]));
        },
    };
    let y: usize = match position(joint_names, &base_joint_names[1]) {
        Some(index) => index,
        None => {
            return Err(missing_joint_text(&base_joint_names[1]));
        },
    };
    let yaw: usize = match position(joint_names, &base_joint_names[2]) {
        Some(index) => index,
        None => {
            return Err(missing_joint_text(&base_joint_names[2]));
        },
    };
    Ok(BaseIndices { x, y, yaw })
}

/// Sine and cosine of a heading.
#[derive(Clone, Copy, Debug, PartialEq, Eq, Structural)]
pub struct Heading {
    pub sin: Double,
    pub cos: Double,
}

impl BaseIndices {
    /// Whether a configuration of `n` joints has the base joints.
    pub open spec fn within(self, n: nat) -> bool {
        self.x < n && self.y < n && self.yaw < n
    }
}

/// The heading halfway between those of two configurations.
pub open spec fn middle_yaw(q_k: Seq<Double>, q_k1: Seq<Double>, base: BaseIndices) -> Double {
    (Double { bits: HALF }).product(q_k[base.yaw as int].sum(q_k1[base.yaw as int]))
}

/// Lateral slip: sin(θ̄)·Δx − cos(θ̄)·Δy.
pub open spec fn lateral_slip(
    q_k: Seq<Double>,
    q_k1: Seq<Double>,
    base: BaseIndices,
    heading: Heading,
) -> Double {
    let dx = q_k1[base.x as int].difference(q_k[base.x as int]);
    let dy = q_k1[base.y as int].difference(q_k[base.y as int]);
    heading.sin.product(dx).difference(heading.cos.product(dy))
}

/// The midpoint heading θ̄ of one knot interval, whose sine and cosine the slip
/// is measured with.
pub fn midpoint_yaw(q_k: &Vec<Double>, q_k1: &Vec<Double>, base: BaseIndices) -> (yaw: Double)
    requires
        base.within(q_k@.len()),
        base.within(q_k1@.len()),
    ensures
        yaw == middle_yaw(q_k@, q_k1@, base),
{
    (Double { bits: HALF }).times(q_k[base.yaw].plus(q_k1[base.yaw]))
}

/// Whether these are the headings of the knots' intervals: what `heading` gives for
/// the yaw at each midpoint.
pub open spec fn are_headings<H>(
    knots: Seq<Vec<Double>>,
    base: BaseIndices,
    heading: H,
    headings: Seq<Heading>,
) -> bool where H: Fn(Double) -> Heading {
    &&& knots.len() == 0 ==> headings.len() == 0
    &&& knots.len() >= 1 ==> headings.len() == knots.len() - 1
    &&& forall|k: int|
        0 <= k < headings.len() ==> call_ensures(
            heading,
            (middle_yaw(knots[k]@, knots[k + 1]@, base),),
            #[trigger] headings[k],
        )
}

/// The midpoint heading of every knot interval; `heading` gives the sine and
/// cosine of an angle.
pub fn headings<H>(knots: &Vec<Vec<Double>>, base: BaseIndices, heading: &H) -> (result: Vec<
    Heading,
>) where H: Fn(Double) -> Heading
    requires
        forall|k: int| 0 <= k < knots@.len() ==> base.within((#[trigger] knots@[k])@.len()),
        forall|yaw: Double| call_requires(*heading, (yaw,)),
    ensures
        are_headings(knots@, base, *heading, result@),
{
    let mut result: Vec<Heading> = Vec::new();
    let count: usize = knots.len();
    let mut k: usize = 1;
    while k < count
        invariant
            k >= 1,
            count == knots@.len(),
            k <= count || (count == 0 && k == 1),
            forall|i: int| 0 <= i < knots@.len() ==> base.within((#[trigger] knots@[i])@.len()),
            forall|yaw: Double| call_requires(*heading, (yaw,)),
            result@.len() == k - 1,
            forall|i: int|
                0 <= i < result@.len() ==> call_ensures(
                    *heading,
                    (middle_yaw(knots@[i]@, knots@[i + 1]@, base),),
                    #[trigger] result@[i],
                ),
        decreases count - k,
    {
        assert(base.within(knots@[k - 1]@.len()) && base.within(knots@[k as int]@.len()));
        let yaw: Double = midpoint_yaw(&knots[k - 1], &knots[k], base);
        let value: Heading = heading(yaw);
        assert(call_ensures(*heading, (yaw,), value));
        result.push(value);
        k = k + 1;
    }
    result
}

/// Lateral slip of the base over one knot interval:
/// sin(θ̄)·Δx − cos(θ̄)·Δy with θ̄ the midpoint heading. Zero iff the base
/// motion satisfies the differential-drive no-lateral-slip constraint.
/// Signed: positive is slip to the base's right.
pub fn slip_residual(
    q_k: &Vec<Double>,
    q_k1: &Vec<Double>,
    base: BaseIndices,
    heading: Heading,
) -> (residual: Double)
    requires
        base.within(q_k@.len()),
        base.within(q_k1@.len()),
    ensures
        residual == lateral_slip(q_k@, q_k1@, base, heading),
{
    let dx: Double = q_k1[base.x].minus(q_k[base.x]);
    let dy: Double = q_k1[base.y].minus(q_k[base.y]);
    heading.sin.times(dx).minus(heading.cos.times(dy))
}

/// Lateral-slip residual for every knot interval; one fewer than the knots, and
/// none where there are fewer than two knots. `headings` are those of the
/// intervals' midpoints.
pub fn slip_residuals(
    joint_positions: &Vec<Vec<Double>>,
    base: BaseIndices,
    headings: &Vec<Heading>,
) -> (residuals: Vec<Double>)
    requires
        joint_positions@.len() >= 1 ==> headings@.len() == joint_positions@.len() - 1,
        forall|k: int|
            0 <= k < joint_positions@.len() ==> base.within((#[trigger] joint_positions@[k])@.len()),
    ensures
        joint_positions@.len() == 0 ==> residuals@.len() == 0,
        joint_positions@.len() >= 1 ==> residuals@.len() == joint_positions@.len() - 1,
        forall|k: int|
            0 <= k < residuals@.len() ==> #[trigger] residuals@[k] == lateral_slip(
                joint_positions@[k]@,
                joint_positions@[k + 1]@,
                base,
                headings@[k],
            ),
{
    let mut residuals: Vec<Double> = Vec::new();
    let knots: usize = joint_positions.len();
    let count: usize = if knots == 0 {
        0
    } else {
        knots - 1
    };
    let mut k: usize = 0;
    while k < count
        invariant
            knots == joint_positions@.len(),
            count == if knots == 0 {
                0
            } else {
                knots - 1
            },
            knots >= 1 ==> headings@.len() == count,
            k <= count,
            forall|i: int|
                0 <= i < joint_positions@.len() ==> base.within(
                    (#[trigger] joint_positions@[i])@.len(),
                ),
            residuals@.len() == k,
            forall|i: int|
                0 <= i < k ==> #[trigger] residuals@[i] == lateral_slip(
                    joint_positions@[i]@,
                    joint_positions@[i + 1]@,
                    base,
                    headings@[i],
                ),
        decreases count - k,
    {
        residuals.push(
            slip_residual(&joint_positions[k], &joint_positions[k + 1], base, headings[k]),
        );
        k = k + 1;
    }
    residuals
}

/// Whether these are the slips of a trajectory's intervals, the midpoint headings
/// being what `heading` gives.
pub open spec fn are_slips<H>(
    knots: Seq<Vec<Double>>,
    base: BaseIndices,
    heading: H,
    slips: Seq<Double>,
) -> bool where H: Fn(Double) -> Heading {
    &&& slips.len() == knots.len() - 1
    &&& exists|headings: Seq<Heading>|
        {
            &&& #[trigger] are_headings(knots, base, heading, headings)
            &&& forall|k: int|
                0 <= k < slips.len() ==> #[trigger] slips[k] == lateral_slip(
                    knots[k]@,
                    knots[k + 1]@,
                    base,
                    headings[k],
                )
        }
}

/// The slips of a trajectory, for the base joints of the given names. Fewer than
/// two knots have none, and the names are not looked at.
pub fn slip_check<H>(
    knots: &Vec<Vec<Double>>,
    joint_names: &Vec<String>,
    base_joint_names: &Vec<String>,
    heading: &H,
) -> (result: Result<Option<Vec<Double>>, String>) where H: Fn(Double) -> Heading
    requires
        forall|k: int|
            0 <= k < knots@.len() ==> (#[trigger] knots@[k])@.len() == joint_names@.len(),
        forall|yaw: Double| call_requires(*heading, (yaw,)),
    ensures
        match result {
            Ok(None) => knots@.len() < 2,
            Ok(Some(slips)) => {
                &&& knots@.len() >= 2
                &&& base_rejection(joint_names@, base_joint_names@) is None
                &&& are_slips(
                    knots@,
                    base_of(joint_names@, base_joint_names@),
                    *heading,
                    slips@,
                )
            },
            Err(message) => knots@.len() >= 2 && base_rejection(joint_names@, base_joint_names@)
                == Some(message@),
        },
{
    if knots.len() < 2 {
        return Ok(None);
    }
    match resolve_base_indices(joint_names.as_slice(), base_joint_names.as_slice()) {
        Ok(base) => {
            let middles: Vec<Heading> = headings(knots, base, heading);
            let slips: Vec<Double> = slip_residuals(knots, base, &middles);
            assert(are_headings(knots@, base, *heading, middles@));
            Ok(Some(slips))
        },
        Err(message) => Err(message),
    }
}

/// Slip tolerance in meters of lateral motion per knot interval (1e-6).
/// Residuals up to this are solver noise, not violations.
pub const SLIP_TOLERANCE: u64 = 0x3EB0_C6F7_A0B5_ED8D;

/// Worst and out-of-tolerance slip over a residual series.
#[derive(Clone, Copy, Debug, PartialEq, Eq, Structural)]
pub struct SlipSummary {
    pub max_abs: Double,
    /// Knot interval of the worst violation; none where every residual is zero.
    pub max_index: Option<usize>,
    pub count_above_tol: usize,
}

/// The number of residuals beyond the tolerance. A NaN is beyond it.
pub open spec fn slips_above(residuals: Seq<Double>) -> nat
    decreases residuals.len(),
{
    if residuals.len() == 0 {
        0
    } else {
        slips_above(residuals.drop_last()) + if (Double { bits: SLIP_TOLERANCE }).total_key()
            < residuals.last().absolute().total_key() {
            1nat
        } else {
            0nat
        }
    }
}

/// Whether a slip is beyond the tolerance: larger in size, to either side, or no number.
pub open spec fn exceeds(residual: Double) -> bool {
    residual.nan() || size(value(residual)) > value(Double { bits: SLIP_TOLERANCE })
}

/// The sizes of two numbers are ordered as their magnitudes are.
proof fn lemma_sizes_in_order(a: Double, b: Double)
    requires
        a.finite(),
        !b.nan(),
    ensures
        size(value(a)) < size(value(b)) <==> a.magnitude() < b.magnitude(),
{
    lemma_pow2_pos(UNIT_EXPONENT as nat);
    let u = pow2(UNIT_EXPONENT as nat) as real;
    let (p, q) = (units(a.magnitude()), units(b.magnitude()));
    if a.magnitude() < b.magnitude() {
        lemma_units_grow(a.magnitude(), b.magnitude());
    } else if b.magnitude() < a.magnitude() {
        lemma_units_grow(b.magnitude(), a.magnitude());
    }
    lemma_scaled_size(a);
    lemma_scaled_size(b);
    let (x, y) = (p as real, q as real);
    if x < y {
        assert(x / u < y / u) by (nonlinear_arith)
            requires
                x < y,
                u > 0int as real,
        ;
    } else {
        assert(x / u >= y / u) by (nonlinear_arith)
            requires
                x >= y,
                u > 0int as real,
        ;
    }
}

/// The units grow with the magnitude, up to that of infinity.
proof fn lemma_units_grow(low: nat, high: nat)
    requires
        low < high <= INFINITE,
    ensures
        units(low) < units(high),
{
    if high < INFINITE {
        lemma_units_increase(low, high);
    } else {
        let last = (INFINITE - 1) as nat;
        if low < last {
            lemma_units_increase(low, last);
        }
        lemma2_to64();
        lemma2_to64_rest();
        let p = pow2(2045);
        lemma_pow2_adds(1, 2045);
        lemma_pow2_pos(2045);
        assert(significand(last) == 9007199254740991 && exponent(last) == 2045);
        assert(significand(high) == 4503599627370496 && exponent(high) == 2046);
        lemma_mul_strict_inequality(9007199254740991int, 9007199254740992int, p as int);
        lemma_mul_is_associative(4503599627370496int, 2int, p as int);
    }
}

/// The size of a value is that of its units.
proof fn lemma_scaled_size(x: Double)
    ensures
        size(value(x)) == (units(x.magnitude()) as real) / (pow2(UNIT_EXPONENT as nat) as real),
{
    lemma_pow2_pos(UNIT_EXPONENT as nat);
    let u = pow2(UNIT_EXPONENT as nat) as real;
    let p = units(x.magnitude()) as real;
    assert(p / u >= 0int as real && (-p) / u == -(p / u)) by (nonlinear_arith)
        requires
            p >= 0int as real,
            u > 0int as real,
    ;
}

/// A slip is beyond the tolerance exactly where its size ranks above it.
proof fn lemma_exceeds(residual: Double)
    ensures
        exceeds(residual) <==> (Double { bits: SLIP_TOLERANCE }).total_key()
            < residual.absolute().total_key(),
{
    let tolerance = Double { bits: SLIP_TOLERANCE };
    lemma_scaled_size(tolerance);
    assert(value(tolerance) == size(value(tolerance)));
    if !residual.nan() {
        lemma_sizes_in_order(tolerance, residual);
    }
}

/// The slips that are counted are those beyond the tolerance: as many as are left of
/// the series where the others are taken out.
pub proof fn lemma_counted_slips_exceed(residuals: Seq<Double>)
    ensures
        slips_above(residuals) == residuals.filter(|residual: Double| exceeds(residual)).len(),
    decreases residuals.len(),
{
    reveal(Seq::filter);
    if residuals.len() > 0 {
        lemma_counted_slips_exceed(residuals.drop_last());
        lemma_exceeds(residuals.last());
    }
}

/// The slips of two series are counted one after the other, so that neither the order
/// of the series nor a slip within the tolerance changes the count.
pub proof fn lemma_counted_slips_add_up(first: Seq<Double>, second: Seq<Double>)
    ensures
        slips_above(first + second) == slips_above(first) + slips_above(second),
        slips_above(second + first) == slips_above(first + second),
    decreases first.len() + second.len(),
{
    lemma_counted_slips_exceed(first);
    lemma_counted_slips_exceed(second);
    lemma_counted_slips_exceed(first + second);
    lemma_counted_slips_exceed(second + first);
    lemma_filtered_parts(first, second);
    lemma_filtered_parts(second, first);
}

proof fn lemma_filtered_parts(first: Seq<Double>, second: Seq<Double>)
    ensures
        (first + second).filter(|residual: Double| exceeds(residual)).len() == first.filter(
            |residual: Double| exceeds(residual),
        ).len() + second.filter(|residual: Double| exceeds(residual)).len(),
    decreases second.len(),
{
    reveal(Seq::filter);
    if second.len() == 0 {
        assert(first + second =~= first);
    } else {
        assert((first + second).drop_last() =~= first + second.drop_last());
        lemma_filtered_parts(first, second.drop_last());
    }
}

/// One more slip never lowers the count, and raises it where it is beyond the
/// tolerance.
pub proof fn lemma_one_more_slip(residuals: Seq<Double>, residual: Double)
    ensures
        slips_above(residuals.push(residual)) == slips_above(residuals) + if exceeds(residual) {
            1nat
        } else {
            0nat
        },
{
    lemma_exceeds(residual);
    lemma_counted_slips_exceed(residuals);
    lemma_counted_slips_exceed(residuals.push(residual));
    reveal(Seq::filter);
    assert(residuals.push(residual).drop_last() =~= residuals);
}

/// The first residual of the greatest size, where one is not zero.
pub open spec fn worst_slip(residuals: Seq<Double>) -> Option<nat>
    decreases residuals.len(),
{
    if residuals.len() == 0 {
        None
    } else {
        let size = residuals.last().absolute();
        match worst_slip(residuals.drop_last()) {
            Some(index) => if residuals[index as int].absolute().total_key() < size.total_key() {
                Some((residuals.len() - 1) as nat)
            } else {
                Some(index)
            },
            None => if 0 < size.total_key() {
                Some((residuals.len() - 1) as nat)
            } else {
                None
            },
        }
    }
}

/// The worst slip is at least as large as any other, larger than all before it,
/// and there is none only where every residual is zero. No more slips are
/// counted than there are.
pub proof fn lemma_worst_slip(residuals: Seq<Double>)
    ensures
        slips_above(residuals) <= residuals.len(),
        match worst_slip(residuals) {
            Some(index) => {
                &&& index < residuals.len()
                &&& !residuals[index as int].zero()
                &&& forall|k: int|
                    0 <= k < residuals.len() ==> (
                    #[trigger] residuals[k]).absolute().total_key()
                        <= residuals[index as int].absolute().total_key()
                &&& forall|k: int|
                    0 <= k < index ==> (#[trigger] residuals[k]).absolute().total_key()
                        < residuals[index as int].absolute().total_key()
            },
            None => forall|k: int| 0 <= k < residuals.len() ==> (#[trigger] residuals[k]).zero(),
        },
    decreases residuals.len(),
{
    if residuals.len() > 0 {
        let rest = residuals.drop_last();
        lemma_worst_slip(rest);
        assert forall|k: int| 0 <= k < rest.len() implies rest[k] == residuals[k] by {}
        match worst_slip(rest) {
            Some(index) => {
                assert(rest[index as int] == residuals[index as int]);
                assert forall|k: int| 0 <= k < rest.len() implies (
                #[trigger] residuals[k]).absolute().total_key()
                    <= residuals[index as int].absolute().total_key() && (k < index
                    ==> residuals[k].absolute().total_key()
                    < residuals[index as int].absolute().total_key()) by {
                    assert(rest[k] == residuals[k]);
                }
            },
            None => {
                assert forall|k: int| 0 <= k < rest.len() implies (
                #[trigger] residuals[k]).zero() by {
                    assert(rest[k] == residuals[k]);
                }
            },
        }
    }
}

/// Summarize a series of slip residuals.
pub fn summarize_slip(residuals: &Vec<Double>) -> (summary: SlipSummary)
    ensures
        match worst_slip(residuals@) {
            Some(index) => summary.max_index == Some(index as usize) && summary.max_abs
                == residuals@[index as int].absolute(),
            None => summary.max_index is None && summary.max_abs == (Double { bits: 0 }),
        },
        summary.max_index matches Some(index) ==> index < residuals@.len(),
        summary.count_above_tol == slips_above(residuals@),
        summary.count_above_tol == residuals@.filter(|residual: Double| exceeds(residual)).len(),
{
    let mut max_abs: Double = Double { bits: 0 };
    let mut max_index: Option<usize> = None;
    let mut count_above_tol: usize = 0;
    let mut k: usize = 0;
    assert(residuals@.take(0) =~= Seq::<Double>::empty());
    while k < residuals.len()
        invariant
            k <= residuals@.len(),
            count_above_tol <= k,
            count_above_tol == slips_above(residuals@.take(k as int)),
            match worst_slip(residuals@.take(k as int)) {
                Some(index) => max_index == Some(index as usize) && index < k && max_abs
                    == residuals@[index as int].absolute(),
                None => max_index is None && max_abs == (Double { bits: 0 }),
            },
        decreases residuals@.len() - k,
    {
        proof {
            let next = residuals@.take(k + 1);
            assert(next.drop_last() =~= residuals@.take(k as int));
            assert(next.last() == residuals@[k as int]);
            lemma_worst_slip(residuals@.take(k as int));
        }
        let size: Double = residuals[k].abs();
        if max_abs.total_lt(size) {
            max_abs = size;
            max_index = Some(k);
        }
        if (Double { bits: SLIP_TOLERANCE }).total_lt(size) {
            count_above_tol = count_above_tol + 1;
        }
        k = k + 1;
    }
    assert(residuals@.take(k as int) =~= residuals@);
    proof {
        lemma_counted_slips_exceed(residuals@);
    }
    SlipSummary { max_abs, max_index, count_above_tol }
}

/// End-effector tracking error at one knot.
#[derive(Clone, Copy, Debug, PartialEq, Eq, Structural)]
pub struct PoseError {
    /// Meters: ‖t_actual − t_desired‖.
    pub position: Double,
    /// Radians: rotation angle between desired and actual orientation.
    pub orientation: Double,
}

impl PoseError {
    /// The error of an actual against a desired position, and the angle between
    /// the orientations.
    pub fn between(actual: Vector3, desired: Vector3, angle: Double) -> (error: PoseError)
        ensures
            error.position == actual.difference(desired).length(),
            error.orientation == angle,
    {
        PoseError { position: actual.minus(desired).norm(), orientation: angle }
    }
}

/// Whether an error is that of a knot against its goal: `compare` gives where the
/// end effector is and the angle between its orientation and the goal's.
pub open spec fn is_pose_error<P>(
    compare: P,
    goal: Vector3,
    knot: Vec<Double>,
    place: int,
    error: PoseError,
) -> bool where P: Fn(usize, &Vec<Double>) -> (Vector3, Double) {
    exists|actual: Vector3, angle: Double|
        #[trigger] call_ensures(compare, (place as usize, &knot), (actual, angle))
            && error.position == actual.difference(goal).length() && error.orientation == angle
}

/// Pose-tracking error per knot: each configuration against the goal pose of the
/// same place. Stops at the shorter of the two lists: where only the first pose
/// is solved, one knot stands against a full path of goals.
pub fn pose_errors<P>(
    goals: &Vec<Vector3>,
    joint_positions: &Vec<Vec<Double>>,
    compare: P,
) -> (errors: Vec<PoseError>) where P: Fn(usize, &Vec<Double>) -> (Vector3, Double)
    requires
        forall|k: int|
            0 <= k < goals@.len() && k < joint_positions@.len() ==> call_requires(
                compare,
                (k as usize, &#[trigger] joint_positions@[k]),
            ),
    ensures
        errors@.len() == if goals@.len() < joint_positions@.len() {
            goals@.len()
        } else {
            joint_positions@.len()
        },
        forall|k: int|
            0 <= k < errors@.len() ==> is_pose_error(
                compare,
                goals@[k],
                joint_positions@[k],
                k,
                #[trigger] errors@[k],
            ),
{
    let mut errors: Vec<PoseError> = Vec::new();
    let mut k: usize = 0;
    while k < goals.len() && k < joint_positions.len()
        invariant
            k <= goals@.len(),
            k <= joint_positions@.len(),
            forall|i: int|
                0 <= i < goals@.len() && i < joint_positions@.len() ==> call_requires(
                    compare,
                    (i as usize, &#[trigger] joint_positions@[i]),
                ),
            errors@.len() == k,
            forall|i: int|
                0 <= i < k ==> is_pose_error(
                    compare,
                    goals@[i],
                    joint_positions@[i],
                    i,
                    #[trigger] errors@[i],
                ),
        decreases goals@.len() - k,
    {
        assert(call_requires(compare, (k, &joint_positions@[k as int])));
        let (actual, angle): (Vector3, Double) = compare(k, &joint_positions[k]);
        assert(call_ensures(compare, (k, &joint_positions@[k as int]), (actual, angle)));
        errors.push(PoseError::between(actual, goals[k], angle));
        k = k + 1;
    }
    errors
}

/// The rank of a value among errors: a NaN of either sign is above any number.
pub open spec fn severity(value: Double) -> int {
    if value.nan() {
        value.absolute().total_key()
    } else {
        value.total_key()
    }
}

/// A NaN is worse than any number.
pub proof fn lemma_nan_is_worst(nan: Double, number: Double)
    requires
        nan.nan(),
        !number.nan(),
    ensures
        severity(number) < severity(nan),
{
}

/// The index of the last of the values of the greatest rank.
pub open spec fn last_greatest(values: Seq<Double>) -> Option<nat>
    decreases values.len(),
{
    if values.len() == 0 {
        None
    } else {
        match last_greatest(values.drop_last()) {
            Some(index) => if severity(values.last()) < severity(values[index as int]) {
                Some(index)
            } else {
                Some((values.len() - 1) as nat)
            },
            None => Some((values.len() - 1) as nat),
        }
    }
}

/// The last greatest value is at least as bad as any and worse than all after it,
/// and there is one in any series but the empty one.
pub proof fn lemma_last_greatest(values: Seq<Double>)
    ensures
        match last_greatest(values) {
            Some(index) => {
                &&& index < values.len()
                &&& forall|k: int|
                    0 <= k < values.len() ==> severity(#[trigger] values[k]) <= severity(
                        values[index as int],
                    )
                &&& forall|k: int|
                    index < k < values.len() ==> severity(#[trigger] values[k]) < severity(
                        values[index as int],
                    )
            },
            None => values.len() == 0,
        },
    decreases values.len(),
{
    if values.len() > 0 {
        let rest = values.drop_last();
        lemma_last_greatest(rest);
        assert forall|k: int| 0 <= k < rest.len() implies rest[k] == values[k] by {}
        match last_greatest(rest) {
            Some(index) => {
                assert(rest[index as int] == values[index as int]);
                assert forall|k: int| 0 <= k < rest.len() implies severity(
                    #[trigger] values[k],
                ) <= severity(values[index as int]) && (index < k ==> severity(values[k])
                    < severity(values[index as int])) by {
                    assert(rest[k] == values[k]);
                }
            },
            None => {},
        }
    }
}

/// The worst of a series of errors and its knot; a zero error at knot 0 where
/// the series is empty. A NaN counts as worse than any number, so that a solver
/// blowup is not reported as a clean zero.
pub fn worst(values: &Vec<Double>) -> (result: (usize, Double))
    ensures
        match last_greatest(values@) {
            Some(index) => result.0 == index && result.1 == values@[index as int],
            None => result.0 == 0 && result.1 == (Double { bits: 0 }),
        },
{
    let mut knot: usize = 0;
    let mut value: Double = Double { bits: 0 };
    let mut k: usize = 0;
    assert(values@.take(0) =~= Seq::<Double>::empty());
    while k < values.len()
        invariant
            k <= values@.len(),
            match last_greatest(values@.take(k as int)) {
                Some(index) => 0 < k && index < k && knot == index && value
                    == values@[index as int],
                None => k == 0 && knot == 0 && value == (Double { bits: 0 }),
            },
        decreases values@.len() - k,
    {
        proof {
            let next = values@.take(k + 1);
            assert(next.drop_last() =~= values@.take(k as int));
            assert(next.last() == values@[k as int]);
        }
        let here: Double = if values[k].is_nan() {
            values[k].abs()
        } else {
            values[k]
        };
        let worst: Double = if value.is_nan() {
            value.abs()
        } else {
            value
        };
        if k == 0 || !here.total_lt(worst) {
            knot = k;
            value = values[k];
        }
        k = k + 1;
    }
    assert(values@.take(k as int) =~= values@);
    (knot, value)
}

} // verus!
