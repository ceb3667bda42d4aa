//! The kinematics of a trajectory at its knots, and the linearizations of the
//! base's slip and progress over an interval.

use crate::diagnostics::{lateral_slip, slip_residual, BaseIndices, Heading};
use crate::double::{Double, HALF};
use crate::matrix::Matrix;
use crate::products::{gram, normal_matrix, transposed_image, transposed_times};
use vstd::prelude::*;

verus! {

/// What forward kinematics reads off a configuration: the pose-error twist r to the
/// goal, and the Jacobian J.
pub struct PoseReading {
    pub twist: Vec<Double>,
    pub jacobian: Matrix,
}

impl PoseReading {
    /// Whether this is a reading of `n` joints.
    pub open spec fn shaped(&self, n: nat) -> bool {
        &&& self.twist@.len() == 6
        &&& self.jacobian.well_formed()
        &&& self.jacobian@.len() == 6
        &&& self.jacobian.width() == n
    }
}

/// The kinematics at one knot: the pose-error twist r, the Jacobian J, and the
/// products JᵀJ and Jᵀr.
pub struct KnotEvaluation {
    pub residual: Vec<Double>,
    pub jacobian: Matrix,
    pub normal: Matrix,
    pub gradient: Vec<Double>,
}

/// The kinematics at every knot, and the midpoint heading of every interval.
pub struct Evaluation {
    pub knots: Vec<KnotEvaluation>,
    pub headings: Vec<Heading>,
}

impl KnotEvaluation {
    /// Whether this is an evaluation of `n` joints: the parts fit, and the products
    /// are those of the Jacobian and the residual.
    pub open spec fn shaped(&self, n: nat) -> bool {
        &&& self.residual@.len() == 6
        &&& self.jacobian.well_formed()
        &&& self.jacobian@.len() == 6
        &&& self.jacobian.width() == n
        &&& self.normal.well_formed()
        &&& self.normal@ == gram(self.jacobian@, n)
        &&& self.normal@.len() == n
        &&& self.normal.width() == n
        &&& self.gradient@ == transposed_image(self.jacobian@, n, self.residual@)
        &&& self.gradient@.len() == n
    }

    /// The reading that this evaluates.
    pub open spec fn reading(&self) -> PoseReading {
        PoseReading { twist: self.residual, jacobian: self.jacobian }
    }

    /// The products of a reading.
    pub fn of(reading: PoseReading) -> (evaluation: KnotEvaluation)
        requires
            reading.shaped(reading.jacobian.width()),
        ensures
            evaluation.shaped(reading.jacobian.width()),
            evaluation.reading() == reading,
    {
        let normal: Matrix = normal_matrix(&reading.jacobian);
        let gradient: Vec<Double> = transposed_times(&reading.jacobian, &reading.twist);
        KnotEvaluation { residual: reading.twist, jacobian: reading.jacobian, normal, gradient }
    }
}

impl Evaluation {
    /// Whether this is an evaluation of `count` knots of `n` joints.
    pub open spec fn shaped(&self, count: nat, n: nat) -> bool {
        &&& self.knots@.len() == count
        &&& self.headings@.len() + 1 == count
        &&& forall|k: int| 0 <= k < count ==> (#[trigger] self.knots@[k]).shaped(n)
    }
}

/// Whether every knot has `n` joints.
pub open spec fn knots_shaped(knots: Seq<Vec<Double>>, n: nat) -> bool {
    forall|k: int| 0 <= k < knots.len() ==> (#[trigger] knots[k])@.len() == n
}

/// Whether the subproblem of `count` knots of `n` joints can be addressed.
pub open spec fn addressable(count: nat, n: nat) -> bool {
    4 * (count * n) <= usize::MAX && 7 * count <= usize::MAX && 2 * n <= usize::MAX
}

/// The entries of a linearization: places in the concatenated [q_k ‖ q_k1],
/// with their values.
pub type Partials = [(usize, Double); 6];

/// The partials of the lateral slip.
pub open spec fn slip_partials(
    q_k: Seq<Double>,
    q_k1: Seq<Double>,
    base: BaseIndices,
    heading: Heading,
) -> Seq<(usize, Double)> {
    let n = q_k.len();
    let dx = q_k1[base.x as int].difference(q_k[base.x as int]);
    let dy = q_k1[base.y as int].difference(q_k[base.y as int]);
    let dyaw = (Double { bits: HALF }).product(
        heading.cos.product(dx).sum(heading.sin.product(dy)),
    );
    seq![
        (base.x, heading.sin.negated()),
        (base.y, heading.cos),
        (base.yaw, dyaw),
        ((n + base.x) as usize, heading.sin),
        ((n + base.y) as usize, heading.cos.negated()),
        ((n + base.yaw) as usize, dyaw),
    ]
}

/// The distance driven along the midpoint heading: cos(θ̄)·Δx + sin(θ̄)·Δy.
pub open spec fn forward_progress(
    q_k: Seq<Double>,
    q_k1: Seq<Double>,
    base: BaseIndices,
    heading: Heading,
) -> Double {
    let dx = q_k1[base.x as int].difference(q_k[base.x as int]);
    let dy = q_k1[base.y as int].difference(q_k[base.y as int]);
    heading.cos.product(dx).sum(heading.sin.product(dy))
}

/// The partials of the forward progress.
pub open spec fn progress_partials(
    q_k: Seq<Double>,
    q_k1: Seq<Double>,
    base: BaseIndices,
    heading: Heading,
) -> Seq<(usize, Double)> {
    let n = q_k.len();
    let dx = q_k1[base.x as int].difference(q_k[base.x as int]);
    let dy = q_k1[base.y as int].difference(q_k[base.y as int]);
    let dyaw = (Double { bits: HALF }).product(
        heading.cos.product(dy).difference(heading.sin.product(dx)),
    );
    seq![
        (base.x, heading.cos.negated()),
        (base.y, heading.sin.negated()),
        (base.yaw, dyaw),
        ((n + base.x) as usize, heading.cos),
        ((n + base.y) as usize, heading.sin),
        ((n + base.yaw) as usize, dyaw),
    ]
}

/// No-lateral-slip constraint for one knot interval, linearized at the current
/// configurations: c = sin(θ̄)·Δx − cos(θ̄)·Δy with θ̄ the midpoint heading.
///
/// Returns the residual and the six nonzero partials; all other partials are
/// exactly zero because c involves only the base coordinates.
pub fn nonholonomic_linearization(
    q_k: &Vec<Double>,
    q_k1: &Vec<Double>,
    base: BaseIndices,
    heading: Heading,
) -> (result: (Double, Partials))
    requires
        q_k@.len() == q_k1@.len(),
        base.within(q_k@.len()),
        2 * q_k@.len() <= usize::MAX,
    ensures
        result.0 == lateral_slip(q_k@, q_k1@, base, heading),
        result.1@ == slip_partials(q_k@, q_k1@, base, heading),
{
    let n: usize = q_k.len();
    let dx: Double = q_k1[base.x].minus(q_k[base.x]);
    let dy: Double = q_k1[base.y].minus(q_k[base.y]);
    let (sin_mid, cos_mid): (Double, Double) = (heading.sin, heading.cos);
    let residual: Double = slip_residual(q_k, q_k1, base, heading);
    // d/dθ̄ (sin θ̄·Δx − cos θ̄·Δy) = cos θ̄·Δx + sin θ̄·Δy, and ∂θ̄/∂θ_k =
    // ∂θ̄/∂θ_{k+1} = ½, so both yaw partials share this value.
    let dyaw: Double = (Double { bits: HALF }).times(cos_mid.times(dx).plus(sin_mid.times(dy)));
    let partials: Partials = [
        (base.x, sin_mid.neg()),
        (base.y, cos_mid),
        (base.yaw, dyaw),
        (n + base.x, sin_mid),
        (n + base.y, cos_mid.neg()),
        (n + base.yaw, dyaw),
    ];
    assert(partials@ =~= slip_partials(q_k@, q_k1@, base, heading));
    (residual, partials)
}

/// Forward progress over one knot interval, linearized at the current
/// configurations: s = cos(θ̄)·Δx + sin(θ̄)·Δy; negative is reverse motion.
pub fn forward_progress_linearization(
    q_k: &Vec<Double>,
    q_k1: &Vec<Double>,
    base: BaseIndices,
    heading: Heading,
) -> (result: (Double, Partials))
    requires
        q_k@.len() == q_k1@.len(),
        base.within(q_k@.len()),
        2 * q_k@.len() <= usize::MAX,
    ensures
        result.0 == forward_progress(q_k@, q_k1@, base, heading),
        result.1@ == progress_partials(q_k@, q_k1@, base, heading),
{
    let n: usize = q_k.len();
    let dx: Double = q_k1[base.x].minus(q_k[base.x]);
    let dy: Double = q_k1[base.y].minus(q_k[base.y]);
    let (sin_mid, cos_mid): (Double, Double) = (heading.sin, heading.cos);
    let progress: Double = cos_mid.times(dx).plus(sin_mid.times(dy));
    let dyaw: Double = (Double { bits: HALF }).times(cos_mid.times(dy).minus(sin_mid.times(dx)));
    let partials: Partials = [
        (base.x, cos_mid.neg()),
        (base.y, sin_mid.neg()),
        (base.yaw, dyaw),
        (n + base.x, cos_mid),
        (n + base.y, sin_mid),
        (n + base.yaw, dyaw),
    ];
    assert(partials@ =~= progress_partials(q_k@, q_k1@, base, heading));
    (progress, partials)
}

} // verus!
