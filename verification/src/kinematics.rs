//! The differential-IK loop, the equality constraints it keeps, and the
//! logarithm of a rigid motion.
//!
//! Poses and Jacobians come from outside: a caller hands in the norm of the
//! pose-error twist and the products JᵀJ and Jᵀν, solves the quadratic program
//! that comes back, and hands in the step.

use crate::arithmetic::{lemma_difference_is_a_number, lemma_difference_is_monotone};
use crate::configs::{DifferentialIkConfig, EqualityConstraint};
use crate::cost::identity_rows;
use crate::double::{Double, HALF, ONE, TWO};
use crate::limits::{limited, ordered};
use crate::linearization::PoseReading;
use crate::matrix::{zero_row, Matrix};
use crate::products::{gram, normal_matrix, transposed_image, transposed_times};
use crate::qp::QuadraticProgram;
use crate::series::{square_sum, square_sum_of};
use crate::text::{first_position, lemma_first_position, position};
use crate::vector::Vector3;
use vstd::prelude::*;
use vstd::string::*;

verus! {

/// The bit pattern of minus infinity.
pub const MINUS_INFINITY: u64 = 0xFFF0_0000_0000_0000;

/// The bit pattern of infinity.
pub const INFINITY: u64 = 0x7FF0_0000_0000_0000;

/// Joint lower and upper bounds, aligned by index with the joints. A joint
/// without limits gets infinite ones.
pub fn joint_limits(limits: &Vec<Option<(Double, Double)>>) -> (result: (Vec<Double>, Vec<Double>))
    ensures
        result.0@.len() == limits@.len(),
        result.1@.len() == limits@.len(),
        forall|i: int|
            0 <= i < limits@.len() ==> #[trigger] result.0@[i] == match limits@[i] {
                Some((min, max)) => min,
                None => Double { bits: MINUS_INFINITY },
            },
        forall|i: int|
            0 <= i < limits@.len() ==> #[trigger] result.1@[i] == match limits@[i] {
                Some((min, max)) => max,
                None => Double { bits: INFINITY },
            },
{
    let mut lower: Vec<Double> = Vec::new();
    let mut upper: Vec<Double> = Vec::new();
    let mut i: usize = 0;
    while i < limits.len()
        invariant
            i <= limits@.len(),
            lower@.len() == i,
            upper@.len() == i,
            forall|j: int|
                0 <= j < i ==> #[trigger] lower@[j] == match limits@[j] {
                    Some((min, max)) => min,
                    None => Double { bits: MINUS_INFINITY },
                },
            forall|j: int|
                0 <= j < i ==> #[trigger] upper@[j] == match limits@[j] {
                    Some((min, max)) => max,
                    None => Double { bits: INFINITY },
                },
        decreases limits@.len() - i,
    {
        match limits[i] {
            Some((min, max)) => {
                lower.push(min);
                upper.push(max);
            },
            None => {
                lower.push(Double { bits: MINUS_INFINITY });
                upper.push(Double { bits: INFINITY });
            },
        }
        i = i + 1;
    }
    (lower, upper)
}

/// What is wrong with an equality constraint.
pub enum ConstraintError {
    /// The chain has no joint of the name.
    UnknownJoint { joint_name: String },
    /// An earlier constraint pins the same joint.
    DuplicateJoint { joint_name: String },
    /// The target is outside the joint's limits.
    OutsideLimits { joint_name: String, target: Double, lower: Double, upper: Double },
}

/// The index of a constraint's joint.
pub open spec fn pinned_joint(names: Seq<String>, constraint: EqualityConstraint) -> Option<nat> {
    first_position(names, constraint.joint_name@)
}

/// Whether one of the constraints before `row` pins the same joint.
pub open spec fn pinned_before(constraints: Seq<EqualityConstraint>, row: int) -> bool {
    exists|earlier: int|
        0 <= earlier < row && (#[trigger] constraints[earlier]).joint_name@
            == constraints[row].joint_name@
}

/// Whether a target is beyond its joint's limits.
pub open spec fn outside(target: Double, lower: Double, upper: Double) -> bool {
    target.less(lower) || upper.less(target)
}

/// Whether a constraint can be kept: the joint is in the chain, no earlier
/// constraint pins it, and the target is within its limits.
pub open spec fn sound(
    names: Seq<String>,
    constraints: Seq<EqualityConstraint>,
    lower: Seq<Double>,
    upper: Seq<Double>,
    row: int,
) -> bool {
    match pinned_joint(names, constraints[row]) {
        None => false,
        Some(joint) => !pinned_before(constraints, row) && !outside(
            constraints[row].target_value,
            lower[joint as int],
            upper[joint as int],
        ),
    }
}

/// Whether an error is that of a constraint: an unknown joint before a duplicate
/// one before a target outside the limits.
pub open spec fn describes(
    error: ConstraintError,
    names: Seq<String>,
    constraints: Seq<EqualityConstraint>,
    lower: Seq<Double>,
    upper: Seq<Double>,
    row: int,
) -> bool {
    let constraint = constraints[row];
    match pinned_joint(names, constraint) {
        None => error matches ConstraintError::UnknownJoint { joint_name } && joint_name@
            == constraint.joint_name@,
        Some(joint) => if pinned_before(constraints, row) {
            error matches ConstraintError::DuplicateJoint { joint_name } && joint_name@
                == constraint.joint_name@
        } else {
            &&& outside(constraint.target_value, lower[joint as int], upper[joint as int])
            &&& error matches ConstraintError::OutsideLimits {
                joint_name,
                target,
                lower: low,
                upper: high,
            } && joint_name@ == constraint.joint_name@ && target == constraint.target_value && low
                == lower[joint as int] && high == upper[joint as int]
        },
    }
}

/// The equality system A·q = targets of a list of constraints.
pub struct Equalities {
    /// The joint that each row selects.
    pub joints: Vec<usize>,
    /// One selector row per constraint.
    pub rows: Matrix,
    /// Absolute joint values.
    pub targets: Vec<Double>,
}

/// A row that selects one of `n` joints.
pub open spec fn selector_row(n: nat, joint: int) -> Seq<Double> {
    zero_row(n).update(joint, Double { bits: ONE })
}

impl Equalities {
    /// Whether the system is one selector row per joint.
    pub open spec fn well_formed(&self, n: nat) -> bool {
        &&& self.rows.well_formed()
        &&& self.rows.width() == n
        &&& self.rows@.len() == self.joints@.len()
        &&& self.targets@.len() == self.joints@.len()
        &&& forall|r: int| 0 <= r < self.joints@.len() ==> #[trigger] self.joints@[r] < n
        &&& forall|r: int|
            0 <= r < self.joints@.len() ==> #[trigger] self.rows@[r] == selector_row(
                n,
                self.joints@[r] as int,
            )
        &&& forall|r: int, s: int|
            0 <= r < s < self.joints@.len() ==> #[trigger] self.joints@[r]
                != #[trigger] self.joints@[s]
    }
}

/// Whether a list holds an index.
fn holds(list: &Vec<usize>, value: usize) -> (result: bool)
    ensures
        result == list@.contains(value),
{
    let mut i: usize = 0;
    while i < list.len()
        invariant
            i <= list@.len(),
            forall|j: int| 0 <= j < i ==> list@[j] != value,
        decreases list@.len() - i,
    {
        if list[i] == value {
            return true;
        }
        i = i + 1;
    }
    false
}

/// A row that selects one joint.
fn select(n: usize, joint: usize) -> (row: Vec<Double>)
    requires
        joint < n,
    ensures
        row@ == selector_row(n as nat, joint as int),
{
    let mut row: Vec<Double> = Vec::new();
    let mut c: usize = 0;
    while c < n
        invariant
            c <= n,
            row@.len() == c,
            forall|j: int|
                0 <= j < c ==> #[trigger] row@[j] == if j == joint {
                    Double { bits: ONE }
                } else {
                    Double { bits: 0 }
                },
        decreases n - c,
    {
        if c == joint {
            row.push(Double { bits: ONE });
        } else {
            row.push(Double { bits: 0 });
        }
        c = c + 1;
    }
    assert(row@ =~= selector_row(n as nat, joint as int));
    row
}

/// Build the equality system A·q = targets from the configured constraints: one
/// selector row per constraint, absolute joint values as targets. Errors on
/// unknown joint names, duplicate joints, and on targets outside joint limits;
/// the first constraint with a fault is reported.
///
/// Two rows pinning the same joint to different targets would make every step's
/// program infeasible, surfacing later as an opaque solver status.
pub fn resolve_equality_constraints(
    joint_names: &Vec<String>,
    constraints: &Vec<EqualityConstraint>,
    lower: &Vec<Double>,
    upper: &Vec<Double>,
) -> (result: Result<Equalities, ConstraintError>)
    requires
        lower@.len() == joint_names@.len(),
        upper@.len() == joint_names@.len(),
    ensures
        match result {
            Ok(equalities) => {
                &&& equalities.well_formed(joint_names@.len())
                &&& equalities.joints@.len() == constraints@.len()
                &&& forall|r: int|
                    0 <= r < constraints@.len() ==> sound(
                        joint_names@,
                        constraints@,
                        lower@,
                        upper@,
                        r,
                    ) && pinned_joint(joint_names@, #[trigger] constraints@[r]) == Some(
                        equalities.joints@[r] as nat,
                    ) && equalities.targets@[r] == constraints@[r].target_value
            },
            Err(error) => exists|r: int|
                0 <= r < constraints@.len() && !sound(
                    joint_names@,
                    constraints@,
                    lower@,
                    upper@,
                    r,
                ) && #[trigger] describes(
                    error,
                    joint_names@,
                    constraints@,
                    lower@,
                    upper@,
                    r,
                ) && forall|i: int|
                    0 <= i < r ==> sound(joint_names@, constraints@, lower@, upper@, i),
        },
{
    let n: usize = joint_names.len();
    let mut joints: Vec<usize> = Vec::new();
    let mut rows: Vec<Vec<Double>> = Vec::new();
    let mut targets: Vec<Double> = Vec::new();
    let mut r: usize = 0;
    while r < constraints.len()
        invariant
            r <= constraints@.len(),
            n == joint_names@.len(),
            lower@.len() == n,
            upper@.len() == n,
            joints@.len() == r,
            rows@.len() == r,
            targets@.len() == r,
            forall|i: int| 0 <= i < r ==> #[trigger] joints@[i] < n,
            forall|i: int|
                0 <= i < r ==> (#[trigger] rows@[i])@ == selector_row(
                    n as nat,
                    joints@[i] as int,
                ),
            forall|i: int|
                0 <= i < r ==> sound(
                    joint_names@,
                    constraints@,
                    lower@,
                    upper@,
                    i,
                ) && pinned_joint(joint_names@, #[trigger] constraints@[i]) == Some(
                    joints@[i] as nat,
                ) && targets@[i] == constraints@[i].target_value,
            forall|i: int, j: int|
                0 <= i < j < r ==> #[trigger] joints@[i] != #[trigger] joints@[j],
        decreases constraints@.len() - r,
    {
        let constraint: &EqualityConstraint = &constraints[r];
        let joint: usize = match position(joint_names.as_slice(), &constraint.joint_name) {
            Some(joint) => joint,
            None => {
                let error = ConstraintError::UnknownJoint {
                    joint_name: constraint.joint_name.clone(),
                };
                assert(describes(
                    error,
                    joint_names@,
                    constraints@,
                    lower@,
                    upper@,
                    r as int,
                ));
                return Err(error);
            },
        };
        let duplicate: bool = holds(&joints, joint);
        proof {
            lemma_same_joint(joint_names@, constraints@, joints@, r as int, joint);
        }
        if duplicate {
            let error = ConstraintError::DuplicateJoint {
                joint_name: constraint.joint_name.clone(),
            };
            assert(describes(error, joint_names@, constraints@, lower@, upper@, r as int));
            return Err(error);
        }
        let target: Double = constraint.target_value;
        if target.lt(lower[joint]) || upper[joint].lt(target) {
            let error = ConstraintError::OutsideLimits {
                joint_name: constraint.joint_name.clone(),
                target,
                lower: lower[joint],
                upper: upper[joint],
            };
            assert(describes(error, joint_names@, constraints@, lower@, upper@, r as int));
            return Err(error);
        }
        joints.push(joint);
        rows.push(select(n, joint));
        targets.push(target);
        r = r + 1;
    }
    Ok(Equalities { joints, rows: Matrix::from_rows(rows, n), targets })
}

/// Two constraints resolve to one joint exactly where they name the same joint.
proof fn lemma_same_joint(
    names: Seq<String>,
    constraints: Seq<EqualityConstraint>,
    joints: Seq<usize>,
    row: int,
    joint: usize,
)
    requires
        0 <= row < constraints.len(),
        joints.len() == row,
        forall|i: int|
            0 <= i < row ==> pinned_joint(names, #[trigger] constraints[i]) == Some(
                joints[i] as nat,
            ),
        pinned_joint(names, constraints[row]) == Some(joint as nat),
    ensures
        joints.contains(joint) <==> pinned_before(constraints, row),
{
    lemma_first_position(names, constraints[row].joint_name@);
    if joints.contains(joint) {
        let i = choose|i: int| 0 <= i < joints.len() && joints[i] == joint;
        lemma_first_position(names, constraints[i].joint_name@);
        assert(constraints[i].joint_name@ == constraints[row].joint_name@);
    }
    if pinned_before(constraints, row) {
        let i = choose|i: int|
            0 <= i < row && (#[trigger] constraints[i]).joint_name@
                == constraints[row].joint_name@;
        assert(joints[i] == joint);
    }
}

impl ConstraintError {
    /// The text of the error, given the texts of its numbers.
    pub open spec fn message_text(
        self,
        target_text: Seq<char>,
        lower_text: Seq<char>,
        upper_text: Seq<char>,
    ) -> Seq<char> {
        match self {
            ConstraintError::UnknownJoint { joint_name } => "equality constraint joint '"@
                + joint_name@ + "' not in serial chain"@,
            ConstraintError::DuplicateJoint { joint_name } =>
            "duplicate equality constraint for joint '"@ + joint_name@ + "'"@,
            ConstraintError::OutsideLimits { joint_name, .. } => "equality target "@ + target_text
                + " for joint '"@ + joint_name@ + "' outside limits ["@ + lower_text + ", "@
                + upper_text + "]"@,
        }
    }

    /// The text of the error. The numbers of a target outside the limits are
    /// handed in as text: the target, the lower and the upper limit.
    pub fn message(&self, target_text: &str, lower_text: &str, upper_text: &str) -> (text: String)
        ensures
            text@ == self.message_text(target_text@, lower_text@, upper_text@),
    {
        match self {
            ConstraintError::UnknownJoint { joint_name } => {
                let mut text: String = "equality constraint joint '".to_owned();
                text.append(joint_name.as_str());
                text.append("' not in serial chain");
                text
            },
            ConstraintError::DuplicateJoint { joint_name } => {
                let mut text: String = "duplicate equality constraint for joint '".to_owned();
                text.append(joint_name.as_str());
                text.append("'");
                text
            },
            ConstraintError::OutsideLimits { joint_name, .. } => {
                let mut text: String = "equality target ".to_owned();
                text.append(target_text);
                text.append(" for joint '");
                text.append(joint_name.as_str());
                text.append("' outside limits [");
                text.append(lower_text);
                text.append(", ");
                text.append(upper_text);
                text.append("]");
                text
            },
        }
    }
}

/// Why differential IK is refused.
pub enum IkError {
    /// P = JᵀJ + λ²I must be positive definite; with λ ≤ 0 and a singular J the
    /// program has no unique minimizer.
    NonPositiveDamping { damping_factor: Double },
    Constraint(ConstraintError),
    /// A step's program was not solved.
    Solver(String),
}

/// The kinematics at a configuration: the norm of the pose-error twist ν, and the
/// products JᵀJ and Jᵀν.
pub struct PoseEvaluation {
    pub twist_norm: Double,
    pub normal: Matrix,
    pub gradient: Vec<Double>,
}

impl PoseEvaluation {
    /// Whether this evaluates a reading: the norm of its twist, and the products of
    /// its Jacobian with itself and with the twist.
    pub open spec fn evaluates(&self, reading: PoseReading) -> bool {
        let n = reading.jacobian.width();
        &&& self.twist_norm == square_sum(reading.twist@).root()
        &&& self.normal@ == gram(reading.jacobian@, n)
        &&& self.gradient@ == transposed_image(reading.jacobian@, n, reading.twist@)
    }

    /// The norm and the products of a reading.
    pub fn of(reading: &PoseReading) -> (evaluation: PoseEvaluation)
        requires
            reading.shaped(reading.jacobian.width()),
        ensures
            evaluation.evaluates(*reading),
            evaluation.shaped(reading.jacobian.width()),
    {
        PoseEvaluation {
            twist_norm: square_sum_of(&reading.twist).sqrt(),
            normal: normal_matrix(&reading.jacobian),
            gradient: transposed_times(&reading.jacobian, &reading.twist),
        }
    }

    /// Whether this is an evaluation of `n` joints.
    pub open spec fn shaped(&self, n: nat) -> bool {
        &&& self.normal.well_formed()
        &&& self.normal@.len() == n
        &&& self.normal.width() == n
        &&& self.gradient@.len() == n
    }
}

/// A differential-IK solve: what it keeps, and the configurations so far.
pub struct IkSolve {
    pub num_steps: usize,
    pub damping_factor: Double,
    pub convergence_threshold: Double,
    pub equalities: Equalities,
    pub lower: Vec<Double>,
    pub upper: Vec<Double>,
    /// The starting configuration, then one per step.
    pub trajectory: Vec<Vec<Double>>,
}

/// The damped normal matrix JᵀJ + λ²·I.
pub open spec fn damped_normal(normal: Seq<Seq<Double>>, damping: Double, n: nat) -> Seq<
    Seq<Double>,
> {
    Seq::new(
        n,
        |r: int|
            Seq::new(
                n,
                |c: int|
                    normal[r][c].sum(damping.product(damping).product(identity_rows(n)[r][c])),
            ),
    )
}

/// Each bound re-anchored at the current configuration.
pub open spec fn anchored(bounds: Seq<Double>, positions: Seq<Double>) -> Seq<Double> {
    Seq::new(bounds.len(), |j: int| bounds[j].difference(positions[j]))
}

/// The distance of each pinned joint to its target.
pub open spec fn pin_distances(equalities: Equalities, positions: Seq<Double>) -> Seq<Double> {
    Seq::new(
        equalities.joints@.len(),
        |r: int| equalities.targets@[r].difference(positions[equalities.joints@[r] as int]),
    )
}

/// A configuration moved by a step and into the joint limits.
pub open spec fn stepped(
    positions: Seq<Double>,
    step: Seq<Double>,
    lower: Seq<Double>,
    upper: Seq<Double>,
) -> Seq<Double> {
    Seq::new(positions.len(), |j: int| positions[j].sum(step[j]).clamped(lower[j], upper[j]))
}

/// The damped normal matrix.
pub fn damp_normal(normal: &Matrix, damping: Double) -> (result: Matrix)
    requires
        normal.well_formed(),
        normal@.len() == normal.width(),
    ensures
        result.well_formed(),
        result@ == damped_normal(normal@, damping, normal.width()),
        result.width() == normal.width(),
        result@.len() == normal@.len(),
{
    let n: usize = normal.ncols();
    let square: Double = damping.times(damping);
    let mut rows: Vec<Vec<Double>> = Vec::new();
    let mut r: usize = 0;
    while r < n
        invariant
            r <= n,
            n == normal.width(),
            normal.well_formed(),
            normal@.len() == n,
            square == damping.product(damping),
            rows@.len() == r,
            forall|i: int|
                0 <= i < r ==> (#[trigger] rows@[i])@ =~= damped_normal(
                    normal@,
                    damping,
                    n as nat,
                )[i],
        decreases n - r,
    {
        let mut row: Vec<Double> = Vec::new();
        let mut c: usize = 0;
        while c < n
            invariant
                c <= n,
                r < n,
                n == normal.width(),
                normal.well_formed(),
                normal@.len() == n,
                square == damping.product(damping),
                row@.len() == c,
                forall|j: int|
                    0 <= j < c ==> #[trigger] row@[j] == damped_normal(
                        normal@,
                        damping,
                        n as nat,
                    )[r as int][j],
            decreases n - c,
        {
            let unit: Double = if r == c {
                Double { bits: ONE }
            } else {
                Double { bits: 0 }
            };
            row.push(normal.get(r, c).plus(square.times(unit)));
            c = c + 1;
        }
        rows.push(row);
        r = r + 1;
    }
    let result: Matrix = Matrix::from_rows(rows, n);
    assert(result@ =~= damped_normal(normal@, damping, n as nat));
    result
}

/// The difference of two lists, place by place.
fn subtract(values: &Vec<Double>, others: &Vec<Double>) -> (result: Vec<Double>)
    requires
        values@.len() == others@.len(),
    ensures
        result@ == anchored(values@, others@),
{
    let mut result: Vec<Double> = Vec::new();
    let mut j: usize = 0;
    while j < values.len()
        invariant
            j <= values@.len(),
            values@.len() == others@.len(),
            result@.len() == j,
            forall|i: int| 0 <= i < j ==> #[trigger] result@[i] == values@[i].difference(others@[i]),
        decreases values@.len() - j,
    {
        result.push(values[j].minus(others[j]));
        j = j + 1;
    }
    assert(result@ =~= anchored(values@, others@));
    result
}

/// Whether an error refuses the settings: the damping before the constraints.
pub open spec fn refused(
    error: IkError,
    config: DifferentialIkConfig,
    joint_names: Seq<String>,
    lower: Seq<Double>,
    upper: Seq<Double>,
) -> bool {
    let constraints = config.equality_constraints@;
    match error {
        IkError::NonPositiveDamping { damping_factor } => damping_factor == config.damping_factor
            && !(Double { bits: 0 }).less(damping_factor),
        IkError::Constraint(fault) => {
            &&& (Double { bits: 0 }).less(config.damping_factor)
            &&& exists|r: int|
                0 <= r < constraints.len() && !sound(joint_names, constraints, lower, upper, r)
                    && #[trigger] describes(fault, joint_names, constraints, lower, upper, r)
                    && forall|i: int|
                    0 <= i < r ==> sound(joint_names, constraints, lower, upper, i)
        },
        IkError::Solver(_) => false,
    }
}

impl IkSolve {
    /// Whether the solve keeps the settings: every constraint is sound and has
    /// its row.
    pub open spec fn accepts(
        &self,
        config: DifferentialIkConfig,
        joint_names: Seq<String>,
        lower: Vec<Double>,
        upper: Vec<Double>,
    ) -> bool {
        let constraints = config.equality_constraints@;
        &&& (Double { bits: 0 }).less(config.damping_factor)
        &&& self.equalities.joints@.len() == constraints.len()
        &&& forall|r: int|
            0 <= r < constraints.len() ==> sound(joint_names, constraints, lower@, upper@, r)
                && pinned_joint(joint_names, #[trigger] constraints[r]) == Some(
                self.equalities.joints@[r] as nat,
            ) && self.equalities.targets@[r] == constraints[r].target_value
        &&& self.num_steps == config.num_steps
        &&& self.damping_factor == config.damping_factor
        &&& self.convergence_threshold == config.convergence_threshold
        &&& self.lower == lower
        &&& self.upper == upper
    }

    pub open spec fn n(&self) -> nat {
        self.lower@.len()
    }

    /// The configuration that the next step starts from.
    pub open spec fn current(&self) -> Seq<Double> {
        self.trajectory@.last()@
    }

    /// The parts fit, the damping is greater than zero, and every configuration
    /// after the first keeps the joint limits.
    pub open spec fn well_formed(&self) -> bool {
        &&& ordered(self.lower@, self.upper@)
        &&& self.equalities.well_formed(self.n())
        &&& (Double { bits: 0 }).less(self.damping_factor)
        &&& 1 <= self.trajectory@.len() <= self.num_steps + 1
        &&& 2 * self.n() <= usize::MAX
        &&& forall|s: int|
            0 <= s < self.trajectory@.len() ==> (#[trigger] self.trajectory@[s])@.len() == self.n()
        &&& forall|s: int, j: int|
            1 <= s < self.trajectory@.len() && 0 <= j < self.n() ==> limited(
                #[trigger] self.trajectory@[s]@[j],
                self.lower@[j],
                self.upper@[j],
            )
    }

    /// Checks the settings and starts from a configuration.
    pub fn start(
        config: &DifferentialIkConfig,
        joint_names: &Vec<String>,
        lower: Vec<Double>,
        upper: Vec<Double>,
        positions: Vec<Double>,
    ) -> (result: Result<IkSolve, IkError>)
        requires
            ordered(lower@, upper@),
            lower@.len() == joint_names@.len(),
            positions@.len() == joint_names@.len(),
            2 * joint_names@.len() <= usize::MAX,
        ensures
            match result {
                Ok(solve) => {
                    &&& solve.accepts(*config, joint_names@, lower, upper)
                    &&& solve.well_formed()
                    &&& solve.trajectory@ == seq![positions]
                },
                Err(error) => refused(error, *config, joint_names@, lower@, upper@),
            },
    {
        if !(Double { bits: 0 }).lt(config.damping_factor) {
            return Err(IkError::NonPositiveDamping { damping_factor: config.damping_factor });
        }
        let equalities: Equalities = match resolve_equality_constraints(
            joint_names,
            &config.equality_constraints,
            &lower,
            &upper,
        ) {
            Ok(equalities) => equalities,
            Err(error) => {
                return Err(IkError::Constraint(error));
            },
        };
        let mut trajectory: Vec<Vec<Double>> = Vec::new();
        trajectory.push(positions);
        assert(trajectory@ =~= seq![positions]);
        Ok(
            IkSolve {
                num_steps: config.num_steps,
                damping_factor: config.damping_factor,
                convergence_threshold: config.convergence_threshold,
                equalities,
                lower,
                upper,
                trajectory,
            },
        )
    }

    /// Whether another step is to be taken: there are steps left, and the norm of
    /// the pose-error twist is not below the threshold.
    pub fn wants_step(&self, twist_norm: Double) -> (result: bool)
        requires
            self.well_formed(),
        ensures
            result == (self.trajectory@.len() <= self.num_steps && !twist_norm.less(
                self.convergence_threshold,
            )),
    {
        self.trajectory.len() - 1 < self.num_steps && !twist_norm.lt(self.convergence_threshold)
    }

    /// Whether a program is that of the step from a configuration.
    pub open spec fn models(
        &self,
        program: QuadraticProgram,
        positions: Seq<Double>,
        evaluation: PoseEvaluation,
    ) -> bool {
        &&& program.shaped()
        &&& program.p@ == damped_normal(evaluation.normal@, self.damping_factor, self.n())
        &&& program.q@ == evaluation.gradient@.map_values(|value: Double| value.negated())
        &&& program.a_eq@ == self.equalities.rows@
        &&& program.b_eq@ == pin_distances(self.equalities, positions)
        &&& program.a_in@.len() == 0
        &&& program.lb@ == anchored(self.lower@, positions)
        &&& program.ub@ == anchored(self.upper@, positions)
    }

    /// The damped Gauss-Newton step as a quadratic program over dq:
    ///   min ½dqᵀ(JᵀJ + λ²I)dq − (Jᵀν)ᵀdq
    ///   s.t. A_eq·dq = targets − q  (pinned joints, absolute targets)
    ///        lower − q ≤ dq ≤ upper − q  (joint limits)
    pub fn program(&self, evaluation: &PoseEvaluation) -> (program: QuadraticProgram)
        requires
            self.well_formed(),
            evaluation.shaped(self.n()),
        ensures
            self.models(program, self.current(), *evaluation),
            program.q@.len() == self.n(),
    {
        let gradient: &Vec<Double> = &evaluation.gradient;
        let n: usize = self.lower.len();
        let positions: &Vec<Double> = &self.trajectory[self.trajectory.len() - 1];
        let p: Matrix = damp_normal(&evaluation.normal, self.damping_factor);
        let mut q: Vec<Double> = Vec::new();
        let mut j: usize = 0;
        while j < n
            invariant
                j <= n,
                n == gradient@.len(),
                q@.len() == j,
                forall|i: int| 0 <= i < j ==> #[trigger] q@[i] == gradient@[i].negated(),
            decreases n - j,
        {
            q.push(gradient[j].neg());
            j = j + 1;
        }
        assert(q@ =~= gradient@.map_values(|value: Double| value.negated()));
        let count: usize = self.equalities.joints.len();
        let mut b_eq: Vec<Double> = Vec::new();
        let mut rows: Vec<Vec<Double>> = Vec::new();
        let mut r: usize = 0;
        while r < count
            invariant
                r <= count,
                n == self.n(),
                count == self.equalities.joints@.len(),
                self.equalities.well_formed(n as nat),
                positions@.len() == n,
                b_eq@.len() == r,
                rows@.len() == r,
                forall|i: int|
                    0 <= i < r ==> (#[trigger] rows@[i])@ == self.equalities.rows@[i]
                        && rows@[i]@.len() == n,
                forall|i: int|
                    0 <= i < r ==> #[trigger] b_eq@[i] == pin_distances(
                        self.equalities,
                        positions@,
                    )[i],
            decreases count - r,
        {
            assert(self.equalities.joints@[r as int] < n);
            assert(self.equalities.rows@[r as int].len() == n);
            b_eq.push(self.equalities.targets[r].minus(positions[self.equalities.joints[r]]));
            rows.push(self.equalities.rows.row(r));
            r = r + 1;
        }
        let a_eq: Matrix = Matrix::from_rows(rows, n);
        assert(a_eq@ =~= self.equalities.rows@);
        assert(b_eq@ =~= pin_distances(self.equalities, positions@));
        QuadraticProgram {
            p,
            q,
            a_eq,
            b_eq,
            a_in: Matrix::zeros(0, n),
            b_in: Vec::new(),
            lb: subtract(&self.lower, positions),
            ub: subtract(&self.upper, positions),
        }
    }

    /// Takes a step. Interior-point iterates are feasible to solver tolerance,
    /// not exactly; clamped, so that consumers can rely on hard limits.
    pub fn advance(&mut self, step: &Vec<Double>)
        requires
            old(self).well_formed(),
            step@.len() == old(self).n(),
            old(self).trajectory@.len() <= old(self).num_steps,
        ensures
            final(self).well_formed(),
            final(self).trajectory@.len() == old(self).trajectory@.len() + 1,
            forall|s: int|
                0 <= s < old(self).trajectory@.len() ==> #[trigger] final(self).trajectory@[s]
                    == old(self).trajectory@[s],
            final(self).current() == stepped(
                old(self).current(),
                step@,
                old(self).lower@,
                old(self).upper@,
            ),
            final(self).num_steps == old(self).num_steps,
            final(self).damping_factor == old(self).damping_factor,
            final(self).convergence_threshold == old(self).convergence_threshold,
            final(self).equalities == old(self).equalities,
            final(self).lower == old(self).lower,
            final(self).upper == old(self).upper,
    {
        let n: usize = self.lower.len();
        let last: usize = self.trajectory.len() - 1;
        let mut moved: Vec<Double> = Vec::new();
        let mut j: usize = 0;
        while j < n
            invariant
                j <= n,
                n == self.n(),
                self.well_formed(),
                last == self.trajectory@.len() - 1,
                step@.len() == n,
                moved@.len() == j,
                forall|i: int|
                    0 <= i < j ==> #[trigger] moved@[i] == self.current()[i].sum(
                        step@[i],
                    ).clamped(self.lower@[i], self.upper@[i]),
            decreases n - j,
        {
            assert(self.trajectory@[last as int]@.len() == n);
            let value: Double = self.trajectory[last][j].plus(step[j]);
            moved.push(value.clamp(self.lower[j], self.upper[j]));
            j = j + 1;
        }
        assert(moved@ =~= stepped(self.current(), step@, self.lower@, self.upper@));
        self.trajectory.push(moved);
    }
}

/// Whether an evaluation is that of what is read at a configuration.
pub open spec fn evaluated_at<E>(
    evaluate: E,
    positions: Vec<Double>,
    evaluation: PoseEvaluation,
) -> bool where E: Fn(&Vec<Double>) -> PoseReading {
    exists|reading: PoseReading|
        #[trigger] call_ensures(evaluate, (&positions,), reading) && evaluation.evaluates(reading)
}

/// Whether the solve took the step from a configuration to the next one: the pose
/// error was not below the threshold, and the solver answered the step's program
/// with the step.
pub open spec fn step_taken<E, S>(
    solve: IkSolve,
    evaluate: E,
    answer: S,
    from: Vec<Double>,
    to: Vec<Double>,
) -> bool where
    E: Fn(&Vec<Double>) -> PoseReading,
    S: Fn(&QuadraticProgram) -> Result<Vec<Double>, String>,
 {
    exists|evaluation: PoseEvaluation, program: QuadraticProgram, step: Vec<Double>|
        {
            &&& evaluated_at(evaluate, from, evaluation)
            &&& !evaluation.twist_norm.less(solve.convergence_threshold)
            &&& #[trigger] solve.models(program, from@, evaluation)
            &&& #[trigger] call_ensures(answer, (&program,), Ok::<Vec<Double>, String>(step))
            &&& to@ == stepped(from@, step@, solve.lower@, solve.upper@)
        }
}

/// Whether the configurations of a solve are a way from the given one, step by
/// step.
pub open spec fn steps_taken<E, S>(
    solve: IkSolve,
    evaluate: E,
    answer: S,
    positions: Vec<Double>,
) -> bool where
    E: Fn(&Vec<Double>) -> PoseReading,
    S: Fn(&QuadraticProgram) -> Result<Vec<Double>, String>,
 {
    &&& solve.trajectory@[0] == positions
    &&& forall|s: int|
        1 <= s < solve.trajectory@.len() ==> step_taken(
            solve,
            evaluate,
            answer,
            solve.trajectory@[s - 1],
            #[trigger] solve.trajectory@[s],
        )
}

/// Whether a solve is done: its steps ran out, or the pose error of its last
/// configuration is below the threshold.
pub open spec fn arrived<E>(solve: IkSolve, evaluate: E) -> bool where
    E: Fn(&Vec<Double>) -> PoseReading,
 {
    solve.trajectory@.len() == solve.num_steps + 1 || exists|e: PoseEvaluation|
        #[trigger] evaluated_at(evaluate, solve.trajectory@.last(), e) && e.twist_norm.less(
            solve.convergence_threshold,
        )
}

/// Whether a solve wants another step and the solver refuses its program.
pub open spec fn stuck<E, S>(
    solve: IkSolve,
    evaluate: E,
    answer: S,
    message: String,
) -> bool where
    E: Fn(&Vec<Double>) -> PoseReading,
    S: Fn(&QuadraticProgram) -> Result<Vec<Double>, String>,
 {
    &&& solve.trajectory@.len() <= solve.num_steps
    &&& exists|evaluation: PoseEvaluation, program: QuadraticProgram|
        {
            &&& evaluated_at(evaluate, solve.trajectory@.last(), evaluation)
            &&& !evaluation.twist_norm.less(solve.convergence_threshold)
            &&& #[trigger] solve.models(program, solve.current(), evaluation)
            &&& call_ensures(answer, (&program,), Err::<Vec<Double>, String>(message))
        }
}

/// Whether a solve of the settings comes to a step whose program the solver
/// refuses.
pub open spec fn gets_stuck<E, S>(
    config: DifferentialIkConfig,
    joint_names: Seq<String>,
    lower: Vec<Double>,
    upper: Vec<Double>,
    positions: Vec<Double>,
    evaluate: E,
    answer: S,
    message: String,
) -> bool where
    E: Fn(&Vec<Double>) -> PoseReading,
    S: Fn(&QuadraticProgram) -> Result<Vec<Double>, String>,
 {
    exists|solve: IkSolve|
        {
            &&& solve.well_formed()
            &&& solve.accepts(config, joint_names, lower, upper)
            &&& steps_taken(solve, evaluate, answer, positions)
            &&& #[trigger] stuck(solve, evaluate, answer, message)
        }
}

/// Solve inverse kinematics using differential IK.
///
/// Each step solves a damped-least-squares program subject to equality
/// constraints and joint limits, until the pose error is below the threshold or
/// the steps run out. `evaluate` reads the kinematics at a configuration and
/// `answer` solves a program; the result starts with the given configuration.
pub fn differential_ik<E, S>(
    config: &DifferentialIkConfig,
    joint_names: &Vec<String>,
    lower: Vec<Double>,
    upper: Vec<Double>,
    positions: Vec<Double>,
    evaluate: E,
    answer: S,
) -> (result: Result<IkSolve, IkError>) where
    E: Fn(&Vec<Double>) -> PoseReading,
    S: Fn(&QuadraticProgram) -> Result<Vec<Double>, String>,

    requires
        ordered(lower@, upper@),
        lower@.len() == joint_names@.len(),
        positions@.len() == joint_names@.len(),
        2 * joint_names@.len() <= usize::MAX,
        forall|q: &Vec<Double>|
            q@.len() == joint_names@.len() ==> call_requires(evaluate, (q,)),
        forall|q: &Vec<Double>, reading: PoseReading|
            q@.len() == joint_names@.len() && call_ensures(evaluate, (q,), reading)
                ==> reading.shaped(joint_names@.len()),
        forall|program: &QuadraticProgram| program.shaped() ==> call_requires(answer, (program,)),
        forall|program: &QuadraticProgram, step: Vec<Double>|
            program.shaped() && call_ensures(answer, (program,), Ok::<Vec<Double>, String>(step))
                ==> step@.len() == program.q@.len(),
    ensures
        match result {
            Ok(solve) => {
                &&& solve.well_formed()
                &&& solve.accepts(*config, joint_names@, lower, upper)
                &&& steps_taken(solve, evaluate, answer, positions)
                &&& arrived(solve, evaluate)
            },
            Err(IkError::Solver(message)) => gets_stuck(
                *config,
                joint_names@,
                lower,
                upper,
                positions,
                evaluate,
                answer,
                message,
            ),
            Err(error) => refused(error, *config, joint_names@, lower@, upper@),
        },
{
    let n: usize = joint_names.len();
    let mut solve: IkSolve = match IkSolve::start(config, joint_names, lower, upper, positions) {
        Ok(solve) => solve,
        Err(error) => {
            return Err(error);
        },
    };
    loop
        invariant
            n == joint_names@.len(),
            n == lower@.len(),
            solve.well_formed(),
            solve.accepts(*config, joint_names@, lower, upper),
            steps_taken(solve, evaluate, answer, positions),
            forall|q: &Vec<Double>| q@.len() == n ==> call_requires(evaluate, (q,)),
            forall|q: &Vec<Double>, reading: PoseReading|
                q@.len() == n && call_ensures(evaluate, (q,), reading) ==> reading.shaped(
                    n as nat,
                ),
            forall|program: &QuadraticProgram|
                program.shaped() ==> call_requires(answer, (program,)),
            forall|program: &QuadraticProgram, step: Vec<Double>|
                program.shaped() && call_ensures(
                    answer,
                    (program,),
                    Ok::<Vec<Double>, String>(step),
                ) ==> step@.len() == program.q@.len(),
        ensures
            arrived(solve, evaluate),
        decreases config.num_steps + 1 - solve.trajectory@.len(),
    {
        let last: usize = solve.trajectory.len() - 1;
        if last == solve.num_steps {
            break;
        }
        let ghost before = solve;
        assert(solve.trajectory@[last as int]@.len() == n);
        let reading: PoseReading = evaluate(&solve.trajectory[last]);
        assert(call_ensures(evaluate, (&solve.trajectory@.last(),), reading));
        let evaluation: PoseEvaluation = PoseEvaluation::of(&reading);
        assert(evaluated_at(evaluate, solve.trajectory@.last(), evaluation));
        if !solve.wants_step(evaluation.twist_norm) {
            break;
        }
        let program: QuadraticProgram = solve.program(&evaluation);
        let step: Vec<Double> = match answer(&program) {
            Ok(step) => step,
            Err(message) => {
                assert(solve.models(program, solve.current(), evaluation));
                assert(stuck(solve, evaluate, answer, message));
                assert(gets_stuck(
                    *config,
                    joint_names@,
                    lower,
                    upper,
                    positions,
                    evaluate,
                    answer,
                    message,
                ));
                return Err(IkError::Solver(message));
            },
        };
        solve.advance(&step);
        proof {
            assert(before.models(program, before.current(), evaluation));
            assert(call_ensures(answer, (&program,), Ok::<Vec<Double>, String>(step)));
            assert forall|s: int| 1 <= s < solve.trajectory@.len() implies step_taken(
                solve,
                evaluate,
                answer,
                solve.trajectory@[s - 1],
                #[trigger] solve.trajectory@[s],
            ) by {
                if s < solve.trajectory@.len() - 1 {
                    assert(step_taken(
                        before,
                        evaluate,
                        answer,
                        before.trajectory@[s - 1],
                        before.trajectory@[s],
                    ));
                    lemma_same_models(before, solve);
                } else {
                    lemma_same_models(before, solve);
                    assert(solve.models(program, solve.trajectory@[s - 1]@, evaluation));
                }
            }
        }
    }
    Ok(solve)
}

/// The rows and the box of a step agree: the step that a pinned joint still has to
/// its target stays within its limits. So a step that keeps both exists.
pub proof fn lemma_pins_lie_in_the_box(
    solve: IkSolve,
    config: DifferentialIkConfig,
    joint_names: Seq<String>,
    program: QuadraticProgram,
    positions: Seq<Double>,
    evaluation: PoseEvaluation,
    row: int,
)
    requires
        solve.well_formed(),
        solve.accepts(config, joint_names, solve.lower, solve.upper),
        solve.models(program, positions, evaluation),
        positions.len() == solve.n(),
        forall|j: int| 0 <= j < positions.len() ==> (#[trigger] positions[j]).finite(),
        0 <= row < solve.equalities.joints@.len(),
        !solve.equalities.targets@[row].nan(),
    ensures
        ({
            let joint = solve.equalities.joints@[row] as int;
            &&& program.lb@[joint].at_most(program.b_eq@[row])
            &&& program.b_eq@[row].at_most(program.ub@[joint])
        }),
{
    let joint = solve.equalities.joints@[row] as int;
    let constraints = config.equality_constraints@;
    let target = solve.equalities.targets@[row];
    let (lower, upper) = (solve.lower@[joint], solve.upper@[joint]);
    let q = positions[joint];
    assert(pinned_joint(joint_names, constraints[row]) == Some(joint as nat));
    assert(sound(joint_names, constraints, solve.lower@, solve.upper@, row));
    assert(lower.at_most(upper));
    assert(lower.at_most(target) && target.at_most(upper));
    lemma_difference_is_a_number(lower, q);
    lemma_difference_is_a_number(target, q);
    lemma_difference_is_a_number(upper, q);
    lemma_difference_is_monotone(lower, target, q);
    lemma_difference_is_monotone(target, upper, q);
}

/// The step's program does not depend on the configurations before it.
proof fn lemma_same_models(a: IkSolve, b: IkSolve)
    requires
        a.damping_factor == b.damping_factor,
        a.equalities == b.equalities,
        a.lower == b.lower,
        a.upper == b.upper,
    ensures
        forall|program: QuadraticProgram, positions: Seq<Double>, evaluation: PoseEvaluation|
            #![trigger b.models(program, positions, evaluation)]
            #![trigger a.models(program, positions, evaluation)]
            a.models(program, positions, evaluation) == b.models(program, positions, evaluation),
{
}

/// The angle below which a series replaces the closed form: 1e-6.
pub const SMALL_ANGLE: u64 = 0x3EB0_C6F7_A0B5_ED8D;

/// 1/12.
pub const TWELFTH: u64 = 0x3FB5_5555_5555_5555;

/// 720.
pub const SEVEN_TWENTY: u64 = 0x4086_8000_0000_0000;

/// A matrix of three rows and columns.
#[derive(Clone, Copy, Debug, PartialEq, Eq, Structural)]
pub struct Matrix3 {
    pub x: Vector3,
    pub y: Vector3,
    pub z: Vector3,
}

/// A motion of a rigid body: the linear part v first, then the angular part ω.
#[derive(Clone, Copy, Debug, PartialEq, Eq, Structural)]
pub struct Twist {
    pub linear: Vector3,
    pub angular: Vector3,
}

/// The matrix of the cross product with a vector.
pub open spec fn hat(w: Vector3) -> Matrix3 {
    let zero = Double { bits: 0 };
    Matrix3 {
        x: Vector3 { x: zero, y: w.z.negated(), z: w.y },
        y: Vector3 { x: w.z, y: zero, z: w.x.negated() },
        z: Vector3 { x: w.y.negated(), y: w.x, z: zero },
    }
}

impl Matrix3 {
    pub open spec fn entry_sum(self, other: Matrix3) -> Matrix3 {
        Matrix3 { x: self.x.sum(other.x), y: self.y.sum(other.y), z: self.z.sum(other.z) }
    }

    pub open spec fn entry_difference(self, other: Matrix3) -> Matrix3 {
        Matrix3 {
            x: self.x.difference(other.x),
            y: self.y.difference(other.y),
            z: self.z.difference(other.z),
        }
    }

    pub open spec fn entry_scaled(self, factor: Double) -> Matrix3 {
        Matrix3 {
            x: self.x.stretched(factor),
            y: self.y.stretched(factor),
            z: self.z.stretched(factor),
        }
    }

    pub open spec fn columns(self) -> Matrix3 {
        Matrix3 {
            x: Vector3 { x: self.x.x, y: self.y.x, z: self.z.x },
            y: Vector3 { x: self.x.y, y: self.y.y, z: self.z.y },
            z: Vector3 { x: self.x.z, y: self.y.z, z: self.z.z },
        }
    }

    pub open spec fn image(self, v: Vector3) -> Vector3 {
        Vector3 { x: self.x.inner(v), y: self.y.inner(v), z: self.z.inner(v) }
    }

    pub open spec fn matrix_product(self, other: Matrix3) -> Matrix3 {
        let columns = other.columns();
        Matrix3 {
            x: self.image(columns.x),
            y: self.image(columns.y),
            z: self.image(columns.z),
        }.columns()
    }

    pub open spec fn identity_matrix() -> Matrix3 {
        let (zero, one) = (Double { bits: 0 }, Double { bits: ONE });
        Matrix3 {
            x: Vector3 { x: one, y: zero, z: zero },
            y: Vector3 { x: zero, y: one, z: zero },
            z: Vector3 { x: zero, y: zero, z: one },
        }
    }

    fn plus(self, other: Matrix3) -> (result: Matrix3)
        ensures
            result == self.entry_sum(other),
    {
        Matrix3 { x: self.x.plus(other.x), y: self.y.plus(other.y), z: self.z.plus(other.z) }
    }

    fn minus(self, other: Matrix3) -> (result: Matrix3)
        ensures
            result == self.entry_difference(other),
    {
        Matrix3 { x: self.x.minus(other.x), y: self.y.minus(other.y), z: self.z.minus(other.z) }
    }

    fn scale(self, factor: Double) -> (result: Matrix3)
        ensures
            result == self.entry_scaled(factor),
    {
        Matrix3 { x: self.x.times(factor), y: self.y.times(factor), z: self.z.times(factor) }
    }

    fn transpose(self) -> (result: Matrix3)
        ensures
            result == self.columns(),
    {
        Matrix3 {
            x: Vector3 { x: self.x.x, y: self.y.x, z: self.z.x },
            y: Vector3 { x: self.x.y, y: self.y.y, z: self.z.y },
            z: Vector3 { x: self.x.z, y: self.y.z, z: self.z.z },
        }
    }

    fn apply(self, v: Vector3) -> (result: Vector3)
        ensures
            result == self.image(v),
    {
        Vector3 { x: self.x.dot(v), y: self.y.dot(v), z: self.z.dot(v) }
    }

    fn times(self, other: Matrix3) -> (result: Matrix3)
        ensures
            result == self.matrix_product(other),
    {
        let columns: Matrix3 = other.transpose();
        Matrix3 {
            x: self.apply(columns.x),
            y: self.apply(columns.y),
            z: self.apply(columns.z),
        }.transpose()
    }
}

/// The coefficient of ω̂² in the inverse left Jacobian, for a rotation by `angle`
/// with the given sine and cosine: 1/θ² − (1 + cos θ)/(2·θ·sin θ), and
/// 1/12 + θ²/720 near zero.
pub open spec fn log_coefficient(angle: Double, sin: Double, cos: Double) -> Double {
    if angle.less(Double { bits: SMALL_ANGLE }) {
        (Double { bits: TWELFTH }).sum(
            angle.product(angle).quotient(Double { bits: SEVEN_TWENTY }),
        )
    } else {
        (Double { bits: ONE }).quotient(angle.product(angle)).difference(
            (Double { bits: ONE }).sum(cos).quotient(
                (Double { bits: TWO }).product(angle).product(sin),
            ),
        )
    }
}

/// The inverse left Jacobian I − ½·ω̂ + c·ω̂².
pub open spec fn inverse_left_jacobian(omega: Vector3, coefficient: Double) -> Matrix3 {
    Matrix3::identity_matrix().entry_difference(
        hat(omega).entry_scaled(Double { bits: HALF }),
    ).entry_sum(hat(omega).entry_scaled(coefficient).matrix_product(hat(omega)))
}

/// Logarithm of a rigid motion: SE(3) -> se(3), for a translation and a rotation
/// given by its axis-angle vector `omega`, with the sine and cosine of the angle.
///
/// `omega` is the angular part; the linear part is the translation mapped through
/// the inverse left Jacobian, *not* the raw translation. Linear-first, to match
/// Jacobians whose rows are `[linear; angular]`.
///
/// The closed form of the coefficient on ω̂² is 0/0 at θ = 0, so its Taylor
/// series is used near the singularity.
pub fn se3_log(translation: Vector3, omega: Vector3, sin: Double, cos: Double) -> (twist: Twist)
    ensures
        twist.angular == omega,
        twist.linear == inverse_left_jacobian(
            omega,
            log_coefficient(omega.length(), sin, cos),
        ).image(translation),
{
    let theta: Double = omega.norm();
    let zero: Double = Double { bits: 0 };
    let one: Double = Double { bits: ONE };
    let omega_hat: Matrix3 = Matrix3 {
        x: Vector3 { x: zero, y: omega.z.neg(), z: omega.y },
        y: Vector3 { x: omega.z, y: zero, z: omega.x.neg() },
        z: Vector3 { x: omega.y.neg(), y: omega.x, z: zero },
    };
    let coefficient: Double = if theta.lt(Double { bits: SMALL_ANGLE }) {
        (Double { bits: TWELFTH }).plus(theta.times(theta).over(Double { bits: SEVEN_TWENTY }))
    } else {
        one.over(theta.times(theta)).minus(
            one.plus(cos).over((Double { bits: TWO }).times(theta).times(sin)),
        )
    };
    let identity: Matrix3 = Matrix3 {
        x: Vector3 { x: one, y: zero, z: zero },
        y: Vector3 { x: zero, y: one, z: zero },
        z: Vector3 { x: zero, y: zero, z: one },
    };
    let v_inv: Matrix3 = identity.minus(omega_hat.scale(Double { bits: HALF })).plus(
        omega_hat.scale(coefficient).times(omega_hat),
    );
    Twist { linear: v_inv.apply(translation), angular: omega }
}

} // verus!
