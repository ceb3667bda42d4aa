//! Active-set solver for one damped-least-squares differential-IK step under
//! joint equality constraints and joint limits. Pure matrix math: no chain, no
//! URDF. The linear systems are solved outside: a caller solves the one that is
//! asked for and hands in the solution.

use crate::double::{Double, ONE};
use crate::kinematics::{damp_normal, damped_normal};
use crate::limits::{clamp_to_limits, limited, ordered, within_limits};
use crate::matrix::{copied, Matrix};
use crate::products::{
    gram, normal_matrix, row_gram, row_normal_matrix, transposed_image, transposed_times,
};
use vstd::prelude::*;
use vstd::string::*;

verus! {

/// A joint within this distance of a limit joins the active set: 0.01.
pub const LIMIT_TOLERANCE: u64 = 0x3F84_7AE1_47AE_147B;

/// A multiplier must have the wrong sign by more than this to be dropped: 1e-12.
pub const SIGN_TOLERANCE: u64 = 0x3D71_9799_812D_EA11;

/// A limit must be violated by more than this to be added: 1e-9.
pub const VIOLATION_TOLERANCE: u64 = 0x3E11_2E0B_E826_D695;

#[derive(Clone, Copy, Debug, PartialEq, Eq, Structural)]
pub enum ConstraintKind {
    /// User-requested joint value; never dropped from the working set.
    Equality,
    LowerLimit,
    UpperLimit,
}

/// One row of the KKT constraint block. `target` is an absolute joint value.
#[derive(Clone, Copy, Debug, PartialEq, Eq, Structural)]
pub struct Constraint {
    pub joint_index: usize,
    pub target: Double,
    pub kind: ConstraintKind,
}

/// Whether a constraint of the list is on a joint.
pub open spec fn constrains(constraints: Seq<Constraint>, joint: int) -> bool {
    exists|r: int| 0 <= r < constraints.len() && (#[trigger] constraints[r]).joint_index == joint
}

fn is_constrained(constraints: &Vec<Constraint>, joint: usize) -> (result: bool)
    ensures
        result == constrains(constraints@, joint as int),
{
    let mut r: usize = 0;
    while r < constraints.len()
        invariant
            r <= constraints@.len(),
            forall|i: int| 0 <= i < r ==> (#[trigger] constraints@[i]).joint_index != joint,
        decreases constraints@.len() - r,
    {
        if constraints[r].joint_index == joint {
            return true;
        }
        r = r + 1;
    }
    false
}

/// The limit that a joint is at or past, within the tolerance.
pub open spec fn active_limit(
    joint: usize,
    position: Double,
    lower: Double,
    upper: Double,
) -> Option<Constraint> {
    let tolerance = Double { bits: LIMIT_TOLERANCE };
    if upper.difference(tolerance).at_most(position) {
        Some(Constraint { joint_index: joint, target: upper, kind: ConstraintKind::UpperLimit })
    } else if position.at_most(lower.sum(tolerance)) {
        Some(Constraint { joint_index: joint, target: lower, kind: ConstraintKind::LowerLimit })
    } else {
        None
    }
}

/// The working set after the first `count` joints: the equalities, then the
/// active limits of the joints that no equality pins.
pub open spec fn seeded(
    equalities: Seq<Constraint>,
    positions: Seq<Double>,
    lower: Seq<Double>,
    upper: Seq<Double>,
    count: nat,
) -> Seq<Constraint>
    decreases count,
{
    if count == 0 {
        equalities
    } else {
        let i = count - 1;
        let before = seeded(equalities, positions, lower, upper, i as nat);
        if constrains(equalities, i) {
            before
        } else {
            match active_limit(i as usize, positions[i], lower[i], upper[i]) {
                Some(constraint) => before.push(constraint),
                None => before,
            }
        }
    }
}

/// Whether every constraint is on one of `n` joints, and none on the same.
pub open spec fn on_distinct_joints(constraints: Seq<Constraint>, n: nat) -> bool {
    &&& forall|r: int| 0 <= r < constraints.len() ==> (#[trigger] constraints[r]).joint_index < n
    &&& forall|r: int, s: int|
        0 <= r < s < constraints.len() ==> (#[trigger] constraints[r]).joint_index != (
        #[trigger] constraints[s]).joint_index
}

/// Whether a constraint puts a joint at one of its limits.
pub open spec fn at_limit(
    constraint: Constraint,
    lower: Seq<Double>,
    upper: Seq<Double>,
) -> bool {
    match constraint.kind {
        ConstraintKind::Equality => false,
        ConstraintKind::LowerLimit => constraint.target == lower[constraint.joint_index as int],
        ConstraintKind::UpperLimit => constraint.target == upper[constraint.joint_index as int],
    }
}

/// Whether a working set is the equalities, in their places, and then limits,
/// with no joint twice.
pub open spec fn is_working_set(
    working_set: Seq<Constraint>,
    equalities: Seq<Constraint>,
    lower: Seq<Double>,
    upper: Seq<Double>,
) -> bool {
    &&& equalities.len() <= working_set.len()
    &&& forall|r: int|
        0 <= r < equalities.len() ==> #[trigger] working_set[r] == equalities[r]
    &&& forall|r: int|
        equalities.len() <= r < working_set.len() ==> at_limit(
            #[trigger] working_set[r],
            lower,
            upper,
        )
    &&& on_distinct_joints(working_set, lower.len())
}

/// A list of constraints that equalities can be: all of that kind, on distinct
/// joints.
pub open spec fn are_equalities(equalities: Seq<Constraint>, n: nat) -> bool {
    &&& forall|r: int|
        0 <= r < equalities.len() ==> (#[trigger] equalities[r]).kind == ConstraintKind::Equality
    &&& on_distinct_joints(equalities, n)
}

/// Seed the working set: equalities (never dropped) plus limits active at the
/// current configuration. One-sided checks also catch joints that are already
/// past a limit. Equality-constrained joints skip limit rows; their targets are
/// in-bounds, so a limit row would only conflict.
pub fn seed_working_set(
    equality_constraints: &Vec<Constraint>,
    current_positions: &Vec<Double>,
    lower: &Vec<Double>,
    upper: &Vec<Double>,
) -> (working_set: Vec<Constraint>)
    requires
        current_positions@.len() == lower@.len(),
        upper@.len() == lower@.len(),
    ensures
        working_set@ == seeded(
            equality_constraints@,
            current_positions@,
            lower@,
            upper@,
            lower@.len(),
        ),
        are_equalities(equality_constraints@, lower@.len()) ==> is_working_set(
            working_set@,
            equality_constraints@,
            lower@,
            upper@,
        ),
{
    let mut working_set: Vec<Constraint> = Vec::new();
    let mut r: usize = 0;
    while r < equality_constraints.len()
        invariant
            r <= equality_constraints@.len(),
            working_set@ =~= equality_constraints@.take(r as int),
        decreases equality_constraints@.len() - r,
    {
        working_set.push(equality_constraints[r]);
        r = r + 1;
    }
    assert(working_set@ =~= equality_constraints@);
    let n: usize = current_positions.len();
    let tolerance: Double = Double { bits: LIMIT_TOLERANCE };
    let mut i: usize = 0;
    while i < n
        invariant
            i <= n,
            n == lower@.len(),
            current_positions@.len() == n,
            upper@.len() == n,
            tolerance == (Double { bits: LIMIT_TOLERANCE }),
            working_set@ == seeded(
                equality_constraints@,
                current_positions@,
                lower@,
                upper@,
                i as nat,
            ),
            are_equalities(equality_constraints@, n as nat) ==> is_working_set(
                working_set@,
                equality_constraints@,
                lower@,
                upper@,
            ),
            working_set@.len() >= equality_constraints@.len(),
            working_set@.take(equality_constraints@.len() as int) =~= equality_constraints@,
            forall|s: int|
                equality_constraints@.len() <= s < working_set@.len() ==> (
                #[trigger] working_set@[s]).joint_index < i,
        decreases n - i,
    {
        if !is_constrained(equality_constraints, i) {
            let q: Double = current_positions[i];
            let ghost before = working_set@;
            if upper[i].minus(tolerance).le(q) {
                working_set.push(
                    Constraint {
                        joint_index: i,
                        target: upper[i],
                        kind: ConstraintKind::UpperLimit,
                    },
                );
            } else if q.le(lower[i].plus(tolerance)) {
                working_set.push(
                    Constraint {
                        joint_index: i,
                        target: lower[i],
                        kind: ConstraintKind::LowerLimit,
                    },
                );
            }
            proof {
                assert forall|s: int| 0 <= s < before.len() implies (
                #[trigger] working_set@[s]).joint_index != i by {
                    assert(working_set@[s] == before[s]);
                    if s < equality_constraints@.len() {
                        assert(before[s] == equality_constraints@[s]);
                    }
                }
            }
        }
        i = i + 1;
    }
    working_set
}

/// By how much a multiplier has the wrong sign. Sign convention from
/// H·dq + Aᵀλ = Jᵀν with +1 constraint rows: an active upper limit needs λ >= 0,
/// a lower limit λ <= 0.
pub open spec fn wrong_sign(constraint: Constraint, lambda: Double) -> Option<Double> {
    match constraint.kind {
        ConstraintKind::Equality => None,
        ConstraintKind::UpperLimit => Some(lambda.negated()),
        ConstraintKind::LowerLimit => Some(lambda),
    }
}

/// The worst wrong sign beyond the tolerance among the first `count` rows, and
/// its row.
pub open spec fn worst_wrong_sign(
    working_set: Seq<Constraint>,
    lambdas: Seq<Double>,
    count: nat,
) -> (Option<nat>, Double)
    decreases count,
{
    if count == 0 {
        (None, Double { bits: SIGN_TOLERANCE })
    } else {
        let row = (count - 1) as nat;
        let before = worst_wrong_sign(working_set, lambdas, row);
        match wrong_sign(working_set[row as int], lambdas[row as int]) {
            Some(amount) => if before.1.less(amount) {
                (Some(row), amount)
            } else {
                before
            },
            None => before,
        }
    }
}

/// The row that is dropped is a limit's, with a multiplier of the wrong sign by
/// more than the tolerance, and no multiplier is worse. Where none is dropped,
/// every limit's multiplier has the right sign, to the tolerance.
pub proof fn lemma_worst_wrong_sign(
    working_set: Seq<Constraint>,
    lambdas: Seq<Double>,
    count: nat,
)
    requires
        count <= working_set.len(),
    ensures
        ({
            let (row, amount) = worst_wrong_sign(working_set, lambdas, count);
            &&& !amount.nan()
            &&& row matches Some(r) ==> {
                &&& r < count
                &&& working_set[r as int].kind != ConstraintKind::Equality
                &&& wrong_sign(working_set[r as int], lambdas[r as int]) == Some(amount)
                &&& (Double { bits: SIGN_TOLERANCE }).less(amount)
            }
            &&& row is None ==> amount == (Double { bits: SIGN_TOLERANCE })
            &&& forall|r: int|
                0 <= r < count ==> match wrong_sign(#[trigger] working_set[r], lambdas[r]) {
                    Some(other) => !amount.less(other),
                    None => true,
                }
        }),
    decreases count,
{
    if count > 0 {
        lemma_worst_wrong_sign(working_set, lambdas, (count - 1) as nat);
    }
}

/// Row of the worst wrong-signed limit multiplier, if any. Equality rows never
/// drop.
pub fn wrong_signed_limit_row(working_set: &Vec<Constraint>, lambdas: &Vec<Double>) -> (row: Option<
    usize,
>)
    requires
        lambdas@.len() == working_set@.len(),
    ensures
        match row {
            Some(r) => r < working_set@.len() && worst_wrong_sign(
                working_set@,
                lambdas@,
                working_set@.len(),
            ).0 == Some(r as nat),
            None => worst_wrong_sign(working_set@, lambdas@, working_set@.len()).0 is None,
        },
{
    let mut drop_row: Option<usize> = None;
    let mut worst: Double = Double { bits: SIGN_TOLERANCE };
    let mut row: usize = 0;
    while row < working_set.len()
        invariant
            row <= working_set@.len(),
            lambdas@.len() == working_set@.len(),
            match drop_row {
                Some(r) => r < row && worst_wrong_sign(working_set@, lambdas@, row as nat).0
                    == Some(r as nat),
                None => worst_wrong_sign(working_set@, lambdas@, row as nat).0 is None,
            },
            worst == worst_wrong_sign(working_set@, lambdas@, row as nat).1,
        decreases working_set@.len() - row,
    {
        let lambda: Double = lambdas[row];
        let amount: Option<Double> = match working_set[row].kind {
            ConstraintKind::Equality => None,
            ConstraintKind::UpperLimit => Some(lambda.neg()),
            ConstraintKind::LowerLimit => Some(lambda),
        };
        if let Some(value) = amount {
            if worst.lt(value) {
                worst = value;
                drop_row = Some(row);
            }
        }
        row = row + 1;
    }
    drop_row
}

/// The most violated limit beyond the tolerance among the first `count` joints
/// that no constraint is on, and by how much.
pub open spec fn worst_violation(
    working_set: Seq<Constraint>,
    candidate: Seq<Double>,
    lower: Seq<Double>,
    upper: Seq<Double>,
    count: nat,
) -> (Option<Constraint>, Double)
    decreases count,
{
    if count == 0 {
        (None, Double { bits: VIOLATION_TOLERANCE })
    } else {
        let i = count - 1;
        let before = worst_violation(working_set, candidate, lower, upper, i as nat);
        if constrains(working_set, i) {
            before
        } else {
            let above = candidate[i].difference(upper[i]);
            let below = lower[i].difference(candidate[i]);
            let after = if before.1.less(above) {
                (
                    Some(
                        Constraint {
                            joint_index: i as usize,
                            target: upper[i],
                            kind: ConstraintKind::UpperLimit,
                        },
                    ),
                    above,
                )
            } else {
                before
            };
            if after.1.less(below) {
                (
                    Some(
                        Constraint {
                            joint_index: i as usize,
                            target: lower[i],
                            kind: ConstraintKind::LowerLimit,
                        },
                    ),
                    below,
                )
            } else {
                after
            }
        }
    }
}

/// By how much a candidate violates the limit of a constraint.
pub open spec fn violation(constraint: Constraint, candidate: Seq<Double>) -> Double {
    let value = candidate[constraint.joint_index as int];
    match constraint.kind {
        ConstraintKind::LowerLimit => constraint.target.difference(value),
        _ => value.difference(constraint.target),
    }
}

/// The limit that is added is on a joint that nothing else constrains, the amount is
/// by how much the candidate violates it, and no such joint violates a limit by more. Where none is added, every such joint
/// keeps its limits, to the tolerance.
pub proof fn lemma_worst_violation(
    working_set: Seq<Constraint>,
    candidate: Seq<Double>,
    lower: Seq<Double>,
    upper: Seq<Double>,
    count: nat,
)
    requires
        count <= candidate.len(),
        candidate.len() <= usize::MAX,
    ensures
        ({
            let (constraint, amount) = worst_violation(
                working_set,
                candidate,
                lower,
                upper,
                count,
            );
            &&& !amount.nan()
            &&& constraint matches Some(c) ==> {
                &&& c.joint_index < count
                &&& !constrains(working_set, c.joint_index as int)
                &&& at_limit(c, lower, upper)
                &&& amount == violation(c, candidate)
                &&& (Double { bits: VIOLATION_TOLERANCE }).less(amount)
            }
            &&& constraint is None ==> amount == (Double { bits: VIOLATION_TOLERANCE })
            &&& forall|i: int|
                0 <= i < count && !constrains(working_set, i) ==> !amount.less(
                    (#[trigger] candidate[i]).difference(upper[i]),
                ) && !amount.less(lower[i].difference(candidate[i]))
        }),
    decreases count,
{
    if count > 0 {
        let last = count - 1;
        lemma_worst_violation(working_set, candidate, lower, upper, last as nat);
        let before = worst_violation(working_set, candidate, lower, upper, last as nat).1;
        let amount = worst_violation(working_set, candidate, lower, upper, count).1;
        assert forall|i: int| 0 <= i < count && !constrains(working_set, i) implies !amount.less(
            (#[trigger] candidate[i]).difference(upper[i]),
        ) && !amount.less(lower[i].difference(candidate[i])) by {
            if i < last {
                assert(!before.less(candidate[i].difference(upper[i])));
                assert(!before.less(lower[i].difference(candidate[i])));
            }
        }
    }
}

/// Most violated limit among joints not already in the working set, if any.
pub fn most_violated_limit(
    working_set: &Vec<Constraint>,
    candidate: &Vec<Double>,
    lower: &Vec<Double>,
    upper: &Vec<Double>,
) -> (result: Option<Constraint>)
    requires
        candidate@.len() == lower@.len(),
        upper@.len() == lower@.len(),
    ensures
        result == worst_violation(
            working_set@,
            candidate@,
            lower@,
            upper@,
            candidate@.len(),
        ).0,
{
    let mut worst: Double = Double { bits: VIOLATION_TOLERANCE };
    let mut added: Option<Constraint> = None;
    let mut i: usize = 0;
    while i < candidate.len()
        invariant
            i <= candidate@.len(),
            candidate@.len() == lower@.len(),
            upper@.len() == lower@.len(),
            (added, worst) == worst_violation(
                working_set@,
                candidate@,
                lower@,
                upper@,
                i as nat,
            ),
        decreases candidate@.len() - i,
    {
        if !is_constrained(working_set, i) {
            let above: Double = candidate[i].minus(upper[i]);
            if worst.lt(above) {
                worst = above;
                added = Some(
                    Constraint {
                        joint_index: i,
                        target: upper[i],
                        kind: ConstraintKind::UpperLimit,
                    },
                );
            }
            let below: Double = lower[i].minus(candidate[i]);
            if worst.lt(below) {
                worst = below;
                added = Some(
                    Constraint {
                        joint_index: i,
                        target: lower[i],
                        kind: ConstraintKind::LowerLimit,
                    },
                );
            }
        }
        i = i + 1;
    }
    added
}

/// The KKT matrix [[H, Aᵀ], [A, 0]] of a working set, H being `hessian` and A one
/// selector row per constraint.
pub open spec fn kkt_rows(hessian: Seq<Seq<Double>>, working_set: Seq<Constraint>) -> Seq<
    Seq<Double>,
> {
    let n = hessian.len() as int;
    let size = hessian.len() + working_set.len();
    Seq::new(
        size,
        |r: int|
            Seq::new(
                size,
                |c: int|
                    if r < n && c < n {
                        hessian[r][c]
                    } else if (r < n && n <= c && working_set[c - n].joint_index == r) || (n <= r
                        && c < n && working_set[r - n].joint_index == c) {
                        Double { bits: ONE }
                    } else {
                        Double { bits: 0 }
                    },
            ),
    )
}

/// The right-hand side [Jᵀν; targets − q].
pub open spec fn kkt_values(
    gradient: Seq<Double>,
    working_set: Seq<Constraint>,
    positions: Seq<Double>,
) -> Seq<Double> {
    gradient + Seq::new(
        working_set.len(),
        |r: int| working_set[r].target.difference(positions[working_set[r].joint_index as int]),
    )
}

/// The candidate configuration of a solution: the first `n` values are the step.
pub open spec fn candidate_of(positions: Seq<Double>, solution: Seq<Double>) -> Seq<Double> {
    Seq::new(positions.len(), |j: int| positions[j].sum(solution[j]))
}

/// The state of the active-set method on one differential-IK step.
pub struct ActiveSetStep {
    pub positions: Vec<Double>,
    pub lower: Vec<Double>,
    pub upper: Vec<Double>,
    pub equalities: Vec<Constraint>,
    pub working_set: Vec<Constraint>,
    /// The last candidate.
    pub accepted: Option<Vec<Double>>,
    /// The number of systems solved.
    pub rounds: usize,
}

/// What a solution of the working set's system makes of a step, and whether
/// another system is to be solved.
pub open spec fn considered(
    before: ActiveSetStep,
    solution: Seq<Double>,
    after: ActiveSetStep,
    again: bool,
) -> bool {
    let n = before.n();
    let candidate = candidate_of(before.positions@, solution);
    let lambdas = solution.skip(n as int);
    let set = before.working_set@;
    let dropped = worst_wrong_sign(set, lambdas, set.len()).0;
    let added = worst_violation(set, candidate, before.lower@, before.upper@, n).0;
    let settled = dropped is None && added is None;
    &&& after.same_problem(before)
    &&& after.rounds == before.rounds + 1
    &&& after.accepted matches Some(kept) && kept@ == candidate
    &&& after.working_set@ == match dropped {
        Some(row) => set.remove(row as int),
        None => match added {
            Some(constraint) => set.push(constraint),
            None => set,
        },
    }
    &&& again == (!settled && before.rounds < 2 * n)
}

impl ActiveSetStep {
    pub open spec fn n(&self) -> nat {
        self.lower@.len()
    }

    pub open spec fn well_formed(&self) -> bool {
        &&& ordered(self.lower@, self.upper@)
        &&& self.positions@.len() == self.n()
        &&& 2 * self.n() < usize::MAX
        &&& are_equalities(self.equalities@, self.n())
        &&& is_working_set(self.working_set@, self.equalities@, self.lower@, self.upper@)
        &&& self.rounds <= 2 * self.n() + 1
        &&& (self.accepted is Some <==> self.rounds > 0)
        &&& self.accepted matches Some(candidate) ==> candidate@.len() == self.n()
    }

    /// Whether the configuration and what binds it stay as they were.
    pub open spec fn same_problem(&self, other: ActiveSetStep) -> bool {
        &&& self.positions == other.positions
        &&& self.lower == other.lower
        &&& self.upper == other.upper
        &&& self.equalities == other.equalities
    }

    /// Whether this is the state before the first system.
    pub open spec fn starts(
        &self,
        positions: Vec<Double>,
        equalities: Vec<Constraint>,
        lower: Vec<Double>,
        upper: Vec<Double>,
    ) -> bool {
        &&& self.positions == positions
        &&& self.lower == lower
        &&& self.upper == upper
        &&& self.equalities == equalities
        &&& self.working_set@ == seeded(
            equalities@,
            positions@,
            lower@,
            upper@,
            lower@.len(),
        )
        &&& self.accepted is None
        &&& self.rounds == 0
    }

    /// Seeds the working set at a configuration.
    pub fn start(
        positions: Vec<Double>,
        equalities: Vec<Constraint>,
        lower: Vec<Double>,
        upper: Vec<Double>,
    ) -> (step: ActiveSetStep)
        requires
            ordered(lower@, upper@),
            positions@.len() == lower@.len(),
            2 * lower@.len() < usize::MAX,
            are_equalities(equalities@, lower@.len()),
        ensures
            step.well_formed(),
            step.starts(positions, equalities, lower, upper),
    {
        let working_set: Vec<Constraint> = seed_working_set(
            &equalities,
            &positions,
            &lower,
            &upper,
        );
        ActiveSetStep {
            positions,
            lower,
            upper,
            equalities,
            working_set,
            accepted: None,
            rounds: 0,
        }
    }

    /// The KKT system of the working set, for H = JᵀJ + λ²I and the gradient Jᵀν.
    /// Its solution is the step followed by the multipliers. An empty working set
    /// needs none: its step is Jᵀ(JJᵀ + λ²I)⁻¹ν.
    pub fn kkt_system(&self, hessian: &Matrix, gradient: &Vec<Double>) -> (result: (
        Matrix,
        Vec<Double>,
    ))
        requires
            self.well_formed(),
            hessian.well_formed(),
            hessian@.len() == self.n(),
            hessian.width() == self.n(),
            gradient@.len() == self.n(),
        ensures
            result.0.well_formed(),
            result.0@ == kkt_rows(hessian@, self.working_set@),
            result.0.width() == self.n() + self.working_set@.len(),
            result.1@ == kkt_values(gradient@, self.working_set@, self.positions@),
    {
        let n: usize = self.lower.len();
        let m: usize = self.working_set.len();
        proof {
            lemma_working_set_size(self.working_set@, n as nat);
        }
        let size: usize = n + m;
        let one: Double = Double { bits: ONE };
        let zero: Double = Double { bits: 0 };
        let ghost goal = kkt_rows(hessian@, self.working_set@);
        let mut rows: Vec<Vec<Double>> = Vec::new();
        let mut r: usize = 0;
        while r < size
            invariant
                r <= size,
                size == n + m,
                n == self.n(),
                m == self.working_set@.len(),
                hessian.well_formed(),
                hessian@.len() == n,
                hessian.width() == n,
                one == (Double { bits: ONE }),
                zero == (Double { bits: 0 }),
                goal == kkt_rows(hessian@, self.working_set@),
                rows@.len() == r,
                forall|i: int|
                    0 <= i < r ==> (#[trigger] rows@[i])@ =~= goal[i] && rows@[i]@.len() == size,
            decreases size - r,
        {
            let mut row: Vec<Double> = Vec::new();
            let mut c: usize = 0;
            while c < size
                invariant
                    c <= size,
                    r < size,
                    size == n + m,
                    n == self.n(),
                    m == self.working_set@.len(),
                    hessian.well_formed(),
                    hessian@.len() == n,
                    hessian.width() == n,
                    one == (Double { bits: ONE }),
                    zero == (Double { bits: 0 }),
                    goal == kkt_rows(hessian@, self.working_set@),
                    row@.len() == c,
                    forall|j: int| 0 <= j < c ==> #[trigger] row@[j] == goal[r as int][j],
                decreases size - c,
            {
                let value: Double = if r < n && c < n {
                    hessian.get(r, c)
                } else if r < n && n <= c && self.working_set[c - n].joint_index == r {
                    one
                } else if n <= r && c < n && self.working_set[r - n].joint_index == c {
                    one
                } else {
                    zero
                };
                row.push(value);
                c = c + 1;
            }
            rows.push(row);
            r = r + 1;
        }
        let kkt: Matrix = Matrix::from_rows(rows, size);
        assert(kkt@ =~= goal);
        let mut rhs: Vec<Double> = copied(gradient);
        let mut r: usize = 0;
        let ghost values = kkt_values(gradient@, self.working_set@, self.positions@);
        while r < m
            invariant
                r <= m,
                m == self.working_set@.len(),
                self.well_formed(),
                n == self.n(),
                gradient@.len() == n,
                values == kkt_values(gradient@, self.working_set@, self.positions@),
                rhs@.len() == n + r,
                forall|i: int| 0 <= i < n + r ==> #[trigger] rhs@[i] == values[i],
            decreases m - r,
        {
            let constraint: Constraint = self.working_set[r];
            assert(self.working_set@[r as int].joint_index < n);
            rhs.push(constraint.target.minus(self.positions[constraint.joint_index]));
            r = r + 1;
        }
        assert(rhs@ =~= values);
        (kkt, rhs)
    }

    /// What is said of a system without a solution.
    pub open spec fn singular_text(&self) -> Seq<char> {
        if self.working_set@.len() == 0 {
            "singular_dls_system"@
        } else {
            "singular_kkt_system"@
        }
    }

    /// What is said of a system without a solution.
    pub fn singular(&self) -> (text: String)
        ensures
            text@ == self.singular_text(),
    {
        if self.working_set.len() == 0 {
            "singular_dls_system".to_owned()
        } else {
            "singular_kkt_system".to_owned()
        }
    }

    /// Takes the solution of the working set's system, the step and then the
    /// multipliers: drop one wrong-signed limit multiplier, else add the most
    /// violated inactive limit, else accept. Whether another system is to be
    /// solved; after `2·n + 1` systems none is.
    pub fn consider(&mut self, solution: &Vec<Double>) -> (again: bool)
        requires
            old(self).well_formed(),
            old(self).rounds <= 2 * old(self).n(),
            solution@.len() == old(self).n() + old(self).working_set@.len(),
        ensures
            final(self).well_formed(),
            considered(*old(self), solution@, *final(self), again),
    {
        let n: usize = self.lower.len();
        let m: usize = self.working_set.len();
        let mut candidate: Vec<Double> = Vec::new();
        let mut j: usize = 0;
        while j < n
            invariant
                j <= n,
                n == self.n(),
                self.well_formed(),
                solution@.len() == n + m,
                candidate@.len() == j,
                forall|i: int|
                    0 <= i < j ==> #[trigger] candidate@[i] == self.positions@[i].sum(
                        solution@[i],
                    ),
            decreases n - j,
        {
            candidate.push(self.positions[j].plus(solution[j]));
            j = j + 1;
        }
        assert(candidate@ =~= candidate_of(self.positions@, solution@));
        let mut lambdas: Vec<Double> = Vec::new();
        let total: usize = solution.len();
        let mut i: usize = n;
        while i < total
            invariant
                n <= i <= total,
                total == solution@.len(),
                lambdas@.len() == i - n,
                forall|r: int| 0 <= r < i - n ==> #[trigger] lambdas@[r] == solution@[n + r],
            decreases total - i,
        {
            lambdas.push(solution[i]);
            i = i + 1;
        }
        assert(lambdas@ =~= solution@.skip(n as int));
        let ghost set = self.working_set@;
        let ghost equalities = self.equalities@;
        proof {
            lemma_worst_wrong_sign(set, lambdas@, set.len());
            lemma_worst_violation(set, candidate@, self.lower@, self.upper@, n as nat);
        }
        self.rounds = self.rounds + 1;
        let more: bool = self.rounds <= 2 * n;
        if let Some(row) = wrong_signed_limit_row(&self.working_set, &lambdas) {
            self.accepted = Some(candidate);
            let _: Constraint = self.working_set.remove(row);
            proof {
                lemma_removed(set, equalities, self.lower@, self.upper@, row as int);
            }
            return more;
        }
        let violated: Option<Constraint> = most_violated_limit(
            &self.working_set,
            &candidate,
            &self.lower,
            &self.upper,
        );
        self.accepted = Some(candidate);
        match violated {
            Some(constraint) => {
                self.working_set.push(constraint);
                more
            },
            None => false,
        }
    }

    /// The last candidate, moved into the limits. The clamp only matters where
    /// the rounds ran out; accepted candidates keep the limits to the tolerance.
    pub fn finish(self) -> (positions: Vec<Double>)
        requires
            self.well_formed(),
            self.rounds > 0,
        ensures
            self.accepted matches Some(candidate) && positions@ == within_limits(
                candidate@,
                self.lower@,
                self.upper@,
            ),
            forall|j: int|
                0 <= j < self.n() ==> limited(
                    #[trigger] positions@[j],
                    self.lower@[j],
                    self.upper@[j],
                ),
    {
        match self.accepted {
            Some(candidate) => clamp_to_limits(&candidate, &self.lower, &self.upper),
            None => self.positions,
        }
    }
}

/// A working set without one of its limits is a working set.
proof fn lemma_removed(
    set: Seq<Constraint>,
    equalities: Seq<Constraint>,
    lower: Seq<Double>,
    upper: Seq<Double>,
    row: int,
)
    requires
        is_working_set(set, equalities, lower, upper),
        are_equalities(equalities, lower.len()),
        0 <= row < set.len(),
        set[row].kind != ConstraintKind::Equality,
    ensures
        is_working_set(set.remove(row), equalities, lower, upper),
{
    let rest = set.remove(row);
    if row < equalities.len() {
        assert(set[row] == equalities[row]);
    }
    assert forall|r: int| 0 <= r < rest.len() implies #[trigger] rest[r] == if r < row {
        set[r]
    } else {
        set[r + 1]
    } by {}
}

/// A working set has no more rows than there are joints.
proof fn lemma_working_set_size(set: Seq<Constraint>, n: nat)
    requires
        on_distinct_joints(set, n),
    ensures
        set.len() <= n,
    decreases n,
{
    if n == 0 {
        if set.len() > 0 {
            assert(set[0].joint_index < n);
        }
    } else {
        let top = n - 1;
        if exists|r: int| 0 <= r < set.len() && (#[trigger] set[r]).joint_index == top {
            let r = choose|r: int| 0 <= r < set.len() && (#[trigger] set[r]).joint_index == top;
            let rest = set.remove(r);
            assert forall|i: int| 0 <= i < rest.len() implies #[trigger] rest[i] == if i < r {
                set[i]
            } else {
                set[i + 1]
            } by {}
            assert forall|i: int| 0 <= i < rest.len() implies (#[trigger] rest[i]).joint_index
                < top by {
                let at = if i < r {
                    i
                } else {
                    i + 1
                };
                assert(rest[i] == set[at]);
                assert(set[at].joint_index != set[r].joint_index);
            }
            lemma_working_set_size(rest, top as nat);
        } else {
            lemma_working_set_size(set, top as nat);
        }
    }
}

/// A damped-least-squares step as the active-set method sees it: the Jacobian J, the
/// twist ν and the damping λ, with H = JᵀJ + λ²I and the gradient Jᵀν.
pub struct LeastSquares {
    pub jacobian: Matrix,
    pub twist: Vec<Double>,
    pub damping: Double,
    pub hessian: Matrix,
    pub gradient: Vec<Double>,
}

impl LeastSquares {
    /// Whether this is a step of `n` joints: the parts fit, and the matrix and the
    /// gradient are those of the Jacobian, the twist and the damping.
    pub open spec fn shaped(&self, n: nat) -> bool {
        &&& self.jacobian.well_formed()
        &&& self.jacobian.width() == n
        &&& self.twist@.len() == self.jacobian@.len()
        &&& self.hessian.well_formed()
        &&& self.hessian@ == damped_normal(gram(self.jacobian@, n), self.damping, n)
        &&& self.hessian@.len() == n
        &&& self.hessian.width() == n
        &&& self.gradient@ == transposed_image(self.jacobian@, n, self.twist@)
        &&& self.gradient@.len() == n
    }

    /// The step of a Jacobian, a twist and a damping.
    pub fn of(jacobian: Matrix, twist: Vec<Double>, damping: Double) -> (problem: LeastSquares)
        requires
            jacobian.well_formed(),
            twist@.len() == jacobian@.len(),
        ensures
            problem.jacobian == jacobian,
            problem.twist == twist,
            problem.damping == damping,
            problem.shaped(jacobian.width()),
    {
        let hessian: Matrix = damp_normal(&normal_matrix(&jacobian), damping);
        let gradient: Vec<Double> = transposed_times(&jacobian, &twist);
        LeastSquares { jacobian, twist, damping, hessian, gradient }
    }

    /// The matrix JJᵀ + λ²I of the step without constraints.
    pub open spec fn free_matrix(&self) -> Seq<Seq<Double>> {
        damped_normal(row_gram(self.jacobian@), self.damping, self.jacobian@.len())
    }

    /// The matrix JJᵀ + λ²I, whose system with the twist on the right gives the step
    /// without constraints.
    pub fn free_system(&self) -> (system: Matrix)
        requires
            self.jacobian.well_formed(),
        ensures
            system.well_formed(),
            system@ == self.free_matrix(),
            system@.len() == self.jacobian@.len(),
            system.width() == self.jacobian@.len(),
    {
        damp_normal(&row_normal_matrix(&self.jacobian), self.damping)
    }

    /// The step without constraints, Jᵀy, from the solution y of its system.
    pub fn free_step(&self, y: &Vec<Double>) -> (step: Vec<Double>)
        requires
            self.jacobian.well_formed(),
            y@.len() == self.jacobian@.len(),
        ensures
            step@ == transposed_image(self.jacobian@, self.jacobian.width(), y@),
    {
        transposed_times(&self.jacobian, y)
    }
}

/// Whether an answer is what `solve` says of a working set's system. Without
/// constraints it is Jᵀy for the solution y of (JJᵀ + λ²I)·y = ν, otherwise the
/// solution of the KKT system; none where the system has no solution.
pub open spec fn answered<S>(
    step: ActiveSetStep,
    problem: LeastSquares,
    solve: S,
    answer: Option<Vec<Double>>,
) -> bool where S: Fn(&Matrix, &Vec<Double>) -> Option<Vec<Double>> {
    if step.working_set@.len() == 0 {
        exists|system: Matrix, y: Option<Vec<Double>>|
            {
                &&& system.well_formed()
                &&& system@ == problem.free_matrix()
                &&& #[trigger] call_ensures(solve, (&system, &problem.twist), y)
                &&& match (y, answer) {
                    (Some(y), Some(step)) => step@ == transposed_image(
                        problem.jacobian@,
                        problem.jacobian.width(),
                        y@,
                    ),
                    (None, None) => true,
                    _ => false,
                }
            }
    } else {
        exists|kkt: Matrix, rhs: Vec<Double>|
            {
                &&& kkt.well_formed()
                &&& kkt@ == kkt_rows(problem.hessian@, step.working_set@)
                &&& rhs@ == kkt_values(problem.gradient@, step.working_set@, step.positions@)
                &&& #[trigger] call_ensures(solve, (&kkt, &rhs), answer)
            }
    }
}

/// Whether the method goes from a state to the next one by a solution.
pub open spec fn moves_on<S>(
    before: ActiveSetStep,
    after: ActiveSetStep,
    again: bool,
    problem: LeastSquares,
    solve: S,
) -> bool where S: Fn(&Matrix, &Vec<Double>) -> Option<Vec<Double>> {
    exists|solution: Vec<Double>|
        #[trigger] answered(before, problem, solve, Some(solution)) && considered(
            before,
            solution@,
            after,
            again,
        )
}

/// Whether a sequence of states is a run of the method from a state.
pub open spec fn is_search<S>(
    search: Seq<ActiveSetStep>,
    first: ActiveSetStep,
    problem: LeastSquares,
    solve: S,
) -> bool where S: Fn(&Matrix, &Vec<Double>) -> Option<Vec<Double>> {
    &&& search.len() >= 1
    &&& search[0] == first
    &&& forall|i: int|
        0 <= i < search.len() - 1 ==> #[trigger] moves_on(
            search[i],
            search[i + 1],
            true,
            problem,
            solve,
        )
}

/// Whether the method, started at a state, settles at a configuration.
pub open spec fn settles<S>(
    first: ActiveSetStep,
    problem: LeastSquares,
    solve: S,
    positions: Seq<Double>,
) -> bool where S: Fn(&Matrix, &Vec<Double>) -> Option<Vec<Double>> {
    exists|search: Seq<ActiveSetStep>, last: ActiveSetStep|
        {
            &&& #[trigger] is_search(search, first, problem, solve)
            &&& #[trigger] moves_on(search.last(), last, false, problem, solve)
            &&& last.accepted matches Some(candidate) && positions == within_limits(
                candidate@,
                first.lower@,
                first.upper@,
            )
        }
}

/// Whether the method, started at a state, comes to a system without a solution.
pub open spec fn founders<S>(
    first: ActiveSetStep,
    problem: LeastSquares,
    solve: S,
    text: Seq<char>,
) -> bool where S: Fn(&Matrix, &Vec<Double>) -> Option<Vec<Double>> {
    exists|search: Seq<ActiveSetStep>|
        {
            &&& #[trigger] is_search(search, first, problem, solve)
            &&& answered(search.last(), problem, solve, None)
            &&& text == search.last().singular_text()
        }
}

/// One differential-IK step under the active-set method: drop one wrong-signed
/// limit multiplier, else add the most violated inactive limit, else accept.
/// Returns updated joint positions satisfying every limit.
///
/// `solve` gives the solution of a linear system; none where it is singular.
pub fn active_set_step<S>(
    problem: &LeastSquares,
    positions: Vec<Double>,
    equalities: Vec<Constraint>,
    lower: Vec<Double>,
    upper: Vec<Double>,
    solve: S,
) -> (result: Result<Vec<Double>, String>) where
    S: Fn(&Matrix, &Vec<Double>) -> Option<Vec<Double>>,

    requires
        ordered(lower@, upper@),
        positions@.len() == lower@.len(),
        2 * lower@.len() < usize::MAX,
        are_equalities(equalities@, lower@.len()),
        problem.shaped(lower@.len()),
        forall|kkt: &Matrix, rhs: &Vec<Double>|
            kkt.well_formed() && kkt@.len() == rhs@.len() && kkt.width() == rhs@.len()
                ==> call_requires(solve, (kkt, rhs)),
        forall|kkt: &Matrix, rhs: &Vec<Double>, answer: Option<Vec<Double>>|
            #[trigger] call_ensures(solve, (kkt, rhs), answer) ==> (answer matches Some(solution)
                ==> solution@.len() == rhs@.len()),
    ensures
        exists|first: ActiveSetStep|
            {
                &&& #[trigger] first.starts(positions, equalities, lower, upper)
                &&& match result {
                    Ok(updated) => settles(first, *problem, solve, updated@),
                    Err(text) => founders(first, *problem, solve, text@),
                }
            },
        result matches Ok(updated) ==> updated@.len() == lower@.len() && forall|j: int|
            0 <= j < lower@.len() ==> limited(#[trigger] updated@[j], lower@[j], upper@[j]),
{
    let mut step: ActiveSetStep = ActiveSetStep::start(positions, equalities, lower, upper);
    let ghost first = step;
    let ghost mut search: Seq<ActiveSetStep> = seq![step];
    loop
        invariant
            first.starts(positions, equalities, lower, upper),
            first.well_formed(),
            step.well_formed(),
            step.same_problem(first),
            step.rounds <= 2 * step.n(),
            problem.shaped(step.n()),
            search.last() == step,
            is_search(search, first, *problem, solve),
            forall|kkt: &Matrix, rhs: &Vec<Double>|
                kkt.well_formed() && kkt@.len() == rhs@.len() && kkt.width() == rhs@.len()
                    ==> call_requires(solve, (kkt, rhs)),
            forall|kkt: &Matrix, rhs: &Vec<Double>, answer: Option<Vec<Double>>|
                #[trigger] call_ensures(solve, (kkt, rhs), answer) ==> (answer matches Some(
                    solution,
                ) ==> solution@.len() == rhs@.len()),
        decreases 2 * step.n() + 1 - step.rounds,
    {
        let answer: Option<Vec<Double>> = if step.working_set.len() == 0 {
            let system: Matrix = problem.free_system();
            let y: Option<Vec<Double>> = solve(&system, &problem.twist);
            assert(call_ensures(solve, (&system, &problem.twist), y));
            match y {
                Some(y) => Some(problem.free_step(&y)),
                None => None,
            }
        } else {
            let (kkt, rhs): (Matrix, Vec<Double>) = step.kkt_system(
                &problem.hessian,
                &problem.gradient,
            );
            let answer: Option<Vec<Double>> = solve(&kkt, &rhs);
            assert(call_ensures(solve, (&kkt, &rhs), answer));
            answer
        };
        assert(answered(step, *problem, solve, answer));
        match answer {
            None => {
                let text: String = step.singular();
                assert(founders(first, *problem, solve, text@));
                return Err(text);
            },
            Some(solution) => {
                let ghost before = step;
                let again: bool = step.consider(&solution);
                proof {
                    assert(answered(before, *problem, solve, Some(solution)));
                    assert(moves_on(before, step, again, *problem, solve));
                }
                if !again {
                    let ghost last = step;
                    let updated: Vec<Double> = step.finish();
                    assert(moves_on(search.last(), last, false, *problem, solve));
                    assert(settles(first, *problem, solve, updated@));
                    return Ok(updated);
                }
                proof {
                    let longer = search.push(step);
                    assert forall|i: int| 0 <= i < longer.len() - 1 implies #[trigger] moves_on(
                        longer[i],
                        longer[i + 1],
                        true,
                        *problem,
                                    solve,
                    ) by {
                        if i < search.len() - 1 {
                            assert(longer[i] == search[i] && longer[i + 1] == search[i + 1]);
                        }
                    }
                    search = longer;
                }
            },
        }
    }
}

} // verus!
