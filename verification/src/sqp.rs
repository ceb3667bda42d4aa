//! The iterations of the trajectory optimization: a state that poses a
//! subproblem, takes the step or the failure that comes of it, and judges the
//! candidate by an ℓ1 merit function within a trust region.

use crate::arithmetic::{
    lemma_difference_lowers, lemma_half_is_exact, lemma_half_lowers, lemma_product_sign,
};
use crate::configs::{EeTracking, TrajectoryConfig};
use crate::cost::lemma_block_within;
use crate::diagnostics::BaseIndices;
use crate::double::{Double, HALF, ONE, TWO};
use crate::limits::{knots_limited, ordered};
use crate::linearization::{addressable, knots_shaped, Evaluation};
use crate::merit::{merit, merit_of};
use crate::qp::QuadraticProgram;
use crate::rounding::TWO_52;
use crate::subproblem::{all_finite, assemble_subproblem, degenerate_knot, models};
use crate::text::{decimal, digits};
use vstd::prelude::*;
use vstd::string::*;

verus! {

/// Relative margin by which a step must lower the merit: 1e-12.
pub const MERIT_MARGIN: u64 = 0x3D71_9799_812D_EA11;

/// Fraction of the largest trust radius below which the run has stalled: 1/64.
pub const SMALLEST_RADIUS: u64 = 0x3F90_0000_0000_0000;

/// The number of times that the hard targets are halved before an iteration is
/// given up. Four halvings span a 16x range; beyond that the iterate is stuck.
pub const MAX_HALVINGS: usize = 4;

/// What stays the same over a run: the settings, the base joints and the joint
/// limits.
pub struct SqpProblem {
    pub config: TrajectoryConfig,
    pub base: BaseIndices,
    pub lower: Vec<Double>,
    pub upper: Vec<Double>,
}

impl SqpProblem {
    pub open spec fn n(&self) -> nat {
        self.lower@.len()
    }

    /// Whether a trajectory of `count` knots can be optimized.
    pub open spec fn well_formed(&self, count: nat) -> bool {
        &&& count >= 2
        &&& ordered(self.lower@, self.upper@)
        &&& self.base.within(self.n())
        &&& addressable(count, self.n())
    }
}

/// Why a run ended.
pub enum Ending {
    /// A full-target step was negligible: constraints hold, cost locally optimal.
    Converged,
    /// More iterations would likely help.
    IterationsExhausted,
    /// The merit offers no improvement at any usable radius.
    TrustRegionCollapsed,
    /// The solver failed after progress was made.
    SolverStalled(String),
}

/// The state of a run at the start of, or within, an iteration.
pub struct SqpState {
    /// The best iterate so far.
    pub knots: Vec<Vec<Double>>,
    pub evaluation: Evaluation,
    pub merit: Double,
    /// The trust radius.
    pub radius: Double,
    /// The scale α of the hard targets, and how often it was halved.
    pub scale: Double,
    pub halvings: usize,
    pub iteration: usize,
    /// Whether any step was accepted.
    pub accepted: bool,
}

/// A proposed iterate and the infinity norm of the step to it.
pub struct Candidate {
    pub knots: Vec<Vec<Double>>,
    pub step_norm: Double,
}

/// The largest size in a step.
pub open spec fn infinity_norm(step: Seq<Double>) -> Double
    decreases step.len(),
{
    if step.len() == 0 {
        Double { bits: 0 }
    } else {
        infinity_norm(step.drop_last()).larger(step.last().absolute())
    }
}

/// A knot moved by its part of a stacked step, and into the joint limits.
pub open spec fn moved_knot(
    knot: Seq<Double>,
    step: Seq<Double>,
    start: int,
    lower: Seq<Double>,
    upper: Seq<Double>,
) -> Seq<Double> {
    Seq::new(knot.len(), |j: int| knot[j].sum(step[start + j]).clamped(lower[j], upper[j]))
}

/// Whether a merit is lower than another by more than the margin.
pub open spec fn improves(candidate: Double, current: Double) -> bool {
    candidate.less(
        current.difference(
            (Double { bits: MERIT_MARGIN }).product(current.larger(Double { bits: ONE })),
        ),
    )
}

/// The trust radius after a step: doubled up to the largest where the step was
/// accepted, otherwise halved.
pub open spec fn next_radius(radius: Double, largest: Double, accepted: bool) -> Double {
    if accepted {
        (Double { bits: TWO }).product(radius).smaller(largest)
    } else {
        (Double { bits: HALF }).product(radius)
    }
}

/// Whether a trust radius is too small to be of use.
pub open spec fn collapsed(radius: Double, largest: Double) -> bool {
    radius.less((Double { bits: SMALLEST_RADIUS }).product(largest))
}

/// The text of an iteration that failed.
pub open spec fn failure_text(
    iteration: nat,
    error: Seq<char>,
    tracking: EeTracking,
) -> Seq<char> {
    let text = "sqp iteration "@ + digits(iteration) + ": "@ + error;
    if tracking == EeTracking::Hard {
        text + "; ee_tracking: hard can conflict with base kinematics — try soft"@
    } else {
        text
    }
}

/// What a state's subproblem is; none where a knot's pose error is not a number.
pub open spec fn posed(
    problem: SqpProblem,
    state: SqpState,
    result: Result<QuadraticProgram, String>,
) -> bool {
    match result {
        Ok(program) => {
            &&& models(
                program,
                state.knots@,
                state.evaluation,
                problem.config,
                problem.base,
                problem.lower@,
                problem.upper@,
                state.radius,
                state.scale,
            )
            &&& program.q@.len() == state.knots@.len() * problem.n()
            &&& forall|k: int|
                0 <= k < state.knots@.len() ==> all_finite(
                    (#[trigger] state.evaluation.knots@[k]).residual@,
                )
        },
        Err(message) => exists|k: int|
            0 <= k < state.knots@.len() && !all_finite(
                (#[trigger] state.evaluation.knots@[k]).residual@,
            ) && message@ == degenerate_knot(k as nat) && forall|i: int|
                0 <= i < k ==> all_finite((#[trigger] state.evaluation.knots@[i]).residual@),
    }
}

/// What becomes of a state whose subproblem was not solved.
pub open spec fn failed(
    problem: SqpProblem,
    before: SqpState,
    error: String,
    after: SqpState,
    result: Result<Option<Ending>, String>,
) -> bool {
    let tracking = problem.config.ee_tracking;
    let again = tracking == EeTracking::Hard && before.halvings < MAX_HALVINGS;
    &&& after.knots == before.knots
    &&& after.evaluation == before.evaluation
    &&& after.merit == before.merit
    &&& after.radius == before.radius
    &&& after.iteration == before.iteration
    &&& after.accepted == before.accepted
    &&& again ==> {
        &&& result == Ok::<Option<Ending>, String>(None)
        &&& after.scale == (Double { bits: HALF }).product(before.scale)
        &&& after.halvings == before.halvings + 1
    }
    &&& !again ==> {
        &&& after.scale == before.scale
        &&& after.halvings == before.halvings
        &&& match result {
            Ok(ending) => before.accepted && ending == Some(Ending::SolverStalled(error)),
            Err(message) => !before.accepted && message@ == failure_text(
                before.iteration as nat,
                error@,
                tracking,
            ),
        }
    }
}

/// The iterate that a step leads to from a state.
pub open spec fn proposed(
    problem: SqpProblem,
    state: SqpState,
    step: Seq<Double>,
    candidate: Candidate,
) -> bool {
    &&& candidate.knots@.len() == state.knots@.len()
    &&& knots_shaped(candidate.knots@, problem.n())
    &&& knots_limited(candidate.knots@, problem.lower@, problem.upper@)
    &&& forall|k: int|
        0 <= k < candidate.knots@.len() ==> (#[trigger] candidate.knots@[k])@ == moved_knot(
            state.knots@[k]@,
            step,
            k * problem.n(),
            problem.lower@,
            problem.upper@,
        )
    &&& candidate.step_norm == infinity_norm(step)
}

/// What becomes of a state once a candidate is evaluated.
pub open spec fn judged(
    problem: SqpProblem,
    before: SqpState,
    candidate: Candidate,
    evaluation: Evaluation,
    after: SqpState,
    ending: Option<Ending>,
) -> bool {
    let config = problem.config;
    let merit = merit_of(candidate.knots@, evaluation, config, problem.base);
    let improved = improves(merit, before.merit);
    let radius = next_radius(before.radius, config.trust_region, improved);
    &&& improved ==> {
        &&& after.knots == candidate.knots
        &&& after.evaluation == evaluation
        &&& after.merit == merit
        &&& after.accepted
    }
    &&& !improved ==> {
        &&& after.knots == before.knots
        &&& after.evaluation == before.evaluation
        &&& after.merit == before.merit
        &&& after.accepted == before.accepted
    }
    &&& after.radius == radius
    &&& after.scale == (Double { bits: ONE })
    &&& after.halvings == 0
    &&& after.iteration == before.iteration + 1
    &&& ending == if before.halvings == 0 && candidate.step_norm.less(
        config.convergence_step_norm,
    ) {
        Some(Ending::Converged)
    } else if !improved && collapsed(radius, config.trust_region) {
        Some(Ending::TrustRegionCollapsed)
    } else if before.iteration + 1 == config.sqp_max_iterations {
        Some(Ending::IterationsExhausted)
    } else {
        None
    }
}

/// One halved a number of times: the scales 1, ½, ¼, …
pub open spec fn target_scale(halvings: nat) -> Double {
    Double { bits: (ONE - halvings * TWO_52) as u64 }
}

/// Halving takes one scale to the next, and every scale but the first is less
/// than one.
pub proof fn lemma_target_scale(halvings: nat)
    requires
        halvings <= MAX_HALVINGS,
    ensures
        (Double { bits: HALF }).product(target_scale(halvings)) == target_scale(halvings + 1),
        target_scale(halvings).less(Double { bits: ONE }) <==> halvings > 0,
        target_scale(0) == (Double { bits: ONE }),
{
    lemma_half_is_exact(target_scale(halvings));
}

impl SqpState {
    pub open spec fn well_formed(&self, problem: SqpProblem, count: nat) -> bool {
        &&& problem.well_formed(count)
        &&& self.knots@.len() == count
        &&& knots_shaped(self.knots@, problem.n())
        &&& knots_limited(self.knots@, problem.lower@, problem.upper@)
        &&& self.evaluation.shaped(count, problem.n())
        &&& self.merit == merit_of(self.knots@, self.evaluation, problem.config, problem.base)
        &&& self.halvings <= MAX_HALVINGS
        &&& self.scale == target_scale(self.halvings as nat)
    }

    /// The state before the first iteration.
    pub fn start(
        problem: &SqpProblem,
        knots: Vec<Vec<Double>>,
        evaluation: Evaluation,
    ) -> (state: SqpState)
        requires
            problem.well_formed(knots@.len()),
            knots_shaped(knots@, problem.n()),
            knots_limited(knots@, problem.lower@, problem.upper@),
            evaluation.shaped(knots@.len(), problem.n()),
        ensures
            state.well_formed(*problem, knots@.len()),
            started(*problem, knots, evaluation, state),
    {
        let value: Double = merit(
            &knots,
            &evaluation,
            &problem.config,
            problem.base,
            problem.lower.len(),
        );
        proof {
            lemma_target_scale(0);
        }
        SqpState {
            knots,
            evaluation,
            merit: value,
            radius: problem.config.trust_region,
            scale: Double { bits: ONE },
            halvings: 0,
            iteration: 0,
            accepted: false,
        }
    }

    /// The subproblem of this iteration.
    pub fn subproblem(&self, problem: &SqpProblem) -> (result: Result<QuadraticProgram, String>)
        requires
            self.well_formed(*problem, self.knots@.len()),
        ensures
            posed(*problem, *self, result),
    {
        assemble_subproblem(
            &self.knots,
            &self.evaluation,
            &problem.config,
            problem.base,
            &problem.lower,
            &problem.upper,
            self.radius,
            self.scale,
        )
    }

    /// A solve of this iteration failed. Hard mode relaxes the linearized EE
    /// targets and tries again: shrinking the trust region could never rescue an
    /// infeasible subproblem, since that only shrinks the feasible set. Soft mode
    /// has no EE rows, so trying again would repeat the identical subproblem.
    ///
    /// `None` is another try. A failure before any accepted step is an error;
    /// after progress it ends the run with the best iterate.
    pub fn fail(&mut self, problem: &SqpProblem, error: String) -> (result: Result<
        Option<Ending>,
        String,
    >)
        requires
            old(self).well_formed(*problem, old(self).knots@.len()),
        ensures
            final(self).well_formed(*problem, old(self).knots@.len()),
            failed(*problem, *old(self), error, *final(self), result),
    {
        if problem.config.ee_tracking == EeTracking::Hard && self.halvings < MAX_HALVINGS {
            proof {
                lemma_target_scale(self.halvings as nat);
            }
            self.scale = (Double { bits: HALF }).times(self.scale);
            self.halvings = self.halvings + 1;
            return Ok(None);
        }
        if self.accepted {
            return Ok(Some(Ending::SolverStalled(error)));
        }
        let mut text: String = "sqp iteration ".to_owned();
        let number: String = decimal(self.iteration);
        text.append(number.as_str());
        text.append(": ");
        text.append(error.as_str());
        if problem.config.ee_tracking == EeTracking::Hard {
            text.append("; ee_tracking: hard can conflict with base kinematics — try soft");
        }
        Err(text)
    }

    /// The iterate that a step leads to. Interior-point steps are feasible to
    /// tolerance, hard limits must hold exactly, so every joint is clamped.
    pub fn candidate(&self, problem: &SqpProblem, step: &Vec<Double>) -> (candidate: Candidate)
        requires
            self.well_formed(*problem, self.knots@.len()),
            step@.len() == self.knots@.len() * problem.n(),
        ensures
            proposed(*problem, *self, step@, candidate),
    {
        let n: usize = problem.lower.len();
        let count: usize = self.knots.len();
        let mut knots: Vec<Vec<Double>> = Vec::new();
        let mut k: usize = 0;
        while k < count
            invariant
                k <= count,
                n == problem.n(),
                count == self.knots@.len(),
                self.well_formed(*problem, count as nat),
                step@.len() == count * n,
                knots@.len() == k,
                forall|i: int|
                    0 <= i < k ==> (#[trigger] knots@[i])@ == moved_knot(
                        self.knots@[i]@,
                        step@,
                        i * n,
                        problem.lower@,
                        problem.upper@,
                    ),
            decreases count - k,
        {
            proof {
                lemma_block_within(k as int, count as int, n as int);
            }
            let start: usize = k * n;
            let mut knot: Vec<Double> = Vec::new();
            let mut j: usize = 0;
            while j < n
                invariant
                    j <= n,
                    k < count,
                    n == problem.n(),
                    count == self.knots@.len(),
                    self.well_formed(*problem, count as nat),
                    start == k * n,
                    start + n <= step@.len(),
                    step@.len() <= usize::MAX,
                    knot@.len() == j,
                    forall|i: int|
                        0 <= i < j ==> #[trigger] knot@[i] == self.knots@[k as int]@[i].sum(
                            step@[start + i],
                        ).clamped(problem.lower@[i], problem.upper@[i]),
                decreases n - j,
            {
                let value: Double = self.knots[k][j].plus(step[start + j]);
                knot.push(value.clamp(problem.lower[j], problem.upper[j]));
                j = j + 1;
            }
            assert(knot@ =~= moved_knot(
                self.knots@[k as int]@,
                step@,
                k * n,
                problem.lower@,
                problem.upper@,
            ));
            knots.push(knot);
            k = k + 1;
        }
        let mut step_norm: Double = Double { bits: 0 };
        let mut i: usize = 0;
        assert(step@.take(0) =~= Seq::<Double>::empty());
        while i < step.len()
            invariant
                i <= step@.len(),
                step_norm == infinity_norm(step@.take(i as int)),
            decreases step@.len() - i,
        {
            proof {
                assert(step@.take(i + 1).drop_last() =~= step@.take(i as int));
            }
            step_norm = step_norm.max(step[i].abs());
            i = i + 1;
        }
        assert(step@.take(i as int) =~= step@);
        Candidate { knots, step_norm }
    }

    /// Accepts a candidate whose merit is lower, otherwise keeps the iterate;
    /// adapts the trust radius, and moves on to the next iteration or ends.
    ///
    /// A relaxed-target step can be small without meaning converged: it only
    /// satisfied a scaled-down EE target, not the real one.
    pub fn judge(
        &mut self,
        problem: &SqpProblem,
        candidate: Candidate,
        evaluation: Evaluation,
    ) -> (ending: Option<Ending>)
        requires
            old(self).well_formed(*problem, old(self).knots@.len()),
            candidate.knots@.len() == old(self).knots@.len(),
            knots_shaped(candidate.knots@, problem.n()),
            knots_limited(candidate.knots@, problem.lower@, problem.upper@),
            evaluation.shaped(old(self).knots@.len(), problem.n()),
            old(self).iteration < problem.config.sqp_max_iterations,
        ensures
            final(self).well_formed(*problem, old(self).knots@.len()),
            judged(*problem, *old(self), candidate, evaluation, *final(self), ending),
            final(self).merit == old(self).merit || final(self).merit.less(old(self).merit),
    {
        let config: &TrajectoryConfig = &problem.config;
        let value: Double = merit(
            &candidate.knots,
            &evaluation,
            config,
            problem.base,
            problem.lower.len(),
        );
        let margin: Double = (Double { bits: MERIT_MARGIN }).times(
            self.merit.max(Double { bits: ONE }),
        );
        let improved: bool = value.lt(self.merit.minus(margin));
        proof {
            if improved {
                lemma_improvement_lowers_merit(value, self.merit);
            }
        }
        let converged: bool = self.halvings == 0 && candidate.step_norm.lt(
            config.convergence_step_norm,
        );
        if improved {
            self.knots = candidate.knots;
            self.evaluation = evaluation;
            self.merit = value;
            self.accepted = true;
            self.radius = (Double { bits: TWO }).times(self.radius).min(config.trust_region);
        } else {
            self.radius = (Double { bits: HALF }).times(self.radius);
        }
        proof {
            lemma_target_scale(0);
        }
        self.scale = Double { bits: ONE };
        self.halvings = 0;
        self.iteration = self.iteration + 1;
        let smallest: Double = (Double { bits: SMALLEST_RADIUS }).times(config.trust_region);
        if converged {
            Some(Ending::Converged)
        } else if !improved && self.radius.lt(smallest) {
            Some(Ending::TrustRegionCollapsed)
        } else if self.iteration == config.sqp_max_iterations {
            Some(Ending::IterationsExhausted)
        } else {
            None
        }
    }
}

impl Ending {
    /// What is said of a run that ended without converging.
    pub open spec fn warning_text(self, iterations: nat) -> Option<Seq<char>> {
        match self {
            Ending::Converged => None,
            Ending::IterationsExhausted => Some(
                "trajectory optimization did not converge within "@ + digits(iterations)
                    + " iterations; returning last iterate"@,
            ),
            Ending::TrustRegionCollapsed => Some(
                "trajectory optimization stalled: the trust region collapsed; returning last iterate"@,
            ),
            Ending::SolverStalled(error) => Some(
                "trajectory optimization stopped early: "@ + error@
                    + "; returning best iterate"@,
            ),
        }
    }

    /// The warning for a best-effort result; none where the run converged.
    /// `iterations` is the configured limit.
    pub fn warning(&self, iterations: usize) -> (result: Option<String>)
        ensures
            match result {
                Some(text) => self.warning_text(iterations as nat) == Some(text@),
                None => self.warning_text(iterations as nat) is None,
            },
    {
        match self {
            Ending::Converged => None,
            Ending::IterationsExhausted => {
                let mut text: String = "trajectory optimization did not converge within ".to_owned();
                let number: String = decimal(iterations);
                text.append(number.as_str());
                text.append(" iterations; returning last iterate");
                Some(text)
            },
            Ending::TrustRegionCollapsed => Some(
                "trajectory optimization stalled: the trust region collapsed; returning last iterate".to_owned(),
            ),
            Ending::SolverStalled(error) => {
                let mut text: String = "trajectory optimization stopped early: ".to_owned();
                text.append(error.as_str());
                text.append("; returning best iterate");
                Some(text)
            },
        }
    }
}

/// A lower merit by more than the margin is a lower merit.
pub proof fn lemma_improvement_lowers_merit(candidate: Double, current: Double)
    requires
        improves(candidate, current),
    ensures
        candidate.less(current),
{
    reveal(Double::product);
    reveal(Double::sum);
    let margin = (Double { bits: MERIT_MARGIN }).product(current.larger(Double { bits: ONE }));
    lemma_product_sign(Double { bits: MERIT_MARGIN }, current.larger(Double { bits: ONE }));
    lemma_difference_lowers(current, margin);
}

/// The trust radius never leaves the range from zero to the largest radius.
pub proof fn lemma_radius_stays_in_range(radius: Double, largest: Double, accepted: bool)
    requires
        !radius.negative(),
        !largest.negative(),
        radius.at_most(largest),
    ensures
        !next_radius(radius, largest, accepted).negative(),
        next_radius(radius, largest, accepted).at_most(largest),
{
    if accepted {
        let doubled = (Double { bits: TWO }).product(radius);
        if !doubled.nan() {
            lemma_product_sign(Double { bits: TWO }, radius);
        }
    } else {
        lemma_half_lowers(radius);
    }
}

/// The state before the first iteration, from knots and their evaluation.
pub open spec fn started(
    problem: SqpProblem,
    knots: Vec<Vec<Double>>,
    evaluation: Evaluation,
    state: SqpState,
) -> bool {
    &&& state.knots == knots
    &&& state.evaluation == evaluation
    &&& state.merit == merit_of(knots@, evaluation, problem.config, problem.base)
    &&& state.radius == problem.config.trust_region
    &&& state.scale == (Double { bits: ONE })
    &&& state.halvings == 0
    &&& state.iteration == 0
    &&& !state.accepted
}

} // verus!
