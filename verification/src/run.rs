//! A run of the trajectory optimization, from the evaluation of the first knots to
//! the state that it leaves, and what holds along every run.

use crate::diagnostics::{are_headings, headings, BaseIndices, Heading};
use crate::double::Double;
use crate::limits::knots_limited;
use crate::linearization::{knots_shaped, Evaluation, KnotEvaluation, PoseReading};
use crate::merit::merit_of;
use crate::qp::QuadraticProgram;
use crate::sqp::{
    failed, improves, judged, lemma_improvement_lowers_merit, lemma_radius_stays_in_range,
    next_radius, posed, proposed, started, Candidate, Ending, SqpProblem, SqpState, MAX_HALVINGS,
};
use vstd::prelude::*;

verus! {

/// Whether an attempt at a state's subproblem fails with an error: it cannot be
/// posed, or the solver refuses it.
pub open spec fn attempt_fails<S>(
    problem: SqpProblem,
    solve: S,
    state: SqpState,
    error: String,
) -> bool where S: Fn(&QuadraticProgram) -> Result<Vec<Double>, String> {
    ||| posed(problem, state, Err(error))
    ||| exists|program: QuadraticProgram|
        #[trigger] posed(problem, state, Ok(program)) && call_ensures(
            solve,
            (&program,),
            Err::<Vec<Double>, String>(error),
        )
}

/// Whether an attempt at a state's subproblem leads to a candidate, and what its
/// evaluation is.
pub open spec fn attempt_proposes<E, H, S>(
    problem: SqpProblem,
    pose: E,
    heading: H,
    solve: S,
    state: SqpState,
    candidate: Candidate,
    evaluation: Evaluation,
) -> bool where
    E: Fn(usize, &Vec<Double>) -> PoseReading,
    H: Fn(Double) -> Heading,
    S: Fn(&QuadraticProgram) -> Result<Vec<Double>, String>,
 {
    &&& evaluated(problem.base, pose, heading, candidate.knots, evaluation)
    &&& exists|program: QuadraticProgram, step: Vec<Double>|
        {
            &&& #[trigger] posed(problem, state, Ok(program))
            &&& #[trigger] call_ensures(solve, (&program,), Ok::<Vec<Double>, String>(step))
            &&& proposed(problem, state, step@, candidate)
        }
}

/// Whether a run goes on from a state to the next one.
pub open spec fn goes_on<E, H, S>(
    problem: SqpProblem,
    pose: E,
    heading: H,
    solve: S,
    before: SqpState,
    after: SqpState,
) -> bool where
    E: Fn(usize, &Vec<Double>) -> PoseReading,
    H: Fn(Double) -> Heading,
    S: Fn(&QuadraticProgram) -> Result<Vec<Double>, String>,
 {
    &&& before.iteration < problem.config.sqp_max_iterations
    &&& {
        ||| exists|error: String|
            #[trigger] attempt_fails(problem, solve, before, error) && failed(
                problem,
                before,
                error,
                after,
                Ok(None),
            )
        ||| exists|candidate: Candidate, evaluation: Evaluation|
            #[trigger] attempt_proposes(
                problem,
                pose,
                heading,
                solve,
                before,
                candidate,
                evaluation,
            ) && judged(problem, before, candidate, evaluation, after, None)
    }
}

/// Whether a run ends at a state, and what it leaves.
pub open spec fn ends<E, H, S>(
    problem: SqpProblem,
    pose: E,
    heading: H,
    solve: S,
    before: SqpState,
    after: SqpState,
    ending: Ending,
) -> bool where
    E: Fn(usize, &Vec<Double>) -> PoseReading,
    H: Fn(Double) -> Heading,
    S: Fn(&QuadraticProgram) -> Result<Vec<Double>, String>,
 {
    if before.iteration >= problem.config.sqp_max_iterations {
        ending == Ending::IterationsExhausted && after == before
    } else {
        ||| exists|error: String|
            #[trigger] attempt_fails(problem, solve, before, error) && failed(
                problem,
                before,
                error,
                after,
                Ok(Some(ending)),
            )
        ||| exists|candidate: Candidate, evaluation: Evaluation|
            #[trigger] attempt_proposes(
                problem,
                pose,
                heading,
                solve,
                before,
                candidate,
                evaluation,
            ) && judged(problem, before, candidate, evaluation, after, Some(ending))
    }
}

/// Whether a sequence of states is a run from the given knots.
pub open spec fn is_run<E, H, S>(
    problem: SqpProblem,
    pose: E,
    heading: H,
    solve: S,
    knots: Vec<Vec<Double>>,
    run: Seq<SqpState>,
) -> bool where
    E: Fn(usize, &Vec<Double>) -> PoseReading,
    H: Fn(Double) -> Heading,
    S: Fn(&QuadraticProgram) -> Result<Vec<Double>, String>,
 {
    &&& run.len() >= 1
    &&& exists|evaluation: Evaluation|
        #[trigger] evaluated(problem.base, pose, heading, knots, evaluation) && started(
            problem,
            knots,
            evaluation,
            run[0],
        )
    &&& forall|i: int|
        0 <= i < run.len() - 1 ==> #[trigger] goes_on(
            problem,
            pose,
            heading,
            solve,
            run[i],
            run[i + 1],
        )
}

/// A run followed by the state that it goes on to is a run.
proof fn lemma_run_extends<E, H, S>(
    problem: SqpProblem,
    pose: E,
    heading: H,
    solve: S,
    knots: Vec<Vec<Double>>,
    run: Seq<SqpState>,
    state: SqpState,
) where
    E: Fn(usize, &Vec<Double>) -> PoseReading,
    H: Fn(Double) -> Heading,
    S: Fn(&QuadraticProgram) -> Result<Vec<Double>, String>,

    requires
        is_run(problem, pose, heading, solve, knots, run),
        goes_on(problem, pose, heading, solve, run.last(), state),
    ensures
        is_run(problem, pose, heading, solve, knots, run.push(state)),
{
    let longer = run.push(state);
    assert(longer[0] == run[0]);
    assert forall|i: int| 0 <= i < longer.len() - 1 implies #[trigger] goes_on(
        problem,
        pose,
        heading,
        solve,
        longer[i],
        longer[i + 1],
    ) by {
        if i < run.len() - 1 {
            assert(longer[i] == run[i] && longer[i + 1] == run[i + 1]);
        }
    }
}

/// An optimized trajectory, and why the run ended.
pub struct Optimized {
    pub problem: SqpProblem,
    pub knots: Vec<Vec<Double>>,
    /// The merit of the knots; none where no iteration was to be made, so that they
    /// were never evaluated.
    pub merit: Option<Double>,
    /// Whether any step was accepted.
    pub accepted: bool,
    pub ending: Ending,
}

impl Optimized {
    /// The knots are those of the problem, and keep its limits.
    pub open spec fn well_formed(&self, count: nat) -> bool {
        &&& self.problem.well_formed(count)
        &&& self.knots@.len() == count
        &&& knots_shaped(self.knots@, self.problem.n())
        &&& knots_limited(self.knots@, self.problem.lower@, self.problem.upper@)
    }

    /// Whether this is what a state of a run amounts to.
    pub open spec fn holds(&self, state: SqpState) -> bool {
        &&& self.knots == state.knots
        &&& self.merit == Some(state.merit)
        &&& self.accepted == state.accepted
    }

    /// The result of a run that left a state.
    fn of(problem: SqpProblem, state: SqpState, ending: Ending) -> (outcome: Self)
        ensures
            outcome.problem == problem,
            outcome.holds(state),
            outcome.ending == ending,
    {
        Optimized {
            problem,
            knots: state.knots,
            merit: Some(state.merit),
            accepted: state.accepted,
            ending,
        }
    }
}

/// Whether `outcome` is what a run from the given knots leaves. Without an iteration to
/// make, these are the knots themselves, and nothing is asked of the kinematics.
pub open spec fn run_leaves<E, H, S>(
    pose: E,
    heading: H,
    solve: S,
    knots: Vec<Vec<Double>>,
    outcome: Optimized,
) -> bool where
    E: Fn(usize, &Vec<Double>) -> PoseReading,
    H: Fn(Double) -> Heading,
    S: Fn(&QuadraticProgram) -> Result<Vec<Double>, String>,
 {
    if outcome.problem.config.sqp_max_iterations == 0 {
        &&& outcome.knots == knots
        &&& outcome.merit is None
        &&& !outcome.accepted
        &&& outcome.ending == Ending::IterationsExhausted
    } else {
        exists|run: Seq<SqpState>, state: SqpState|
            #[trigger] run_comes_to(pose, heading, solve, knots, outcome, run, state)
    }
}

/// Whether `outcome` is what a run leaves that ends with a state.
pub open spec fn run_comes_to<E, H, S>(
    pose: E,
    heading: H,
    solve: S,
    knots: Vec<Vec<Double>>,
    outcome: Optimized,
    run: Seq<SqpState>,
    state: SqpState,
) -> bool where
    E: Fn(usize, &Vec<Double>) -> PoseReading,
    H: Fn(Double) -> Heading,
    S: Fn(&QuadraticProgram) -> Result<Vec<Double>, String>,
 {
    &&& is_run(outcome.problem, pose, heading, solve, knots, run)
    &&& ends(outcome.problem, pose, heading, solve, run.last(), state, outcome.ending)
    &&& outcome.holds(state)
}

/// Whether a run from the given knots stops with an error.
pub open spec fn run_stops<E, H, S>(
    problem: SqpProblem,
    pose: E,
    heading: H,
    solve: S,
    knots: Vec<Vec<Double>>,
    message: String,
) -> bool where
    E: Fn(usize, &Vec<Double>) -> PoseReading,
    H: Fn(Double) -> Heading,
    S: Fn(&QuadraticProgram) -> Result<Vec<Double>, String>,
 {
    exists|run: Seq<SqpState>, error: String, after: SqpState|
        {
            &&& #[trigger] is_run(problem, pose, heading, solve, knots, run)
            &&& run.last().iteration < problem.config.sqp_max_iterations
            &&& attempt_fails(problem, solve, run.last(), error)
            &&& #[trigger] failed(problem, run.last(), error, after, Err(message))
        }
}

/// What a run asks of the functions that it is given: the kinematics and the
/// heading answer for every knot and every angle, the solver for every program,
/// and what they answer has the shape of what they were asked.
pub open spec fn answers<E, H, S>(pose: E, heading: H, solve: S, count: nat, n: nat) -> bool where
    E: Fn(usize, &Vec<Double>) -> PoseReading,
    H: Fn(Double) -> Heading,
    S: Fn(&QuadraticProgram) -> Result<Vec<Double>, String>,
 {
    &&& answers_for_knots(pose, heading, count, n)
    &&& forall|program: &QuadraticProgram| program.shaped() ==> call_requires(solve, (program,))
    &&& forall|program: &QuadraticProgram, step: Vec<Double>|
        program.shaped() && call_ensures(solve, (program,), Ok::<Vec<Double>, String>(step))
            ==> step@.len() == program.q@.len()
}

/// What an evaluation asks of the functions that it is given.
pub open spec fn answers_for_knots<E, H>(pose: E, heading: H, count: nat, n: nat) -> bool where
    E: Fn(usize, &Vec<Double>) -> PoseReading,
    H: Fn(Double) -> Heading,
 {
    &&& forall|k: usize, knot: &Vec<Double>|
        k < count && knot@.len() == n ==> call_requires(pose, (k, knot))
    &&& forall|k: usize, knot: &Vec<Double>, reading: PoseReading|
        knot@.len() == n && #[trigger] call_ensures(pose, (k, knot), reading) ==> reading.shaped(n)
    &&& forall|yaw: Double| call_requires(heading, (yaw,))
}

/// Whether an evaluation is that of the knots: `pose` gives the kinematics of each
/// knot for its place, `heading` the sine and cosine of each interval's midpoint
/// yaw.
pub open spec fn evaluated<E, H>(
    base: BaseIndices,
    pose: E,
    heading: H,
    knots: Vec<Vec<Double>>,
    evaluation: Evaluation,
) -> bool where E: Fn(usize, &Vec<Double>) -> PoseReading, H: Fn(Double) -> Heading {
    &&& evaluation.knots@.len() == knots@.len()
    &&& forall|k: int|
        0 <= k < knots@.len() ==> call_ensures(
            pose,
            (k as usize, &knots@[k]),
            (#[trigger] evaluation.knots@[k]).reading(),
        ) && evaluation.knots@[k].shaped(evaluation.knots@[k].jacobian.width())
    &&& are_headings(knots@, base, heading, evaluation.headings@)
}

/// Evaluates the kinematics at every knot, of `n` joints, and the heading of every
/// interval.
pub fn evaluate_knots<E, H>(
    knots: &Vec<Vec<Double>>,
    base: BaseIndices,
    n: usize,
    pose: &E,
    heading: &H,
) -> (evaluation: Evaluation) where
    E: Fn(usize, &Vec<Double>) -> PoseReading,
    H: Fn(Double) -> Heading,

    requires
        base.within(n as nat),
        knots_shaped(knots@, n as nat),
        answers_for_knots(*pose, *heading, knots@.len(), n as nat),
    ensures
        evaluated(base, *pose, *heading, *knots, evaluation),
        knots@.len() > 0 ==> evaluation.shaped(knots@.len(), n as nat),
{
    let mut evaluations: Vec<KnotEvaluation> = Vec::new();
    let mut k: usize = 0;
    while k < knots.len()
        invariant
            k <= knots@.len(),
            knots_shaped(knots@, n as nat),
            answers_for_knots(*pose, *heading, knots@.len(), n as nat),
            evaluations@.len() == k,
            forall|i: int|
                0 <= i < k ==> call_ensures(
                    *pose,
                    (i as usize, &knots@[i]),
                    (#[trigger] evaluations@[i]).reading(),
                ) && evaluations@[i].shaped(n as nat),
        decreases knots@.len() - k,
    {
        assert(knots@[k as int]@.len() == n);
        let reading: PoseReading = pose(k, &knots[k]);
        assert(call_ensures(*pose, (k, &knots@[k as int]), reading));
        evaluations.push(KnotEvaluation::of(reading));
        k = k + 1;
    }
    Evaluation { knots: evaluations, headings: headings(knots, base, heading) }
}

/// The iterations of a problem from the given knots: evaluate, pose the
/// subproblem, solve it, judge the candidate, until the run ends or fails.
pub fn iterate<E, H, S>(
    problem: SqpProblem,
    knots: Vec<Vec<Double>>,
    pose: E,
    heading: H,
    solve: S,
) -> (result: Result<Optimized, String>) where
    E: Fn(usize, &Vec<Double>) -> PoseReading,
    H: Fn(Double) -> Heading,
    S: Fn(&QuadraticProgram) -> Result<Vec<Double>, String>,

    requires
        problem.well_formed(knots@.len()),
        knots_shaped(knots@, problem.n()),
        knots_limited(knots@, problem.lower@, problem.upper@),
        answers(pose, heading, solve, knots@.len(), problem.n()),
    ensures
        match result {
            Ok(outcome) => {
                &&& outcome.problem == problem
                &&& outcome.well_formed(knots@.len())
                &&& run_leaves(pose, heading, solve, knots, outcome)
            },
            Err(message) => run_stops(problem, pose, heading, solve, knots, message),
        },
{
    if problem.config.sqp_max_iterations == 0 {
        let ending: Ending = Ending::IterationsExhausted;
        return Ok(Optimized { problem, knots, merit: None, accepted: false, ending });
    }
    let evaluation: Evaluation = evaluate_knots(
        &knots,
        problem.base,
        problem.lower.len(),
        &pose,
        &heading,
    );
    let mut state: SqpState = SqpState::start(&problem, knots, evaluation);
    let ghost mut run: Seq<SqpState> = seq![state];
    proof {
        assert(evaluated(problem.base, pose, heading, knots, evaluation));
        assert(started(problem, knots, evaluation, run[0]));
        assert(is_run(problem, pose, heading, solve, knots, run));
    }
    loop
        invariant
            problem.config.sqp_max_iterations > 0,
            state.well_formed(problem, knots@.len()),
            is_run(problem, pose, heading, solve, knots, run),
            run.last() == state,
            answers(pose, heading, solve, knots@.len(), problem.n()),
        decreases
            problem.config.sqp_max_iterations - state.iteration,
            MAX_HALVINGS - state.halvings,
    {
        if state.iteration >= problem.config.sqp_max_iterations {
            let outcome = Optimized::of(problem, state, Ending::IterationsExhausted);
            assert(run_comes_to(pose, heading, solve, knots, outcome, run, state));
            assert(run_leaves(pose, heading, solve, knots, outcome));
            return Ok(outcome);
        }
        let ghost before = state;
        let posed_program: Result<QuadraticProgram, String> = state.subproblem(&problem);
        let answer: Result<Vec<Double>, String> = match &posed_program {
            Ok(program) => solve(program),
            Err(message) => Err(message.clone()),
        };
        match answer {
            Err(error) => {
                proof {
                    match posed_program {
                        Ok(program) => {
                            assert(posed(problem, before, Ok(program)));
                            assert(call_ensures(
                                solve,
                                (&program,),
                                Err::<Vec<Double>, String>(error),
                            ));
                        },
                        Err(message) => {},
                    }
                    assert(attempt_fails(problem, solve, before, error));
                }
                let attempt: Result<Option<Ending>, String> = state.fail(&problem, error);
                match attempt {
                    Err(message) => {
                        assert(failed(problem, run.last(), error, state, Err(message)));
                        assert(run_stops(problem, pose, heading, solve, knots, message));
                        return Err(message);
                    },
                    Ok(Some(ending)) => {
                        let outcome = Optimized::of(problem, state, ending);
                        assert(run_comes_to(pose, heading, solve, knots, outcome, run, state));
                        assert(run_leaves(pose, heading, solve, knots, outcome));
                        return Ok(outcome);
                    },
                    Ok(None) => {
                        proof {
                            assert(goes_on(problem, pose, heading, solve, before, state));
                            lemma_run_extends(problem, pose, heading, solve, knots, run, state);
                            run = run.push(state);
                        }
                    },
                }
            },
            Ok(step) => {
                let candidate: Candidate = state.candidate(&problem, &step);
                let evaluation: Evaluation = evaluate_knots(
                    &candidate.knots,
                    problem.base,
                    problem.lower.len(),
                    &pose,
                    &heading,
                );
                proof {
                    match posed_program {
                        Ok(program) => {
                            assert(posed(problem, before, Ok(program)));
                            assert(call_ensures(
                                solve,
                                (&program,),
                                Ok::<Vec<Double>, String>(step),
                            ));
                        },
                        Err(message) => {},
                    }
                    assert(attempt_proposes(
                        problem,
                        pose,
                        heading,
                        solve,
                        before,
                        candidate,
                        evaluation,
                    ));
                }
                let ending: Option<Ending> = state.judge(&problem, candidate, evaluation);
                match ending {
                    Some(ending) => {
                        let outcome = Optimized::of(problem, state, ending);
                        assert(run_comes_to(pose, heading, solve, knots, outcome, run, state));
                        assert(run_leaves(pose, heading, solve, knots, outcome));
                        return Ok(outcome);
                    },
                    None => {
                        proof {
                            assert(goes_on(problem, pose, heading, solve, before, state));
                            lemma_run_extends(problem, pose, heading, solve, knots, run, state);
                            run = run.push(state);
                        }
                    },
                }
            },
        }
    }
}

/// Whether a merit is another or less.
pub open spec fn no_worse(merit: Double, than: Double) -> bool {
    merit == than || merit.less(than)
}

/// What one step of a run does: it keeps the iterate, or moves to one of a lower
/// merit; and it uses up a halving or an iteration.
proof fn lemma_one_step<E, H, S>(
    problem: SqpProblem,
    pose: E,
    heading: H,
    solve: S,
    before: SqpState,
    after: SqpState,
) where
    E: Fn(usize, &Vec<Double>) -> PoseReading,
    H: Fn(Double) -> Heading,
    S: Fn(&QuadraticProgram) -> Result<Vec<Double>, String>,

    requires
        goes_on(problem, pose, heading, solve, before, after),
        before.halvings <= MAX_HALVINGS,
    ensures
        no_worse(after.merit, before.merit),
        after.accepted || after.knots == before.knots && after.evaluation == before.evaluation
            && after.merit == before.merit,
        before.accepted ==> after.accepted,
        after.radius == before.radius || exists|improved: bool|
            after.radius == #[trigger] next_radius(
                before.radius,
                problem.config.trust_region,
                improved,
            ),
        after.halvings <= MAX_HALVINGS,
        after.iteration == before.iteration + 1 || (after.iteration == before.iteration
            && after.halvings == before.halvings + 1),
{
    if exists|error: String|
        #[trigger] attempt_fails(problem, solve, before, error) && failed(
            problem,
            before,
            error,
            after,
            Ok(None),
        ) {
    } else {
        let (candidate, evaluation) = choose|candidate: Candidate, evaluation: Evaluation|
            #[trigger] attempt_proposes(
                problem,
                pose,
                heading,
                solve,
                before,
                candidate,
                evaluation,
            ) && judged(problem, before, candidate, evaluation, after, None);
        let merit = merit_of(candidate.knots@, evaluation, problem.config, problem.base);
        let improved = improves(merit, before.merit);
        if improved {
            lemma_improvement_lowers_merit(merit, before.merit);
        }
        assert(after.radius == next_radius(before.radius, problem.config.trust_region, improved));
    }
}

/// The merit never rises along a run: a step is taken only where it lowers it.
pub proof fn lemma_merit_never_rises<E, H, S>(
    problem: SqpProblem,
    pose: E,
    heading: H,
    solve: S,
    knots: Vec<Vec<Double>>,
    run: Seq<SqpState>,
    i: int,
    j: int,
) where
    E: Fn(usize, &Vec<Double>) -> PoseReading,
    H: Fn(Double) -> Heading,
    S: Fn(&QuadraticProgram) -> Result<Vec<Double>, String>,

    requires
        is_run(problem, pose, heading, solve, knots, run),
        0 <= i <= j < run.len(),
    ensures
        no_worse(run[j].merit, run[i].merit),
    decreases j - i,
{
    if i < j {
        lemma_merit_never_rises(problem, pose, heading, solve, knots, run, i, j - 1);
        lemma_run_is_counted(problem, pose, heading, solve, knots, run, j - 1);
        assert(goes_on(problem, pose, heading, solve, run[j - 1], run[j - 1 + 1]));
        lemma_one_step(problem, pose, heading, solve, run[j - 1], run[j]);
    }
}

/// How far a run has come: each of its states is an iteration or a halving on.
proof fn lemma_run_is_counted<E, H, S>(
    problem: SqpProblem,
    pose: E,
    heading: H,
    solve: S,
    knots: Vec<Vec<Double>>,
    run: Seq<SqpState>,
    i: int,
) where
    E: Fn(usize, &Vec<Double>) -> PoseReading,
    H: Fn(Double) -> Heading,
    S: Fn(&QuadraticProgram) -> Result<Vec<Double>, String>,

    requires
        is_run(problem, pose, heading, solve, knots, run),
        0 <= i < run.len(),
    ensures
        run[i].halvings <= MAX_HALVINGS,
        i <= run[i].iteration * (MAX_HALVINGS + 1) + run[i].halvings,
    decreases i,
{
    if i > 0 {
        lemma_run_is_counted(problem, pose, heading, solve, knots, run, i - 1);
        assert(goes_on(problem, pose, heading, solve, run[i - 1], run[i - 1 + 1]));
        lemma_one_step(problem, pose, heading, solve, run[i - 1], run[i]);
    }
}

/// A run has an end: no iteration makes more than one attempt for each scale of
/// the hard targets.
pub proof fn lemma_run_is_short<E, H, S>(
    problem: SqpProblem,
    pose: E,
    heading: H,
    solve: S,
    knots: Vec<Vec<Double>>,
    run: Seq<SqpState>,
) where
    E: Fn(usize, &Vec<Double>) -> PoseReading,
    H: Fn(Double) -> Heading,
    S: Fn(&QuadraticProgram) -> Result<Vec<Double>, String>,

    requires
        is_run(problem, pose, heading, solve, knots, run),
    ensures
        run.len() <= problem.config.sqp_max_iterations * (MAX_HALVINGS + 1) + 1,
{
    if run.len() > 1 {
        let i = run.len() - 2;
        lemma_run_is_counted(problem, pose, heading, solve, knots, run, i);
        assert(goes_on(problem, pose, heading, solve, run[i], run[i + 1]));
    }
}

/// The trust radius of every state of a run lies between zero and the largest
/// radius.
pub proof fn lemma_run_keeps_the_radius<E, H, S>(
    problem: SqpProblem,
    pose: E,
    heading: H,
    solve: S,
    knots: Vec<Vec<Double>>,
    run: Seq<SqpState>,
    i: int,
) where
    E: Fn(usize, &Vec<Double>) -> PoseReading,
    H: Fn(Double) -> Heading,
    S: Fn(&QuadraticProgram) -> Result<Vec<Double>, String>,

    requires
        is_run(problem, pose, heading, solve, knots, run),
        (Double { bits: 0 }).less(problem.config.trust_region),
        0 <= i < run.len(),
    ensures
        !run[i].radius.negative(),
        run[i].radius.at_most(problem.config.trust_region),
    decreases i,
{
    let largest = problem.config.trust_region;
    if i > 0 {
        lemma_run_keeps_the_radius(problem, pose, heading, solve, knots, run, i - 1);
        lemma_run_is_counted(problem, pose, heading, solve, knots, run, i - 1);
        assert(goes_on(problem, pose, heading, solve, run[i - 1], run[i - 1 + 1]));
        lemma_one_step(problem, pose, heading, solve, run[i - 1], run[i]);
        lemma_radius_stays_in_range(run[i - 1].radius, largest, true);
        lemma_radius_stays_in_range(run[i - 1].radius, largest, false);
    }
}

/// Until a step is accepted, a run stays where it started.
pub proof fn lemma_run_stays_until_accepted<E, H, S>(
    problem: SqpProblem,
    pose: E,
    heading: H,
    solve: S,
    knots: Vec<Vec<Double>>,
    run: Seq<SqpState>,
    i: int,
) where
    E: Fn(usize, &Vec<Double>) -> PoseReading,
    H: Fn(Double) -> Heading,
    S: Fn(&QuadraticProgram) -> Result<Vec<Double>, String>,

    requires
        is_run(problem, pose, heading, solve, knots, run),
        0 <= i < run.len(),
    ensures
        run[i].accepted || run[i].knots == knots,
    decreases i,
{
    if i > 0 {
        lemma_run_stays_until_accepted(problem, pose, heading, solve, knots, run, i - 1);
        lemma_run_is_counted(problem, pose, heading, solve, knots, run, i - 1);
        assert(goes_on(problem, pose, heading, solve, run[i - 1], run[i - 1 + 1]));
        lemma_one_step(problem, pose, heading, solve, run[i - 1], run[i]);
    }
}

/// What a run leaves is no worse than what it started from, and is the start
/// itself where no step was accepted.
pub proof fn lemma_outcome_is_no_worse<E, H, S>(
    pose: E,
    heading: H,
    solve: S,
    knots: Vec<Vec<Double>>,
    outcome: Optimized,
) where
    E: Fn(usize, &Vec<Double>) -> PoseReading,
    H: Fn(Double) -> Heading,
    S: Fn(&QuadraticProgram) -> Result<Vec<Double>, String>,

    requires
        run_leaves(pose, heading, solve, knots, outcome),
    ensures
        outcome.merit matches Some(merit) ==> exists|evaluation: Evaluation|
            #[trigger] evaluated(outcome.problem.base, pose, heading, knots, evaluation) && no_worse(
                merit,
                merit_of(knots@, evaluation, outcome.problem.config, outcome.problem.base),
            ),
        outcome.accepted || outcome.knots == knots,
        outcome.merit is None <==> outcome.problem.config.sqp_max_iterations == 0,
{
    if outcome.problem.config.sqp_max_iterations > 0 {
        let (run, state) = choose|run: Seq<SqpState>, state: SqpState|
            #[trigger] run_comes_to(pose, heading, solve, knots, outcome, run, state);
        lemma_last_state_is_no_worse(pose, heading, solve, knots, outcome, run, state);
    }
}

proof fn lemma_last_state_is_no_worse<E, H, S>(
    pose: E,
    heading: H,
    solve: S,
    knots: Vec<Vec<Double>>,
    outcome: Optimized,
    run: Seq<SqpState>,
    state: SqpState,
) where
    E: Fn(usize, &Vec<Double>) -> PoseReading,
    H: Fn(Double) -> Heading,
    S: Fn(&QuadraticProgram) -> Result<Vec<Double>, String>,

    requires
        run_comes_to(pose, heading, solve, knots, outcome, run, state),
    ensures
        exists|evaluation: Evaluation|
            #[trigger] evaluated(outcome.problem.base, pose, heading, knots, evaluation) && no_worse(
                state.merit,
                merit_of(knots@, evaluation, outcome.problem.config, outcome.problem.base),
            ),
        state.accepted || state.knots == knots,
{
    let problem = outcome.problem;
    let last = run.len() - 1;
    let evaluation = choose|evaluation: Evaluation|
        #[trigger] evaluated(problem.base, pose, heading, knots, evaluation) && started(
            problem,
            knots,
            evaluation,
            run[0],
        );
    lemma_merit_never_rises(problem, pose, heading, solve, knots, run, 0, last);
    lemma_run_stays_until_accepted(problem, pose, heading, solve, knots, run, last);
    if exists|candidate: Candidate, step: Evaluation|
        #[trigger] attempt_proposes(problem, pose, heading, solve, run.last(), candidate, step)
            && judged(problem, run.last(), candidate, step, state, Some(outcome.ending)) {
        let (candidate, step) = choose|candidate: Candidate, step: Evaluation|
            #[trigger] attempt_proposes(problem, pose, heading, solve, run.last(), candidate, step)
                && judged(
                problem,
                run.last(),
                candidate,
                step,
                state,
                Some(outcome.ending),
            );
        let merit = merit_of(candidate.knots@, step, problem.config, problem.base);
        if improves(merit, run.last().merit) {
            lemma_improvement_lowers_merit(merit, run.last().merit);
        }
    }
    assert(no_worse(state.merit, run.last().merit));
    assert(evaluated(problem.base, pose, heading, knots, evaluation));
}

} // verus!
