//! When a solve has arrived: what the norm of a pose error says of its components, and
//! what a solve that ends early says of the pose it ends at.

use crate::configs::DifferentialIkConfig;
use crate::double::Double;
use crate::error::{
    half_ulp, least, lemma_distributes, lemma_half_ulp, lemma_scaled_order, lemma_value_of_zero,
    size, value,
};
use crate::feasible::lemma_values_in_order;
use crate::kinematics::{arrived, evaluated_at, step_taken, steps_taken, IkSolve, PoseEvaluation};
use crate::linearization::PoseReading;
use crate::pipeline::{are_settings_of, pose_answers, pose_fails, solved_in_turn, start_of};
use crate::qp::QuadraticProgram;
use crate::quotients::{billionth, lemma_least_is_tiny, lemma_root_error};
use crate::reals::{
    lemma_associates, lemma_bounded_product, lemma_commutes, lemma_exchanges, lemma_one,
    lemma_root_order, lemma_square, lemma_square_of_difference, lemma_zero,
};
use crate::rounding::TWO_53;
use crate::series::square_sum;
use crate::sums::{
    added, column_products, image_products, lemma_gram_near, lemma_positive_terms,
    lemma_square_sum_near, lemma_transposed_image_near, squares, sum_rounding,
};
use vstd::prelude::*;

verus! {

/// A number is below one more than its square.
proof fn lemma_below_square(x: real)
    ensures
        x <= (1int as real) + x * x,
{
    lemma_square(x);
    if x > 1int as real {
        lemma_scaled_order(x, 1int as real, x);
        lemma_one(x);
    }
}

/// The square of a rounded root, next to what it is the root of.
proof fn lemma_root_squared(a: Double)
    requires
        a.root().finite(),
        a.finite(),
        !a.negative(),
    ensures
        size(value(a.root()) * value(a.root()) - value(a)) <= (6int as real) * (half_ulp() * value(
            a,
        )) + (10int as real) * least(),
        value(a) >= 0int as real,
{
    lemma_half_ulp();
    lemma_least_is_tiny();
    let (h, l) = (half_ulp(), least());
    let x = lemma_root_error(a);
    let (n, v) = (value(a.root()), value(a));
    lemma_value_of_zero(Double { bits: 0 });
    lemma_values_in_order(a, Double { bits: 0 });
    lemma_below_square(x);
    let s = x * x;
    lemma_square(x);
    // The rounding of the root.
    let e = n - x;
    lemma_square_of_difference(x, e);
    assert(x + e == n);
    let bound = h * x + l;
    lemma_scaled_order(h, 0int as real, x);
    lemma_zero(h);
    lemma_bounded_product(x, e, x, bound);
    lemma_bounded_product(e, e, bound, bound);
    lemma_distributes(x, h * x, l);
    lemma_exchanges(x, h, x);
    lemma_commutes(x, l);
    assert(size(x * e) <= h * s + l * x);
    lemma_scaled_order(l, x, (1int as real) + s);
    lemma_distributes(l, 1int as real, s);
    lemma_one(l);
    let ls = l * s;
    lemma_scaled_order(s, l * (100000000int as real), h);
    lemma_associates(s, l, 100000000int as real);
    lemma_commutes(s, l);
    lemma_commutes(s, h);
    lemma_scaled_order(s, 0int as real, h);
    lemma_scaled_order(s, 0int as real, l);
    lemma_zero(s);
    let hs = h * s;
    assert((100000000int as real) * ls <= hs) by {
        lemma_commutes(ls, 100000000int as real);
    }
    // The square of the rounding is smaller still.
    lemma_square_of_difference(h * x, l);
    lemma_square_of_product_parts(h, x);
    lemma_scaled_order(hs, h * (10000int as real), 1int as real);
    lemma_commutes(h, 10000int as real);
    lemma_one(hs);
    lemma_associates(hs, h, 10000int as real);
    lemma_commutes(hs, h);
    lemma_commutes(10000int as real, h * hs);
    let lx = l * x;
    lemma_associates(h, x, l);
    lemma_commutes(x, l);
    lemma_scaled_order(lx, h, 1int as real);
    lemma_scaled_order(l, 0int as real, x);
    lemma_zero(l);
    lemma_one(lx);
    lemma_commutes(lx, h);
    lemma_scaled_order(l, l, 1int as real);
    assert(size(e * e) <= hs / (10000int as real) + (2int as real) * lx + l);
    assert(size(n * n - s) <= (3int as real) * hs + (5int as real) * l);
    assert(size(s - v) <= l + ls);
    // Back from the square to what the root was taken of.
    assert(s <= v + l + ls);
    lemma_scaled_order(h, s, v + l + ls);
    lemma_distributes(h, v + l, ls);
    lemma_distributes(h, v, l);
    lemma_scaled_order(l, h, 1int as real);
    lemma_scaled_order(ls, h, 1int as real);
    lemma_one(ls);
    lemma_commutes(l, h);
    lemma_commutes(ls, h);
    assert(hs <= h * v + l + ls);
    lemma_scaled_order(h, 0int as real, v);
}

/// The square of a product, part by part.
proof fn lemma_square_of_product_parts(h: real, x: real)
    ensures
        (h * x) * (h * x) == h * (h * (x * x)),
{
    lemma_associates(h, x, h * x);
    lemma_exchanges(x, h, x);
}

/// What is added up of the squares of the six components of a pose error.
pub open spec fn squared_error(reading: PoseReading) -> real {
    added(squares(reading.twist@), reading.twist@.len())
}

/// A pose error whose norm is finite has a finite sum of squares.
pub(crate) proof fn lemma_finite_norm(a: Double)
    requires
        a.root().finite(),
    ensures
        a.finite(),
        !a.negative() || a.zero(),
{
    reveal(Double::root);
}

/// The norm of a pose error measures all six components: its square is the sum of their
/// squares, up to rounding.
pub proof fn lemma_norm_measures_every_component(reading: PoseReading, evaluation: PoseEvaluation)
    requires
        reading.twist@.len() == 6,
        evaluation.evaluates(reading),
        evaluation.twist_norm.finite(),
    ensures
        ({
            let norm = value(evaluation.twist_norm);
            let all = value(reading.twist@[0]) * value(reading.twist@[0]) + value(
                reading.twist@[1],
            ) * value(reading.twist@[1]) + value(reading.twist@[2]) * value(reading.twist@[2])
                + value(reading.twist@[3]) * value(reading.twist@[3]) + value(reading.twist@[4])
                * value(reading.twist@[4]) + value(reading.twist@[5]) * value(reading.twist@[5]);
            &&& norm >= 0int as real
            &&& all == squared_error(reading)
            &&& size(norm * norm - all) <= (26int as real) * (half_ulp() * all) + (32int as real)
                * least()
        }),
        forall|i: int|
            0 <= i < 6 ==> (#[trigger] reading.twist@[i]).finite() && value(reading.twist@[i])
                * value(reading.twist@[i]) <= squared_error(reading),
{
    lemma_half_ulp();
    lemma_least_is_tiny();
    let (h, l) = (half_ulp(), least());
    let twist = reading.twist@;
    let terms = squares(twist);
    let sum = square_sum(twist);
    lemma_finite_norm(sum);
    lemma_square_sum_near(twist);
    assert forall|i: int| 0 <= i < 6 implies #[trigger] terms[i] >= 0int as real by {
        lemma_square(value(twist[i]));
    }
    lemma_positive_terms(terms, 6);
    let all = added(terms, 6);
    assert(all == terms[0] + terms[1] + terms[2] + terms[3] + terms[4] + terms[5]) by {
        reveal_with_fuel(added, 7);
    }
    assert(sum_rounding(terms, 6) == (14int as real) * (h * all) + (12int as real) * l);
    lemma_positive_root(sum);
    lemma_scaled_order(h, value(sum), all + (14int as real) * (h * all) + (12int as real) * l);
    lemma_distributes(h, all + (14int as real) * (h * all), (12int as real) * l);
    lemma_distributes(h, all, (14int as real) * (h * all));
    let ha = h * all;
    lemma_scaled_order(h, 0int as real, all);
    lemma_zero(h);
    lemma_exchanges(h, 14int as real, ha);
    lemma_exchanges(h, 12int as real, l);
    lemma_scaled_order(ha, (10000int as real) * h, 1int as real);
    lemma_one(ha);
    lemma_commutes(ha, (10000int as real) * h);
    lemma_associates(10000int as real, h, ha);
    lemma_scaled_order(l, (10000int as real) * h, 1int as real);
    lemma_one(l);
    lemma_commutes(l, (10000int as real) * h);
    lemma_associates(10000int as real, h, l);
    assert(h * value(sum) <= (2int as real) * ha + l);
    let norm = value(evaluation.twist_norm);
    assert(evaluation.twist_norm == sum.root());
    assert(size(norm * norm - value(sum)) <= (6int as real) * (h * value(sum)) + (10int as real)
        * l);
    assert(size(value(sum) - all) <= (14int as real) * ha + (12int as real) * l);
    lemma_two_roundings(norm * norm, value(sum), all, h * value(sum), ha, l);
    assert forall|i: int| 0 <= i < 6 implies (#[trigger] twist[i]).finite() && value(twist[i])
        * value(twist[i]) <= all by {
        assert(terms[i] <= all);
    }
}

/// Two roundings, one after the other.
proof fn lemma_two_roundings(a: real, b: real, c: real, first: real, second: real, l: real)
    requires
        l >= 0int as real,
        first <= (2int as real) * second + l,
        size(a - b) <= (6int as real) * first + (10int as real) * l,
        size(b - c) <= (14int as real) * second + (12int as real) * l,
    ensures
        size(a - c) <= (26int as real) * second + (32int as real) * l,
{
}

/// What a rounded root of a sum of squares is, whatever the sign of a zero sum.
pub(crate) proof fn lemma_positive_root(a: Double)
    requires
        a.root().finite(),
    ensures
        value(a.root()) >= 0int as real,
        value(a) >= 0int as real,
        size(value(a.root()) * value(a.root()) - value(a)) <= (6int as real) * (half_ulp() * value(
            a,
        )) + (10int as real) * least(),
{
    lemma_finite_norm(a);
    if a.negative() {
        reveal(Double::root);
        lemma_value_of_zero(a);
        lemma_zero(half_ulp());
        lemma_zero(0int as real);
        lemma_least_is_tiny();
    } else {
        lemma_root_squared(a);
        let x = lemma_root_error(a);
    }
}

/// An entry of the products of a reading is an inner product of a column of its Jacobian:
/// with a column in the normal matrix, with the pose error in the gradient, up to rounding.
pub proof fn lemma_products_of_a_reading(
    reading: PoseReading,
    evaluation: PoseEvaluation,
    a: int,
    b: int,
)
    requires
        reading.shaped(reading.jacobian.width()),
        evaluation.evaluates(reading),
        0 <= a < reading.jacobian.width(),
        0 <= b < reading.jacobian.width(),
        evaluation.normal@[a][b].finite(),
        evaluation.gradient@[a].finite(),
    ensures
        ({
            let columns = column_products(reading.jacobian@, a, b);
            let errors = image_products(reading.jacobian@, reading.twist@, a);
            &&& size(value(evaluation.normal@[a][b]) - added(columns, 6)) <= sum_rounding(
                columns,
                6,
            )
            &&& size(value(evaluation.gradient@[a]) - added(errors, 6)) <= sum_rounding(errors, 6)
        }),
{
    lemma_gram_near(reading.jacobian@, reading.jacobian.width(), a, b);
    lemma_transposed_image_near(
        reading.jacobian@,
        reading.jacobian.width(),
        reading.twist@,
        a,
    );
}

/// Whether each of the six components of a pose error is below a threshold, up to
/// a billionth of it.
pub open spec fn close(reading: PoseReading, threshold: real) -> bool {
    &&& reading.twist@.len() == 6
    &&& forall|i: int|
        0 <= i < 6 ==> size(value(#[trigger] reading.twist@[i])) <= threshold + billionth() * (
        threshold + billionth())
}

/// A root below a finite number is finite.
proof fn lemma_below_a_finite_number(a: Double, threshold: Double)
    requires
        threshold.finite(),
        a.root().less(threshold),
    ensures
        a.root().finite(),
{
    reveal(Double::root);
}

/// Where the norm is below a threshold, so is each component.
proof fn lemma_below_the_threshold(
    reading: PoseReading,
    evaluation: PoseEvaluation,
    threshold: Double,
)
    requires
        reading.twist@.len() == 6,
        evaluation.evaluates(reading),
        threshold.finite(),
        evaluation.twist_norm.less(threshold),
    ensures
        close(reading, value(threshold)),
        value(threshold) > 0int as real,
{
    lemma_half_ulp();
    lemma_least_is_tiny();
    let (h, l, e) = (half_ulp(), least(), billionth());
    let t = value(threshold);
    let norm = value(evaluation.twist_norm);
    lemma_below_a_finite_number(square_sum(reading.twist@), threshold);
    lemma_norm_measures_every_component(reading, evaluation);
    lemma_values_in_order(evaluation.twist_norm, threshold);
    let all = squared_error(reading);
    let ha = h * all;
    let s = t * t;
    lemma_square(value(reading.twist@[0]));
    lemma_scaled_order(norm, norm, t);
    lemma_scaled_order(t, norm, t);
    lemma_commutes(norm, t);
    assert(norm * norm <= s);
    // h is far below a billionth.
    let n = TWO_53 as int as real;
    assert(n == 9007199254740992int as real);
    lemma_commutes(h, n);
    assert((100000int as real) * h <= e);
    lemma_scaled_order(all, (100000int as real) * h, e);
    lemma_commutes(all, (100000int as real) * h);
    lemma_associates(100000int as real, h, all);
    lemma_commutes(all, e);
    assert(all <= s + (26int as real) * ha + (32int as real) * l);
    lemma_scaled_order(h, all, (2int as real) * s + (64int as real) * l);
    lemma_distributes(h, (2int as real) * s, (64int as real) * l);
    lemma_exchanges(h, 2int as real, s);
    lemma_exchanges(h, 64int as real, l);
    lemma_scaled_order(l, h, 1int as real);
    lemma_one(l);
    lemma_commutes(l, h);
    lemma_square(t);
    lemma_scaled_order(s, (100000int as real) * h, e);
    lemma_commutes(s, (100000int as real) * h);
    lemma_associates(100000int as real, h, s);
    lemma_commutes(s, e);
    assert(all <= s + e * s + (100int as real) * l);
    let far = t + e * (t + e);
    lemma_square_of_difference(t, e * (t + e));
    lemma_square(e * (t + e));
    lemma_exchanges(t, e, t + e);
    lemma_distributes(t, t, e);
    lemma_distributes(e, s, t * e);
    lemma_scaled_order(e, 0int as real, t * e);
    lemma_scaled_order(t, 0int as real, e);
    lemma_zero(t);
    lemma_zero(e);
    let q = e * (t + e);
    let tiny = (1int as real) / (1000000000000000000int as real);
    assert(e * e == tiny) by (nonlinear_arith)
        requires
            e == (1int as real) / (1000000000int as real),
            tiny == (1int as real) / (1000000000000000000int as real),
    ;
    lemma_scaled_order(e, e, t + e);
    lemma_scaled_order(q, tiny, q);
    lemma_scaled_order(tiny, tiny, q);
    lemma_commutes(q, tiny);
    assert((100int as real) * l <= tiny * tiny);
    assert(far * far >= all);
    assert forall|i: int| 0 <= i < 6 implies size(value(#[trigger] reading.twist@[i])) <= far by {
        lemma_root_order(value(reading.twist@[i]), far);
    }
}

/// Whether a configuration has a pose error whose components are all below a threshold.
pub open spec fn reached<E>(evaluate: E, positions: Vec<Double>, threshold: real) -> bool where
    E: Fn(&Vec<Double>) -> PoseReading,
 {
    exists|reading: PoseReading|
        #[trigger] call_ensures(evaluate, (&positions,), reading) && close(reading, threshold)
}

/// A solve that ends before its steps run out ends where each of the six components of
/// the pose error is below the threshold.
pub proof fn lemma_early_end_is_close<E>(
    solve: IkSolve,
    config: DifferentialIkConfig,
    joint_names: Seq<String>,
    lower: Vec<Double>,
    upper: Vec<Double>,
    evaluate: E,
) where E: Fn(&Vec<Double>) -> PoseReading
    requires
        solve.accepts(config, joint_names, lower, upper),
        arrived(solve, evaluate),
        solve.trajectory@.len() != config.num_steps + 1,
        config.convergence_threshold.finite(),
        forall|q: &Vec<Double>, reading: PoseReading|
            call_ensures(evaluate, (q,), reading) ==> reading.twist@.len() == 6,
    ensures
        reached(evaluate, solve.trajectory@.last(), value(config.convergence_threshold)),
{
    let last = solve.trajectory@.last();
    let evaluation = choose|e: PoseEvaluation|
        #[trigger] evaluated_at(evaluate, last, e) && e.twist_norm.less(
            solve.convergence_threshold,
        );
    let reading = choose|reading: PoseReading|
        #[trigger] call_ensures(evaluate, (&last,), reading) && evaluation.evaluates(reading);
    lemma_below_the_threshold(reading, evaluation, config.convergence_threshold);
}

/// A solve takes a step only from where the components of the pose error, taken together,
/// are not below the threshold.
pub proof fn lemma_steps_start_far<E, S>(
    solve: IkSolve,
    config: DifferentialIkConfig,
    joint_names: Seq<String>,
    lower: Vec<Double>,
    upper: Vec<Double>,
    evaluate: E,
    answer: S,
    positions: Vec<Double>,
    s: int,
) where
    E: Fn(&Vec<Double>) -> PoseReading,
    S: Fn(&QuadraticProgram) -> Result<Vec<Double>, String>,

    requires
        solve.accepts(config, joint_names, lower, upper),
        steps_taken(solve, evaluate, answer, positions),
        1 <= s < solve.trajectory@.len(),
        config.convergence_threshold.finite(),
        (Double { bits: 0 }).at_most(config.convergence_threshold),
        forall|q: &Vec<Double>, reading: PoseReading|
            call_ensures(evaluate, (q,), reading) ==> reading.twist@.len() == 6 && square_sum(
                reading.twist@,
            ).root().finite(),
    ensures
        exists|reading: PoseReading|
            #[trigger] call_ensures(evaluate, (&solve.trajectory@[s - 1],), reading) && value(
                config.convergence_threshold,
            ) * value(config.convergence_threshold) <= squared_error(reading) + (26int as real) * (
            half_ulp() * squared_error(reading)) + (32int as real) * least(),
{
    let from = solve.trajectory@[s - 1];
    assert(step_taken(solve, evaluate, answer, from, solve.trajectory@[s]));
    let (evaluation, program, step) = choose|
        evaluation: PoseEvaluation,
        program: QuadraticProgram,
        step: Vec<Double>,
    |
        {
            &&& evaluated_at(evaluate, from, evaluation)
            &&& !evaluation.twist_norm.less(solve.convergence_threshold)
            &&& #[trigger] solve.models(program, from@, evaluation)
            &&& #[trigger] call_ensures(answer, (&program,), Ok::<Vec<Double>, String>(step))
        };
    let reading = choose|reading: PoseReading|
        #[trigger] call_ensures(evaluate, (&from,), reading) && evaluation.evaluates(reading);
    lemma_norm_measures_every_component(reading, evaluation);
    lemma_values_in_order(evaluation.twist_norm, config.convergence_threshold);
    lemma_value_of_zero(Double { bits: 0 });
    lemma_values_in_order(Double { bits: 0 }, config.convergence_threshold);
    let (norm, t) = (value(evaluation.twist_norm), value(config.convergence_threshold));
    lemma_scaled_order(t, t, norm);
    lemma_scaled_order(norm, t, norm);
    lemma_commutes(norm, t);
}

/// Whether a configuration ends a solve of the settings.
pub open spec fn ends_a_solve<E>(
    config: DifferentialIkConfig,
    joint_names: Seq<String>,
    lower: Vec<Double>,
    upper: Vec<Double>,
    evaluate: E,
    solve: IkSolve,
    end: Vec<Double>,
) -> bool where E: Fn(&Vec<Double>) -> PoseReading {
    &&& solve.accepts(config, joint_names, lower, upper)
    &&& arrived(solve, evaluate)
    &&& solve.trajectory@.last() == end
}

/// Where each pose is solved by differential IK, every configuration that comes out of the
/// sequence took as many steps as the given settings allow, or each of the six components
/// of its pose error is below the given threshold, whichever pose it is for.
pub proof fn lemma_every_pose_is_reached<S, E>(
    solve: S,
    settings: DifferentialIkConfig,
    seed: Vec<Double>,
    solved: Seq<Vec<Double>>,
    joint_names: Seq<String>,
    lower: Vec<Double>,
    upper: Vec<Double>,
    evaluate: E,
    k: int,
) where
    S: Fn(usize, &DifferentialIkConfig, &Vec<Double>) -> Result<Vec<Double>, String>,
    E: Fn(&Vec<Double>) -> PoseReading,

    requires
        solved_in_turn(solve, settings, seed, solved),
        0 <= k < solved.len() <= usize::MAX,
        settings.convergence_threshold.finite(),
        forall|q: &Vec<Double>, reading: PoseReading|
            call_ensures(evaluate, (q,), reading) ==> reading.twist@.len() == 6,
        forall|used: DifferentialIkConfig, start: Vec<Double>, end: Vec<Double>|
            #[trigger] call_ensures(
                solve,
                (k as usize, &used, &start),
                Ok::<Vec<Double>, String>(end),
            ) ==> exists|ik: IkSolve| #[trigger]
                ends_a_solve(used, joint_names, lower, upper, evaluate, ik, end),
    ensures
        exists|ik: IkSolve|
            {
                &&& #[trigger] ik.trajectory@.last() == solved[k]
                &&& ik.damping_factor == settings.damping_factor
                &&& ik.num_steps == settings.num_steps
                &&& k > 0 ==> ik.equalities.joints@.len() == 0
                &&& ik.trajectory@.len() == settings.num_steps + 1 || reached(
                    evaluate,
                    solved[k],
                    value(settings.convergence_threshold),
                )
            },
{
    let end = solved[k];
    let start = start_of(seed, solved, k);
    assert(pose_answers(solve, settings, k, start, Ok(end)));
    let used = choose|used: DifferentialIkConfig|
        #[trigger] are_settings_of(used, settings, k) && call_ensures(
            solve,
            (k as usize, &used, &start),
            Ok::<Vec<Double>, String>(end),
        );
    let ik = choose|ik: IkSolve| #[trigger]
        ends_a_solve(used, joint_names, lower, upper, evaluate, ik, end);
    if ik.trajectory@.len() != settings.num_steps + 1 {
        lemma_early_end_is_close(ik, used, joint_names, lower, upper, evaluate);
    }
    assert(ik.trajectory@.last() == solved[k]);
}

/// Every pose is solved under the given settings, from the configuration before it: only
/// the pinned joints are left out after the first pose.
pub proof fn lemma_settings_hold_for_every_pose<S>(
    solve: S,
    settings: DifferentialIkConfig,
    seed: Vec<Double>,
    solved: Seq<Vec<Double>>,
    k: int,
) where S: Fn(usize, &DifferentialIkConfig, &Vec<Double>) -> Result<Vec<Double>, String>
    requires
        solved_in_turn(solve, settings, seed, solved),
        0 <= k < solved.len(),
    ensures
        exists|used: DifferentialIkConfig, start: Vec<Double>|
            {
                &&& #[trigger] call_ensures(
                    solve,
                    (k as usize, &used, &start),
                    Ok::<Vec<Double>, String>(solved[k]),
                )
                &&& start == if k == 0 {
                    seed
                } else {
                    solved[k - 1]
                }
                &&& used.num_steps == settings.num_steps
                &&& used.damping_factor == settings.damping_factor
                &&& used.convergence_threshold == settings.convergence_threshold
                &&& k == 0 ==> used.equality_constraints@ == settings.equality_constraints@
                &&& k > 0 ==> used.equality_constraints@.len() == 0
            },
{
    let end = solved[k];
    let start = start_of(seed, solved, k);
    assert(pose_answers(solve, settings, k, start, Ok(end)));
    let used = choose|used: DifferentialIkConfig|
        #[trigger] are_settings_of(used, settings, k) && call_ensures(
            solve,
            (k as usize, &used, &start),
            Ok::<Vec<Double>, String>(end),
        );
    assert(call_ensures(solve, (k as usize, &used, &start), Ok::<Vec<Double>, String>(solved[k])));
}

/// A sequence of solves fails with the message of the first pose that fails: that pose is
/// solved under the given settings, from the configuration before it, and all poses before
/// it are solved.
pub proof fn lemma_first_failure_is_reported<S>(
    solve: S,
    settings: DifferentialIkConfig,
    seed: Vec<Double>,
    count: nat,
    message: String,
) where S: Fn(usize, &DifferentialIkConfig, &Vec<Double>) -> Result<Vec<Double>, String>
    requires
        pose_fails(solve, settings, seed, count, message),
    ensures
        exists|solved: Seq<Vec<Double>>, used: DifferentialIkConfig, start: Vec<Double>|
            {
                let k = solved.len() as int;
                &&& k < count
                &&& #[trigger] solved_in_turn(solve, settings, seed, solved)
                &&& #[trigger] call_ensures(
                    solve,
                    (solved.len() as usize, &used, &start),
                    Err::<Vec<Double>, String>(message),
                )
                &&& start == if k == 0 {
                    seed
                } else {
                    solved[k - 1]
                }
                &&& used.num_steps == settings.num_steps
                &&& used.damping_factor == settings.damping_factor
                &&& used.convergence_threshold == settings.convergence_threshold
                &&& k == 0 ==> used.equality_constraints@ == settings.equality_constraints@
                &&& k > 0 ==> used.equality_constraints@.len() == 0
            },
{
    let solved = choose|solved: Seq<Vec<Double>>|
        {
            &&& solved.len() < count
            &&& #[trigger] solved_in_turn(solve, settings, seed, solved)
            &&& pose_answers(
                solve,
                settings,
                solved.len() as int,
                start_of(seed, solved, solved.len() as int),
                Err(message),
            )
        };
    let k = solved.len() as int;
    let start = start_of(seed, solved, k);
    let used = choose|used: DifferentialIkConfig|
        #[trigger] are_settings_of(used, settings, k) && call_ensures(
            solve,
            (k as usize, &used, &start),
            Err::<Vec<Double>, String>(message),
        );
    assert(solved_in_turn(solve, settings, seed, solved));
    assert(call_ensures(
        solve,
        (solved.len() as usize, &used, &start),
        Err::<Vec<Double>, String>(message),
    ));
}

} // verus!
