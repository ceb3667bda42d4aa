//! The matrices of a damped step: products of a Jacobian with the square of the damping on
//! the diagonal.

use crate::active_set::LeastSquares;
use crate::cost::identity_rows;
use crate::double::Double;
use crate::error::{
    half_ulp, least, lemma_distributes, lemma_half_ulp, lemma_product_error, lemma_scaled_order,
    lemma_sum_error, lemma_value_of_zero, size, value,
};
use crate::finiteness::{lemma_parts_of_product, lemma_parts_of_sum};
use crate::kinematics::{damped_normal, IkSolve, PoseEvaluation};
use crate::linearization::PoseReading;
use crate::products::{row_gram, row_terms};
use crate::qp::QuadraticProgram;
use crate::quotients::lemma_least_is_tiny;
use crate::reals::{
    lemma_associates, lemma_commutes, lemma_exchanges, lemma_one, lemma_square, lemma_zero,
};
use crate::slip::{lemma_value_of_negated, lemma_value_of_one};
use crate::sums::{
    added, column_products, image_products, lemma_finite_terms, lemma_gram_near,
    lemma_product_rounds, lemma_total_near, lemma_transposed_image_near, rounds, sum_rounding,
};
use vstd::prelude::*;

verus! {

/// What the damping adds to an entry: its square on the diagonal.
pub open spec fn damping_at(damping: real, r: int, c: int) -> real {
    if r == c {
        damping * damping
    } else {
        0int as real
    }
}

/// An entry of a damped matrix is that of the matrix, with the square of the damping on the
/// diagonal, up to rounding.
pub proof fn lemma_damped_near(
    normal: Seq<Seq<Double>>,
    damping: Double,
    n: nat,
    r: int,
    c: int,
)
    requires
        0 <= r < n,
        0 <= c < n,
        damped_normal(normal, damping, n)[r][c].finite(),
    ensures
        normal[r][c].finite(),
        ({
            let square = damping_at(value(damping), r, c);
            size(value(damped_normal(normal, damping, n)[r][c]) - (value(normal[r][c]) + square))
                <= (5int as real) * (half_ulp() * (size(value(normal[r][c])) + square)) + (
            6int as real) * least()
        }),
{
    lemma_half_ulp();
    lemma_least_is_tiny();
    lemma_value_of_one();
    lemma_value_of_zero(Double { bits: 0 });
    let (h, l, one) = (half_ulp(), least(), 1int as real);
    let square = damping.product(damping);
    let unit = identity_rows(n)[r][c];
    let part = square.product(unit);
    lemma_parts_of_sum(normal[r][c], part);
    lemma_parts_of_product(square, unit);
    lemma_product_error(damping, damping);
    lemma_product_error(square, unit);
    lemma_sum_error(normal[r][c], part);
    let (d, s, a) = (value(damping), value(square), value(normal[r][c]));
    lemma_square(d);
    lemma_one(s);
    lemma_zero(s);
    lemma_zero(h);
    let exact = damping_at(d, r, c);
    let all = size(a) + exact;
    let ha = h * all;
    lemma_scaled_order(h, exact, all);
    lemma_scaled_order(h, 0int as real, exact);
    lemma_scaled_order(h, 0int as real, all);
    lemma_scaled_order(all, (10000int as real) * h, one);
    lemma_one(all);
    lemma_commutes(all, (10000int as real) * h);
    lemma_associates(10000int as real, h, all);
    lemma_scaled_order(h, size(s), d * d + h * (d * d) + l);
    lemma_distributes(h, d * d + h * (d * d), l);
    lemma_distributes(h, d * d, h * (d * d));
    lemma_scaled_order(h, 0int as real, d * d);
    lemma_scaled_order(h * (d * d), h, one);
    lemma_one(h * (d * d));
    lemma_commutes(h * (d * d), h);
    lemma_scaled_order(l, h, one);
    lemma_one(l);
    lemma_commutes(l, h);
    assert(size(value(part) - exact) <= (3int as real) * (h * exact) + (3int as real) * l);
    lemma_scaled_order(h, size(a + value(part)), (2int as real) * all + (3int as real) * l);
    lemma_distributes(h, (2int as real) * all, (3int as real) * l);
    lemma_exchanges(h, 2int as real, all);
    lemma_exchanges(h, 3int as real, l);
    lemma_last_rounding(
        value(damped_normal(normal, damping, n)[r][c]),
        a,
        value(part),
        exact,
        ha,
        h * size(a + value(part)),
        l,
    );
}

/// The rounding of a part and that of the sum.
proof fn lemma_last_rounding(
    sum: real,
    a: real,
    part: real,
    exact: real,
    rounding: real,
    last: real,
    l: real,
)
    requires
        size(part - exact) <= (3int as real) * rounding + (3int as real) * l,
        size(sum - (a + part)) <= last,
        last <= (2int as real) * rounding + (3int as real) * l,
        l >= 0int as real,
    ensures
        size(sum - (a + exact)) <= (5int as real) * rounding + (6int as real) * l,
{
}

/// The products of the entries of two rows.
pub open spec fn row_products(a: Seq<Double>, b: Seq<Double>) -> Seq<real> {
    Seq::new(a.len(), |c: int| value(a[c]) * value(b[c]))
}

/// An entry of JJᵀ is the inner product of two rows, up to rounding.
pub proof fn lemma_row_gram_near(rows: Seq<Seq<Double>>, a: int, b: int)
    requires
        0 <= a < rows.len(),
        0 <= b < rows.len(),
        rows[a].len() == rows[b].len(),
        rows[a].len() <= 1000000,
        row_gram(rows)[a][b].finite(),
    ensures
        size(
            value(row_gram(rows)[a][b]) - added(row_products(rows[a], rows[b]), rows[a].len()),
        ) <= sum_rounding(row_products(rows[a], rows[b]), rows[a].len()),
{
    let products = row_terms(rows[a], rows[b]);
    let terms = row_products(rows[a], rows[b]);
    assert forall|i: int| 0 <= i < products.len() implies rounds(
        #[trigger] products[i],
        terms[i],
    ) by {
        lemma_finite_terms(products, i);
        lemma_product_rounds(rows[a][i], rows[b][i]);
    }
    lemma_total_near(products, terms);
}

/// The program of an inverse-kinematics step is that of damped least squares: its quadratic
/// term is JᵀJ with the square of the damping on the diagonal, and its linear term is the
/// opposite of Jᵀν, up to rounding.
pub proof fn lemma_step_is_damped_least_squares(
    solve: IkSolve,
    program: QuadraticProgram,
    positions: Seq<Double>,
    reading: PoseReading,
    evaluation: PoseEvaluation,
    r: int,
    c: int,
)
    requires
        solve.models(program, positions, evaluation),
        reading.shaped(solve.n()),
        evaluation.evaluates(reading),
        0 <= r < solve.n(),
        0 <= c < solve.n(),
        program.p@[r][c].finite(),
        program.q@[r].finite(),
    ensures
        ({
            let columns = column_products(reading.jacobian@, r, c);
            let square = damping_at(value(solve.damping_factor), r, c);
            let normal = value(evaluation.normal@[r][c]);
            let pull = image_products(reading.jacobian@, reading.twist@, r);
            &&& size(normal - added(columns, 6)) <= sum_rounding(columns, 6)
            &&& size(value(program.p@[r][c]) - (normal + square)) <= (5int as real) * (half_ulp()
                * (size(normal) + square)) + (6int as real) * least()
            &&& size(value(program.q@[r]) + added(pull, 6)) <= sum_rounding(pull, 6)
        }),
{
    lemma_damped_near(evaluation.normal@, solve.damping_factor, solve.n(), r, c);
    lemma_gram_near(reading.jacobian@, solve.n(), r, c);
    lemma_value_of_negated(evaluation.gradient@[r]);
    lemma_transposed_image_near(reading.jacobian@, solve.n(), reading.twist@, r);
}

/// The matrix of a step without constraints is JJᵀ with the square of the damping on the
/// diagonal, up to rounding.
pub proof fn lemma_free_matrix_near(problem: LeastSquares, r: int, c: int)
    requires
        problem.jacobian.well_formed(),
        problem.jacobian.width() <= 1000000,
        0 <= r < problem.jacobian@.len(),
        0 <= c < problem.jacobian@.len(),
        problem.jacobian@[r].len() == problem.jacobian.width(),
        problem.jacobian@[c].len() == problem.jacobian.width(),
        problem.free_matrix()[r][c].finite(),
    ensures
        ({
            let rows = problem.jacobian@;
            let terms = row_products(rows[r], rows[c]);
            let entry = value(row_gram(rows)[r][c]);
            let square = damping_at(value(problem.damping), r, c);
            &&& size(entry - added(terms, rows[r].len())) <= sum_rounding(terms, rows[r].len())
            &&& size(value(problem.free_matrix()[r][c]) - (entry + square)) <= (5int as real) * (
            half_ulp() * (size(entry) + square)) + (6int as real) * least()
        }),
{
    let rows = problem.jacobian@;
    lemma_damped_near(row_gram(rows), problem.damping, rows.len(), r, c);
    lemma_row_gram_near(rows, r, c);
}

} // verus!
