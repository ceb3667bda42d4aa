//! The step without constraints: solving with JJᵀ + λ²I and multiplying by Jᵀ gives the step
//! that JᵀJ + λ²I asks for.

use crate::active_set::LeastSquares;
use crate::error::{lemma_distributes, value};
use crate::reals::{lemma_associates, lemma_commutes, lemma_exchanges, lemma_zero};
use vstd::prelude::*;

verus! {

/// The sum of the first `count` values.
pub open spec fn sum_upto(f: spec_fn(int) -> real, count: nat) -> real
    decreases count,
{
    if count == 0 {
        0int as real
    } else {
        sum_upto(f, (count - 1) as nat) + f(count - 1)
    }
}

proof fn lemma_same_sums(f: spec_fn(int) -> real, g: spec_fn(int) -> real, count: nat)
    requires
        forall|i: int| 0 <= i < count ==> #[trigger] f(i) == g(i),
    ensures
        sum_upto(f, count) == sum_upto(g, count),
    decreases count,
{
    if count > 0 {
        lemma_same_sums(f, g, (count - 1) as nat);
        assert(f(count - 1) == g(count - 1));
    }
}

proof fn lemma_sums_add(
    f: spec_fn(int) -> real,
    g: spec_fn(int) -> real,
    sum: spec_fn(int) -> real,
    count: nat,
)
    requires
        forall|i: int| 0 <= i < count ==> #[trigger] sum(i) == f(i) + g(i),
    ensures
        sum_upto(sum, count) == sum_upto(f, count) + sum_upto(g, count),
    decreases count,
{
    if count > 0 {
        lemma_sums_add(f, g, sum, (count - 1) as nat);
        assert(sum(count - 1) == f(count - 1) + g(count - 1));
    }
}

proof fn lemma_sum_scales(
    f: spec_fn(int) -> real,
    scaled: spec_fn(int) -> real,
    factor: real,
    count: nat,
)
    requires
        forall|i: int| 0 <= i < count ==> #[trigger] scaled(i) == factor * f(i),
    ensures
        sum_upto(scaled, count) == factor * sum_upto(f, count),
    decreases count,
{
    lemma_zero(factor);
    if count > 0 {
        lemma_sum_scales(f, scaled, factor, (count - 1) as nat);
        assert(scaled(count - 1) == factor * f(count - 1));
        lemma_distributes(factor, sum_upto(f, (count - 1) as nat), f(count - 1));
    }
}

/// The sums over the rows of a table.
pub open spec fn row_sums(f: spec_fn(int, int) -> real, columns: nat) -> spec_fn(int) -> real {
    |i: int| sum_upto(|j: int| f(i, j), columns)
}

/// The sums over the columns of a table.
pub open spec fn column_sums(f: spec_fn(int, int) -> real, rows: nat) -> spec_fn(int) -> real {
    |j: int| sum_upto(|i: int| f(i, j), rows)
}

/// A table has one sum, by rows or by columns.
proof fn lemma_sums_exchange(f: spec_fn(int, int) -> real, rows: nat, columns: nat)
    ensures
        sum_upto(row_sums(f, columns), rows) == sum_upto(column_sums(f, rows), columns),
    decreases rows,
{
    if rows == 0 {
        lemma_sums_add(
            column_sums(f, 0),
            column_sums(f, 0),
            column_sums(f, 0),
            columns,
        );
    } else {
        let k = (rows - 1) as nat;
        lemma_sums_exchange(f, k, columns);
        let last = |j: int| f(k as int, j);
        assert forall|j: int| 0 <= j < columns implies #[trigger] column_sums(f, rows)(j)
            == column_sums(f, k)(j) + last(j) by {}
        lemma_sums_add(column_sums(f, k), last, column_sums(f, rows), columns);
    }
}

/// The image of a vector under a matrix's transpose.
pub open spec fn image_of(
    jacobian: spec_fn(int, int) -> real,
    rows: nat,
    y: spec_fn(int) -> real,
) -> spec_fn(int) -> real {
    |c: int| sum_upto(|a: int| jacobian(a, c) * y(a), rows)
}

/// An entry of JJᵀ.
pub open spec fn rows_multiplied(
    jacobian: spec_fn(int, int) -> real,
    columns: nat,
    a: int,
    b: int,
) -> real {
    sum_upto(|c: int| jacobian(a, c) * jacobian(b, c), columns)
}

/// An entry of JᵀJ.
pub open spec fn columns_multiplied(
    jacobian: spec_fn(int, int) -> real,
    rows: nat,
    c: int,
    e: int,
) -> real {
    sum_upto(|a: int| jacobian(a, c) * jacobian(a, e), rows)
}

/// A row of JJᵀ times y is a row of J times Jᵀy.
proof fn lemma_row_of_image(
    jacobian: spec_fn(int, int) -> real,
    rows: nat,
    columns: nat,
    y: spec_fn(int) -> real,
    a: int,
)
    ensures
        sum_upto(|b: int| rows_multiplied(jacobian, columns, a, b) * y(b), rows) == sum_upto(
            |e: int| jacobian(a, e) * image_of(jacobian, rows, y)(e),
            columns,
        ),
{
    let table = |b: int, e: int| jacobian(a, e) * (jacobian(b, e) * y(b));
    let left = |b: int| rows_multiplied(jacobian, columns, a, b) * y(b);
    let right = |e: int| jacobian(a, e) * image_of(jacobian, rows, y)(e);
    assert forall|b: int| 0 <= b < rows implies #[trigger] left(b) == row_sums(table, columns)(
        b,
    ) by {
        let product = |c: int| jacobian(a, c) * jacobian(b, c);
        let row = |e: int| table(b, e);
        assert forall|c: int| 0 <= c < columns implies #[trigger] row(c) == y(b) * product(c) by {
            lemma_associates(jacobian(a, c), jacobian(b, c), y(b));
            lemma_commutes(y(b), product(c));
        }
        lemma_sum_scales(product, row, y(b), columns);
        lemma_commutes(y(b), sum_upto(product, columns));
    }
    lemma_same_sums(left, row_sums(table, columns), rows);
    lemma_sums_exchange(table, rows, columns);
    assert forall|e: int| 0 <= e < columns implies #[trigger] right(e) == column_sums(table, rows)(
        e,
    ) by {
        let part = |b: int| jacobian(b, e) * y(b);
        let column = |b: int| table(b, e);
        assert forall|b: int| 0 <= b < rows implies #[trigger] column(b) == jacobian(a, e) * part(
            b,
        ) by {}
        lemma_sum_scales(part, column, jacobian(a, e), rows);
    }
    lemma_same_sums(right, column_sums(table, rows), columns);
}

/// Where y solves (JJᵀ + d·I)·y = ν, Jᵀy solves (JᵀJ + d·I)·x = Jᵀν.
proof fn lemma_image_solves_the_system(
    jacobian: spec_fn(int, int) -> real,
    rows: nat,
    columns: nat,
    d: real,
    y: spec_fn(int) -> real,
    twist: spec_fn(int) -> real,
    c: int,
)
    requires
        forall|a: int|
            0 <= a < rows ==> #[trigger] twist(a) == sum_upto(
                |b: int| rows_multiplied(jacobian, columns, a, b) * y(b),
                rows,
            ) + d * y(a),
        0 <= c < columns,
    ensures
        ({
            let x = image_of(jacobian, rows, y);
            sum_upto(|e: int| columns_multiplied(jacobian, rows, c, e) * x(e), columns) + d * x(c)
                == image_of(jacobian, rows, twist)(c)
        }),
{
    let x = image_of(jacobian, rows, y);
    let table = |e: int, a: int| jacobian(a, c) * (jacobian(a, e) * x(e));
    let left = |e: int| columns_multiplied(jacobian, rows, c, e) * x(e);
    assert forall|e: int| 0 <= e < columns implies #[trigger] left(e) == row_sums(table, rows)(
        e,
    ) by {
        let product = |a: int| jacobian(a, c) * jacobian(a, e);
        let row = |a: int| table(e, a);
        assert forall|a: int| 0 <= a < rows implies #[trigger] row(a) == x(e) * product(a) by {
            lemma_associates(jacobian(a, c), jacobian(a, e), x(e));
            lemma_commutes(x(e), product(a));
        }
        lemma_sum_scales(product, row, x(e), rows);
        lemma_commutes(x(e), sum_upto(product, rows));
    }
    lemma_same_sums(left, row_sums(table, rows), columns);
    lemma_sums_exchange(table, columns, rows);
    let turned = column_sums(table, columns);
    let damped = |a: int| jacobian(a, c) * (d * y(a));
    let pulled = |a: int| jacobian(a, c) * twist(a);
    assert forall|a: int| 0 <= a < rows implies #[trigger] pulled(a) == turned(a) + damped(a) by {
        let part = |e: int| jacobian(a, e) * x(e);
        let column = |e: int| table(e, a);
        assert forall|e: int| 0 <= e < columns implies #[trigger] column(e) == jacobian(a, c)
            * part(e) by {}
        lemma_sum_scales(part, column, jacobian(a, c), columns);
        lemma_row_of_image(jacobian, rows, columns, y, a);
        lemma_distributes(jacobian(a, c), sum_upto(part, columns), d * y(a));
    }
    lemma_sums_add(turned, damped, pulled, rows);
    let plain = |a: int| jacobian(a, c) * y(a);
    assert forall|a: int| 0 <= a < rows implies #[trigger] damped(a) == d * plain(a) by {
        lemma_exchanges(jacobian(a, c), d, y(a));
    }
    lemma_sum_scales(plain, damped, d, rows);
}

/// The Jacobian of a step, exactly.
pub open spec fn exact_jacobian(problem: LeastSquares) -> spec_fn(int, int) -> real {
    |a: int, c: int| value(problem.jacobian@[a][c])
}

/// The step without constraints is the one that the constrained system would give with no
/// constraint in it: where y solves (JJᵀ + λ²I)·y = ν, the step Jᵀy solves
/// (JᵀJ + λ²I)·x = Jᵀν, without any rounding.
pub proof fn lemma_free_step_solves_the_system(
    problem: LeastSquares,
    y: spec_fn(int) -> real,
    c: int,
)
    requires
        forall|a: int|
            0 <= a < problem.jacobian@.len() ==> value(#[trigger] problem.twist@[a]) == sum_upto(
                |b: int|
                    rows_multiplied(
                        exact_jacobian(problem),
                        problem.jacobian.width(),
                        a,
                        b,
                    ) * y(b),
                problem.jacobian@.len(),
            ) + (value(problem.damping) * value(problem.damping)) * y(a),
        0 <= c < problem.jacobian.width(),
    ensures
        ({
            let jacobian = exact_jacobian(problem);
            let (m, n) = (problem.jacobian@.len(), problem.jacobian.width());
            let x = image_of(jacobian, m, y);
            sum_upto(|e: int| columns_multiplied(jacobian, m, c, e) * x(e), n) + (value(
                problem.damping,
            ) * value(problem.damping)) * x(c) == image_of(
                jacobian,
                m,
                |a: int| value(problem.twist@[a]),
            )(c)
        }),
{
    lemma_image_solves_the_system(
        exact_jacobian(problem),
        problem.jacobian@.len(),
        problem.jacobian.width(),
        value(problem.damping) * value(problem.damping),
        y,
        |a: int| value(problem.twist@[a]),
        c,
    );
}

} // verus!
