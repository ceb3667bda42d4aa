//! Products of a matrix with itself and with a vector. Each entry is a sum of
//! products, added up in order.

use crate::double::Double;
use crate::matrix::Matrix;
use crate::series::{total, total_of};
use vstd::prelude::*;

verus! {

/// The terms of the product of two columns.
pub open spec fn column_terms(rows: Seq<Seq<Double>>, a: int, b: int) -> Seq<Double> {
    Seq::new(rows.len(), |r: int| rows[r][a].product(rows[r][b]))
}

/// The terms of the product of two rows.
pub open spec fn row_terms(a: Seq<Double>, b: Seq<Double>) -> Seq<Double> {
    Seq::new(a.len(), |c: int| a[c].product(b[c]))
}

/// The product JᵀJ of a matrix of `n` columns.
pub open spec fn gram(rows: Seq<Seq<Double>>, n: nat) -> Seq<Seq<Double>> {
    Seq::new(n, |a: int| Seq::new(n, |b: int| total(column_terms(rows, a, b))))
}

/// The product JJᵀ.
pub open spec fn row_gram(rows: Seq<Seq<Double>>) -> Seq<Seq<Double>> {
    Seq::new(
        rows.len(),
        |a: int| Seq::new(rows.len(), |b: int| total(row_terms(rows[a], rows[b]))),
    )
}

/// The terms of an entry of Jᵀv.
pub open spec fn image_terms(rows: Seq<Seq<Double>>, v: Seq<Double>, column: int) -> Seq<Double> {
    Seq::new(rows.len(), |r: int| rows[r][column].product(v[r]))
}

/// The product Jᵀv of a matrix of `n` columns.
pub open spec fn transposed_image(rows: Seq<Seq<Double>>, n: nat, v: Seq<Double>) -> Seq<Double> {
    Seq::new(n, |c: int| total(image_terms(rows, v, c)))
}

/// The product of two columns.
fn column_product(matrix: &Matrix, a: usize, b: usize) -> (result: Double)
    requires
        matrix.well_formed(),
        a < matrix.width(),
        b < matrix.width(),
    ensures
        result == total(column_terms(matrix@, a as int, b as int)),
{
    let mut terms: Vec<Double> = Vec::new();
    let mut r: usize = 0;
    while r < matrix.nrows()
        invariant
            r <= matrix@.len(),
            matrix.well_formed(),
            a < matrix.width(),
            b < matrix.width(),
            terms@.len() == r,
            forall|i: int|
                0 <= i < r ==> #[trigger] terms@[i] == column_terms(
                    matrix@,
                    a as int,
                    b as int,
                )[i],
        decreases matrix@.len() - r,
    {
        terms.push(matrix.get(r, a).times(matrix.get(r, b)));
        r = r + 1;
    }
    assert(terms@ =~= column_terms(matrix@, a as int, b as int));
    total_of(&terms)
}

/// The product of two rows.
fn row_product(matrix: &Matrix, a: usize, b: usize) -> (result: Double)
    requires
        matrix.well_formed(),
        a < matrix@.len(),
        b < matrix@.len(),
    ensures
        result == total(row_terms(matrix@[a as int], matrix@[b as int])),
{
    let mut terms: Vec<Double> = Vec::new();
    let mut c: usize = 0;
    while c < matrix.ncols()
        invariant
            c <= matrix.width(),
            matrix.well_formed(),
            a < matrix@.len(),
            b < matrix@.len(),
            terms@.len() == c,
            forall|i: int|
                0 <= i < c ==> #[trigger] terms@[i] == matrix@[a as int][i].product(
                    matrix@[b as int][i],
                ),
        decreases matrix.width() - c,
    {
        terms.push(matrix.get(a, c).times(matrix.get(b, c)));
        c = c + 1;
    }
    assert(matrix@[a as int].len() == matrix.width());
    assert(terms@ =~= row_terms(matrix@[a as int], matrix@[b as int]));
    total_of(&terms)
}

/// The product JᵀJ.
pub fn normal_matrix(matrix: &Matrix) -> (result: Matrix)
    requires
        matrix.well_formed(),
    ensures
        result.well_formed(),
        result@ == gram(matrix@, matrix.width()),
        result.width() == matrix.width(),
{
    let n: usize = matrix.ncols();
    let ghost goal = gram(matrix@, n as nat);
    let mut rows: Vec<Vec<Double>> = Vec::new();
    let mut a: usize = 0;
    while a < n
        invariant
            a <= n,
            n == matrix.width(),
            matrix.well_formed(),
            goal == gram(matrix@, n as nat),
            rows@.len() == a,
            forall|i: int| 0 <= i < a ==> (#[trigger] rows@[i])@ =~= goal[i],
        decreases n - a,
    {
        let mut row: Vec<Double> = Vec::new();
        let mut b: usize = 0;
        while b < n
            invariant
                b <= n,
                a < n,
                n == matrix.width(),
                matrix.well_formed(),
                goal == gram(matrix@, n as nat),
                row@.len() == b,
                forall|j: int| 0 <= j < b ==> #[trigger] row@[j] == goal[a as int][j],
            decreases n - b,
        {
            row.push(column_product(matrix, a, b));
            b = b + 1;
        }
        rows.push(row);
        a = a + 1;
    }
    let result: Matrix = Matrix::from_rows(rows, n);
    assert(result@ =~= goal);
    result
}

/// The product JJᵀ.
pub fn row_normal_matrix(matrix: &Matrix) -> (result: Matrix)
    requires
        matrix.well_formed(),
    ensures
        result.well_formed(),
        result@ == row_gram(matrix@),
        result.width() == matrix@.len(),
{
    let m: usize = matrix.nrows();
    let ghost goal = row_gram(matrix@);
    let mut rows: Vec<Vec<Double>> = Vec::new();
    let mut a: usize = 0;
    while a < m
        invariant
            a <= m,
            m == matrix@.len(),
            matrix.well_formed(),
            goal == row_gram(matrix@),
            rows@.len() == a,
            forall|i: int| 0 <= i < a ==> (#[trigger] rows@[i])@ =~= goal[i],
        decreases m - a,
    {
        let mut row: Vec<Double> = Vec::new();
        let mut b: usize = 0;
        while b < m
            invariant
                b <= m,
                a < m,
                m == matrix@.len(),
                matrix.well_formed(),
                goal == row_gram(matrix@),
                row@.len() == b,
                forall|j: int| 0 <= j < b ==> #[trigger] row@[j] == goal[a as int][j],
            decreases m - b,
        {
            row.push(row_product(matrix, a, b));
            b = b + 1;
        }
        rows.push(row);
        a = a + 1;
    }
    let result: Matrix = Matrix::from_rows(rows, m);
    assert(result@ =~= goal);
    result
}

/// The product Jᵀv.
pub fn transposed_times(matrix: &Matrix, v: &Vec<Double>) -> (result: Vec<Double>)
    requires
        matrix.well_formed(),
        v@.len() == matrix@.len(),
    ensures
        result@ == transposed_image(matrix@, matrix.width(), v@),
{
    let n: usize = matrix.ncols();
    let m: usize = matrix.nrows();
    let mut result: Vec<Double> = Vec::new();
    let mut c: usize = 0;
    while c < n
        invariant
            c <= n,
            n == matrix.width(),
            m == matrix@.len(),
            matrix.well_formed(),
            v@.len() == m,
            result@.len() == c,
            forall|j: int|
                0 <= j < c ==> #[trigger] result@[j] == transposed_image(
                    matrix@,
                    n as nat,
                    v@,
                )[j],
        decreases n - c,
    {
        let mut terms: Vec<Double> = Vec::new();
        let mut r: usize = 0;
        while r < m
            invariant
                r <= m,
                c < n,
                n == matrix.width(),
                m == matrix@.len(),
                matrix.well_formed(),
                v@.len() == m,
                terms@.len() == r,
                forall|i: int|
                    0 <= i < r ==> #[trigger] terms@[i] == image_terms(matrix@, v@, c as int)[i],
            decreases m - r,
        {
            terms.push(matrix.get(r, c).times(v[r]));
            r = r + 1;
        }
        assert(terms@ =~= image_terms(matrix@, v@, c as int));
        result.push(total_of(&terms));
        c = c + 1;
    }
    assert(result@ =~= transposed_image(matrix@, n as nat, v@));
    result
}

} // verus!
