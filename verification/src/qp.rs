//! Dense convex quadratic programs
//!   min ½ xᵀPx + qᵀx   s.t.   A_eq·x = b_eq,   A_in·x ≤ b_in,   lb ≤ x ≤ ub
//! in the form that a conic solver takes: sparse matrices, one stacked
//! constraint system, a zero cone and a nonnegative cone.

use crate::double::{Double, MINUS_ONE, ONE};
use crate::matrix::{copied, zero_row, Matrix};
use vstd::prelude::*;
use vstd::string::*;

verus! {

/// A sparse matrix in compressed-column form: the row numbers and the values of
/// column `c` stand at `colptr[c]..colptr[c + 1]`.
pub struct Csc {
    pub nrows: usize,
    pub ncols: usize,
    pub colptr: Vec<usize>,
    pub rowval: Vec<usize>,
    pub nzval: Vec<Double>,
}

/// The nonzero entries of a column among the first `count` rows, top to bottom,
/// each with its row.
pub open spec fn column_entries(rows: Seq<Seq<Double>>, column: int, count: nat) -> Seq<
    (nat, Double),
>
    decreases count,
{
    if count == 0 {
        Seq::empty()
    } else {
        let above = column_entries(rows, column, (count - 1) as nat);
        let value = rows[count - 1][column];
        if value.zero() {
            above
        } else {
            above.push(((count - 1) as nat, value))
        }
    }
}

/// The nonzero entries of the first `count` columns, left to right.
pub open spec fn leading_entries(rows: Seq<Seq<Double>>, count: nat) -> Seq<(nat, Double)>
    decreases count,
{
    if count == 0 {
        Seq::empty()
    } else {
        leading_entries(rows, (count - 1) as nat) + column_entries(rows, count - 1, rows.len())
    }
}

impl Csc {
    /// Whether this is the compressed-column form of a dense matrix.
    pub open spec fn encodes(&self, rows: Seq<Seq<Double>>, ncols: nat) -> bool {
        &&& self.nrows == rows.len()
        &&& self.ncols == ncols
        &&& self.colptr@.len() == ncols + 1
        &&& forall|c: int|
            0 <= c <= ncols ==> #[trigger] self.colptr@[c] == leading_entries(rows, c as nat).len()
        &&& self.rowval@.len() == leading_entries(rows, ncols).len()
        &&& self.nzval@.len() == leading_entries(rows, ncols).len()
        &&& forall|k: int|
            0 <= k < self.rowval@.len() ==> #[trigger] self.rowval@[k] == leading_entries(
                rows,
                ncols,
            )[k].0
        &&& forall|k: int|
            0 <= k < self.nzval@.len() ==> #[trigger] self.nzval@[k] == leading_entries(
                rows,
                ncols,
            )[k].1
    }
}

/// Dense to compressed-column form, dropping exact zeros.
pub fn to_csc(dense: &Matrix) -> (result: Csc)
    requires
        dense.well_formed(),
    ensures
        result.encodes(dense@, dense.width()),
{
    let nrows: usize = dense.nrows();
    let ncols: usize = dense.ncols();
    let mut colptr: Vec<usize> = Vec::new();
    let mut rowval: Vec<usize> = Vec::new();
    let mut nzval: Vec<Double> = Vec::new();
    colptr.push(0);
    let mut c: usize = 0;
    while c < ncols
        invariant
            dense.well_formed(),
            nrows == dense@.len(),
            ncols == dense.width(),
            c <= ncols,
            colptr@.len() == c + 1,
            forall|i: int|
                0 <= i <= c ==> #[trigger] colptr@[i] == leading_entries(dense@, i as nat).len(),
            rowval@.len() == leading_entries(dense@, c as nat).len(),
            nzval@.len() == rowval@.len(),
            forall|k: int|
                0 <= k < rowval@.len() ==> #[trigger] rowval@[k] == leading_entries(
                    dense@,
                    c as nat,
                )[k].0,
            forall|k: int|
                0 <= k < nzval@.len() ==> #[trigger] nzval@[k] == leading_entries(
                    dense@,
                    c as nat,
                )[k].1,
        decreases ncols - c,
    {
        let ghost before = leading_entries(dense@, c as nat);
        let mut r: usize = 0;
        assert(before + column_entries(dense@, c as int, 0) =~= before);
        while r < nrows
            invariant
                dense.well_formed(),
                nrows == dense@.len(),
                ncols == dense.width(),
                c < ncols,
                r <= nrows,
                before == leading_entries(dense@, c as nat),
                rowval@.len() == (before + column_entries(dense@, c as int, r as nat)).len(),
                nzval@.len() == rowval@.len(),
                forall|k: int|
                    0 <= k < rowval@.len() ==> #[trigger] rowval@[k] == (before + column_entries(
                        dense@,
                        c as int,
                        r as nat,
                    ))[k].0,
                forall|k: int|
                    0 <= k < nzval@.len() ==> #[trigger] nzval@[k] == (before + column_entries(
                        dense@,
                        c as int,
                        r as nat,
                    ))[k].1,
            decreases nrows - r,
        {
            let value: Double = dense.get(r, c);
            if !value.is_zero() {
                rowval.push(r);
                nzval.push(value);
            }
            r = r + 1;
        }
        c = c + 1;
        colptr.push(rowval.len());
    }
    Csc { nrows, ncols, colptr, rowval, nzval }
}

/// What a column's entries are: the nonzero values, each with its row, in
/// ascending order of the rows.
proof fn lemma_column_entries(rows: Seq<Seq<Double>>, column: int, count: nat)
    ensures
        ({
            let entries = column_entries(rows, column, count);
            &&& forall|k: int|
                0 <= k < entries.len() ==> (#[trigger] entries[k]).0 < count && entries[k].1
                    == rows[entries[k].0 as int][column] && !entries[k].1.zero()
            &&& forall|k: int, l: int|
                0 <= k < l < entries.len() ==> (#[trigger] entries[k]).0 < (
                #[trigger] entries[l]).0
            &&& forall|r: int|
                0 <= r < count && !(#[trigger] rows[r])[column].zero() ==> entries.contains(
                    (r as nat, rows[r][column]),
                )
        }),
    decreases count,
{
    if count > 0 {
        let below = (count - 1) as nat;
        lemma_column_entries(rows, column, below);
        let above = column_entries(rows, column, below);
        let entries = column_entries(rows, column, count);
        assert forall|r: int| 0 <= r < count && !(
        #[trigger] rows[r])[column].zero() implies entries.contains(
            (r as nat, rows[r][column]),
        ) by {
            if r == below {
                assert(entries[entries.len() - 1] == (r as nat, rows[r][column]));
            } else {
                assert(above.contains((r as nat, rows[r][column])));
                let k = choose|k: int|
                    0 <= k < above.len() && above[k] == (r as nat, rows[r][column]);
                assert(entries[k] == (r as nat, rows[r][column]));
            }
        }
    }
}

/// The entries of some columns start those of more columns.
proof fn lemma_leading_entries(rows: Seq<Seq<Double>>, few: nat, many: nat)
    requires
        few <= many,
    ensures
        leading_entries(rows, few).len() <= leading_entries(rows, many).len(),
        forall|k: int|
            0 <= k < leading_entries(rows, few).len() ==> #[trigger] leading_entries(rows, many)[k]
                == leading_entries(rows, few)[k],
    decreases many,
{
    if few < many {
        lemma_leading_entries(rows, few, (many - 1) as nat);
    }
}

/// Compressed-column form loses nothing and adds nothing: what stands in a
/// column's range are the nonzero entries of that column of the dense matrix,
/// each once, at its row, in ascending order of the rows.
pub proof fn lemma_csc_is_faithful(csc: Csc, rows: Seq<Seq<Double>>, ncols: nat, column: int)
    requires
        csc.encodes(rows, ncols),
        0 <= column < ncols,
    ensures
        csc.colptr@[column] <= csc.colptr@[column + 1] <= csc.rowval@.len(),
        forall|k: int|
            csc.colptr@[column] <= k < csc.colptr@[column + 1] ==> (#[trigger] csc.rowval@[k])
                < rows.len() && csc.nzval@[k] == rows[csc.rowval@[k] as int][column]
                && !csc.nzval@[k].zero(),
        forall|k: int, l: int|
            csc.colptr@[column] <= k < l < csc.colptr@[column + 1] ==> (#[trigger] csc.rowval@[k])
                < (#[trigger] csc.rowval@[l]),
        forall|r: int|
            0 <= r < rows.len() && !(#[trigger] rows[r])[column].zero() ==> exists|k: int|
                csc.colptr@[column] <= k < csc.colptr@[column + 1] && #[trigger] csc.rowval@[k]
                    == r,
{
    let before = leading_entries(rows, column as nat);
    let entries = column_entries(rows, column, rows.len());
    let upto = leading_entries(rows, (column + 1) as nat);
    assert(upto == before + entries);
    lemma_column_entries(rows, column, rows.len());
    lemma_leading_entries(rows, (column + 1) as nat, ncols);
    let start = before.len() as int;
    assert(csc.colptr@[column] == start);
    assert(csc.colptr@[column + 1] == upto.len());
    assert forall|k: int| start <= k < upto.len() implies #[trigger] csc.rowval@[k] == entries[k
        - start].0 && csc.nzval@[k] == entries[k - start].1 by {
        assert(leading_entries(rows, ncols)[k] == upto[k]);
    }
    assert forall|k: int, l: int| start <= k < l < upto.len() implies (#[trigger] csc.rowval@[k])
        < (#[trigger] csc.rowval@[l]) by {
        assert(entries[k - start].0 < entries[l - start].0);
    }
    assert forall|r: int| 0 <= r < rows.len() && !(
    #[trigger] rows[r])[column].zero() implies exists|k: int|
        start <= k < upto.len() && #[trigger] csc.rowval@[k] == r by {
        assert(entries.contains((r as nat, rows[r][column])));
        let j = choose|j: int|
            0 <= j < entries.len() && entries[j] == (r as nat, rows[r][column]);
        assert(csc.rowval@[start + j] == r);
    }
}

/// The indices of the finite bounds among the first `count`, ascending.
pub open spec fn finite_indices(bounds: Seq<Double>, count: nat) -> Seq<nat>
    decreases count,
{
    if count == 0 {
        Seq::empty()
    } else if bounds[count - 1].finite() {
        finite_indices(bounds, (count - 1) as nat).push((count - 1) as nat)
    } else {
        finite_indices(bounds, (count - 1) as nat)
    }
}

/// One row per finite bound, with `unit` at the bounded variable.
pub open spec fn bound_rows(bounds: Seq<Double>, unit: Double) -> Seq<Seq<Double>> {
    let indices = finite_indices(bounds, bounds.len());
    Seq::new(indices.len(), |k: int| zero_row(bounds.len()).update(indices[k] as int, unit))
}

/// The finite bounds.
pub open spec fn bound_values(bounds: Seq<Double>) -> Seq<Double> {
    let indices = finite_indices(bounds, bounds.len());
    Seq::new(indices.len(), |k: int| bounds[indices[k] as int])
}

/// Every finite bound is counted exactly once, in ascending order, and no
/// infinite one is.
pub proof fn lemma_finite_indices(bounds: Seq<Double>, count: nat)
    requires
        count <= bounds.len(),
    ensures
        finite_indices(bounds, count).len() <= count,
        forall|k: int|
            0 <= k < finite_indices(bounds, count).len() ==> #[trigger] finite_indices(
                bounds,
                count,
            )[k] < count && bounds[finite_indices(bounds, count)[k] as int].finite(),
        forall|k: int, l: int|
            0 <= k < l < finite_indices(bounds, count).len() ==> #[trigger] finite_indices(
                bounds,
                count,
            )[k] < #[trigger] finite_indices(bounds, count)[l],
        forall|i: int|
            0 <= i < count && bounds[i].finite() ==> finite_indices(bounds, count).contains(
                i as nat,
            ),
    decreases count,
{
    if count > 0 {
        let below = (count - 1) as nat;
        lemma_finite_indices(bounds, below);
        let rest = finite_indices(bounds, below);
        let all = finite_indices(bounds, count);
        assert forall|i: int| 0 <= i < count && bounds[i].finite() implies all.contains(
            i as nat,
        ) by {
            if i == below {
                assert(all[all.len() - 1] == i as nat);
            } else {
                assert(rest.contains(i as nat));
                let k = choose|k: int| 0 <= k < rest.len() && rest[k] == i as nat;
                assert(all[k] == i as nat);
            }
        }
    }
}

/// A quadratic program: min ½xᵀPx + qᵀx s.t. A_eq·x = b_eq, A_in·x ≤ b_in,
/// lb ≤ x ≤ ub. `p` is symmetric, and positive semidefinite where the program
/// is convex. Infinite bounds are allowed; `a_eq` and `a_in` may have no rows.
pub struct QuadraticProgram {
    pub p: Matrix,
    pub q: Vec<Double>,
    pub a_eq: Matrix,
    pub b_eq: Vec<Double>,
    pub a_in: Matrix,
    pub b_in: Vec<Double>,
    pub lb: Vec<Double>,
    pub ub: Vec<Double>,
}

impl QuadraticProgram {
    /// Whether the parts fit each other.
    pub open spec fn shaped(&self) -> bool {
        &&& self.p.well_formed()
        &&& self.a_eq.well_formed()
        &&& self.a_in.well_formed()
        &&& self.p@.len() == self.q@.len()
        &&& self.p.width() == self.q@.len()
        &&& self.a_eq.width() == self.q@.len()
        &&& self.a_in.width() == self.q@.len()
        &&& self.a_eq@.len() == self.b_eq@.len()
        &&& self.a_in@.len() == self.b_in@.len()
        &&& self.lb@.len() == self.q@.len()
        &&& self.ub@.len() == self.q@.len()
        &&& self.a_in@.len() + 2 * self.q@.len() <= usize::MAX
    }
}

/// A quadratic program as a conic solver takes it: min ½xᵀPx + qᵀx with
/// `b − A·x` zero in the first `zero_rows` places and nonnegative in the other
/// `nonnegative_rows`.
pub struct ConicProgram {
    pub p: Csc,
    pub q: Vec<Double>,
    pub a: Csc,
    pub b: Vec<Double>,
    pub zero_rows: usize,
    pub nonnegative_rows: usize,
}

/// The stacked constraint matrix: equalities, inequalities, `+e_i` for each
/// finite upper bound, `−e_i` for each finite lower bound.
pub open spec fn stacked_rows(
    a_eq: Seq<Seq<Double>>,
    a_in: Seq<Seq<Double>>,
    lb: Seq<Double>,
    ub: Seq<Double>,
) -> Seq<Seq<Double>> {
    a_eq + a_in + bound_rows(ub, Double { bits: ONE }) + bound_rows(lb, Double { bits: MINUS_ONE })
}

/// The stacked right-hand side: a lower bound enters negated.
pub open spec fn stacked_values(
    b_eq: Seq<Double>,
    b_in: Seq<Double>,
    lb: Seq<Double>,
    ub: Seq<Double>,
) -> Seq<Double> {
    b_eq + b_in + bound_values(ub) + bound_values(lb).map_values(|bound: Double| bound.negated())
}

/// Copies the rows of a matrix to the end of a list.
fn push_rows(list: &mut Vec<Vec<Double>>, rows: &Matrix)
    ensures
        final(list)@.len() == old(list)@.len() + rows@.len(),
        forall|r: int| 0 <= r < old(list)@.len() ==> final(list)@[r] == old(list)@[r],
        forall|r: int|
            0 <= r < rows@.len() ==> (#[trigger] final(list)@[old(list)@.len() + r])@ == rows@[r],
{
    let ghost start = list@.len();
    let mut r: usize = 0;
    let count: usize = rows.nrows();
    while r < count
        invariant
            count == rows@.len(),
            r <= count,
            start == old(list)@.len(),
            list@.len() == start + r,
            forall|i: int| 0 <= i < start ==> list@[i] == old(list)@[i],
            forall|i: int| 0 <= i < r ==> (#[trigger] list@[start + i])@ == rows@[i],
        decreases count - r,
    {
        list.push(rows.row(r));
        r = r + 1;
    }
}

/// Appends one row and one right-hand side per finite bound.
fn push_bounds(
    list: &mut Vec<Vec<Double>>,
    values: &mut Vec<Double>,
    bounds: &Vec<Double>,
    upper: bool,
) -> (count: usize)
    ensures
        ({
            let unit = Double {
                bits: if upper {
                    ONE
                } else {
                    MINUS_ONE
                },
            };
            &&& count == bound_rows(bounds@, unit).len()
            &&& final(list)@.len() == old(list)@.len() + count
            &&& forall|r: int| 0 <= r < old(list)@.len() ==> final(list)@[r] == old(list)@[r]
            &&& forall|r: int|
                0 <= r < count ==> (#[trigger] final(list)@[old(list)@.len() + r])@ == bound_rows(
                    bounds@,
                    unit,
                )[r]
        }),
        upper ==> final(values)@ == old(values)@ + bound_values(bounds@),
        !upper ==> final(values)@ == old(values)@ + bound_values(bounds@).map_values(
            |bound: Double| bound.negated(),
        ),
{
    let ghost start = list@.len();
    let ghost first = values@.len();
    let unit: Double = if upper {
        Double { bits: ONE }
    } else {
        Double { bits: MINUS_ONE }
    };
    let n: usize = bounds.len();
    let mut count: usize = 0;
    let mut i: usize = 0;
    while i < n
        invariant
            n == bounds@.len(),
            i <= n,
            count <= i,
            start == old(list)@.len(),
            first == old(values)@.len(),
            unit == (Double {
                bits: if upper {
                    ONE
                } else {
                    MINUS_ONE
                },
            }),
            count == finite_indices(bounds@, i as nat).len(),
            list@.len() == start + count,
            values@.len() == first + count,
            forall|r: int| 0 <= r < start ==> list@[r] == old(list)@[r],
            forall|r: int| 0 <= r < first ==> values@[r] == old(values)@[r],
            forall|k: int|
                0 <= k < count ==> (#[trigger] list@[start + k])@ == zero_row(n as nat).update(
                    finite_indices(bounds@, i as nat)[k] as int,
                    unit,
                ),
            forall|k: int|
                0 <= k < count ==> #[trigger] values@[first + k] == ({
                    let bound = bounds@[finite_indices(bounds@, i as nat)[k] as int];
                    if upper {
                        bound
                    } else {
                        bound.negated()
                    }
                }),
        decreases n - i,
    {
        let bound: Double = bounds[i];
        if bound.is_finite() {
            let mut row: Vec<Double> = Vec::new();
            let mut c: usize = 0;
            while c < n
                invariant
                    c <= n,
                    i < n,
                    row@.len() == c,
                    forall|j: int|
                        0 <= j < c ==> row@[j] == (if j == i {
                            unit
                        } else {
                            Double { bits: 0 }
                        }),
                decreases n - c,
            {
                if c == i {
                    row.push(unit);
                } else {
                    row.push(Double { bits: 0 });
                }
                c = c + 1;
            }
            assert(row@ =~= zero_row(n as nat).update(i as int, unit));
            list.push(row);
            if upper {
                values.push(bound);
            } else {
                values.push(bound.neg());
            }
            count = count + 1;
        }
        i = i + 1;
    }
    proof {
        let added = if upper {
            bound_values(bounds@)
        } else {
            bound_values(bounds@).map_values(|bound: Double| bound.negated())
        };
        assert forall|r: int| 0 <= r < values@.len() implies #[trigger] values@[r] == (old(values)@
            + added)[r] by {
            if r >= first {
                assert(values@[first + (r - first)] == added[r - first]);
            }
        }
        assert(values@ =~= old(values)@ + added);
    }
    count
}

/// Appends a list of numbers to another.
fn push_values(list: &mut Vec<Double>, values: &Vec<Double>)
    ensures
        final(list)@ == old(list)@ + values@,
{
    let mut i: usize = 0;
    assert(values@.take(0) =~= Seq::<Double>::empty());
    while i < values.len()
        invariant
            i <= values@.len(),
            list@ =~= old(list)@ + values@.take(i as int),
        decreases values@.len() - i,
    {
        list.push(values[i]);
        i = i + 1;
        assert(values@.take(i as int) =~= values@.take(i - 1).push(values@[i - 1]));
    }
    assert(values@.take(i as int) =~= values@);
}

impl ConicProgram {
    /// Whether this is the conic form of a quadratic program: its rows stacked,
    /// equalities first, and its matrices in sparse form.
    pub open spec fn restates(&self, program: QuadraticProgram) -> bool {
        let n = program.q@.len();
        let rows = stacked_rows(program.a_eq@, program.a_in@, program.lb@, program.ub@);
        &&& self.p.encodes(program.p@, n)
        &&& self.q@ == program.q@
        &&& self.a.encodes(rows, n)
        &&& self.b@ == stacked_values(program.b_eq@, program.b_in@, program.lb@, program.ub@)
        &&& self.zero_rows == program.a_eq@.len()
        &&& self.zero_rows + self.nonnegative_rows == self.b@.len()
        &&& self.b@.len() == rows.len()
    }
}

/// Puts a quadratic program into conic form. Infinite bounds contribute no
/// constraint row.
pub fn conic_form(program: &QuadraticProgram) -> (conic: ConicProgram)
    requires
        program.shaped(),
    ensures
        conic.restates(*program),
{
    let QuadraticProgram { p, q, a_eq, b_eq, a_in, b_in, lb, ub } = program;
    let n: usize = q.len();
    let mut rows: Vec<Vec<Double>> = Vec::new();
    let mut b: Vec<Double> = Vec::new();
    push_rows(&mut rows, a_eq);
    let ghost equalities = rows@;
    push_rows(&mut rows, a_in);
    let ghost general = rows@;
    push_values(&mut b, b_eq);
    push_values(&mut b, b_in);
    proof {
        lemma_finite_indices(ub@, ub@.len());
        lemma_finite_indices(lb@, lb@.len());
    }
    let finite_ub: usize = push_bounds(&mut rows, &mut b, ub, true);
    let ghost uppers = rows@;
    let finite_lb: usize = push_bounds(&mut rows, &mut b, lb, false);
    let ghost stack = stacked_rows(a_eq@, a_in@, lb@, ub@);
    let ghost m_eq = a_eq@.len() as int;
    let ghost m_in = a_in@.len() as int;
    proof {
        assert(rows@.len() == stack.len());
        assert forall|r: int| 0 <= r < stack.len() implies (#[trigger] rows@[r])@ == stack[r]
            && stack[r].len() == n by {
            if r < m_eq {
                assert(equalities[0 + r]@ == a_eq@[r]);
            } else if r < m_eq + m_in {
                assert(general[m_eq + (r - m_eq)]@ == a_in@[r - m_eq]);
            } else if r < m_eq + m_in + finite_ub {
                let k = r - m_eq - m_in;
                assert(uppers[m_eq + m_in + k]@ == bound_rows(ub@, Double { bits: ONE })[k]);
            } else {
                let k = r - m_eq - m_in - finite_ub;
                assert(rows@[m_eq + m_in + finite_ub + k]@ == bound_rows(
                    lb@,
                    Double { bits: MINUS_ONE },
                )[k]);
            }
        }
    }
    let a: Matrix = Matrix::from_rows(rows, n);
    assert(a@ =~= stack);
    assert(b@ =~= stacked_values(b_eq@, b_in@, lb@, ub@));
    ConicProgram {
        p: to_csc(p),
        q: copied(q),
        a: to_csc(&a),
        b,
        zero_rows: a_eq.nrows(),
        nonnegative_rows: a_in.nrows() + finite_ub + finite_lb,
    }
}

/// How a conic solver's run ended.
#[derive(Clone, Copy, Debug, PartialEq, Eq, Structural)]
pub enum SolverStatus {
    Unsolved,
    Solved,
    PrimalInfeasible,
    DualInfeasible,
    AlmostSolved,
    AlmostPrimalInfeasible,
    AlmostDualInfeasible,
    MaxIterations,
    MaxTime,
    NumericalError,
    InsufficientProgress,
    CallbackTerminated,
}

impl SolverStatus {
    /// Whether the run ended with a solution.
    pub open spec fn has_solution(self) -> bool {
        self == SolverStatus::Solved || self == SolverStatus::AlmostSolved
    }

    pub open spec fn name_text(self) -> Seq<char> {
        match self {
            SolverStatus::Unsolved => "Unsolved"@,
            SolverStatus::Solved => "Solved"@,
            SolverStatus::PrimalInfeasible => "PrimalInfeasible"@,
            SolverStatus::DualInfeasible => "DualInfeasible"@,
            SolverStatus::AlmostSolved => "AlmostSolved"@,
            SolverStatus::AlmostPrimalInfeasible => "AlmostPrimalInfeasible"@,
            SolverStatus::AlmostDualInfeasible => "AlmostDualInfeasible"@,
            SolverStatus::MaxIterations => "MaxIterations"@,
            SolverStatus::MaxTime => "MaxTime"@,
            SolverStatus::NumericalError => "NumericalError"@,
            SolverStatus::InsufficientProgress => "InsufficientProgress"@,
            SolverStatus::CallbackTerminated => "CallbackTerminated"@,
        }
    }

    pub fn name(self) -> (text: &'static str)
        ensures
            text@ == self.name_text(),
    {
        match self {
            SolverStatus::Unsolved => "Unsolved",
            SolverStatus::Solved => "Solved",
            SolverStatus::PrimalInfeasible => "PrimalInfeasible",
            SolverStatus::DualInfeasible => "DualInfeasible",
            SolverStatus::AlmostSolved => "AlmostSolved",
            SolverStatus::AlmostPrimalInfeasible => "AlmostPrimalInfeasible",
            SolverStatus::AlmostDualInfeasible => "AlmostDualInfeasible",
            SolverStatus::MaxIterations => "MaxIterations",
            SolverStatus::MaxTime => "MaxTime",
            SolverStatus::NumericalError => "NumericalError",
            SolverStatus::InsufficientProgress => "InsufficientProgress",
            SolverStatus::CallbackTerminated => "CallbackTerminated",
        }
    }
}

/// What a run that ended with a status and a point comes to.
pub open spec fn read_out(
    status: SolverStatus,
    x: Seq<Double>,
    result: Result<Vec<Double>, String>,
) -> bool {
    match result {
        Ok(values) => status.has_solution() && values@ == x,
        Err(message) => !status.has_solution() && message@ == "qp_not_solved: "@
            + status.name_text(),
    }
}

/// The solution of a run that ended with one; otherwise an error that names the
/// status.
pub fn solution(status: SolverStatus, x: Vec<Double>) -> (result: Result<Vec<Double>, String>)
    ensures
        read_out(status, x@, result),
{
    match status {
        SolverStatus::Solved | SolverStatus::AlmostSolved => Ok(x),
        _ => {
            let mut text: String = "qp_not_solved: ".to_owned();
            text.append(status.name());
            Err(text)
        },
    }
}

/// Solve min ½xᵀPx + qᵀx s.t. A_eq·x = b_eq, A_in·x ≤ b_in, lb ≤ x ≤ ub.
///
/// `run` runs a conic solver: the status that it ended with and its point, or why
/// the solver could not be set up.
pub fn solve<R>(program: &QuadraticProgram, run: R) -> (result: Result<Vec<Double>, String>) where
    R: Fn(&ConicProgram) -> Result<(SolverStatus, Vec<Double>), String>,

    requires
        program.shaped(),
        forall|conic: &ConicProgram| conic.restates(*program) ==> call_requires(run, (conic,)),
    ensures
        exists|conic: ConicProgram, answer: Result<(SolverStatus, Vec<Double>), String>|
            {
                &&& conic.restates(*program)
                &&& #[trigger] call_ensures(run, (&conic,), answer)
                &&& match answer {
                    Ok((status, x)) => read_out(status, x@, result),
                    Err(message) => result == Err::<Vec<Double>, String>(message),
                }
            },
{
    let conic: ConicProgram = conic_form(program);
    let answer: Result<(SolverStatus, Vec<Double>), String> = run(&conic);
    assert(call_ensures(run, (&conic,), answer));
    match answer {
        Ok((status, x)) => solution(status, x),
        Err(message) => Err(message),
    }
}

} // verus!
