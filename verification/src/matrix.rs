//! Dense matrices, as lists of rows.

use crate::double::Double;
use vstd::prelude::*;

verus! {

/// A dense matrix. Its view is the sequence of its rows.
pub struct Matrix {
    rows: Vec<Vec<Double>>,
    ncols: usize,
}

/// A row of zeros.
pub open spec fn zero_row(ncols: nat) -> Seq<Double> {
    Seq::new(ncols, |c: int| Double { bits: 0 })
}

/// A matrix of zeros.
pub open spec fn zero_rows(nrows: nat, ncols: nat) -> Seq<Seq<Double>> {
    Seq::new(nrows, |r: int| zero_row(ncols))
}

/// Whether every row has `ncols` entries.
pub open spec fn rectangular(rows: Seq<Seq<Double>>, ncols: nat) -> bool {
    forall|r: int| 0 <= r < rows.len() ==> (#[trigger] rows[r]).len() == ncols
}

/// A copy of a list of numbers.
pub fn copied(values: &Vec<Double>) -> (result: Vec<Double>)
    ensures
        result@ == values@,
{
    let mut result: Vec<Double> = Vec::new();
    let mut i: usize = 0;
    while i < values.len()
        invariant
            i <= values@.len(),
            result@ == values@.take(i as int),
        decreases values@.len() - i,
    {
        result.push(values[i]);
        i = i + 1;
        assert(values@.take(i as int) =~= values@.take(i - 1).push(values@[i - 1]));
    }
    assert(values@.take(i as int) =~= values@);
    result
}

/// A matrix with one entry replaced.
pub open spec fn with_entry(
    rows: Seq<Seq<Double>>,
    row: int,
    column: int,
    value: Double,
) -> Seq<Seq<Double>> {
    rows.update(row, rows[row].update(column, value))
}

impl View for Matrix {
    type V = Seq<Seq<Double>>;

    closed spec fn view(&self) -> Seq<Seq<Double>> {
        Seq::new(self.rows@.len(), |r: int| self.rows@[r]@)
    }
}

impl Matrix {
    pub closed spec fn width(&self) -> nat {
        self.ncols as nat
    }

    /// Every row has as many entries as the matrix has columns.
    pub open spec fn well_formed(&self) -> bool {
        &&& rectangular(self@, self.width())
        &&& self@.len() <= usize::MAX
        &&& self.width() <= usize::MAX
    }

    /// A matrix of zeros.
    pub fn zeros(nrows: usize, ncols: usize) -> (result: Matrix)
        ensures
            result.well_formed(),
            result@ == zero_rows(nrows as nat, ncols as nat),
            result.width() == ncols,
    {
        let mut rows: Vec<Vec<Double>> = Vec::new();
        let mut r: usize = 0;
        while r < nrows
            invariant
                r <= nrows,
                rows@.len() == r,
                forall|i: int|
                    0 <= i < r ==> (#[trigger] rows@[i])@ =~= zero_row(ncols as nat),
            decreases nrows - r,
        {
            let mut row: Vec<Double> = Vec::new();
            let mut c: usize = 0;
            while c < ncols
                invariant
                    c <= ncols,
                    row@.len() == c,
                    forall|j: int| 0 <= j < c ==> row@[j] == (Double { bits: 0 }),
                decreases ncols - c,
            {
                row.push(Double { bits: 0 });
                c = c + 1;
            }
            rows.push(row);
            r = r + 1;
        }
        let result = Matrix { rows, ncols };
        assert(result@ =~= zero_rows(nrows as nat, ncols as nat));
        result
    }

    /// A matrix of the given rows, which must all have `ncols` entries.
    pub fn from_rows(rows: Vec<Vec<Double>>, ncols: usize) -> (result: Matrix)
        requires
            forall|r: int| 0 <= r < rows@.len() ==> (#[trigger] rows@[r])@.len() == ncols,
        ensures
            result.well_formed(),
            result@.len() == rows@.len(),
            forall|r: int| 0 <= r < rows@.len() ==> #[trigger] result@[r] == rows@[r]@,
            result.width() == ncols,
    {
        assert(rows.len() <= usize::MAX);
        Matrix { rows, ncols }
    }

    pub fn nrows(&self) -> (count: usize)
        ensures
            count == self@.len(),
    {
        self.rows.len()
    }

    pub fn ncols(&self) -> (count: usize)
        ensures
            count == self.width(),
    {
        self.ncols
    }

    pub fn get(&self, row: usize, column: usize) -> (value: Double)
        requires
            self.well_formed(),
            row < self@.len(),
            column < self.width(),
        ensures
            value == self@[row as int][column as int],
    {
        assert(self@[row as int] == self.rows@[row as int]@);
        self.rows[row][column]
    }

    /// A copy of a row.
    pub fn row(&self, row: usize) -> (result: Vec<Double>)
        requires
            row < self@.len(),
        ensures
            result@ == self@[row as int],
    {
        assert(self@[row as int] == self.rows@[row as int]@);
        copied(&self.rows[row])
    }

    pub fn set(&mut self, row: usize, column: usize, value: Double)
        requires
            old(self).well_formed(),
            row < old(self)@.len(),
            column < old(self).width(),
        ensures
            final(self).well_formed(),
            final(self)@ == with_entry(old(self)@, row as int, column as int, value),
            final(self)@.len() == old(self)@.len(),
            final(self).width() == old(self).width(),
    {
        assert(self@[row as int] == self.rows@[row as int]@);
        self.rows[row][column] = value;
        assert(self@ =~= with_entry(old(self)@, row as int, column as int, value));
        assert forall|r: int| 0 <= r < self@.len() implies (#[trigger] self@[r]).len()
            == self.width() by {
            assert(old(self)@[r].len() == old(self).width());
        }
    }

    /// Adds a value to an entry.
    pub fn accumulate(&mut self, row: usize, column: usize, value: Double)
        requires
            old(self).well_formed(),
            row < old(self)@.len(),
            column < old(self).width(),
        ensures
            final(self).well_formed(),
            final(self)@ == with_entry(
                old(self)@,
                row as int,
                column as int,
                old(self)@[row as int][column as int].sum(value),
            ),
            final(self)@.len() == old(self)@.len(),
            final(self).width() == old(self).width(),
    {
        let entry: Double = self.get(row, column);
        self.set(row, column, entry.plus(value));
    }
}

} // verus!
