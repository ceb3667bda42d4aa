//! Quadratic forms xᵀFx over the reals.

use crate::error::{lemma_distributes, lemma_scaled_order, size};
use crate::reals::{
    lemma_associates, lemma_bounded_product, lemma_commutes, lemma_square, lemma_zero,
};
use vstd::prelude::*;

verus! {

/// The sum of the first `count` terms of a row times a vector.
pub open spec fn row_upto(
    f: spec_fn(int, int) -> real,
    r: int,
    x: Seq<real>,
    count: nat,
) -> real
    decreases count,
{
    if count == 0 {
        0int as real
    } else {
        row_upto(f, r, x, (count - 1) as nat) + f(r, count - 1) * x[count - 1]
    }
}

/// The part of a quadratic form that the first `rows` rows make up.
pub open spec fn form_upto(f: spec_fn(int, int) -> real, x: Seq<real>, rows: nat) -> real
    decreases rows,
{
    if rows == 0 {
        0int as real
    } else {
        form_upto(f, x, (rows - 1) as nat) + x[rows - 1] * row_upto(f, rows - 1, x, x.len())
    }
}

/// The quadratic form xᵀFx.
pub open spec fn form(f: spec_fn(int, int) -> real, x: Seq<real>) -> real {
    form_upto(f, x, x.len())
}

/// The sum of the first `count` sizes.
pub open spec fn sizes_upto(x: Seq<real>, count: nat) -> real
    decreases count,
{
    if count == 0 {
        0int as real
    } else {
        sizes_upto(x, (count - 1) as nat) + size(x[count - 1])
    }
}

/// The sum of the first `count` squares.
pub open spec fn squares_upto(x: Seq<real>, count: nat) -> real
    decreases count,
{
    if count == 0 {
        0int as real
    } else {
        squares_upto(x, (count - 1) as nat) + x[count - 1] * x[count - 1]
    }
}

/// The first `count` terms of an inner product.
pub open spec fn inner_upto(v: spec_fn(int) -> real, x: Seq<real>, count: nat) -> real
    decreases count,
{
    if count == 0 {
        0int as real
    } else {
        inner_upto(v, x, (count - 1) as nat) + v(count - 1) * x[count - 1]
    }
}

/// Whether a matrix is the sum of two others.
pub open spec fn adds_up(
    sum: spec_fn(int, int) -> real,
    f: spec_fn(int, int) -> real,
    g: spec_fn(int, int) -> real,
    dim: nat,
) -> bool {
    forall|r: int, c: int|
        0 <= r < dim && 0 <= c < dim ==> #[trigger] sum(r, c) == f(r, c) + g(r, c)
}

proof fn lemma_row_adds(
    sum: spec_fn(int, int) -> real,
    f: spec_fn(int, int) -> real,
    g: spec_fn(int, int) -> real,
    r: int,
    x: Seq<real>,
    count: nat,
)
    requires
        adds_up(sum, f, g, x.len()),
        0 <= r < x.len(),
        count <= x.len(),
    ensures
        row_upto(sum, r, x, count) == row_upto(f, r, x, count) + row_upto(g, r, x, count),
    decreases count,
{
    if count > 0 {
        lemma_row_adds(sum, f, g, r, x, (count - 1) as nat);
        assert(sum(r, count - 1) == f(r, count - 1) + g(r, count - 1));
        lemma_distributes(x[count - 1], f(r, count - 1), g(r, count - 1));
    }
}

proof fn lemma_rows_add(
    sum: spec_fn(int, int) -> real,
    f: spec_fn(int, int) -> real,
    g: spec_fn(int, int) -> real,
    x: Seq<real>,
    rows: nat,
)
    requires
        adds_up(sum, f, g, x.len()),
        rows <= x.len(),
    ensures
        form_upto(sum, x, rows) == form_upto(f, x, rows) + form_upto(g, x, rows),
    decreases rows,
{
    if rows > 0 {
        let r = rows - 1;
        lemma_rows_add(sum, f, g, x, r as nat);
        lemma_row_adds(sum, f, g, r, x, x.len());
        lemma_distributes(x[r], row_upto(f, r, x, x.len()), row_upto(g, r, x, x.len()));
    }
}

/// The form of a sum is the sum of the forms.
pub proof fn lemma_form_adds(
    sum: spec_fn(int, int) -> real,
    f: spec_fn(int, int) -> real,
    g: spec_fn(int, int) -> real,
    x: Seq<real>,
)
    requires
        adds_up(sum, f, g, x.len()),
    ensures
        form(sum, x) == form(f, x) + form(g, x),
{
    lemma_rows_add(sum, f, g, x, x.len());
}

/// Whether no entry of two matrices differs by more than a bound.
pub open spec fn entries_near(
    f: spec_fn(int, int) -> real,
    g: spec_fn(int, int) -> real,
    off: real,
    dim: nat,
) -> bool {
    forall|r: int, c: int|
        0 <= r < dim && 0 <= c < dim ==> size(#[trigger] f(r, c) - g(r, c)) <= off
}

proof fn lemma_row_near(
    f: spec_fn(int, int) -> real,
    g: spec_fn(int, int) -> real,
    off: real,
    r: int,
    x: Seq<real>,
    count: nat,
)
    requires
        entries_near(f, g, off, x.len()),
        0 <= r < x.len(),
        count <= x.len(),
    ensures
        size(row_upto(f, r, x, count) - row_upto(g, r, x, count)) <= off * sizes_upto(x, count),
    decreases count,
{
    lemma_zero(off);
    if count > 0 {
        let c = count - 1;
        lemma_row_near(f, g, off, r, x, c as nat);
        lemma_distributes(x[c], f(r, c), g(r, c));
        lemma_bounded_product(f(r, c) - g(r, c), x[c], off, size(x[c]));
        lemma_distributes(off, sizes_upto(x, c as nat), size(x[c]));
    }
}

proof fn lemma_rows_near(
    f: spec_fn(int, int) -> real,
    g: spec_fn(int, int) -> real,
    off: real,
    x: Seq<real>,
    rows: nat,
)
    requires
        entries_near(f, g, off, x.len()),
        rows <= x.len(),
    ensures
        size(form_upto(f, x, rows) - form_upto(g, x, rows)) <= (off * sizes_upto(x, x.len()))
            * sizes_upto(x, rows),
    decreases rows,
{
    let most = off * sizes_upto(x, x.len());
    lemma_zero(most);
    if rows > 0 {
        let r = rows - 1;
        lemma_rows_near(f, g, off, x, r as nat);
        lemma_row_near(f, g, off, r, x, x.len());
        let (a, b) = (row_upto(f, r, x, x.len()), row_upto(g, r, x, x.len()));
        lemma_distributes(x[r], a, b);
        lemma_bounded_product(a - b, x[r], most, size(x[r]));
        lemma_distributes(most, sizes_upto(x, r as nat), size(x[r]));
        lemma_commutes(x[r], a - b);
    }
}

/// The forms of two matrices that are near each other are.
pub proof fn lemma_form_near(
    f: spec_fn(int, int) -> real,
    g: spec_fn(int, int) -> real,
    off: real,
    x: Seq<real>,
)
    requires
        entries_near(f, g, off, x.len()),
    ensures
        size(form(f, x) - form(g, x)) <= off * (sizes_upto(x, x.len()) * sizes_upto(x, x.len())),
{
    lemma_rows_near(f, g, off, x, x.len());
    lemma_associates(off, sizes_upto(x, x.len()), sizes_upto(x, x.len()));
}

/// Whether a matrix is w·v·vᵀ.
pub open spec fn is_outer_product(
    f: spec_fn(int, int) -> real,
    weight: real,
    v: spec_fn(int) -> real,
    dim: nat,
) -> bool {
    forall|r: int, c: int|
        0 <= r < dim && 0 <= c < dim ==> #[trigger] f(r, c) == weight * (v(r) * v(c))
}

proof fn lemma_row_of_outer_product(
    f: spec_fn(int, int) -> real,
    weight: real,
    v: spec_fn(int) -> real,
    r: int,
    x: Seq<real>,
    count: nat,
)
    requires
        is_outer_product(f, weight, v, x.len()),
        0 <= r < x.len(),
        count <= x.len(),
    ensures
        row_upto(f, r, x, count) == (weight * v(r)) * inner_upto(v, x, count),
    decreases count,
{
    lemma_zero(weight * v(r));
    if count > 0 {
        let c = count - 1;
        lemma_row_of_outer_product(f, weight, v, r, x, c as nat);
        assert(f(r, c) == weight * (v(r) * v(c)));
        lemma_associates(weight, v(r), v(c));
        lemma_associates(weight * v(r), v(c), x[c]);
        lemma_distributes(weight * v(r), inner_upto(v, x, c as nat), v(c) * x[c]);
    }
}

proof fn lemma_rows_of_outer_product(
    f: spec_fn(int, int) -> real,
    weight: real,
    v: spec_fn(int) -> real,
    x: Seq<real>,
    rows: nat,
)
    requires
        is_outer_product(f, weight, v, x.len()),
        rows <= x.len(),
    ensures
        form_upto(f, x, rows) == (weight * inner_upto(v, x, x.len())) * inner_upto(v, x, rows),
    decreases rows,
{
    let d = inner_upto(v, x, x.len());
    lemma_zero(weight * d);
    if rows > 0 {
        let r = rows - 1;
        lemma_rows_of_outer_product(f, weight, v, x, r as nat);
        lemma_row_of_outer_product(f, weight, v, r, x, x.len());
        lemma_distributes(weight * d, inner_upto(v, x, r as nat), v(r) * x[r]);
        lemma_regroups(x[r], weight, v(r), d);
    }
}

proof fn lemma_regroups(x: real, w: real, v: real, d: real)
    by (nonlinear_arith)
    ensures
        x * ((w * v) * d) == (w * d) * (v * x),
{
}

/// The form of w·v·vᵀ is w·(v·x)², so that it is not negative for a weight that is not.
pub proof fn lemma_form_of_outer_product(
    f: spec_fn(int, int) -> real,
    weight: real,
    v: spec_fn(int) -> real,
    x: Seq<real>,
)
    requires
        is_outer_product(f, weight, v, x.len()),
    ensures
        form(f, x) == weight * (inner_upto(v, x, x.len()) * inner_upto(v, x, x.len())),
        weight >= 0int as real ==> form(f, x) >= 0int as real,
{
    let d = inner_upto(v, x, x.len());
    lemma_rows_of_outer_product(f, weight, v, x, x.len());
    lemma_associates(weight, d, d);
    if weight >= 0int as real {
        lemma_square(d);
        lemma_scaled_order(weight, 0int as real, d * d);
        lemma_zero(weight);
    }
}

/// The form of a matrix without entries.
pub proof fn lemma_form_of_zero(f: spec_fn(int, int) -> real, x: Seq<real>)
    requires
        forall|r: int, c: int|
            0 <= r < x.len() && 0 <= c < x.len() ==> #[trigger] f(r, c) == 0int as real,
    ensures
        form(f, x) == 0int as real,
{
    lemma_rows_add(f, f, f, x, x.len());
}

proof fn lemma_row_of_diagonal(
    f: spec_fn(int, int) -> real,
    d: real,
    r: int,
    x: Seq<real>,
    count: nat,
)
    requires
        is_diagonal(f, d, x.len()),
        0 <= r < x.len(),
        count <= x.len(),
    ensures
        row_upto(f, r, x, count) == if r < count {
            d * x[r]
        } else {
            0int as real
        },
    decreases count,
{
    if count > 0 {
        let c = count - 1;
        lemma_row_of_diagonal(f, d, r, x, c as nat);
        assert(f(r, c) == if r == c {
            d
        } else {
            0int as real
        });
        lemma_zero(x[c]);
        lemma_commutes(x[c], 0int as real);
    }
}

/// Whether a matrix has one value along its diagonal and no other.
pub open spec fn is_diagonal(f: spec_fn(int, int) -> real, d: real, dim: nat) -> bool {
    forall|r: int, c: int|
        0 <= r < dim && 0 <= c < dim ==> #[trigger] f(r, c) == if r == c {
            d
        } else {
            0int as real
        }
}

proof fn lemma_rows_of_diagonal(
    f: spec_fn(int, int) -> real,
    d: real,
    x: Seq<real>,
    rows: nat,
)
    requires
        is_diagonal(f, d, x.len()),
        rows <= x.len(),
    ensures
        form_upto(f, x, rows) == d * squares_upto(x, rows),
    decreases rows,
{
    lemma_zero(d);
    if rows > 0 {
        let r = rows - 1;
        lemma_rows_of_diagonal(f, d, x, r as nat);
        lemma_row_of_diagonal(f, d, r, x, x.len());
        lemma_distributes(d, squares_upto(x, r as nat), x[r] * x[r]);
        lemma_associates(d, x[r], x[r]);
        lemma_commutes(x[r], d * x[r]);
    }
}

/// The form of d·I is d·|x|².
pub proof fn lemma_form_of_diagonal(f: spec_fn(int, int) -> real, d: real, x: Seq<real>)
    requires
        is_diagonal(f, d, x.len()),
    ensures
        form(f, x) == d * squares_upto(x, x.len()),
{
    lemma_rows_of_diagonal(f, d, x, x.len());
}

} // verus!
