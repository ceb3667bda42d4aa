//! The conic form of a quadratic program allows the same points as the program.

use crate::double::{Double, MINUS_ONE, ONE};
use crate::error::{lemma_value_of_zero, value};
use crate::feasible::{applied, lemma_applied_single, lemma_value_of_minus_one};
use crate::qp::{
    bound_rows, bound_values, finite_indices, lemma_finite_indices, stacked_rows, ConicProgram,
    QuadraticProgram,
};
use crate::reals::{lemma_commutes, lemma_minus, lemma_one};
use crate::slip::{lemma_value_of_negated, lemma_value_of_one};
use vstd::prelude::*;

verus! {

/// Whether a point satisfies a quadratic program's constraints: its equalities, its
/// inequalities, and every bound that is finite.
pub open spec fn feasible(program: QuadraticProgram, x: Seq<real>) -> bool {
    &&& forall|r: int|
        0 <= r < program.a_eq@.len() ==> applied(#[trigger] program.a_eq@[r], x, x.len()) == value(
            program.b_eq@[r],
        )
    &&& forall|r: int|
        0 <= r < program.a_in@.len() ==> applied(#[trigger] program.a_in@[r], x, x.len()) <= value(
            program.b_in@[r],
        )
    &&& forall|i: int|
        0 <= i < x.len() && (#[trigger] program.ub@[i]).finite() ==> x[i] <= value(program.ub@[i])
    &&& forall|i: int|
        0 <= i < x.len() && (#[trigger] program.lb@[i]).finite() ==> value(program.lb@[i]) <= x[i]
}

/// Whether a point is in the cone: `b − A·x` is zero in the first places and not negative in
/// the others.
pub open spec fn in_the_cone(
    rows: Seq<Seq<Double>>,
    values: Seq<Double>,
    zeros: int,
    x: Seq<real>,
) -> bool {
    forall|r: int|
        0 <= r < rows.len() ==> {
            let left = value(values[r]) - applied(#[trigger] rows[r], x, x.len());
            if r < zeros {
                left == 0int as real
            } else {
                left >= 0int as real
            }
        }
}

/// The row of a bound picks its variable.
proof fn lemma_bound_row(bounds: Seq<Double>, unit: Double, k: int, x: Seq<real>)
    requires
        0 <= k < finite_indices(bounds, bounds.len()).len(),
        x.len() == bounds.len(),
    ensures
        ({
            let i = finite_indices(bounds, bounds.len())[k] as int;
            &&& 0 <= i < bounds.len() && bounds[i].finite()
            &&& bound_rows(bounds, unit).len() == finite_indices(bounds, bounds.len()).len()
            &&& bound_values(bounds).len() == finite_indices(bounds, bounds.len()).len()
            &&& applied(bound_rows(bounds, unit)[k], x, x.len()) == value(unit) * x[i]
            &&& bound_values(bounds)[k] == bounds[i]
        }),
{
    lemma_finite_indices(bounds, bounds.len());
    lemma_value_of_zero(Double { bits: 0 });
    let i = finite_indices(bounds, bounds.len())[k] as int;
    lemma_applied_single(bound_rows(bounds, unit)[k], x, i, x.len());
}

/// The stacked rows of a quadratic program allow exactly the points that the program allows.
pub proof fn lemma_conic_form_allows_the_same(
    conic: ConicProgram,
    program: QuadraticProgram,
    x: Seq<real>,
)
    requires
        program.shaped(),
        conic.restates(program),
        x.len() == program.q@.len(),
    ensures
        in_the_cone(
            stacked_rows(program.a_eq@, program.a_in@, program.lb@, program.ub@),
            conic.b@,
            conic.zero_rows as int,
            x,
        ) <==> feasible(program, x),
{
    let (one, minus) = (Double { bits: ONE }, Double { bits: MINUS_ONE });
    let rows = stacked_rows(program.a_eq@, program.a_in@, program.lb@, program.ub@);
    let values = conic.b@;
    let (ub, lb) = (program.ub@, program.lb@);
    let (p, q) = (program.a_eq@.len() as int, program.a_in@.len() as int);
    let (above, below) = (finite_indices(ub, ub.len()), finite_indices(lb, lb.len()));
    let (u, l) = (above.len() as int, below.len() as int);
    lemma_value_of_one();
    lemma_value_of_minus_one();
    lemma_finite_indices(ub, ub.len());
    lemma_finite_indices(lb, lb.len());
    assert(rows.len() == p + q + u + l);
    assert forall|k: int| 0 <= k < u implies applied(#[trigger] rows[p + q + k], x, x.len())
        == x[above[k] as int] && value(values[p + q + k]) == value(ub[above[k] as int]) by {
        lemma_bound_row(ub, one, k, x);
        assert(rows[p + q + k] == bound_rows(ub, one)[k]);
        assert(values[p + q + k] == bound_values(ub)[k]);
        lemma_one(x[above[k] as int]);
        lemma_commutes(1int as real, x[above[k] as int]);
    }
    assert forall|k: int| 0 <= k < l implies applied(#[trigger] rows[p + q + u + k], x, x.len())
        == -x[below[k] as int] && value(values[p + q + u + k]) == -value(lb[below[k] as int]) by {
        lemma_bound_row(lb, minus, k, x);
        assert(rows[p + q + u + k] == bound_rows(lb, minus)[k]);
        assert(values[p + q + u + k] == bound_values(lb)[k].negated());
        lemma_value_of_negated(lb[below[k] as int]);
        lemma_one(x[below[k] as int]);
        lemma_minus(1int as real, x[below[k] as int]);
        lemma_commutes(1int as real, x[below[k] as int]);
    }
    if in_the_cone(rows, values, p, x) {
        assert forall|r: int| 0 <= r < p implies applied(#[trigger] program.a_eq@[r], x, x.len())
            == value(program.b_eq@[r]) by {
            assert(rows[r] == program.a_eq@[r] && values[r] == program.b_eq@[r]);
        }
        assert forall|r: int| 0 <= r < q implies applied(#[trigger] program.a_in@[r], x, x.len())
            <= value(program.b_in@[r]) by {
            assert(rows[p + r] == program.a_in@[r] && values[p + r] == program.b_in@[r]);
        }
        assert forall|i: int| 0 <= i < x.len() && (#[trigger] ub[i]).finite() implies x[i] <= value(
            ub[i],
        ) by {
            assert(above.contains(i as nat));
            let k = choose|k: int| 0 <= k < u && above[k] == i as nat;
            assert(applied(rows[p + q + k], x, x.len()) == x[i]);
        }
        assert forall|i: int| 0 <= i < x.len() && (#[trigger] lb[i]).finite() implies value(lb[i])
            <= x[i] by {
            assert(below.contains(i as nat));
            let k = choose|k: int| 0 <= k < l && below[k] == i as nat;
            assert(applied(rows[p + q + u + k], x, x.len()) == -x[i]);
        }
    }
    if feasible(program, x) {
        assert forall|r: int| 0 <= r < rows.len() implies ({
            let left = value(values[r]) - applied(#[trigger] rows[r], x, x.len());
            if r < p {
                left == 0int as real
            } else {
                left >= 0int as real
            }
        }) by {
            if r < p {
                assert(rows[r] == program.a_eq@[r] && values[r] == program.b_eq@[r]);
            } else if r < p + q {
                assert(rows[r] == program.a_in@[r - p] && values[r] == program.b_in@[r - p]);
            } else if r < p + q + u {
                let k = r - p - q;
                assert(rows[p + q + k] == rows[r]);
                assert(above[k] < ub.len() && ub[above[k] as int].finite());
            } else {
                let k = r - p - q - u;
                assert(rows[p + q + u + k] == rows[r]);
                assert(below[k] < lb.len() && lb[below[k] as int].finite());
            }
        }
    }
}

} // verus!
