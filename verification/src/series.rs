//! Sums of series, added up in order.

use crate::double::Double;
use vstd::prelude::*;

verus! {

/// The sum of a series, added up in order.
pub open spec fn total(values: Seq<Double>) -> Double
    decreases values.len(),
{
    if values.len() == 0 {
        Double { bits: 0 }
    } else {
        total(values.drop_last()).sum(values.last())
    }
}

/// The sum of the squares of a series.
pub open spec fn square_sum(values: Seq<Double>) -> Double {
    total(Seq::new(values.len(), |i: int| values[i].product(values[i])))
}

/// One more term.
pub proof fn lemma_total_push(values: Seq<Double>, value: Double)
    ensures
        total(values.push(value)) == total(values).sum(value),
{
    assert(values.push(value).drop_last() =~= values);
}

/// The sum of a series.
pub fn total_of(values: &Vec<Double>) -> (result: Double)
    ensures
        result == total(values@),
{
    let mut result: Double = Double { bits: 0 };
    let mut i: usize = 0;
    assert(values@.take(0) =~= Seq::<Double>::empty());
    while i < values.len()
        invariant
            i <= values@.len(),
            result == total(values@.take(i as int)),
        decreases values@.len() - i,
    {
        proof {
            lemma_total_push(values@.take(i as int), values@[i as int]);
            assert(values@.take(i + 1) =~= values@.take(i as int).push(values@[i as int]));
        }
        result = result.plus(values[i]);
        i = i + 1;
    }
    assert(values@.take(i as int) =~= values@);
    result
}

/// The sum of the squares of a series.
pub fn square_sum_of(values: &Vec<Double>) -> (result: Double)
    ensures
        result == square_sum(values@),
{
    let mut terms: Vec<Double> = Vec::new();
    let mut i: usize = 0;
    while i < values.len()
        invariant
            i <= values@.len(),
            terms@.len() == i,
            forall|j: int| 0 <= j < i ==> #[trigger] terms@[j] == values@[j].product(values@[j]),
        decreases values@.len() - i,
    {
        terms.push(values[i].times(values[i]));
        i = i + 1;
    }
    assert(terms@ =~= Seq::new(values@.len(), |i: int| values@[i].product(values@[i])));
    total_of(&terms)
}

} // verus!
