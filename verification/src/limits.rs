//! Joint limits: what keeps them, and moving a configuration into them.

use crate::double::Double;
use vstd::prelude::*;

verus! {

/// Whether every lower limit is at most its upper limit.
pub open spec fn ordered(lower: Seq<Double>, upper: Seq<Double>) -> bool {
    &&& lower.len() == upper.len()
    &&& forall|j: int| 0 <= j < lower.len() ==> (#[trigger] lower[j]).at_most(upper[j])
}

/// A configuration moved into the joint limits.
pub open spec fn within_limits(
    knot: Seq<Double>,
    lower: Seq<Double>,
    upper: Seq<Double>,
) -> Seq<Double> {
    Seq::new(knot.len(), |j: int| knot[j].clamped(lower[j], upper[j]))
}

/// Whether a joint value keeps its limits. What is not a number cannot.
pub open spec fn limited(value: Double, lower: Double, upper: Double) -> bool {
    value.nan() || (lower.at_most(value) && value.at_most(upper))
}

/// Whether all knots keep the joint limits.
pub open spec fn knots_limited(
    knots: Seq<Vec<Double>>,
    lower: Seq<Double>,
    upper: Seq<Double>,
) -> bool {
    forall|k: int, j: int|
        0 <= k < knots.len() && 0 <= j < lower.len() ==> limited(
            #[trigger] knots[k]@[j],
            lower[j],
            upper[j],
        )
}

/// A clamped value keeps its limits exactly.
pub proof fn lemma_clamped_is_limited(value: Double, lower: Double, upper: Double)
    requires
        lower.at_most(upper),
    ensures
        limited(value.clamped(lower, upper), lower, upper),
{
}

/// Moves a configuration into the joint limits.
pub fn clamp_to_limits(knot: &Vec<Double>, lower: &Vec<Double>, upper: &Vec<Double>) -> (result:
    Vec<Double>)
    requires
        ordered(lower@, upper@),
        knot@.len() == lower@.len(),
    ensures
        result@ == within_limits(knot@, lower@, upper@),
{
    let mut result: Vec<Double> = Vec::new();
    let mut j: usize = 0;
    while j < knot.len()
        invariant
            j <= knot@.len(),
            ordered(lower@, upper@),
            knot@.len() == lower@.len(),
            result@.len() == j,
            forall|i: int|
                0 <= i < j ==> #[trigger] result@[i] == knot@[i].clamped(lower@[i], upper@[i]),
        decreases knot@.len() - j,
    {
        result.push(knot[j].clamp(lower[j], upper[j]));
        j = j + 1;
    }
    assert(result@ =~= within_limits(knot@, lower@, upper@));
    result
}

} // verus!
