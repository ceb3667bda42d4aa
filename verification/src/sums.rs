//! Sums of rounded terms next to the sums of the terms themselves.

use crate::double::Double;
use crate::error::{
    half_ulp, least, lemma_distributes, lemma_half_ulp, lemma_least, lemma_product_error,
    lemma_scaled_order, lemma_sum_error, lemma_value_of_zero, size, value,
};
use crate::finiteness::{lemma_parts_of_product, lemma_parts_of_sum};
use crate::products::{column_terms, gram, image_terms, transposed_image};
use crate::reals::{lemma_associates, lemma_commutes, lemma_one, lemma_zero};
use crate::rounding::TWO_53;
use crate::series::{square_sum, total};
use vstd::prelude::*;

verus! {

/// The sum of the first `count` terms.
pub open spec fn added(terms: Seq<real>, count: nat) -> real
    decreases count,
{
    if count == 0 {
        0int as real
    } else {
        added(terms, (count - 1) as nat) + terms[count - 1]
    }
}

/// The sum of the sizes of the first `count` terms.
pub open spec fn sizes_added(terms: Seq<real>, count: nat) -> real
    decreases count,
{
    if count == 0 {
        0int as real
    } else {
        sizes_added(terms, (count - 1) as nat) + size(terms[count - 1])
    }
}

/// How far a rounded sum of rounded terms can be from the sum of the terms.
pub open spec fn sum_rounding(terms: Seq<real>, count: nat) -> real {
    ((2 * count + 2) as real) * (half_ulp() * sizes_added(terms, count)) + ((2 * count) as real)
        * least()
}

/// Whether a rounded term is next to a term.
pub open spec fn rounds(rounded: Double, term: real) -> bool {
    size(value(rounded) - term) <= half_ulp() * size(term) + least()
}

/// One more term.
proof fn lemma_one_more_term(
    sum: Double,
    exact: real,
    sizes: real,
    rounded: Double,
    term: real,
    count: nat,
)
    requires
        count <= 1000000,
        sum.sum(rounded).finite(),
        rounds(rounded, term),
        size(exact) <= sizes,
        size(value(sum) - exact) <= ((2 * count + 2) as real) * (half_ulp() * sizes) + ((2
            * count) as real) * least(),
    ensures
        size(value(sum.sum(rounded)) - (exact + term)) <= ((2 * count + 4) as real) * (half_ulp()
            * (sizes + size(term))) + ((2 * count + 2) as real) * least(),
{
    lemma_half_ulp();
    lemma_least();
    let (h, l) = (half_ulp(), least());
    let m = (2 * count + 2) as real;
    let n = (2 * count) as real;
    let all = sizes + size(term);
    lemma_parts_of_sum(sum, rounded);
    lemma_sum_error(sum, rounded);
    lemma_distributes(h, sizes, size(term));
    let (hs, ht, ha) = (h * sizes, h * size(term), h * all);
    lemma_scaled_order(h, 0int as real, sizes);
    lemma_scaled_order(h, 0int as real, size(term));
    lemma_zero(h);
    lemma_scaled_order(m, hs, ha);
    // The sum before rounding.
    let before = value(sum) + value(rounded);
    lemma_distributes(m, hs, ht);
    lemma_scaled_order(ht, 1int as real, m);
    lemma_one(ht);
    lemma_commutes(ht, m);
    assert(size(before - (exact + term)) <= m * ha + (n + (1int as real)) * l) by {
        lemma_distributes(l, n, 1int as real);
        lemma_one(l);
        lemma_commutes(l, n);
        lemma_commutes(l, n + (1int as real));
    }
    let k = n + (1int as real);
    let bound = all + (m * ha + k * l);
    lemma_scaled_order(h, size(before), bound);
    lemma_distributes(h, all, m * ha + k * l);
    lemma_distributes(h, m * ha, k * l);
    // Products of roundings are small.
    lemma_associates(h, m, ha);
    let ten_million = 10000000int as real;
    lemma_commutes(h, TWO_53 as int as real);
    assert(TWO_53 as int as real == 9007199254740992int as real);
    assert(h * ten_million <= 1int as real);
    lemma_scaled_order(h, m, ten_million);
    lemma_scaled_order(ha, h * m, 1int as real);
    lemma_one(ha);
    lemma_commutes(ha, h * m);
    lemma_associates(h, k, l);
    lemma_scaled_order(h, k, ten_million);
    lemma_scaled_order(l, h * k, 1int as real);
    lemma_one(l);
    lemma_commutes(l, h * k);
    assert(size(value(sum.sum(rounded)) - (exact + term)) <= m * ha + k * l + ha + ha + l);
    let two = 2int as real;
    lemma_distributes(ha, m, two);
    lemma_commutes(ha, m);
    lemma_commutes(ha, two);
    lemma_commutes(ha, m + two);
    lemma_distributes(l, k, 1int as real);
    lemma_commutes(l, k);
    lemma_commutes(l, k + (1int as real));
}

/// A sum is no larger than its terms together.
pub proof fn lemma_added_size(terms: Seq<real>, count: nat)
    ensures
        size(added(terms, count)) <= sizes_added(terms, count),
    decreases count,
{
    if count > 0 {
        lemma_added_size(terms, (count - 1) as nat);
    }
}

/// Sums of the same terms are the same.
proof fn lemma_same_terms(terms: Seq<real>, others: Seq<real>, count: nat)
    requires
        forall|i: int| 0 <= i < count ==> terms[i] == others[i],
    ensures
        added(terms, count) == added(others, count),
        sizes_added(terms, count) == sizes_added(others, count),
    decreases count,
{
    if count > 0 {
        lemma_same_terms(terms, others, (count - 1) as nat);
    }
}

/// A rounded sum of up to a million rounded terms is the sum of the terms, up to a few
/// roundings of their sizes.
pub proof fn lemma_total_near(values: Seq<Double>, terms: Seq<real>)
    requires
        values.len() == terms.len(),
        values.len() <= 1000000,
        total(values).finite(),
        forall|i: int| 0 <= i < values.len() ==> rounds(#[trigger] values[i], terms[i]),
    ensures
        size(value(total(values)) - added(terms, terms.len())) <= sum_rounding(terms, terms.len()),
    decreases values.len(),
{
    if values.len() == 0 {
        lemma_value_of_zero(Double { bits: 0 });
        lemma_zero(half_ulp());
        lemma_zero(2int as real);
        lemma_zero(least());
        lemma_commutes(0int as real, least());
    } else {
        let (shorter, fewer) = (values.drop_last(), terms.drop_last());
        let count = shorter.len();
        lemma_parts_of_sum(total(shorter), values.last());
        assert forall|i: int| 0 <= i < shorter.len() implies rounds(
            #[trigger] shorter[i],
            fewer[i],
        ) by {
            assert(rounds(values[i], terms[i]));
        }
        assert(rounds(values[count as int], terms[count as int]));
        lemma_total_near(shorter, fewer);
        lemma_same_terms(fewer, terms, count);
        lemma_added_size(terms, count);
        lemma_one_more_term(
            total(shorter),
            added(terms, count),
            sizes_added(terms, count),
            values.last(),
            terms.last(),
            count,
        );
    }
}

/// A finite total has finite terms.
pub(crate) proof fn lemma_finite_terms(values: Seq<Double>, i: int)
    requires
        total(values).finite(),
        0 <= i < values.len(),
    ensures
        values[i].finite(),
    decreases values.len(),
{
    lemma_parts_of_sum(total(values.drop_last()), values.last());
    if i < values.len() - 1 {
        lemma_finite_terms(values.drop_last(), i);
    }
}

/// The product of two numbers, rounded.
pub(crate) proof fn lemma_product_rounds(a: Double, b: Double)
    requires
        a.product(b).finite(),
    ensures
        a.finite(),
        b.finite(),
        rounds(a.product(b), value(a) * value(b)),
{
    lemma_parts_of_product(a, b);
    lemma_product_error(a, b);
}

/// The squares of a series.
pub open spec fn squares(values: Seq<Double>) -> Seq<real> {
    Seq::new(values.len(), |i: int| value(values[i]) * value(values[i]))
}

/// Terms that are not negative are their own sizes, and none is above their sum.
pub proof fn lemma_positive_terms(terms: Seq<real>, count: nat)
    requires
        forall|i: int| 0 <= i < count ==> #[trigger] terms[i] >= 0int as real,
    ensures
        added(terms, count) == sizes_added(terms, count),
        added(terms, count) >= 0int as real,
        forall|i: int| 0 <= i < count ==> #[trigger] terms[i] <= added(terms, count),
    decreases count,
{
    if count > 0 {
        lemma_positive_terms(terms, (count - 1) as nat);
    }
}

/// The sum of the squares of a series, up to rounding.
pub proof fn lemma_square_sum_near(values: Seq<Double>)
    requires
        values.len() <= 1000000,
        square_sum(values).finite(),
    ensures
        forall|i: int| 0 <= i < values.len() ==> (#[trigger] values[i]).finite(),
        size(value(square_sum(values)) - added(squares(values), values.len())) <= sum_rounding(
            squares(values),
            values.len(),
        ),
{
    let products = Seq::new(values.len(), |i: int| values[i].product(values[i]));
    let terms = squares(values);
    assert forall|i: int| 0 <= i < products.len() implies rounds(#[trigger] products[i], terms[i])
        && values[i].finite() by {
        lemma_finite_terms(products, i);
        lemma_product_rounds(values[i], values[i]);
    }
    lemma_total_near(products, terms);
    assert forall|i: int| 0 <= i < values.len() implies (#[trigger] values[i]).finite() by {
        assert(rounds(products[i], terms[i]));
        lemma_finite_terms(products, i);
        lemma_product_rounds(values[i], values[i]);
    }
}

/// The products of the entries of two columns.
pub open spec fn column_products(rows: Seq<Seq<Double>>, a: int, b: int) -> Seq<real> {
    Seq::new(rows.len(), |r: int| value(rows[r][a]) * value(rows[r][b]))
}

/// An entry of a normal matrix is the inner product of two columns, up to rounding.
pub proof fn lemma_gram_near(rows: Seq<Seq<Double>>, n: nat, a: int, b: int)
    requires
        rows.len() <= 1000000,
        0 <= a < n,
        0 <= b < n,
        gram(rows, n)[a][b].finite(),
    ensures
        size(value(gram(rows, n)[a][b]) - added(column_products(rows, a, b), rows.len()))
            <= sum_rounding(column_products(rows, a, b), rows.len()),
{
    let products = column_terms(rows, a, b);
    let terms = column_products(rows, a, b);
    assert forall|i: int| 0 <= i < products.len() implies rounds(
        #[trigger] products[i],
        terms[i],
    ) by {
        lemma_finite_terms(products, i);
        lemma_product_rounds(rows[i][a], rows[i][b]);
    }
    lemma_total_near(products, terms);
}

/// The products of the entries of a column and a vector.
pub open spec fn image_products(rows: Seq<Seq<Double>>, v: Seq<Double>, column: int) -> Seq<real> {
    Seq::new(rows.len(), |r: int| value(rows[r][column]) * value(v[r]))
}

/// An entry of the image of a vector under the transpose is the inner product of a column
/// and the vector, up to rounding.
pub proof fn lemma_transposed_image_near(rows: Seq<Seq<Double>>, n: nat, v: Seq<Double>, column: int)
    requires
        rows.len() <= 1000000,
        0 <= column < n,
        transposed_image(rows, n, v)[column].finite(),
    ensures
        size(value(transposed_image(rows, n, v)[column]) - added(
            image_products(rows, v, column),
            rows.len(),
        )) <= sum_rounding(image_products(rows, v, column), rows.len()),
{
    let products = image_terms(rows, v, column);
    let terms = image_products(rows, v, column);
    assert forall|i: int| 0 <= i < products.len() implies rounds(
        #[trigger] products[i],
        terms[i],
    ) by {
        lemma_finite_terms(products, i);
        lemma_product_rounds(rows[i][column], v[i]);
    }
    lemma_total_near(products, terms);
}

} // verus!
