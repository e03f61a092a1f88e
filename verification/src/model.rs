//! The mathematical model of the product enumeration.
//!
//! The full enumeration of a list of inputs is a sequence of tuples,
//! built input by input so that the last input is the fastest-varying
//! position. A position inside the enumeration is described by one digit
//! per input (the index of the element that input currently contributes),
//! and `rank_k` turns such digits into the index of the corresponding
//! tuple inside the enumeration — ordinary mixed-radix counting.

use vstd::prelude::*;

verus! {

/// Product of the first `k` entries of `lens`; `1` when `k <= 0`.
pub open spec fn prod_k(lens: Seq<int>, k: int) -> int
    decreases k,
{
    if k <= 0 {
        1
    } else {
        prod_k(lens, k - 1) * lens[k - 1]
    }
}

/// The first `k` digits read as a mixed-radix number whose radix at
/// position `i` is `lens[i]`; digit `0` is the most significant.
pub open spec fn rank_k(digits: Seq<int>, lens: Seq<int>, k: int) -> int
    decreases k,
{
    if k <= 0 {
        0
    } else {
        rank_k(digits, lens, k - 1) * lens[k - 1] + digits[k - 1]
    }
}

/// Every one of the first `k` digits is in range for its radix.
pub open spec fn digits_ok(digits: Seq<int>, lens: Seq<int>, k: int) -> bool {
    forall|i: int| 0 <= i < k ==> 0 <= #[trigger] digits[i] && digits[i] < lens[i]
}

/// The lengths of the inputs, as a sequence of radixes.
pub open spec fn lens_of<T>(inputs: Seq<Seq<T>>) -> Seq<int> {
    Seq::new(inputs.len(), |i: int| inputs[i].len() as int)
}

/// Extends each tuple of `tuples` with each element of `items`, keeping
/// the tuples' order and letting the new position vary fastest.
pub open spec fn extend_product<T>(tuples: Seq<Seq<T>>, items: Seq<T>) -> Seq<Seq<T>>
    decreases tuples.len(),
{
    if tuples.len() == 0 {
        Seq::empty()
    } else {
        items.map(|j: int, x: T| tuples.first().push(x)) + extend_product(
            tuples.drop_first(),
            items,
        )
    }
}

/// The enumeration of all tuples drawn from the first `k` inputs, in
/// mixed-radix order (input `k - 1` fastest-varying).
pub open spec fn product_prefix<T>(inputs: Seq<Seq<T>>, k: int) -> Seq<Seq<T>>
    decreases k,
{
    if k <= 0 {
        seq![Seq::<T>::empty()]
    } else {
        extend_product(product_prefix(inputs, k - 1), inputs[k - 1])
    }
}

/// The full enumeration: every tuple that picks one element from each
/// input, the last input varying fastest.
pub open spec fn product_seq<T>(inputs: Seq<Seq<T>>) -> Seq<Seq<T>> {
    product_prefix(inputs, inputs.len() as int)
}

/// The tuple whose entry at each position `i < k` is the element of
/// `inputs[i]` selected by `digits[i]`.
pub open spec fn tuple_k<T>(inputs: Seq<Seq<T>>, digits: Seq<int>, k: int) -> Seq<T>
    decreases k,
{
    if k <= 0 {
        Seq::empty()
    } else {
        tuple_k(inputs, digits, k - 1).push(inputs[k - 1][digits[k - 1]])
    }
}

/// How many tuples remain when each of the first `k` positions still has
/// `lens[i] - 1 - digits[i]` elements left in its live pass: the Horner
/// form of `prod_k - rank_k - 1`.
pub(crate) open spec fn rem_k(digits: Seq<int>, lens: Seq<int>, k: int) -> int
    decreases k,
{
    if k <= 0 {
        0
    } else {
        rem_k(digits, lens, k - 1) * lens[k - 1] + (lens[k - 1] - 1 - digits[k - 1])
    }
}

pub(crate) proof fn lemma_prod_k_zero(lens: Seq<int>, k: int, i: int)
    requires
        0 <= i < k,
        lens[i] == 0,
    ensures
        prod_k(lens, k) == 0,
    decreases k,
{
    if i < k - 1 {
        lemma_prod_k_zero(lens, k - 1, i);
    }
}

pub(crate) proof fn lemma_prod_k_pos(lens: Seq<int>, k: int)
    requires
        forall|i: int| 0 <= i < k ==> #[trigger] lens[i] >= 1,
    ensures
        prod_k(lens, k) >= 1,
    decreases k,
{
    if k > 0 {
        lemma_prod_k_pos(lens, k - 1);
        assert(prod_k(lens, k - 1) * lens[k - 1] >= 1) by (nonlinear_arith)
            requires
                prod_k(lens, k - 1) >= 1,
                lens[k - 1] >= 1,
        ;
    }
}

pub(crate) proof fn lemma_prod_k_monotone(lens: Seq<int>, k1: int, k2: int)
    requires
        0 <= k1 <= k2,
        forall|i: int| 0 <= i < k2 ==> #[trigger] lens[i] >= 1,
    ensures
        1 <= prod_k(lens, k1) <= prod_k(lens, k2),
    decreases k2 - k1,
{
    lemma_prod_k_pos(lens, k1);
    if k1 < k2 {
        lemma_prod_k_monotone(lens, k1, k2 - 1);
        assert(prod_k(lens, k2 - 1) * lens[k2 - 1] >= prod_k(lens, k2 - 1)) by (nonlinear_arith)
            requires
                prod_k(lens, k2 - 1) >= 1,
                lens[k2 - 1] >= 1,
        ;
    }
}

pub(crate) proof fn lemma_rank_k_zero(digits: Seq<int>, lens: Seq<int>, k: int)
    requires
        forall|i: int| 0 <= i < k ==> #[trigger] digits[i] == 0,
    ensures
        rank_k(digits, lens, k) == 0,
    decreases k,
{
    if k > 0 {
        lemma_rank_k_zero(digits, lens, k - 1);
    }
}

pub(crate) proof fn lemma_rank_k_bounds(digits: Seq<int>, lens: Seq<int>, k: int)
    requires
        k >= 0,
        digits_ok(digits, lens, k),
    ensures
        0 <= rank_k(digits, lens, k) <= prod_k(lens, k) - 1,
    decreases k,
{
    if k > 0 {
        lemma_rank_k_bounds(digits, lens, k - 1);
        let r = rank_k(digits, lens, k - 1);
        let p = prod_k(lens, k - 1);
        assert(0 <= r * lens[k - 1] + digits[k - 1] <= p * lens[k - 1] - 1) by (nonlinear_arith)
            requires
                0 <= r <= p - 1,
                0 <= digits[k - 1] < lens[k - 1],
        ;
    }
}

pub(crate) proof fn lemma_rank_k_congruent(d1: Seq<int>, d2: Seq<int>, lens: Seq<int>, k: int)
    requires
        forall|i: int| 0 <= i < k ==> #[trigger] d1[i] == d2[i],
    ensures
        rank_k(d1, lens, k) == rank_k(d2, lens, k),
    decreases k,
{
    if k > 0 {
        lemma_rank_k_congruent(d1, d2, lens, k - 1);
    }
}

pub(crate) proof fn lemma_rank_k_maxed(digits: Seq<int>, lens: Seq<int>, k: int)
    requires
        k >= 0,
        forall|i: int| 0 <= i < k ==> #[trigger] digits[i] == lens[i] - 1 && lens[i] >= 1,
    ensures
        rank_k(digits, lens, k) == prod_k(lens, k) - 1,
    decreases k,
{
    if k > 0 {
        lemma_rank_k_maxed(digits, lens, k - 1);
        let p = prod_k(lens, k - 1);
        let l = lens[k - 1];
        assert((p - 1) * l + (l - 1) == p * l - 1) by (nonlinear_arith);
    }
}

pub(crate) proof fn lemma_rank_k_below_max(digits: Seq<int>, lens: Seq<int>, k: int, i: int)
    requires
        digits_ok(digits, lens, k),
        0 <= i < k,
        digits[i] < lens[i] - 1,
    ensures
        rank_k(digits, lens, k) < prod_k(lens, k) - 1,
    decreases k,
{
    let r = rank_k(digits, lens, k - 1);
    let p = prod_k(lens, k - 1);
    let l = lens[k - 1];
    let d = digits[k - 1];
    lemma_rank_k_bounds(digits, lens, k - 1);
    if i == k - 1 {
        assert(r * l + d < p * l - 1) by (nonlinear_arith)
            requires
                0 <= r <= p - 1,
                0 <= d,
                d < l - 1,
        ;
    } else {
        lemma_rank_k_below_max(digits, lens, k - 1, i);
        assert(r * l + d < p * l - 1) by (nonlinear_arith)
            requires
                0 <= r,
                r <= p - 2,
                0 <= d,
                d < l,
                l >= 1,
        ;
    }
}

/// Carrying an odometer: if every digit after position `i` is maxed and
/// digit `i` can still grow, then raising digit `i` by one and zeroing
/// everything after it moves the rank forward by exactly one.
pub(crate) proof fn lemma_rank_k_increment(d1: Seq<int>, d2: Seq<int>, lens: Seq<int>, k: int, i: int)
    requires
        digits_ok(d1, lens, k),
        0 <= i < k,
        d1[i] + 1 < lens[i],
        forall|j: int| i < j < k ==> #[trigger] d1[j] == lens[j] - 1,
        forall|j: int| 0 <= j < i ==> #[trigger] d2[j] == d1[j],
        d2[i] == d1[i] + 1,
        forall|j: int| i < j < k ==> #[trigger] d2[j] == 0,
    ensures
        digits_ok(d2, lens, k),
        rank_k(d2, lens, k) == rank_k(d1, lens, k) + 1,
    decreases k,
{
    assert forall|j: int| 0 <= j < k implies 0 <= #[trigger] d2[j] && d2[j] < lens[j] by {
        if j < i {
            assert(d2[j] == d1[j]);
            assert(0 <= d1[j] && d1[j] < lens[j]);
        } else if j > i {
            assert(d2[j] == 0);
            assert(0 <= d1[j] && d1[j] < lens[j]);
        }
    }
    if i == k - 1 {
        lemma_rank_k_congruent(d1, d2, lens, k - 1);
    } else {
        lemma_rank_k_increment(d1, d2, lens, k - 1, i);
        let r = rank_k(d1, lens, k - 1);
        let l = lens[k - 1];
        assert(d1[k - 1] == lens[k - 1] - 1);
        assert(d2[k - 1] == 0);
        assert((r + 1) * l == r * l + l) by (nonlinear_arith);
    }
}

pub(crate) proof fn lemma_rem_k_nonneg(digits: Seq<int>, lens: Seq<int>, k: int)
    requires
        k >= 0,
        digits_ok(digits, lens, k),
    ensures
        rem_k(digits, lens, k) >= 0,
    decreases k,
{
    if k > 0 {
        lemma_rem_k_nonneg(digits, lens, k - 1);
        assert(0 <= digits[k - 1] && digits[k - 1] < lens[k - 1]);
        assert(rem_k(digits, lens, k - 1) * lens[k - 1] >= 0) by (nonlinear_arith)
            requires
                rem_k(digits, lens, k - 1) >= 0,
                lens[k - 1] >= 1,
        ;
    }
}

/// The Horner accumulation over a prefix never exceeds its value over a
/// longer prefix.
pub(crate) proof fn lemma_rem_k_monotone(digits: Seq<int>, lens: Seq<int>, k1: int, k2: int)
    requires
        0 <= k1 <= k2,
        digits_ok(digits, lens, k2),
    ensures
        0 <= rem_k(digits, lens, k1) <= rem_k(digits, lens, k2),
    decreases k2 - k1,
{
    if k1 == k2 {
        lemma_rem_k_nonneg(digits, lens, k1);
    } else {
        lemma_rem_k_monotone(digits, lens, k1, k2 - 1);
        let r = rem_k(digits, lens, k2 - 1);
        assert(r * lens[k2 - 1] + (lens[k2 - 1] - 1 - digits[k2 - 1]) >= r) by (nonlinear_arith)
            requires
                r >= 0,
                0 <= digits[k2 - 1] < lens[k2 - 1],
        ;
    }
}

/// The Horner accumulation of the live remainders counts exactly the
/// tuples after the current one.
pub(crate) proof fn lemma_rem_k_counts(digits: Seq<int>, lens: Seq<int>, k: int)
    requires
        k >= 0,
        digits_ok(digits, lens, k),
    ensures
        rem_k(digits, lens, k) == prod_k(lens, k) - rank_k(digits, lens, k) - 1,
    decreases k,
{
    if k > 0 {
        lemma_rem_k_counts(digits, lens, k - 1);
        let p = prod_k(lens, k - 1);
        let r = rank_k(digits, lens, k - 1);
        let l = lens[k - 1];
        let d = digits[k - 1];
        assert((p - r - 1) * l + (l - 1 - d) == p * l - (r * l + d) - 1) by (nonlinear_arith);
    }
}

pub(crate) proof fn lemma_extend_product_len<T>(tuples: Seq<Seq<T>>, items: Seq<T>)
    ensures
        extend_product(tuples, items).len() == tuples.len() * items.len(),
    decreases tuples.len(),
{
    if tuples.len() > 0 {
        lemma_extend_product_len(tuples.drop_first(), items);
        let t = tuples.len() as int;
        let m = items.len() as int;
        assert(m + (t - 1) * m == t * m) by (nonlinear_arith);
    }
}

pub(crate) proof fn lemma_extend_product_index<T>(tuples: Seq<Seq<T>>, items: Seq<T>, q: int, r: int)
    requires
        0 <= q < tuples.len(),
        0 <= r < items.len(),
    ensures
        extend_product(tuples, items)[q * items.len() + r] == tuples[q].push(items[r]),
    decreases q,
{
    let m = items.len() as int;
    let mapped = items.map(|j: int, x: T| tuples.first().push(x));
    let rest = extend_product(tuples.drop_first(), items);
    assert(extend_product(tuples, items) == mapped + rest);
    assert(mapped.len() == m);
    if q == 0 {
        assert((mapped + rest)[r] == mapped[r]);
        assert(mapped[r] == tuples.first().push(items[r]));
    } else {
        lemma_extend_product_index(tuples.drop_first(), items, q - 1, r);
        lemma_extend_product_len(tuples.drop_first(), items);
        assert(q * m + r - m == (q - 1) * m + r) by (nonlinear_arith);
        assert(q * m + r >= m) by (nonlinear_arith)
            requires
                q >= 1,
                m >= 1,
                r >= 0,
        ;
        let t = tuples.len() as int;
        assert(0 <= (q - 1) * m + r < (t - 1) * m) by (nonlinear_arith)
            requires
                0 <= q - 1,
                q - 1 <= t - 2,
                0 <= r,
                r < m,
        ;
        assert(rest.len() == (t - 1) * m);
        assert((mapped + rest)[q * m + r] == rest[q * m + r - m]);
        assert(tuples.drop_first()[q - 1] == tuples[q]);
    }
}

pub(crate) proof fn lemma_tuple_k_props<T>(inputs: Seq<Seq<T>>, digits: Seq<int>, k: int)
    requires
        k >= 0,
    ensures
        tuple_k(inputs, digits, k).len() == k,
        forall|j: int| 0 <= j < k ==> #[trigger] tuple_k(inputs, digits, k)[j] == inputs[j][digits[j]],
    decreases k,
{
    if k > 0 {
        lemma_tuple_k_props(inputs, digits, k - 1);
    }
}

pub(crate) proof fn lemma_product_prefix_len<T>(inputs: Seq<Seq<T>>, k: int)
    requires
        0 <= k <= inputs.len(),
    ensures
        product_prefix(inputs, k).len() == prod_k(lens_of(inputs), k),
    decreases k,
{
    if k > 0 {
        lemma_product_prefix_len(inputs, k - 1);
        lemma_extend_product_len(product_prefix(inputs, k - 1), inputs[k - 1]);
    }
}

/// The tuple standing at index `rank_k(digits, ..)` of the enumeration is
/// the one selected positionwise by `digits`.
pub(crate) proof fn lemma_product_prefix_index<T>(inputs: Seq<Seq<T>>, digits: Seq<int>, k: int)
    requires
        0 <= k <= inputs.len(),
        digits_ok(digits, lens_of(inputs), k),
    ensures
        0 <= rank_k(digits, lens_of(inputs), k) < product_prefix(inputs, k).len(),
        product_prefix(inputs, k)[rank_k(digits, lens_of(inputs), k)] == tuple_k(
            inputs,
            digits,
            k,
        ),
    decreases k,
{
    let lens = lens_of(inputs);
    lemma_product_prefix_len(inputs, k);
    lemma_rank_k_bounds(digits, lens, k);
    if k > 0 {
        lemma_product_prefix_index(inputs, digits, k - 1);
        lemma_product_prefix_len(inputs, k - 1);
        lemma_rank_k_bounds(digits, lens, k - 1);
        lemma_extend_product_index(
            product_prefix(inputs, k - 1),
            inputs[k - 1],
            rank_k(digits, lens, k - 1),
            digits[k - 1],
        );
    }
}

/// Law: the number of output tuples is the product of the input sizes;
/// it is zero as soon as one input is empty, and one when there are no
/// inputs at all (the single empty tuple).
pub proof fn lemma_product_count<T>(inputs: Seq<Seq<T>>)
    ensures
        product_seq(inputs).len() == prod_k(lens_of(inputs), inputs.len() as int),
        (exists|i: int|
            0 <= i < inputs.len() && #[trigger] inputs[i].len() == 0) ==> product_seq(
            inputs,
        ).len() == 0,
        inputs.len() == 0 ==> product_seq(inputs).len() == 1,
{
    lemma_product_prefix_len(inputs, inputs.len() as int);
    if exists|i: int| 0 <= i < inputs.len() && #[trigger] inputs[i].len() == 0 {
        let i = choose|i: int| 0 <= i < inputs.len() && #[trigger] inputs[i].len() == 0;
        lemma_prod_k_zero(lens_of(inputs), inputs.len() as int, i);
    }
}

/// Law: the enumeration is in standard mixed-radix order with the last
/// input as the fastest-varying position: the tuple at index
/// `rank_k(digits, ..)` picks element `digits[i]` from input `i`.
pub proof fn lemma_mixed_radix_order<T>(inputs: Seq<Seq<T>>, digits: Seq<int>)
    requires
        digits_ok(digits, lens_of(inputs), inputs.len() as int),
    ensures
        0 <= rank_k(digits, lens_of(inputs), inputs.len() as int) < product_seq(inputs).len(),
        product_seq(inputs)[rank_k(digits, lens_of(inputs), inputs.len() as int)] == Seq::new(
            inputs.len(),
            (|i: int| inputs[i][digits[i]]),
        ),
{
    let n = inputs.len() as int;
    lemma_product_prefix_index(inputs, digits, n);
    lemma_tuple_k_props(inputs, digits, n);
    assert(tuple_k(inputs, digits, n) =~= Seq::new(inputs.len(), (|i: int| inputs[i][digits[i]])));
}

} // verus!
