use vstd::prelude::*;

verus! {

/// The sum of the terms of a sequence.
pub open spec fn sum(terms: Seq<int>) -> int
    decreases terms.len(),
{
    if terms.len() == 0 {
        0
    } else {
        sum(terms.drop_last()) + terms.last()
    }
}

/// No term is negative.
pub open spec fn all_nonnegative(terms: Seq<int>) -> bool {
    forall|i: int| 0 <= i < terms.len() ==> 0 <= #[trigger] terms[i]
}

/// The squares of the terms.
pub open spec fn squares(terms: Seq<int>) -> Seq<int> {
    Seq::new(terms.len(), |i: int| terms[i] * terms[i])
}

/// The products of the terms at equal positions.
pub open spec fn products(a: Seq<int>, b: Seq<int>) -> Seq<int> {
    Seq::new(a.len(), |i: int| a[i] * b[i])
}

/// A further term adds to the sum.
pub proof fn lemma_sum_push(terms: Seq<int>, last: int)
    ensures
        sum(terms.push(last)) == sum(terms) + last,
{
    assert(terms.push(last).drop_last() =~= terms);
}

/// Replacing a term changes the sum by the difference of the two terms.
pub proof fn lemma_sum_update(terms: Seq<int>, index: int, term: int)
    requires
        0 <= index < terms.len(),
    ensures
        sum(terms.update(index, term)) == sum(terms) - terms[index] + term,
    decreases terms.len(),
{
    if index == terms.len() - 1 {
        assert(terms.update(index, term).drop_last() =~= terms.drop_last());
    } else {
        assert(terms.update(index, term).drop_last() =~= terms.drop_last().update(index, term));
        lemma_sum_update(terms.drop_last(), index, term);
    }
}

/// Moving the last term into the slot at `index` takes the term at `index`
/// out of the sum.
pub proof fn lemma_sum_swap_remove(terms: Seq<int>, index: int)
    requires
        0 <= index < terms.len(),
    ensures
        sum(terms.update(index, terms.last()).drop_last()) == sum(terms) - terms[index],
{
    lemma_sum_update(terms, index, terms.last());
}

/// Swapping two terms leaves the sum as it is.
pub proof fn lemma_sum_swap(terms: Seq<int>, i: int, j: int)
    requires
        0 <= i < terms.len(),
        0 <= j < terms.len(),
    ensures
        sum(terms.update(i, terms[j]).update(j, terms[i])) == sum(terms),
{
    lemma_sum_update(terms, i, terms[j]);
    lemma_sum_update(terms.update(i, terms[j]), j, terms[i]);
}

/// The sum of the first terms grows by the next term when that is taken in.
pub proof fn lemma_sum_take_next(terms: Seq<int>, count: int)
    requires
        0 <= count < terms.len(),
    ensures
        sum(terms.take(count + 1)) == sum(terms.take(count)) + terms[count],
{
    assert(terms.take(count + 1).drop_last() =~= terms.take(count));
}

/// With no negative term, the sum is not negative and no part of the sequence
/// sums to more than the whole.
pub proof fn lemma_sum_nonnegative(terms: Seq<int>)
    requires
        all_nonnegative(terms),
    ensures
        0 <= sum(terms),
        forall|i: int| 0 <= i < terms.len() ==> #[trigger] terms[i] <= sum(terms),
        forall|count: int|
            0 <= count <= terms.len() ==> 0 <= #[trigger] sum(terms.take(count)) <= sum(terms),
    decreases terms.len(),
{
    if terms.len() == 0 {
        assert forall|count: int| 0 <= count <= terms.len() implies 0 <= #[trigger] sum(
            terms.take(count),
        ) <= sum(terms) by {
            assert(terms.take(count) =~= terms);
        }
    } else {
        let front = terms.drop_last();
        lemma_sum_nonnegative(front);
        assert forall|i: int| 0 <= i < terms.len() implies #[trigger] terms[i] <= sum(terms) by {
            if i < front.len() {
                assert(front[i] == terms[i]);
            }
        }
        assert forall|count: int| 0 <= count <= terms.len() implies 0 <= #[trigger] sum(
            terms.take(count),
        ) <= sum(terms) by {
            if count == terms.len() {
                assert(terms.take(count) =~= terms);
            } else {
                assert(terms.take(count) =~= front.take(count));
            }
        }
    }
}

/// Where each term of `a` is at most the term of `b` at its position, the sum
/// of `a` is at most that of `b`.
pub proof fn lemma_sum_monotone(a: Seq<int>, b: Seq<int>)
    requires
        a.len() == b.len(),
        forall|i: int| 0 <= i < a.len() ==> #[trigger] a[i] <= b[i],
    ensures
        sum(a) <= sum(b),
    decreases a.len(),
{
    if a.len() > 0 {
        assert(a.last() <= b.last());
        lemma_sum_monotone(a.drop_last(), b.drop_last());
    }
}

/// A sum of terms that are each at most `bound` is at most `bound` times the
/// number of terms.
pub proof fn lemma_sum_bounded(terms: Seq<int>, bound: int)
    requires
        forall|i: int| 0 <= i < terms.len() ==> #[trigger] terms[i] <= bound,
    ensures
        sum(terms) <= terms.len() * bound,
    decreases terms.len(),
{
    if terms.len() > 0 {
        lemma_sum_bounded(terms.drop_last(), bound);
        assert(terms.last() <= bound);
        assert((terms.len() - 1) * bound + bound == terms.len() * bound) by (nonlinear_arith);
    } else {
        assert(terms.len() * bound == 0) by (nonlinear_arith)
            requires
                terms.len() == 0,
        ;
    }
}

/// A sum of terms that are each at least `bound` is at least `bound` times the
/// number of terms.
pub proof fn lemma_sum_at_least(terms: Seq<int>, bound: int)
    requires
        forall|i: int| 0 <= i < terms.len() ==> bound <= #[trigger] terms[i],
    ensures
        terms.len() * bound <= sum(terms),
    decreases terms.len(),
{
    if terms.len() > 0 {
        lemma_sum_at_least(terms.drop_last(), bound);
        assert(bound <= terms.last());
        assert((terms.len() - 1) * bound + bound == terms.len() * bound) by (nonlinear_arith);
    } else {
        assert(terms.len() * bound == 0) by (nonlinear_arith)
            requires
                terms.len() == 0,
        ;
    }
}

/// For terms that are not negative, the sum of the products of two sequences
/// is at most the product of their sums.
pub proof fn lemma_sum_products(a: Seq<int>, b: Seq<int>)
    requires
        a.len() == b.len(),
        all_nonnegative(a),
        all_nonnegative(b),
    ensures
        0 <= sum(products(a, b)) <= sum(a) * sum(b),
    decreases a.len(),
{
    if a.len() == 0 {
        assert(sum(a) * sum(b) == 0) by (nonlinear_arith)
            requires
                sum(a) == 0,
        ;
    } else {
        let fa = a.drop_last();
        let fb = b.drop_last();
        assert(products(a, b).drop_last() =~= products(fa, fb));
        lemma_sum_products(fa, fb);
        lemma_sum_nonnegative(fa);
        lemma_sum_nonnegative(fb);
        let sa = sum(fa);
        let sb = sum(fb);
        let x = a.last();
        let y = b.last();
        let sp = sum(products(fa, fb));
        assert(products(a, b).last() == x * y);
        assert(0 <= sp + x * y <= (sa + x) * (sb + y)) by (nonlinear_arith)
            requires
                0 <= sp <= sa * sb,
                0 <= sa,
                0 <= sb,
                0 <= x,
                0 <= y,
        ;
    }
}

/// For terms that are not negative, the sum of their squares is at most the
/// square of their sum.
pub proof fn lemma_sum_squares(terms: Seq<int>)
    requires
        all_nonnegative(terms),
    ensures
        all_nonnegative(squares(terms)),
        0 <= sum(squares(terms)) <= sum(terms) * sum(terms),
{
    assert(squares(terms) =~= products(terms, terms));
    lemma_sum_products(terms, terms);
    assert forall|i: int| 0 <= i < squares(terms).len() implies 0 <= #[trigger] squares(
        terms,
    )[i] by {
        assert(0 <= terms[i]);
        assert(0 <= terms[i] * terms[i]) by (nonlinear_arith)
            requires
                0 <= terms[i],
        ;
    }
}

} // verus!
