//! Counting the members of a sequence that have a property.

use vstd::prelude::*;

verus! {

/// How many positions of `items` hold a value with the property `p`.
pub open spec fn tally<A>(items: Seq<A>, p: spec_fn(A) -> bool) -> nat
    decreases items.len(),
{
    if items.len() == 0 {
        0
    } else {
        tally(items.drop_last(), p) + (if p(items.last()) {
            1nat
        } else {
            0nat
        })
    }
}

/// A tally never exceeds the number of items.
pub proof fn lemma_tally_bound<A>(items: Seq<A>, p: spec_fn(A) -> bool)
    ensures
        tally(items, p) <= items.len(),
    decreases items.len(),
{
    if items.len() > 0 {
        lemma_tally_bound(items.drop_last(), p);
    }
}

/// Properties that agree on every item have the same tally.
pub proof fn lemma_tally_same<A>(items: Seq<A>, p: spec_fn(A) -> bool, q: spec_fn(A) -> bool)
    requires
        forall|i: int| 0 <= i < items.len() ==> p(#[trigger] items[i]) == q(items[i]),
    ensures
        tally(items, p) == tally(items, q),
    decreases items.len(),
{
    if items.len() > 0 {
        let front = items.drop_last();
        assert forall|i: int| 0 <= i < front.len() implies p(#[trigger] front[i]) == q(front[i]) by {
            assert(front[i] == items[i]);
        }
        assert(p(items[items.len() - 1]) == q(items[items.len() - 1]));
        lemma_tally_same(front, p, q);
    }
}

/// A tally is at most that of a weaker property.
pub proof fn lemma_tally_weaken<A>(items: Seq<A>, p: spec_fn(A) -> bool, q: spec_fn(A) -> bool)
    requires
        forall|i: int| 0 <= i < items.len() && p(#[trigger] items[i]) ==> q(items[i]),
    ensures
        tally(items, p) <= tally(items, q),
    decreases items.len(),
{
    if items.len() > 0 {
        let front = items.drop_last();
        assert forall|i: int| 0 <= i < front.len() && p(#[trigger] front[i]) implies q(front[i]) by {
            assert(front[i] == items[i]);
        }
        assert(p(items[items.len() - 1]) ==> q(items[items.len() - 1]));
        lemma_tally_weaken(front, p, q);
    }
}

/// An item with the property makes the tally positive.
pub proof fn lemma_tally_positive<A>(items: Seq<A>, p: spec_fn(A) -> bool, i: int)
    requires
        0 <= i < items.len(),
        p(items[i]),
    ensures
        tally(items, p) >= 1,
    decreases items.len(),
{
    if i < items.len() - 1 {
        assert(items.drop_last()[i] == items[i]);
        lemma_tally_positive(items.drop_last(), p, i);
    }
}

/// A positive tally has a witness.
pub proof fn lemma_tally_witness<A>(items: Seq<A>, p: spec_fn(A) -> bool) -> (i: int)
    requires
        tally(items, p) >= 1,
    ensures
        0 <= i < items.len(),
        p(items[i]),
    decreases items.len(),
{
    if p(items.last()) {
        items.len() - 1
    } else {
        let i = lemma_tally_witness(items.drop_last(), p);
        assert(items.drop_last()[i] == items[i]);
        i
    }
}

/// Two positions with the property make the tally at least two.
pub proof fn lemma_tally_two<A>(items: Seq<A>, p: spec_fn(A) -> bool, i: int, j: int)
    requires
        0 <= i < j < items.len(),
        p(items[i]),
        p(items[j]),
    ensures
        tally(items, p) >= 2,
    decreases items.len(),
{
    let front = items.drop_last();
    assert(front[i] == items[i]);
    if j < items.len() - 1 {
        assert(front[j] == items[j]);
        lemma_tally_two(front, p, i, j);
    } else {
        lemma_tally_positive(front, p, i);
    }
}

/// With a tally of one, all positions with the property are the same position.
pub proof fn lemma_tally_single<A>(items: Seq<A>, p: spec_fn(A) -> bool, i: int, j: int)
    requires
        tally(items, p) == 1,
        0 <= i < items.len(),
        0 <= j < items.len(),
        p(items[i]),
        p(items[j]),
    ensures
        i == j,
{
    if i < j {
        lemma_tally_two(items, p, i, j);
    } else if j < i {
        lemma_tally_two(items, p, j, i);
    }
}

/// Among distinct items, withdrawing the property from exactly one item lowers the tally by one.
pub proof fn lemma_tally_withdraw<A>(
    items: Seq<A>,
    p: spec_fn(A) -> bool,
    q: spec_fn(A) -> bool,
    at: int,
)
    requires
        items.no_duplicates(),
        0 <= at < items.len(),
        p(items[at]),
        !q(items[at]),
        forall|i: int|
            0 <= i < items.len() && items[i] != items[at] ==> p(#[trigger] items[i]) == q(items[i]),
    ensures
        tally(items, p) == tally(items, q) + 1,
    decreases items.len(),
{
    let front = items.drop_last();
    let last = items.len() - 1;
    assert forall|i: int| 0 <= i < front.len() implies front[i] == items[i] by {}
    if at == last {
        assert forall|i: int| 0 <= i < front.len() implies p(#[trigger] front[i]) == q(front[i]) by {
            assert(front[i] == items[i]);
        }
        lemma_tally_same(front, p, q);
    } else {
        assert(items[last] != items[at]);
        lemma_tally_withdraw(front, p, q, at);
    }
}

/// Appending an item raises the tally by one exactly when the item has the property.
pub proof fn lemma_tally_push<A>(items: Seq<A>, item: A, p: spec_fn(A) -> bool)
    ensures
        tally(items.push(item), p) == tally(items, p) + (if p(item) {
            1nat
        } else {
            0nat
        }),
{
    assert(items.push(item).drop_last() =~= items);
}

/// Replacing an item changes the tally by what the two items contribute.
pub proof fn lemma_tally_update<A>(items: Seq<A>, p: spec_fn(A) -> bool, i: int, item: A)
    requires
        0 <= i < items.len(),
    ensures
        tally(items.update(i, item), p) + (if p(items[i]) {
            1nat
        } else {
            0nat
        }) == tally(items, p) + (if p(item) {
            1nat
        } else {
            0nat
        }),
    decreases items.len(),
{
    let front = items.drop_last();
    if i < items.len() - 1 {
        assert(items.update(i, item).drop_last() =~= front.update(i, item));
        lemma_tally_update(front, p, i, item);
    } else {
        assert(items.update(i, item).drop_last() =~= front);
    }
}

/// If an item is the only one of a list without repetition that has a property, the tally is one.
pub proof fn lemma_tally_only<A>(items: Seq<A>, p: spec_fn(A) -> bool, item: A)
    requires
        items.no_duplicates(),
        items.contains(item),
        p(item),
        forall|other: A| #[trigger] items.contains(other) && p(other) ==> other == item,
    ensures
        tally(items, p) == 1,
{
    let at = items.index_of(item);
    lemma_tally_positive(items, p, at);
    let nothing = |other: A| false;
    assert forall|i: int| 0 <= i < items.len() && items[i] != items[at] implies p(
        #[trigger] items[i],
    ) == nothing(items[i]) by {
        assert(items.contains(items[i]));
    }
    lemma_tally_withdraw(items, p, nothing, at);
    if tally(items, nothing) > 0 {
        let k = lemma_tally_witness(items, nothing);
    }
}

/// The sum of a sequence of numbers.
pub open spec fn sum(numbers: Seq<usize>) -> nat
    decreases numbers.len(),
{
    if numbers.len() == 0 {
        0
    } else {
        sum(numbers.drop_last()) + numbers.last() as nat
    }
}

/// Replacing a number changes the sum by the difference.
pub proof fn lemma_sum_update(numbers: Seq<usize>, i: int, number: usize)
    requires
        0 <= i < numbers.len(),
    ensures
        sum(numbers.update(i, number)) + numbers[i] == sum(numbers) + number,
    decreases numbers.len(),
{
    let front = numbers.drop_last();
    if i < numbers.len() - 1 {
        assert(numbers.update(i, number).drop_last() =~= front.update(i, number));
        lemma_sum_update(front, i, number);
    } else {
        assert(numbers.update(i, number).drop_last() =~= front);
    }
}

/// A sum of zeros is zero.
pub proof fn lemma_sum_zero(numbers: Seq<usize>)
    requires
        forall|i: int| 0 <= i < numbers.len() ==> numbers[i] == 0,
    ensures
        sum(numbers) == 0,
    decreases numbers.len(),
{
    if numbers.len() > 0 {
        lemma_sum_zero(numbers.drop_last());
    }
}

/// No number exceeds the sum.
pub proof fn lemma_sum_bound(numbers: Seq<usize>, i: int)
    requires
        0 <= i < numbers.len(),
    ensures
        numbers[i] <= sum(numbers),
    decreases numbers.len(),
{
    if i < numbers.len() - 1 {
        assert(numbers.drop_last()[i] == numbers[i]);
        lemma_sum_bound(numbers.drop_last(), i);
    }
}

/// The product of a sequence of numbers.
pub open spec fn product(numbers: Seq<nat>) -> nat
    decreases numbers.len(),
{
    if numbers.len() == 0 {
        1
    } else {
        product(numbers.drop_last()) * numbers.last()
    }
}

/// A number is a factor of the product.
pub proof fn lemma_product_factor(numbers: Seq<nat>, i: int)
    requires
        0 <= i < numbers.len(),
    ensures
        product(numbers) == numbers[i] * product(numbers.update(i, 1)),
    decreases numbers.len(),
{
    let front = numbers.drop_last();
    let last = numbers.last();
    if i < numbers.len() - 1 {
        lemma_product_factor(front, i);
        let rest = product(front.update(i, 1));
        let number = numbers[i];
        assert(numbers.update(i, 1).drop_last() =~= front.update(i, 1));
        assert((number * rest) * last == number * (rest * last)) by (nonlinear_arith);
    } else {
        assert(numbers.update(i, 1).drop_last() =~= front);
        let rest = product(front);
        assert(rest * last == last * (rest * 1)) by (nonlinear_arith);
    }
}

/// A product of positive numbers is positive.
pub proof fn lemma_product_positive(numbers: Seq<nat>)
    requires
        forall|i: int| 0 <= i < numbers.len() ==> #[trigger] numbers[i] >= 1,
    ensures
        product(numbers) >= 1,
    decreases numbers.len(),
{
    if numbers.len() > 0 {
        let front = numbers.drop_last();
        assert forall|i: int| 0 <= i < front.len() implies #[trigger] front[i] >= 1 by {
            assert(front[i] == numbers[i]);
        }
        lemma_product_positive(front);
        let rest = product(front);
        let last = numbers.last();
        assert(last == numbers[numbers.len() - 1]);
        assert(rest * last >= 1) by (nonlinear_arith)
            requires
                rest >= 1,
                last >= 1,
        ;
    }
}

/// Smaller numbers have a smaller product.
pub proof fn lemma_product_monotone(smaller: Seq<nat>, larger: Seq<nat>)
    requires
        smaller.len() == larger.len(),
        forall|i: int| 0 <= i < smaller.len() ==> #[trigger] smaller[i] <= larger[i],
    ensures
        product(smaller) <= product(larger),
    decreases smaller.len(),
{
    if smaller.len() > 0 {
        let front = smaller.drop_last();
        assert forall|i: int| 0 <= i < front.len() implies #[trigger] front[i]
            <= larger.drop_last()[i] by {
            assert(front[i] == smaller[i]);
        }
        lemma_product_monotone(front, larger.drop_last());
        let a = product(front);
        let b = product(larger.drop_last());
        let x = smaller.last();
        let y = larger.last();
        assert(x == smaller[smaller.len() - 1]);
        assert(a * x <= b * y) by (nonlinear_arith)
            requires
                a <= b,
                x <= y,
        ;
    }
}

/// The total of a sequence of numbers.
pub open spec fn total(numbers: Seq<nat>) -> nat
    decreases numbers.len(),
{
    if numbers.len() == 0 {
        0
    } else {
        total(numbers.drop_last()) + numbers.last()
    }
}

/// Smaller numbers have a smaller total, strictly so if one of them is strictly smaller.
pub proof fn lemma_total_monotone(smaller: Seq<nat>, larger: Seq<nat>, at: int)
    requires
        smaller.len() == larger.len(),
        forall|i: int| 0 <= i < smaller.len() ==> #[trigger] smaller[i] <= larger[i],
    ensures
        total(smaller) <= total(larger),
        0 <= at < smaller.len() && smaller[at] < larger[at] ==> total(smaller) < total(larger),
    decreases smaller.len(),
{
    if smaller.len() > 0 {
        let front = smaller.drop_last();
        assert forall|i: int| 0 <= i < front.len() implies #[trigger] front[i]
            <= larger.drop_last()[i] by {
            assert(front[i] == smaller[i]);
        }
        lemma_total_monotone(front, larger.drop_last(), at);
        assert(smaller.last() == smaller[smaller.len() - 1]);
    }
}

/// Replacing a number changes the total by the difference.
pub proof fn lemma_total_update(numbers: Seq<nat>, i: int, number: nat)
    requires
        0 <= i < numbers.len(),
    ensures
        total(numbers.update(i, number)) + numbers[i] == total(numbers) + number,
    decreases numbers.len(),
{
    let front = numbers.drop_last();
    if i < numbers.len() - 1 {
        assert(numbers.update(i, number).drop_last() =~= front.update(i, number));
        lemma_total_update(front, i, number);
    } else {
        assert(numbers.update(i, number).drop_last() =~= front);
    }
}

/// A total of zeros is zero.
pub proof fn lemma_total_zero(numbers: Seq<nat>)
    requires
        forall|i: int| 0 <= i < numbers.len() ==> numbers[i] == 0,
    ensures
        total(numbers) == 0,
    decreases numbers.len(),
{
    if numbers.len() > 0 {
        lemma_total_zero(numbers.drop_last());
    }
}

/// A tally is the number of items that are left when the others are taken out.
pub proof fn lemma_tally_filter<A>(items: Seq<A>, p: spec_fn(A) -> bool)
    ensures
        tally(items, p) == items.filter(p).len(),
    decreases items.len(),
{
    reveal(Seq::filter);
    if items.len() > 0 {
        lemma_tally_filter(items.drop_last(), p);
    }
}

} // verus!
