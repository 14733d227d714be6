//! Stable sorting by integer keys.

use vstd::prelude::*;

verus! {

/// The position `left` comes before the position `right` in the order of the keys; positions with
/// equal keys keep their order.
pub open spec fn precedes(keys: Seq<i64>, left: int, right: int) -> bool {
    keys[left] < keys[right] || (keys[left] == keys[right] && left < right)
}

/// Each position comes before all that follow it.
pub open spec fn in_order(keys: Seq<i64>, positions: Seq<usize>) -> bool {
    forall|a: int, b: int|
        0 <= a < b < positions.len() ==> #[trigger] precedes(
            keys,
            positions[a] as int,
            positions[b] as int,
        )
}

/// The positions are those of the keys, each once, in the stable order of the keys.
pub open spec fn is_stable_order(keys: Seq<i64>, positions: Seq<usize>) -> bool {
    &&& positions.len() == keys.len()
    &&& in_order(keys, positions)
    &&& forall|a: int| 0 <= a < positions.len() ==> #[trigger] positions[a] < keys.len()
    &&& forall|p: usize| p < keys.len() ==> #[trigger] positions.contains(p)
}

/// Positions in order have no repetition.
pub proof fn lemma_in_order_distinct(keys: Seq<i64>, positions: Seq<usize>)
    requires
        in_order(keys, positions),
    ensures
        positions.no_duplicates(),
{
    assert forall|a: int, b: int|
        0 <= a < positions.len() && 0 <= b < positions.len() && a != b implies positions[a]
        != positions[b] by {
        if a < b {
            assert(precedes(keys, positions[a] as int, positions[b] as int));
        } else {
            assert(precedes(keys, positions[b] as int, positions[a] as int));
        }
    }
}

/// A sequence of keys has only one stable order.
pub proof fn lemma_stable_order_unique(keys: Seq<i64>, left: Seq<usize>, right: Seq<usize>)
    requires
        is_stable_order(keys, left),
        is_stable_order(keys, right),
    ensures
        left == right,
{
    lemma_in_order_distinct(keys, left);
    lemma_in_order_distinct(keys, right);
    lemma_same_prefix(keys, left, right, left.len() as int);
    assert(left.take(left.len() as int) =~= left);
    assert(right.take(left.len() as int) =~= right);
}

/// Two stable orders begin alike.
proof fn lemma_same_prefix(keys: Seq<i64>, left: Seq<usize>, right: Seq<usize>, n: int)
    requires
        is_stable_order(keys, left),
        is_stable_order(keys, right),
        left.no_duplicates(),
        right.no_duplicates(),
        0 <= n <= left.len(),
    ensures
        left.take(n) == right.take(n),
    decreases n,
{
    if n > 0 {
        lemma_same_prefix(keys, left, right, n - 1);
        let k = n - 1;
        assert forall|i: int| 0 <= i < k implies left[i] == right[i] by {
            assert(left.take(k)[i] == right.take(k)[i]);
        }
        let x = left[k];
        let y = right[k];
        if x != y {
            assert(right.contains(x));
            let at = right.index_of(x);
            assert(right[at] == x);
            assert(at > k) by {
                if at < k {
                    assert(left[at] == x);
                }
            }
            assert(precedes(keys, y as int, x as int));
            assert(left.contains(y));
            let to = left.index_of(y);
            assert(left[to] == y);
            assert(to > k) by {
                if to < k {
                    assert(right[to] == y);
                }
            }
            assert(precedes(keys, x as int, y as int));
        }
        assert(left.take(n) =~= right.take(n));
    }
}

/// Merge two lists of positions that are in order.
fn merge(keys: &Vec<i64>, left: &Vec<usize>, right: &Vec<usize>) -> (merged: Vec<usize>)
    requires
        in_order(keys@, left@),
        in_order(keys@, right@),
        forall|a: int| 0 <= a < left@.len() ==> #[trigger] left@[a] < keys@.len(),
        forall|a: int| 0 <= a < right@.len() ==> #[trigger] right@[a] < keys@.len(),
        forall|a: int, b: int|
            0 <= a < left@.len() && 0 <= b < right@.len() ==> left@[a] != right@[b],
    ensures
        merged@.len() == left@.len() + right@.len(),
        in_order(keys@, merged@),
        forall|p: usize| #[trigger]
            merged@.contains(p) <==> left@.contains(p) || right@.contains(p),
{
    let mut merged: Vec<usize> = Vec::new();
    let mut a: usize = 0;
    let mut b: usize = 0;
    while a < left.len() || b < right.len()
        invariant
            0 <= a <= left@.len(),
            0 <= b <= right@.len(),
            in_order(keys@, left@),
            in_order(keys@, right@),
            forall|k: int| 0 <= k < left@.len() ==> #[trigger] left@[k] < keys@.len(),
            forall|k: int| 0 <= k < right@.len() ==> #[trigger] right@[k] < keys@.len(),
            forall|i: int, k: int|
                0 <= i < left@.len() && 0 <= k < right@.len() ==> left@[i] != right@[k],
            merged@.len() == a + b,
            in_order(keys@, merged@),
            forall|i: int, k: int|
                0 <= i < merged@.len() && a <= k < left@.len() ==> #[trigger] precedes(
                    keys@,
                    merged@[i] as int,
                    left@[k] as int,
                ),
            forall|i: int, k: int|
                0 <= i < merged@.len() && b <= k < right@.len() ==> #[trigger] precedes(
                    keys@,
                    merged@[i] as int,
                    right@[k] as int,
                ),
            forall|i: int|
                0 <= i < merged@.len() ==> left@.contains(#[trigger] merged@[i])
                    || right@.contains(merged@[i]),
            forall|k: int| 0 <= k < a ==> merged@.contains(#[trigger] left@[k]),
            forall|k: int| 0 <= k < b ==> merged@.contains(#[trigger] right@[k]),
        decreases left@.len() + right@.len() - a - b,
    {
        let ghost before = merged@;
        let take_left: bool = if a == left.len() {
            false
        } else if b == right.len() {
            true
        } else {
            let x: usize = left[a];
            let y: usize = right[b];
            keys[x] < keys[y] || (keys[x] == keys[y] && x < y)
        };
        let next: usize = if take_left {
            left[a]
        } else {
            right[b]
        };
        merged.push(next);
        proof {
            assert forall|p: usize| before.contains(p) implies merged@.contains(p) by {
                assert(merged@[before.index_of(p)] == p);
            }
            assert(merged@[before.len() as int] == next);
            if take_left {
                assert(left@.contains(left@[a as int]));
                assert forall|k: int| b <= k < right@.len() implies #[trigger] precedes(
                    keys@,
                    next as int,
                    right@[k] as int,
                ) by {
                    if k > b {
                        assert(precedes(keys@, right@[b as int] as int, right@[k] as int));
                    }
                }
                assert forall|k: int| a < k < left@.len() implies #[trigger] precedes(
                    keys@,
                    next as int,
                    left@[k] as int,
                ) by {}
            } else {
                assert(right@.contains(right@[b as int]));
                assert forall|k: int| a <= k < left@.len() implies #[trigger] precedes(
                    keys@,
                    next as int,
                    left@[k] as int,
                ) by {
                    if k > a {
                        assert(precedes(keys@, left@[a as int] as int, left@[k] as int));
                    }
                }
                assert forall|k: int| b < k < right@.len() implies #[trigger] precedes(
                    keys@,
                    next as int,
                    right@[k] as int,
                ) by {}
            }
            assert forall|i: int, k: int| 0 <= i < k < merged@.len() implies #[trigger] precedes(
                keys@,
                merged@[i] as int,
                merged@[k] as int,
            ) by {
                if k < before.len() {
                    assert(precedes(keys@, before[i] as int, before[k] as int));
                } else {
                    assert(merged@[i] == before[i]);
                }
            }
        }
        if take_left {
            a = a + 1;
        } else {
            b = b + 1;
        }
    }
    proof {
        assert forall|p: usize| #[trigger] merged@.contains(p) <==> left@.contains(p)
            || right@.contains(p) by {
            if left@.contains(p) {
                assert(left@[left@.index_of(p)] == p);
            }
            if right@.contains(p) {
                assert(right@[right@.index_of(p)] == p);
            }
        }
    }
    merged
}

/// Put the positions from `from` up to `to` in order.
fn order_range(keys: &Vec<i64>, from: usize, to: usize) -> (positions: Vec<usize>)
    requires
        from <= to <= keys@.len(),
    ensures
        positions@.len() == to - from,
        in_order(keys@, positions@),
        forall|p: usize| #[trigger] positions@.contains(p) <==> from <= p < to,
    decreases to - from,
{
    if to - from <= 1 {
        let mut positions: Vec<usize> = Vec::new();
        if from < to {
            positions.push(from);
            assert(positions@[0] == from);
        }
        return positions;
    }
    let middle: usize = from + (to - from) / 2;
    let left: Vec<usize> = order_range(keys, from, middle);
    let right: Vec<usize> = order_range(keys, middle, to);
    proof {
        assert forall|a: int| 0 <= a < left@.len() implies #[trigger] left@[a] < middle by {
            assert(left@.contains(left@[a]));
        }
        assert forall|a: int| 0 <= a < right@.len() implies middle <= #[trigger] right@[a]
            < to by {
            assert(right@.contains(right@[a]));
        }
    }
    merge(keys, &left, &right)
}

/// The positions of the keys in their stable order.
pub fn stable_order(keys: &Vec<i64>) -> (positions: Vec<usize>)
    ensures
        is_stable_order(keys@, positions@),
{
    let positions: Vec<usize> = order_range(keys, 0, keys.len());
    proof {
        assert forall|a: int| 0 <= a < positions@.len() implies #[trigger] positions@[a]
            < keys@.len() by {
            assert(positions@.contains(positions@[a]));
        }
    }
    positions
}

} // verus!
