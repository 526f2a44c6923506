//! Stable ordering of positions by integer keys.

use vstd::prelude::*;

use crate::binary::Binary64;

verus! {

/// `left` comes before `right`: by key, and by position among equal keys.
pub open spec fn key_before(keys: Seq<int>, left: int, right: int) -> bool {
    keys[left] < keys[right] || (keys[left] == keys[right] && left < right)
}

/// `order` lists every position once, in ascending key order, equal keys in
/// their original order.
pub open spec fn is_stable_order(keys: Seq<int>, order: Seq<usize>) -> bool {
    &&& order.len() == keys.len()
    &&& forall|i: int| 0 <= i < order.len() ==> #[trigger] order[i] < keys.len()
    &&& forall|i: int, j: int|
        0 <= i < j < order.len() ==> key_before(
            keys,
            (#[trigger] order[i]) as int,
            (#[trigger] order[j]) as int,
        )
    &&& forall|m: int| 0 <= m < keys.len() ==> #[trigger] lists(order, m)
}

/// The position is listed.
pub open spec fn lists(order: Seq<usize>, position: int) -> bool {
    exists|i: int| 0 <= i < order.len() && (#[trigger] order[i]) as int == position
}

/// The keys as mathematical integers.
pub open spec fn key_values(keys: Seq<i128>) -> Seq<int> {
    Seq::new(keys.len(), |i: int| keys[i] as int)
}

/// Positions in ascending key order, equal keys in their original order.
pub fn ascending_order(keys: &Vec<i128>) -> (order: Vec<usize>)
    ensures
        is_stable_order(key_values(keys@), order@),
{
    let ghost all = key_values(keys@);
    let mut order: Vec<usize> = Vec::new();
    for k in 0..keys.len()
        invariant
            all == key_values(keys@),
            order@.len() == k,
            forall|i: int| 0 <= i < k ==> #[trigger] order@[i] < k,
            forall|i: int, j: int|
                0 <= i < j < k ==> key_before(
                    all,
                    (#[trigger] order@[i]) as int,
                    (#[trigger] order@[j]) as int,
                ),
            forall|m: int| 0 <= m < k ==> #[trigger] lists(order@, m),
    {
        let ghost before = order@;
        let mut at: usize = order.len();
        while at > 0 && keys[order[at - 1]] > keys[k]
            invariant
                at <= order@.len(),
                order@ == before,
                all == key_values(keys@),
                k < keys@.len(),
                forall|i: int| 0 <= i < before.len() ==> #[trigger] before[i] < k,
                forall|i: int|
                    at <= i < before.len() ==> key_before(
                        all,
                        k as int,
                        (#[trigger] before[i]) as int,
                    ),
            decreases at,
        {
            at = at - 1;
        }
        order.insert(at, k);
        proof {
            assert(order@ =~= before.insert(at as int, k));
            assert forall|i: int| 0 <= i < at implies key_before(
                all,
                (#[trigger] order@[i]) as int,
                k as int,
            ) by {
                assert(all[before[at - 1] as int] <= all[k as int]);
                if i < at - 1 {
                    assert(key_before(all, before[i] as int, before[at - 1] as int));
                }
            }
            assert forall|i: int, j: int| 0 <= i < j < k + 1 implies key_before(
                all,
                (#[trigger] order@[i]) as int,
                (#[trigger] order@[j]) as int,
            ) by {
                if i < at && j > at {
                    assert(key_before(all, before[i] as int, before[j - 1] as int));
                } else if i > at {
                    assert(key_before(all, before[i - 1] as int, before[j - 1] as int));
                } else if i == at {
                    assert(order@[j] == before[j - 1]);
                }
            }
            assert forall|m: int| 0 <= m < k + 1 implies #[trigger] lists(order@, m) by {
                if m == k {
                    assert(order@[at as int] as int == m);
                } else {
                    assert(lists(before, m));
                    let i = choose|i: int| 0 <= i < before.len() && (#[trigger] before[i]) as int == m;
                    if i < at {
                        assert(order@[i] as int == m);
                    } else {
                        assert(order@[i + 1] as int == m);
                    }
                }
            }
        }
    }
    order
}

/// The stable order of given keys is unique.
pub proof fn lemma_stable_order_is_unique(keys: Seq<int>, left: Seq<usize>, right: Seq<usize>)
    requires
        is_stable_order(keys, left),
        is_stable_order(keys, right),
    ensures
        left == right,
{
    assert forall|i: int| 0 <= i < left.len() implies left[i] == right[i] by {
        lemma_orders_agree_at(keys, left, right, i);
    }
    assert(left =~= right);
}

proof fn lemma_orders_agree_at(keys: Seq<int>, left: Seq<usize>, right: Seq<usize>, i: int)
    requires
        is_stable_order(keys, left),
        is_stable_order(keys, right),
        0 <= i < left.len(),
    ensures
        left[i] == right[i],
    decreases i,
{
    assert forall|j: int| 0 <= j < i implies left[j] == right[j] by {
        lemma_orders_agree_at(keys, left, right, j);
    }
    assert(lists(right, left[i] as int));
    assert(lists(left, right[i] as int));
    let a = choose|a: int| 0 <= a < right.len() && (#[trigger] right[a]) as int == left[i] as int;
    let b = choose|b: int| 0 <= b < left.len() && (#[trigger] left[b]) as int == right[i] as int;
    if a < i {
        assert(left[a] == right[a]);
        assert(key_before(keys, left[a] as int, left[i] as int));
    }
    if b < i {
        assert(left[b] == right[b]);
        assert(key_before(keys, right[b] as int, right[i] as int));
    }
    if a > i && b > i {
        assert(key_before(keys, right[i] as int, right[a] as int));
        assert(key_before(keys, left[i] as int, left[b] as int));
    }
}

/// Keys under which an ascending order lists the numbers from largest to smallest
/// in the total order of bit patterns.
pub open spec fn descending_keys(numbers: Seq<Binary64>) -> Seq<int> {
    Seq::new(numbers.len(), |i: int| -numbers[i].total_rank())
}

/// Positions from largest to smallest number, equal numbers in their original
/// order.
pub open spec fn descending_order(numbers: Seq<Binary64>) -> Seq<usize> {
    choose|order: Seq<usize>| is_stable_order(descending_keys(numbers), order)
}

/// Positions from largest to smallest number, equal numbers in their original
/// order.
pub fn order_descending(numbers: &Vec<Binary64>) -> (order: Vec<usize>)
    ensures
        order@ == descending_order(numbers@),
        is_stable_order(descending_keys(numbers@), order@),
{
    let mut keys: Vec<i128> = Vec::new();
    for i in 0..numbers.len()
        invariant
            keys@.len() == i,
            forall|j: int| 0 <= j < i ==> #[trigger] keys@[j] == -numbers@[j].total_rank(),
    {
        let rank: i64 = numbers[i].total_order();
        keys.push(-(rank as i128));
    }
    let order = ascending_order(&keys);
    proof {
        assert(key_values(keys@) =~= descending_keys(numbers@));
        assert(is_stable_order(descending_keys(numbers@), order@));
        lemma_stable_order_is_unique(
            descending_keys(numbers@),
            order@,
            descending_order(numbers@),
        );
    }
    order
}

} // verus!
