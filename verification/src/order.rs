//! Stable sorting by an integer key.

use vstd::prelude::*;

verus! {

/// A sorted list with one more item, behind all whose key is not greater.
pub open spec fn placed<T>(sorted: Seq<T>, item: T, key: spec_fn(T) -> int) -> Seq<T>
    decreases sorted.len(),
{
    if sorted.len() == 0 || key(sorted.last()) <= key(item) {
        sorted.push(item)
    } else {
        placed(sorted.drop_last(), item, key).push(sorted.last())
    }
}

/// The items by ascending key; items of one key keep their order.
pub open spec fn sorted_by<T>(items: Seq<T>, key: spec_fn(T) -> int) -> Seq<T>
    decreases items.len(),
{
    if items.len() == 0 {
        Seq::empty()
    } else {
        placed(sorted_by(items.drop_last(), key), items.last(), key)
    }
}

proof fn lemma_placed<T>(sorted: Seq<T>, item: T, key: spec_fn(T) -> int)
    requires
        forall|i: int, j: int|
            0 <= i < j < sorted.len() ==> key(#[trigger] sorted[i]) <= key(#[trigger] sorted[j]),
    ensures
        placed(sorted, item, key).len() == sorted.len() + 1,
        placed(sorted, item, key).to_multiset() == sorted.to_multiset().insert(item),
        forall|i: int, j: int|
            0 <= i < j < placed(sorted, item, key).len() ==> key(
                #[trigger] placed(sorted, item, key)[i],
            ) <= key(#[trigger] placed(sorted, item, key)[j]),
        forall|i: int|
            0 <= i < placed(sorted, item, key).len() ==> #[trigger] placed(sorted, item, key)[i]
                == item || sorted.contains(placed(sorted, item, key)[i]),
    decreases sorted.len(),
{
    broadcast use vstd::seq_lib::group_to_multiset_ensures;

    let out = placed(sorted, item, key);
    if sorted.len() == 0 || key(sorted.last()) <= key(item) {
        assert forall|i: int| 0 <= i < out.len() implies #[trigger] out[i] == item
            || sorted.contains(out[i]) by {
            if i < sorted.len() {
                assert(sorted[i] == out[i]);
            }
        }
    } else {
        let front = sorted.drop_last();
        let inner = placed(front, item, key);
        lemma_placed(front, item, key);
        assert(front.push(sorted.last()) =~= sorted);
        assert forall|i: int| 0 <= i < inner.len() implies key(#[trigger] inner[i]) <= key(
            sorted.last(),
        ) by {
            if inner[i] != item {
                let k = choose|k: int| 0 <= k < front.len() && front[k] == inner[i];
                assert(sorted[k] == front[k]);
            }
        }
        assert forall|i: int| 0 <= i < out.len() implies #[trigger] out[i] == item
            || sorted.contains(out[i]) by {
            if i < inner.len() {
                if inner[i] != item {
                    let k = choose|k: int| 0 <= k < front.len() && front[k] == inner[i];
                    assert(sorted[k] == out[i]);
                }
            } else {
                assert(sorted[sorted.len() - 1] == out[i]);
            }
        }
        assert(out.to_multiset() =~= sorted.to_multiset().insert(item));
    }
}

/// Sorting keeps exactly the items and orders them by key.
pub proof fn sorting_orders_the_items<T>(items: Seq<T>, key: spec_fn(T) -> int)
    ensures
        sorted_by(items, key).len() == items.len(),
        sorted_by(items, key).to_multiset() == items.to_multiset(),
        forall|i: int, j: int|
            0 <= i < j < sorted_by(items, key).len() ==> key(#[trigger] sorted_by(items, key)[i])
                <= key(#[trigger] sorted_by(items, key)[j]),
    decreases items.len(),
{
    broadcast use vstd::seq_lib::group_to_multiset_ensures;

    if items.len() > 0 {
        let front = items.drop_last();
        sorting_orders_the_items(front, key);
        lemma_placed(sorted_by(front, key), items.last(), key);
        assert(front.push(items.last()) =~= items);
    } else {
        assert(items =~= Seq::<T>::empty());
    }
}

/// A part of a sorted list is sorted, and an item is placed behind the part
/// that it does not precede.
proof fn lemma_placed_at<T>(sorted: Seq<T>, item: T, key: spec_fn(T) -> int, at: int)
    requires
        0 <= at <= sorted.len(),
        at == 0 || key(sorted[at - 1]) <= key(item),
        forall|i: int| at <= i < sorted.len() ==> key(#[trigger] sorted[i]) > key(item),
    ensures
        placed(sorted, item, key) == sorted.insert(at, item),
    decreases sorted.len(),
{
    if at == sorted.len() {
        assert(sorted.insert(at, item) =~= sorted.push(item));
    } else {
        let front = sorted.drop_last();
        lemma_placed_at(front, item, key, at);
        assert(sorted.insert(at, item) =~= front.insert(at, item).push(sorted.last()));
    }
}

/// Sorts items by the keys that stand beside them.
pub(crate) fn stable_sort<T>(
    items: Vec<T>,
    keys: Vec<i128>,
    Ghost(key): Ghost<spec_fn(T) -> int>,
) -> (out: Vec<T>)
    requires
        items@.len() == keys@.len(),
        forall|i: int| 0 <= i < items@.len() ==> #[trigger] keys@[i] == key(items@[i]),
    ensures
        out@ == sorted_by(items@, key),
{
    let mut items = items;
    let mut waiting: Vec<T> = Vec::new();
    let ghost all = items@;
    // The items are turned round so that they can be taken from the end.
    while items.len() > 0
        invariant
            items@.len() + waiting@.len() == all.len(),
            items@ == all.take(items@.len() as int),
            forall|i: int|
                0 <= i < waiting@.len() ==> #[trigger] waiting@[i] == all[all.len() - 1 - i],
        decreases items@.len(),
    {
        let ghost before = items@;
        let item = items.pop();
        match item {
            Some(item) => {
                waiting.push(item);
                proof {
                    assert(items@ =~= all.take(items@.len() as int));
                }
            },
            None => {},
        }
    }
    let mut out: Vec<T> = Vec::new();
    let mut out_keys: Vec<i128> = Vec::new();
    let mut taken: usize = 0;
    proof {
        assert(sorted_by(all.take(0), key) =~= out@);
    }
    while taken < keys.len()
        invariant
            taken <= keys@.len(),
            keys@.len() == all.len(),
            waiting@.len() == all.len() - taken,
            forall|i: int|
                0 <= i < waiting@.len() ==> #[trigger] waiting@[i] == all[all.len() - 1 - i],
            forall|i: int| 0 <= i < all.len() ==> #[trigger] keys@[i] == key(all[i]),
            out@ == sorted_by(all.take(taken as int), key),
            out@.len() == taken,
            out_keys@.len() == taken,
            forall|i: int| 0 <= i < taken ==> #[trigger] out_keys@[i] == key(out@[i]),
        decreases keys@.len() - taken,
    {
        let item_key: i128 = keys[taken];
        let mut at: usize = out.len();
        while at > 0 && out_keys[at - 1] > item_key
            invariant
                at <= out@.len(),
                out@.len() == out_keys@.len(),
                forall|i: int| 0 <= i < out@.len() ==> #[trigger] out_keys@[i] == key(out@[i]),
                forall|i: int| at <= i < out@.len() ==> #[trigger] out_keys@[i] > item_key,
            decreases at,
        {
            at -= 1;
        }
        let ghost next = all.take(taken + 1);
        let ghost before = out@;
        let ghost before_keys = out_keys@;
        match waiting.pop() {
            Some(item) => {
                proof {
                    assert(next.drop_last() =~= all.take(taken as int));
                    assert(next.last() == item);
                    assert forall|i: int| at <= i < out@.len() implies key(#[trigger] out@[i])
                        > key(item) by {
                        assert(out_keys@[i] > item_key);
                    }
                    if at > 0 {
                        assert(out_keys@[at - 1] == key(out@[at - 1]));
                    }
                    lemma_placed_at(out@, item, key, at as int);
                }
                out.insert(at, item);
                out_keys.insert(at, item_key);
                proof {
                    assert forall|i: int| 0 <= i < taken + 1 implies #[trigger] out_keys@[i] == key(
                        out@[i],
                    ) by {
                        if i < at {
                            assert(out_keys@[i] == before_keys[i]);
                        } else if i > at {
                            assert(out_keys@[i] == before_keys[i - 1]);
                        }
                    }
                }
            },
            None => {
                assert(false);
            },
        }
        taken += 1;
    }
    proof {
        assert(all.take(taken as int) =~= all);
    }
    out
}

}
