//! Keeping a sequence in order: where a new item goes, and what holds of a
//! sequence that was built by placing its items one by one.

use vstd::prelude::*;

verus! {

/// `sorted` with `item` put in: behind the last item that it does not have
/// to stand ahead of. Items that neither has to stand ahead of the other
/// keep the order in which they were placed.
pub open spec fn placed<T>(sorted: Seq<T>, item: T, ahead: spec_fn(T, T) -> bool) -> Seq<T>
    decreases sorted.len(),
{
    if sorted.len() == 0 || !ahead(item, sorted.last()) {
        sorted.push(item)
    } else {
        placed(sorted.drop_last(), item, ahead).push(sorted.last())
    }
}

/// No item of `items` has to stand ahead of one that comes before it.
pub open spec fn in_order<T>(items: Seq<T>, ahead: spec_fn(T, T) -> bool) -> bool {
    forall|i: int, j: int| 0 <= i < j < items.len() ==> !ahead(items[j], items[i])
}

/// `ahead` orders strictly: never both ways, and whatever stands ahead of
/// one of two items that are not ordered stands ahead of the other too.
pub open spec fn is_strict_order<T>(ahead: spec_fn(T, T) -> bool) -> bool {
    &&& forall|a: T, b: T| #[trigger] ahead(a, b) ==> !ahead(b, a)
    &&& forall|a: T, b: T, c: T|
        #[trigger] ahead(a, b) && !#[trigger] ahead(c, b) ==> ahead(a, c)
}

/// The place that `placed` gives an item: `at`, where the item has to stand
/// ahead of everything from `at` on and not ahead of what comes just
/// before.
pub proof fn lemma_placed_at<T>(sorted: Seq<T>, item: T, ahead: spec_fn(T, T) -> bool, at: int)
    requires
        0 <= at <= sorted.len(),
        forall|j: int| at <= j < sorted.len() ==> ahead(item, sorted[j]),
        at > 0 ==> !ahead(item, sorted[at - 1]),
    ensures
        placed(sorted, item, ahead) == sorted.insert(at, item),
    decreases sorted.len(),
{
    if at == sorted.len() {
        assert(sorted.push(item) =~= sorted.insert(at, item));
    } else {
        let front = sorted.drop_last();
        lemma_placed_at(front, item, ahead, at);
        assert(front.insert(at, item).push(sorted.last()) =~= sorted.insert(at, item));
    }
}

/// Placing an item adds that item and nothing else.
pub proof fn lemma_placed_members<T>(sorted: Seq<T>, item: T, ahead: spec_fn(T, T) -> bool)
    ensures
        placed(sorted, item, ahead).to_multiset() == sorted.to_multiset().insert(item),
        placed(sorted, item, ahead).len() == sorted.len() + 1,
    decreases sorted.len(),
{
    broadcast use vstd::seq_lib::group_to_multiset_ensures;

    if sorted.len() == 0 || !ahead(item, sorted.last()) {
    } else {
        let front = sorted.drop_last();
        lemma_placed_members(front, item, ahead);
        assert(sorted =~= front.push(sorted.last()));
        assert(front.to_multiset().insert(item).insert(sorted.last())
            =~= front.to_multiset().insert(sorted.last()).insert(item));
    }
}

/// Placing an item in a sequence that is in order leaves it in order.
pub proof fn lemma_placed_in_order<T>(sorted: Seq<T>, item: T, ahead: spec_fn(T, T) -> bool)
    requires
        is_strict_order(ahead),
        in_order(sorted, ahead),
    ensures
        in_order(placed(sorted, item, ahead), ahead),
    decreases sorted.len(),
{
    if sorted.len() == 0 {
    } else if !ahead(item, sorted.last()) {
        let out = sorted.push(item);
        assert forall|i: int, j: int| 0 <= i < j < out.len() implies !ahead(out[j], out[i]) by {
            if j == sorted.len() && i < sorted.len() - 1 {
                // The last item is not behind `i`, and `item` not ahead of the last.
                assert(!ahead(sorted.last(), sorted[i]));
                if ahead(item, sorted[i]) {
                    assert(ahead(item, sorted.last()));
                }
            }
        }
    } else {
        let front = sorted.drop_last();
        let last = sorted.last();
        assert(in_order(front, ahead)) by {
            assert forall|i: int, j: int| 0 <= i < j < front.len() implies !ahead(
                front[j],
                front[i],
            ) by {
                assert(front[i] == sorted[i] && front[j] == sorted[j]);
            }
        }
        lemma_placed_in_order(front, item, ahead);
        lemma_placed_members(front, item, ahead);
        let inner = placed(front, item, ahead);
        let out = inner.push(last);
        assert forall|i: int, j: int| 0 <= i < j < out.len() implies !ahead(out[j], out[i]) by {
            if j == inner.len() {
                // Each item of `inner` is `item` or an item of `front`.
                assert(inner.to_multiset().count(inner[i]) > 0) by {
                    broadcast use vstd::seq_lib::group_to_multiset_ensures;

                    assert(inner.contains(inner[i]));
                }
                if inner[i] == item {
                    assert(!ahead(last, item));
                } else {
                    assert(front.to_multiset().count(inner[i]) > 0);
                    assert(front.contains(inner[i])) by {
                        broadcast use vstd::seq_lib::group_to_multiset_ensures;

                    }
                    let k = choose|k: int| 0 <= k < front.len() && front[k] == inner[i];
                    assert(sorted[k] == inner[i]);
                    assert(!ahead(sorted[sorted.len() - 1], sorted[k]));
                }
            }
        }
    }
}

} // verus!
