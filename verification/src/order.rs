//! Stable ordering of items that occupy source ranges.

use vstd::prelude::*;

verus! {

/// An item that is ordered by a pair of numbers.
pub trait Ranked: Sized {
    /// The pair that orders the item, first number first.
    spec fn rank(&self) -> (int, int);

    /// Whether this item must stand behind `other`.
    fn ranks_after(&self, other: &Self) -> (after: bool)
        ensures
            after == rank_less(other.rank(), self.rank()),
    ;
}

pub open spec fn rank_less(a: (int, int), b: (int, int)) -> bool {
    a.0 < b.0 || (a.0 == b.0 && a.1 < b.1)
}

/// Where `item` enters an ordered sequence: behind everything that does not
/// have to stand behind it.
pub open spec fn slot<T: Ranked>(sorted: Seq<T>, item: T) -> int
    decreases sorted.len(),
{
    if sorted.len() == 0 || !rank_less(item.rank(), sorted.last().rank()) {
        sorted.len() as int
    } else {
        slot(sorted.drop_last(), item)
    }
}

/// The items in rank order; items of equal rank keep their order.
pub open spec fn stable_sort<T: Ranked>(items: Seq<T>) -> Seq<T>
    decreases items.len(),
{
    if items.len() == 0 {
        items
    } else {
        let front = stable_sort(items.drop_last());
        front.insert(slot(front, items.last()), items.last())
    }
}

/// No item stands before one of smaller rank.
pub open spec fn in_rank_order<T: Ranked>(items: Seq<T>) -> bool {
    forall|i: int, j: int|
        0 <= i < j < items.len() ==> !rank_less(#[trigger] items[j].rank(), #[trigger] items[i].rank())
}

proof fn lemma_slot<T: Ranked>(sorted: Seq<T>, item: T)
    requires
        in_rank_order(sorted),
    ensures
        0 <= slot(sorted, item) <= sorted.len(),
        forall|i: int|
            0 <= i < slot(sorted, item) ==> !rank_less(item.rank(), #[trigger] sorted[i].rank()),
        forall|i: int|
            slot(sorted, item) <= i < sorted.len() ==> rank_less(
                item.rank(),
                #[trigger] sorted[i].rank(),
            ),
    decreases sorted.len(),
{
    if sorted.len() == 0 {
    } else if rank_less(item.rank(), sorted.last().rank()) {
        let front = sorted.drop_last();
        assert(in_rank_order(front));
        lemma_slot(front, item);
        assert forall|i: int| 0 <= i < slot(sorted, item) implies !rank_less(
            item.rank(),
            #[trigger] sorted[i].rank(),
        ) by {
            assert(front[i] == sorted[i]);
        }
        assert forall|i: int| slot(sorted, item) <= i < sorted.len() implies rank_less(
            item.rank(),
            #[trigger] sorted[i].rank(),
        ) by {
            if i < front.len() {
                assert(front[i] == sorted[i]);
            }
        }
    } else {
        assert forall|i: int| 0 <= i < sorted.len() implies !rank_less(
            item.rank(),
            #[trigger] sorted[i].rank(),
        ) by {
            if i < sorted.len() - 1 {
                assert(!rank_less(sorted.last().rank(), sorted[i].rank()));
            }
        }
    }
}

/// Sorting puts the items in rank order and neither adds nor loses one.
pub proof fn lemma_stable_sort<T: Ranked>(items: Seq<T>)
    ensures
        in_rank_order(stable_sort(items)),
        stable_sort(items).len() == items.len(),
        stable_sort(items).to_multiset() == items.to_multiset(),
    decreases items.len(),
{
    broadcast use vstd::seq_lib::group_to_multiset_ensures;

    if items.len() > 0 {
        let front = stable_sort(items.drop_last());
        let item = items.last();
        lemma_stable_sort(items.drop_last());
        lemma_slot(front, item);
        let at = slot(front, item);
        let out = stable_sort(items);
        assert(out =~= front.insert(at, item));
        assert forall|i: int, j: int| 0 <= i < j < out.len() implies !rank_less(
            #[trigger] out[j].rank(),
            #[trigger] out[i].rank(),
        ) by {
            let fi = if i < at { i } else { i - 1 };
            let fj = if j < at { j } else { j - 1 };
            if i == at {
                assert(out[j] == front[fj]);
            } else if j == at {
                assert(out[i] == front[fi]);
            } else {
                assert(out[i] == front[fi] && out[j] == front[fj]);
            }
        }
        assert(items =~= items.drop_last().push(item));
        assert(out.to_multiset() =~= items.to_multiset());
    }
}

/// Every item of the result is one of the input, and the other way round.
pub proof fn lemma_sort_members<T: Ranked>(items: Seq<T>)
    ensures
        forall|x: T| #[trigger] stable_sort(items).contains(x) <==> items.contains(x),
{
    broadcast use vstd::seq_lib::group_to_multiset_ensures;

    lemma_stable_sort(items);
    assert forall|x: T| #[trigger] stable_sort(items).contains(x) <==> items.contains(x) by {
        assert(stable_sort(items).contains(x) <==> stable_sort(items).to_multiset().count(x) > 0);
        assert(items.contains(x) <==> items.to_multiset().count(x) > 0);
    }
}

/// Items that already stand in rank order stay where they are.
pub proof fn lemma_sort_keeps_ordered<T: Ranked>(items: Seq<T>)
    requires
        in_rank_order(items),
    ensures
        stable_sort(items) == items,
    decreases items.len(),
{
    if items.len() > 0 {
        let front = items.drop_last();
        assert(in_rank_order(front));
        lemma_sort_keeps_ordered(front);
        lemma_slot(front, items.last());
        let at = slot(front, items.last());
        assert(at == front.len()) by {
            if front.len() > 0 {
                let k = front.len() - 1;
                assert(!rank_less(items[items.len() - 1].rank(), items[k].rank()));
                assert(front.last() == items[k]);
            }
        }
        assert(stable_sort(items) =~= items);
    }
}

/// Sorts by rank, keeping the order of items of equal rank.
pub fn sort_stable<T: Ranked>(items: &mut Vec<T>)
    ensures
        final(items)@ == stable_sort(old(items)@),
{
    let n = items.len();
    let ghost input = items@;
    let mut i: usize = 0;
    proof {
        assert(input.take(0) =~= Seq::<T>::empty());
        assert(input.skip(0) =~= input);
        assert(items@ =~= stable_sort(input.take(0)) + input.skip(0));
    }
    while i < n
        invariant
            i <= n,
            n == input.len(),
            items@.len() == n,
            items@ == stable_sort(input.take(i as int)) + input.skip(i as int),
        decreases n - i,
    {
        let ghost front = stable_sort(input.take(i as int));
        let ghost before = items@;
        proof {
            lemma_stable_sort(input.take(i as int));
            assert(before[i as int] == input[i as int]);
        }
        let item = items.remove(i);
        let ghost without = items@;
        assert(without =~= front + input.skip(i + 1));
        let mut at: usize = i;
        let ghost full = slot(front, item);
        proof {
            assert(front.take(i as int) =~= front);
        }
        while at > 0 && items[at - 1].ranks_after(&item)
            invariant
                at <= i,
                i == front.len(),
                i < n,
                items@ == without,
                without.len() == n - 1,
                without == front + input.skip(i + 1),
                slot(front.take(at as int), item) == full,
                n == input.len(),
            decreases at,
        {
            proof {
                let part = front.take(at as int);
                assert(part.last() == without[at - 1]);
                assert(part.drop_last() =~= front.take(at - 1));
            }
            at = at - 1;
        }
        proof {
            let part = front.take(at as int);
            if at > 0 {
                assert(part.last() == without[at - 1]);
            }
            assert(full == at);
        }
        items.insert(at, item);
        proof {
            assert(input.take(i + 1).drop_last() =~= input.take(i as int));
            assert(input.take(i + 1).last() == item);
            assert(items@ =~= stable_sort(input.take(i + 1)) + input.skip(i + 1));
        }
        i = i + 1;
    }
    proof {
        assert(input.take(n as int) =~= input);
        assert(items@ =~= stable_sort(input));
    }
}

/// No two items have the same key.
pub open spec fn distinct_keys<T, K>(items: Seq<T>, key: spec_fn(T) -> K) -> bool {
    forall|i: int, j: int|
        #![trigger items[i], items[j]]
        0 <= i < j < items.len() ==> key(items[i]) != key(items[j])
}

/// Sorting keeps keys distinct.
pub proof fn lemma_sort_distinct<T: Ranked, K>(items: Seq<T>, key: spec_fn(T) -> K)
    requires
        distinct_keys(items, key),
    ensures
        distinct_keys(stable_sort(items), key),
    decreases items.len(),
{
    if items.len() > 0 {
        let front = items.drop_last();
        let item = items.last();
        assert forall|i: int, j: int|
            #![trigger front[i], front[j]]
            0 <= i < j < front.len() implies key(front[i]) != key(front[j]) by {
            assert(front[i] == items[i] && front[j] == items[j]);
        }
        lemma_sort_distinct(front, key);
        let sorted = stable_sort(front);
        lemma_stable_sort(front);
        lemma_sort_members(front);
        lemma_slot(sorted, item);
        let at = slot(sorted, item);
        let all = sorted.insert(at, item);
        assert forall|k: int| 0 <= k < sorted.len() implies key(#[trigger] sorted[k]) != key(item) by {
            assert(stable_sort(front).contains(sorted[k]));
            let m = choose|m: int| 0 <= m < front.len() && front[m] == sorted[k];
            assert(items[m] == front[m] && items[items.len() - 1] == item);
        }
        assert forall|i: int, j: int|
            #![trigger all[i], all[j]]
            0 <= i < j < all.len() implies key(all[i]) != key(all[j]) by {
            let a = if i < at { i } else { i - 1 };
            let b = if j < at { j } else { j - 1 };
            if i != at {
                assert(all[i] == sorted[a]);
            }
            if j != at {
                assert(all[j] == sorted[b]);
            }
        }
    }
}

} // verus!
