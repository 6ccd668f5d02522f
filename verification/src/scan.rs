//! Searches: the first fault of a list, and the point where a list turns.

use vstd::prelude::*;

verus! {

/// The first of the faults that `fault` finds at `from..to`.
pub open spec fn first_fault<E>(fault: spec_fn(int) -> Option<E>, from: int, to: int) -> Option<E>
    decreases to - from,
{
    if from >= to {
        None
    } else if fault(from) is Some {
        fault(from)
    } else {
        first_fault(fault, from + 1, to)
    }
}

/// There is no first fault exactly when there is no fault, and a first fault
/// is a fault with none before it.
pub proof fn lemma_first_fault<E>(fault: spec_fn(int) -> Option<E>, from: int, to: int)
    ensures
        first_fault(fault, from, to) is None <==> (forall|i: int|
            from <= i < to ==> (#[trigger] fault(i)) is None),
        first_fault(fault, from, to) is Some ==> exists|i: int|
            from <= i < to && #[trigger] fault(i) == first_fault(fault, from, to) && (forall|j: int|
                from <= j < i ==> (#[trigger] fault(j)) is None),
    decreases to - from,
{
    if from < to {
        lemma_first_fault(fault, from + 1, to);
        if fault(from) is None && first_fault(fault, from, to) is Some {
            let i = choose|i: int|
                from + 1 <= i < to && #[trigger] fault(i) == first_fault(fault, from + 1, to) && (
                forall|j: int| from + 1 <= j < i ==> (#[trigger] fault(j)) is None);
            assert(forall|j: int| from <= j < i ==> (#[trigger] fault(j)) is None);
        }
    }
}

/// Once nothing was found before `at`, the search goes on from there.
pub proof fn lemma_first_fault_from<E>(fault: spec_fn(int) -> Option<E>, from: int, at: int, to: int)
    requires
        from <= at <= to,
        forall|i: int| from <= i < at ==> (#[trigger] fault(i)) is None,
    ensures
        first_fault(fault, from, to) == first_fault(fault, at, to),
    decreases at - from,
{
    if from < at {
        lemma_first_fault_from(fault, from + 1, at, to);
    }
}

/// The first index at or behind `from` whose item satisfies `test`, or the
/// length.
pub open spec fn first_where<T>(items: Seq<T>, test: spec_fn(T) -> bool, from: int) -> int
    decreases items.len() - from,
{
    if from >= items.len() {
        items.len() as int
    } else if test(items[from]) {
        from
    } else {
        first_where(items, test, from + 1)
    }
}

pub proof fn lemma_first_where<T>(items: Seq<T>, test: spec_fn(T) -> bool, from: int)
    requires
        0 <= from <= items.len(),
    ensures
        from <= first_where(items, test, from) <= items.len(),
        forall|i: int|
            from <= i < first_where(items, test, from) ==> !(#[trigger] test(items[i])),
        first_where(items, test, from) < items.len() ==> test(
            items[first_where(items, test, from)],
        ),
    decreases items.len() - from,
{
    if from < items.len() && !test(items[from]) {
        lemma_first_where(items, test, from + 1);
    }
}

/// The one index that separates the items without `test` from the first with
/// it is the first index with it.
pub proof fn lemma_first_where_is<T>(items: Seq<T>, test: spec_fn(T) -> bool, from: int, at: int)
    requires
        0 <= from <= at <= items.len(),
        forall|i: int| from <= i < at ==> !(#[trigger] test(items[i])),
        at < items.len() ==> test(items[at]),
    ensures
        first_where(items, test, from) == at,
    decreases at - from,
{
    if from < at {
        assert(!test(items[from]));
        lemma_first_where_is(items, test, from + 1, at);
    }
}

/// The last index before `to` whose item satisfies `test`, or -1.
pub open spec fn last_where<T>(items: Seq<T>, test: spec_fn(T) -> bool, to: int) -> int
    decreases to,
{
    if to <= 0 {
        -1
    } else if test(items[to - 1]) {
        to - 1
    } else {
        last_where(items, test, to - 1)
    }
}

pub proof fn lemma_last_where<T>(items: Seq<T>, test: spec_fn(T) -> bool, to: int)
    requires
        0 <= to <= items.len(),
    ensures
        -1 <= last_where(items, test, to) < to || (to == 0 && last_where(items, test, to) == -1),
        forall|i: int|
            last_where(items, test, to) < i < to ==> !(#[trigger] test(items[i])),
        last_where(items, test, to) >= 0 ==> test(items[last_where(items, test, to)]),
    decreases to,
{
    if to > 0 && !test(items[to - 1]) {
        lemma_last_where(items, test, to - 1);
    }
}

} // verus!
