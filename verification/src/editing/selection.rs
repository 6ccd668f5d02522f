//! A set of selections with one cursor each.

use crate::order::{
    in_rank_order, lemma_sort_members, lemma_stable_sort, rank_less, sort_stable, stable_sort, Ranked,
};
use crate::scan::{first_where, lemma_first_where, lemma_first_where_is};
use std::ops::Range;
use vstd::prelude::*;

verus! {

/// Stable identity for a cursor within one retained selection set.
#[derive(Debug, Clone, Copy, PartialEq, Eq, Structural, Hash, PartialOrd, Ord)]
pub struct CursorId(usize);

impl CursorId {
    pub closed spec fn spec_number(self) -> usize {
        self.0
    }

    /// Cursors with the same number are the same.
    pub broadcast proof fn lemma_number(a: CursorId, b: CursorId)
        ensures
            #[trigger] a.spec_number() == #[trigger] b.spec_number() ==> a == b,
    {
    }

    pub fn new(id: usize) -> (cursor: Self)
        ensures
            cursor.spec_number() == id,
    {
        CursorId(id)
    }
}

impl Default for CursorId {
    fn default() -> (cursor: Self)
        ensures
            cursor.spec_number() == 0,
    {
        CursorId(0)
    }
}

/// A selection and where its cursor is. A column anchor holds the bits of an
/// x coordinate and a column.
#[derive(Debug, Clone, Copy, PartialEq)]
pub struct CursorSelection {
    pub id: CursorId,
    pub start: usize,
    pub end: usize,
    pub reversed: bool,
    pub column_anchor: Option<(u32, usize)>,
}

impl CursorSelection {
    /// Whether an offset is selected.
    pub open spec fn holds(self, offset: int) -> bool {
        self.start <= offset < self.end
    }

    pub fn new(id: CursorId, start: usize, end: usize) -> (selection: Self)
        ensures
            selection == (CursorSelection {
                id,
                start,
                end,
                reversed: false,
                column_anchor: None,
            }),
    {
        CursorSelection { id, start, end, reversed: false, column_anchor: None }
    }

    pub fn len(&self) -> (len: usize)
        ensures
            len == (if self.start < self.end {
                self.end - self.start
            } else {
                0
            }),
    {
        self.end.saturating_sub(self.start)
    }

    pub fn is_empty(&self) -> (empty: bool)
        ensures
            empty == (self.start == self.end),
    {
        self.start == self.end
    }

    pub fn clear(&mut self)
        ensures
            *final(self) == (CursorSelection { start: 0, end: 0, ..*old(self) }),
    {
        self.start = 0;
        self.end = 0;
    }

    pub fn contains(&self, offset: usize) -> (holds: bool)
        ensures
            holds == self.holds(offset as int),
    {
        offset >= self.start && offset < self.end
    }

    /// Where the cursor is: at the end, or at the start of a reversed
    /// selection.
    pub fn cursor_offset(&self) -> (offset: usize)
        ensures
            offset == (if self.reversed {
                self.start
            } else {
                self.end
            }),
    {
        if self.reversed {
            self.start
        } else {
            self.end
        }
    }

    /// Collapses the selection to a cursor.
    pub fn place_at(&mut self, offset: usize, column_anchor: Option<(u32, usize)>)
        ensures
            *final(self) == (CursorSelection {
                id: old(self).id,
                start: offset,
                end: offset,
                reversed: false,
                column_anchor,
            }),
    {
        self.start = offset;
        self.end = offset;
        self.reversed = false;
        self.column_anchor = column_anchor;
    }

    pub fn is_collapsed(&self) -> (collapsed: bool)
        ensures
            collapsed == (self.start == self.end),
    {
        self.is_empty()
    }
}

impl vstd::std_specs::convert::FromSpecImpl<Range<usize>> for CursorSelection {
    open spec fn obeys_from_spec() -> bool {
        true
    }

    open spec fn from_spec(value: Range<usize>) -> CursorSelection {
        CursorSelection {
            id: choose|id: CursorId| #[trigger] id.spec_number() == 0,
            start: value.start,
            end: value.end,
            reversed: false,
            column_anchor: None,
        }
    }
}

impl From<Range<usize>> for CursorSelection {
    fn from(value: Range<usize>) -> (selection: Self) {
        let id = CursorId::default();
        proof {
            let chosen = choose|id: CursorId| #[trigger] id.spec_number() == 0;
            assert(id.spec_number() == 0);
            CursorId::lemma_number(chosen, id);
        }
        CursorSelection::new(id, value.start, value.end)
    }
}

impl vstd::std_specs::convert::FromSpecImpl<CursorSelection> for Range<usize> {
    open spec fn obeys_from_spec() -> bool {
        true
    }

    open spec fn from_spec(value: CursorSelection) -> Range<usize> {
        Range { start: value.start, end: value.end }
    }
}

impl From<CursorSelection> for Range<usize> {
    fn from(value: CursorSelection) -> (range: Self) {
        value.start..value.end
    }
}

impl Ranked for CursorSelection {
    open spec fn rank(&self) -> (int, int) {
        (self.start as int, 0)
    }

    fn ranks_after(&self, other: &Self) -> (after: bool) {
        other.start < self.start
    }
}

// ---------------------------------------------------------------------------
// Merging
// ---------------------------------------------------------------------------

/// A selection that begins within another becomes a part of it. The cursor of
/// the active one is kept.
pub open spec fn joined(into: CursorSelection, other: CursorSelection, active: CursorId) -> CursorSelection {
    let is_active = other.id == active;
    CursorSelection {
        id: if is_active {
            active
        } else {
            into.id
        },
        start: into.start,
        end: if other.end > into.end {
            other.end
        } else {
            into.end
        },
        reversed: if is_active {
            other.reversed
        } else {
            into.reversed
        },
        column_anchor: if other.start != into.start || other.end != into.end {
            None
        } else {
            into.column_anchor
        },
    }
}

/// Selections in order, with each that begins within the one before joined to
/// it.
pub open spec fn merged(selections: Seq<CursorSelection>, active: CursorId) -> Seq<CursorSelection>
    decreases selections.len(),
{
    if selections.len() == 0 {
        Seq::empty()
    } else {
        let front = merged(selections.drop_last(), active);
        let next = selections.last();
        if front.len() > 0 && next.start <= front.last().end {
            front.drop_last().push(joined(front.last(), next, active))
        } else {
            front.push(next)
        }
    }
}

/// With the selection of a cursor first.
pub open spec fn fronted(selections: Seq<CursorSelection>, active: CursorId) -> Seq<CursorSelection> {
    let at = first_where(selections, |s: CursorSelection| s.id == active, 0);
    if at < selections.len() {
        selections.update(0, selections[at]).update(at, selections[0])
    } else {
        selections
    }
}

/// What is left of selections once those that overlap are merged.
pub open spec fn merged_selections(selections: Seq<CursorSelection>) -> Seq<CursorSelection> {
    if selections.len() <= 1 {
        selections
    } else {
        fronted(merged(stable_sort(selections), selections[0].id), selections[0].id)
    }
}

/// An offset is selected.
pub open spec fn any_holds(selections: Seq<CursorSelection>, offset: int) -> bool {
    exists|i: int| 0 <= i < selections.len() && (#[trigger] selections[i]).holds(offset)
}

/// A cursor is one of those of the selections.
pub open spec fn has_cursor(selections: Seq<CursorSelection>, id: CursorId) -> bool {
    exists|i: int| 0 <= i < selections.len() && (#[trigger] selections[i]).id == id
}

/// All selections of a cursor have one direction.
pub open spec fn directed(selections: Seq<CursorSelection>, id: CursorId, reversed: bool) -> bool {
    forall|i: int|
        0 <= i < selections.len() && (#[trigger] selections[i]).id == id ==> selections[i].reversed
            == reversed
}

/// No selection begins before the end of one before it.
pub open spec fn apart_in_order(selections: Seq<CursorSelection>) -> bool {
    &&& forall|i: int, j: int|
        #![trigger selections[i], selections[j]]
        0 <= i < j < selections.len() ==> selections[i].end < selections[j].start
    &&& forall|i: int, j: int|
        #![trigger selections[i], selections[j]]
        0 <= i < j < selections.len() ==> selections[i].start <= selections[j].start
}

proof fn lemma_merged(sorted: Seq<CursorSelection>, active: CursorId, reversed: bool)
    requires
        in_rank_order(sorted),
    ensures
        ({
            let out = merged(sorted, active);
            &&& apart_in_order(out)
            &&& sorted.len() > 0 ==> out.len() > 0 && out.last().start <= sorted.last().start
            &&& has_cursor(sorted, active) ==> has_cursor(out, active)
            &&& directed(sorted, active, reversed) ==> directed(out, active, reversed)
        }),
    decreases sorted.len(),
{
    if sorted.len() > 0 {
        let before = sorted.drop_last();
        let next = sorted.last();
        let front = merged(before, active);
        let out = merged(sorted, active);
        assert(in_rank_order(before)) by {
            assert forall|i: int, j: int| 0 <= i < j < before.len() implies !rank_less(
                #[trigger] before[j].rank(),
                #[trigger] before[i].rank(),
            ) by {
                assert(!rank_less(sorted[j].rank(), sorted[i].rank()));
            }
        }
        lemma_merged(before, active, reversed);
        if before.len() > 0 {
            let last = before.len() - 1;
            assert(!rank_less(sorted[sorted.len() - 1].rank(), sorted[last].rank()));
            assert(before.last().start <= next.start);
        }
        if directed(sorted, active, reversed) {
            assert(directed(before, active, reversed)) by {
                assert forall|i: int|
                    0 <= i < before.len() && (#[trigger] before[i]).id
                        == active implies before[i].reversed == reversed by {
                    assert(sorted[i] == before[i]);
                }
            }
            assert(sorted[sorted.len() - 1] == next);
        }
        if has_cursor(sorted, active) {
            let k = choose|k: int| 0 <= k < sorted.len() && (#[trigger] sorted[k]).id == active;
            if k < before.len() {
                assert(before[k].id == active);
                let q = choose|q: int| 0 <= q < front.len() && (#[trigger] front[q]).id == active;
                assert(out[q].id == active);
            } else {
                assert(out[out.len() - 1].id == active);
            }
        }
    }
}

proof fn lemma_merged_holds(sorted: Seq<CursorSelection>, active: CursorId, offset: int)
    requires
        in_rank_order(sorted),
    ensures
        any_holds(merged(sorted, active), offset) <==> any_holds(sorted, offset),
    decreases sorted.len(),
{
    if sorted.len() > 0 {
        let before = sorted.drop_last();
        let next = sorted.last();
        let front = merged(before, active);
        let out = merged(sorted, active);
        assert(in_rank_order(before)) by {
            assert forall|i: int, j: int| 0 <= i < j < before.len() implies !rank_less(
                #[trigger] before[j].rank(),
                #[trigger] before[i].rank(),
            ) by {
                assert(!rank_less(sorted[j].rank(), sorted[i].rank()));
            }
        }
        lemma_merged(before, active, true);
        lemma_merged_holds(before, active, offset);
        if before.len() > 0 {
            let last = before.len() - 1;
            assert(!rank_less(sorted[sorted.len() - 1].rank(), sorted[last].rank()));
        }
        assert(any_holds(sorted, offset) <==> any_holds(before, offset) || next.holds(offset)) by {
            if any_holds(before, offset) {
                let k = choose|k: int|
                    0 <= k < before.len() && (#[trigger] before[k]).holds(offset);
                assert(sorted[k].holds(offset));
            }
            if next.holds(offset) {
                assert(sorted[sorted.len() - 1].holds(offset));
            }
            if any_holds(sorted, offset) {
                let k = choose|k: int|
                    0 <= k < sorted.len() && (#[trigger] sorted[k]).holds(offset);
                if k < before.len() {
                    assert(before[k].holds(offset));
                }
            }
        }
        if any_holds(front, offset) {
            let k = choose|k: int| 0 <= k < front.len() && (#[trigger] front[k]).holds(offset);
            assert(out[k].holds(offset));
        }
        if next.holds(offset) {
            assert(out[out.len() - 1].holds(offset));
        }
        if any_holds(out, offset) {
            let k = choose|k: int| 0 <= k < out.len() && (#[trigger] out[k]).holds(offset);
            if k < front.len() && !next.holds(offset) {
                assert(front[k].holds(offset));
            }
        }
    }
}

/// Putting a cursor first moves selections, and changes none.
proof fn lemma_fronted(selections: Seq<CursorSelection>, active: CursorId)
    ensures
        ({
            let out = fronted(selections, active);
            let at = first_where(selections, |s: CursorSelection| s.id == active, 0);
            &&& out.len() == selections.len()
            &&& 0 <= at
            &&& has_cursor(selections, active) ==> at < selections.len() && out[0].id == active
            &&& forall|i: int| 0 <= i < out.len() ==> #[trigger] out[i] == selections[if at
                >= selections.len() {
                i
            } else if i == 0 {
                at
            } else if i == at {
                0
            } else {
                i
            }]
        }),
{
    let test = |s: CursorSelection| s.id == active;
    lemma_first_where(selections, test, 0);
    if has_cursor(selections, active) {
        let k = choose|k: int| 0 <= k < selections.len() && (#[trigger] selections[k]).id == active;
        assert(test(selections[k]));
    }
}

/// Selections that are merged do not touch each other.
pub proof fn law_merged_selections_are_apart(selections: Seq<CursorSelection>, i: int, j: int)
    requires
        0 <= i < merged_selections(selections).len(),
        0 <= j < merged_selections(selections).len(),
        i != j,
    ensures
        ({
            let a = merged_selections(selections)[i];
            let b = merged_selections(selections)[j];
            a.end < b.start || b.end < a.start
        }),
{
    let active = selections[0].id;
    let sorted = stable_sort(selections);
    lemma_stable_sort(selections);
    lemma_merged(sorted, active, true);
    lemma_fronted(merged(sorted, active), active);
    let out = merged_selections(selections);
    assert(out[i] == out[i] && out[j] == out[j]);
}

/// Merging selects neither more nor less than was selected.
pub proof fn law_merging_keeps_what_is_selected(selections: Seq<CursorSelection>, offset: int)
    ensures
        any_holds(merged_selections(selections), offset) <==> any_holds(selections, offset),
{
    if selections.len() > 1 {
        let active = selections[0].id;
        let sorted = stable_sort(selections);
        lemma_stable_sort(selections);
        lemma_sort_members(selections);
        let all = merged(sorted, active);
        lemma_merged_holds(sorted, active, offset);
        lemma_fronted(all, active);
        let out = merged_selections(selections);
        if any_holds(selections, offset) {
            let k = choose|k: int|
                0 <= k < selections.len() && (#[trigger] selections[k]).holds(offset);
            assert(selections.contains(selections[k]));
            assert(sorted.contains(selections[k]));
            let q = choose|q: int| 0 <= q < sorted.len() && sorted[q] == selections[k];
            assert(sorted[q].holds(offset));
        }
        if any_holds(sorted, offset) {
            let k = choose|k: int| 0 <= k < sorted.len() && (#[trigger] sorted[k]).holds(offset);
            assert(sorted.contains(sorted[k]));
            assert(selections.contains(sorted[k]));
            let q = choose|q: int| 0 <= q < selections.len() && selections[q] == sorted[k];
            assert(selections[q].holds(offset));
        }
        let at = first_where(all, |s: CursorSelection| s.id == active, 0);
        if any_holds(all, offset) {
            let k = choose|k: int| 0 <= k < all.len() && (#[trigger] all[k]).holds(offset);
            let q = if at >= all.len() {
                k
            } else if k == at {
                0
            } else if k == 0 {
                at
            } else {
                k
            };
            assert(out[q] == all[k]);
        }
        if any_holds(out, offset) {
            let k = choose|k: int| 0 <= k < out.len() && (#[trigger] out[k]).holds(offset);
            let q = if at >= all.len() {
                k
            } else if k == 0 {
                at
            } else if k == at {
                0
            } else {
                k
            };
            assert(all[q].holds(offset));
        }
    }
}

/// Merging leaves the active cursor active, and its direction as it was where
/// no other selection has that cursor.
pub proof fn law_merging_keeps_the_active_cursor(selections: Seq<CursorSelection>)
    requires
        selections.len() >= 1,
    ensures
        merged_selections(selections).len() >= 1,
        merged_selections(selections)[0].id == selections[0].id,
        directed(selections, selections[0].id, selections[0].reversed) ==> merged_selections(
            selections,
        )[0].reversed == selections[0].reversed,
{
    if selections.len() > 1 {
        let active = selections[0].id;
        let reversed = selections[0].reversed;
        let sorted = stable_sort(selections);
        lemma_stable_sort(selections);
        lemma_sort_members(selections);
        let all = merged(sorted, active);
        lemma_merged(sorted, active, reversed);
        lemma_fronted(all, active);
        assert(selections.contains(selections[0]));
        assert(sorted.contains(selections[0]));
        let q = choose|q: int| 0 <= q < sorted.len() && sorted[q] == selections[0];
        assert(sorted[q].id == active);
        assert(has_cursor(sorted, active));
        if directed(selections, active, reversed) {
            assert forall|i: int|
                0 <= i < sorted.len() && (#[trigger] sorted[i]).id
                    == active implies sorted[i].reversed == reversed by {
                assert(sorted.contains(sorted[i]));
                assert(selections.contains(sorted[i]));
                let k = choose|k: int| 0 <= k < selections.len() && selections[k] == sorted[i];
                assert(selections[k].id == active);
            }
        }
        let out = merged_selections(selections);
        assert(out[0].id == active);
    }
}

/// Selections that are never empty as a set. The first of them is active.
pub struct Selections {
    selections: Vec<CursorSelection>,
    next_id: usize,
}

impl View for Selections {
    type V = Seq<CursorSelection>;

    closed spec fn view(&self) -> Seq<CursorSelection> {
        self.selections@
    }
}

impl Selections {
    /// There is an active selection.
    pub open spec fn wf(self) -> bool {
        self@.len() >= 1
    }

    /// The number that the next cursor gets.
    pub closed spec fn spec_next(self) -> usize {
        self.next_id
    }

    pub fn new() -> (selections: Self)
        ensures
            selections.wf(),
            selections@.len() == 1,
            selections@[0].id.spec_number() == 0,
            selections@[0] == (CursorSelection {
                id: selections@[0].id,
                start: 0,
                end: 0,
                reversed: false,
                column_anchor: None,
            }),
            selections.spec_next() == 1,
    {
        let mut selections: Vec<CursorSelection> = Vec::new();
        selections.push(CursorSelection::new(CursorId::new(0), 0, 0));
        Selections { selections, next_id: 1 }
    }

    /// Returns the active selection.
    pub fn active(&self) -> (active: &CursorSelection)
        requires
            self.wf(),
        ensures
            *active == self@[0],
    {
        &self.selections[0]
    }

    /// Returns a mutable reference to the active selection.
    pub fn active_mut(&mut self) -> (active: &mut CursorSelection)
        requires
            old(self).wf(),
        ensures
            *active == old(self)@[0],
            final(self)@ == old(self)@.update(0, *final(active)),
            final(self).spec_next() == old(self).spec_next(),
    {
        &mut self.selections[0]
    }

    /// The selections, the active one first.
    pub fn as_slice(&self) -> (selections: &[CursorSelection])
        ensures
            selections@ == self@,
    {
        self.selections.as_slice()
    }

    /// Returns the number of selections (always `>= 1`).
    pub fn len(&self) -> (len: usize)
        ensures
            len == self@.len(),
    {
        self.selections.len()
    }

    /// Returns true when there is exactly one selection.
    pub fn is_single(&self) -> (single: bool)
        ensures
            single == (self@.len() == 1),
    {
        self.selections.len() == 1
    }

    /// Generates a new unique cursor id.
    pub fn generate_id(&mut self) -> (id: CursorId)
        requires
            old(self).spec_next() < usize::MAX,
        ensures
            id.spec_number() == old(self).spec_next(),
            final(self).spec_next() == old(self).spec_next() + 1,
            final(self)@ == old(self)@,
    {
        let id = CursorId::new(self.next_id);
        self.next_id += 1;
        id
    }

    /// Adds an additional selection.
    pub fn add(&mut self, selection: CursorSelection)
        ensures
            final(self)@ == old(self)@.push(selection),
            final(self).spec_next() == old(self).spec_next(),
    {
        self.selections.push(selection);
    }

    /// Replaces all selections. Ignores an empty vec, so that there is always
    /// at least one selection.
    pub fn replace_all(&mut self, selections: Vec<CursorSelection>)
        ensures
            final(self)@ == (if selections@.len() > 0 {
                selections@
            } else {
                old(self)@
            }),
            final(self).spec_next() == old(self).spec_next(),
    {
        if selections.len() > 0 {
            self.selections = selections;
        }
    }

    /// Removes every selection except the active one.
    pub fn remove_all_but_active(&mut self)
        requires
            old(self).wf(),
        ensures
            final(self).wf(),
            final(self)@ == seq![old(self)@[0]],
            final(self).spec_next() == old(self).spec_next(),
    {
        self.selections.truncate(1);
        assert(self@ =~= seq![old(self)@[0]]);
    }

    /// Merges overlapping selections while preserving active cursor identity.
    pub fn merge_overlapping(&mut self)
        requires
            old(self).wf(),
        ensures
            final(self).wf(),
            final(self)@ == merged_selections(old(self)@),
            final(self).spec_next() == old(self).spec_next(),
    {
        let ghost before = self@;
        if self.selections.len() <= 1 {
            return;
        }
        let active_id = self.selections[0].id;
        sort_stable(&mut self.selections);
        let ghost sorted = stable_sort(before);
        proof {
            lemma_stable_sort(before);
        }
        let mut out: Vec<CursorSelection> = Vec::new();
        let mut i: usize = 0;
        assert(sorted.take(0) =~= Seq::<CursorSelection>::empty());
        while i < self.selections.len()
            invariant
                self.selections@ == sorted,
                i <= sorted.len(),
                out@ == merged(sorted.take(i as int), active_id),
                i > 0 ==> out@.len() > 0,
                self.next_id == old(self).next_id,
            decreases sorted.len() - i,
        {
            let next = self.selections[i];
            let ghost front = out@;
            proof {
                assert(sorted.take(i + 1).drop_last() =~= sorted.take(i as int));
                assert(sorted.take(i + 1).last() == next);
            }
            let count = out.len();
            if count > 0 && next.start <= out[count - 1].end {
                let last = out[count - 1];
                let is_active = next.id == active_id;
                let whole = CursorSelection {
                    id: if is_active {
                        active_id
                    } else {
                        last.id
                    },
                    start: last.start,
                    end: if next.end > last.end {
                        next.end
                    } else {
                        last.end
                    },
                    reversed: if is_active {
                        next.reversed
                    } else {
                        last.reversed
                    },
                    column_anchor: if next.start != last.start || next.end != last.end {
                        None
                    } else {
                        last.column_anchor
                    },
                };
                out.set(count - 1, whole);
                assert(out@ =~= front.drop_last().push(joined(front.last(), next, active_id)));
            } else {
                out.push(next);
            }
            i += 1;
        }
        assert(sorted.take(sorted.len() as int) =~= sorted);
        let ghost all = out@;
        let ghost test = |s: CursorSelection| s.id == active_id;
        let mut at: usize = 0;
        while at < out.len() && out[at].id != active_id
            invariant
                out@ == all,
                at <= all.len(),
                test == (|s: CursorSelection| s.id == active_id),
                forall|k: int| 0 <= k < at ==> !(#[trigger] test(all[k])),
            decreases all.len() - at,
        {
            assert(!test(all[at as int]));
            at += 1;
        }
        proof {
            if at < all.len() {
                assert(test(all[at as int]));
            }
            lemma_first_where_is(all, test, 0, at as int);
        }
        if at < out.len() {
            let first = out[0];
            let active = out[at];
            out.set(0, active);
            out.set(at, first);
            assert(out@ =~= fronted(all, active_id));
        }
        self.selections = out;
    }
}

impl Default for Selections {
    fn default() -> (selections: Self)
        ensures
            selections.wf(),
            selections@.len() == 1,
            selections@[0].id.spec_number() == 0,
            selections@[0].start == 0,
            selections@[0].end == 0,
            !selections@[0].reversed,
            selections@[0].column_anchor is None,
            selections.spec_next() == 1,
    {
        Selections::new()
    }
}

} // verus!
