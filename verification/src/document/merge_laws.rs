//! A record and its continuation, merged, are undone and redone together.

use crate::document::transaction::EditOrigin;
use crate::document::undo::{
    has_line_break, merge_kind, merged_change, merged_record, refines, user_merge, ChangeView,
    MergeKind, RecordView, UndoView, MAX_UNDO_BYTES,
};
use crate::text::splice_bytes;
use vstd::prelude::*;

verus! {

/// A change says what it removes from a text.
pub open spec fn change_applies(text: Seq<u8>, change: ChangeView) -> bool {
    &&& 0 <= change.start <= change.end <= text.len()
    &&& change.end <= usize::MAX
    &&& change.removed == text.subrange(change.start, change.end)
}

/// A text after a change.
pub open spec fn changed(text: Seq<u8>, change: ChangeView) -> Seq<u8> {
    splice_bytes(text, change.start, change.end, change.inserted)
}

/// A text after a change was taken back.
pub open spec fn taken_back(text: Seq<u8>, change: ChangeView) -> Seq<u8> {
    splice_bytes(text, change.start, change.start + change.inserted.len(), change.removed)
}

/// Changes, each made on what those before it have left.
pub open spec fn changes_apply(text: Seq<u8>, changes: Seq<ChangeView>) -> bool
    decreases changes.len(),
{
    changes.len() > 0 ==> changes_apply(text, changes.drop_last()) && change_applies(
        all_changed(text, changes.drop_last()),
        changes.last(),
    )
}

/// A text after changes.
pub open spec fn all_changed(text: Seq<u8>, changes: Seq<ChangeView>) -> Seq<u8>
    decreases changes.len(),
{
    if changes.len() == 0 {
        text
    } else {
        changed(all_changed(text, changes.drop_last()), changes.last())
    }
}

/// A text after changes were taken back, the last one first.
pub open spec fn all_taken_back(text: Seq<u8>, changes: Seq<ChangeView>) -> Seq<u8>
    decreases changes.len(),
{
    if changes.len() == 0 {
        text
    } else {
        all_taken_back(taken_back(text, changes.last()), changes.drop_last())
    }
}

/// Taking changes back gives the text from before.
pub proof fn law_changes_taken_back_are_gone(text: Seq<u8>, changes: Seq<ChangeView>)
    requires
        changes_apply(text, changes),
    ensures
        all_taken_back(all_changed(text, changes), changes) == text,
    decreases changes.len(),
{
    if changes.len() > 0 {
        let before = all_changed(text, changes.drop_last());
        let change = changes.last();
        let after = changed(before, change);
        assert(taken_back(after, change) =~= before);
        law_changes_taken_back_are_gone(text, changes.drop_last());
    }
}

proof fn lemma_appended(text: Seq<u8>, first: Seq<ChangeView>, second: Seq<ChangeView>)
    requires
        changes_apply(text, first),
        changes_apply(all_changed(text, first), second),
    ensures
        changes_apply(text, first + second),
        all_changed(text, first + second) == all_changed(all_changed(text, first), second),
    decreases second.len(),
{
    let both = first + second;
    if second.len() == 0 {
        assert(both =~= first);
    } else {
        lemma_appended(text, first, second.drop_last());
        assert(both.drop_last() =~= first + second.drop_last());
        assert(both.last() == second.last());
    }
}

proof fn lemma_single(text: Seq<u8>, change: ChangeView)
    ensures
        changes_apply(text, seq![change]) <==> change_applies(text, change),
        all_changed(text, seq![change]) == changed(text, change),
{
    let one = seq![change];
    assert(one.drop_last() =~= Seq::<ChangeView>::empty());
    reveal_with_fuel(all_changed, 2);
    reveal_with_fuel(changes_apply, 2);
}

/// Two single changes that merge act as the merged one.
proof fn lemma_merged_change(text: Seq<u8>, left: ChangeView, right: ChangeView, kind: MergeKind)
    requires
        change_applies(text, left),
        change_applies(changed(text, left), right),
        text.len() <= usize::MAX,
        kind == MergeKind::Refine ==> refines(left, right),
        kind == MergeKind::Insert || kind == MergeKind::DeleteBackward || kind
            == MergeKind::DeleteForward ==> user_merge(left, right) == kind,
        kind != MergeKind::Separate,
        kind != MergeKind::Append,
    ensures
        change_applies(text, merged_change(left, right, kind)),
        changed(text, merged_change(left, right, kind)) == changed(changed(text, left), right),
{
    let both = merged_change(left, right, kind);
    let mid = changed(text, left);
    if kind == MergeKind::DeleteBackward {
        assert(text.subrange(both.start, both.end) =~= right.removed + left.removed) by {
            assert(mid.subrange(right.start, right.end) =~= text.subrange(right.start, right.end));
        }
    } else if kind == MergeKind::DeleteForward {
        assert(mid.subrange(right.start, right.end) =~= text.subrange(
            left.end,
            left.end + right.removed.len(),
        ));
        assert(text.subrange(both.start, both.end) =~= left.removed + right.removed);
    }
    assert(changed(text, both) =~= changed(mid, right));
}

/// A record that continues the one before is merged with it into one record.
/// The merged record makes the changes of both, so that taking it back takes
/// both back.
pub proof fn law_merged_records_act_as_both<I>(
    text: Seq<u8>,
    previous: RecordView<I>,
    record: RecordView<I>,
    origin: EditOrigin,
)
    requires
        text.len() <= usize::MAX,
        changes_apply(text, previous.changes),
        changes_apply(all_changed(text, previous.changes), record.changes),
        merge_kind(previous, record, origin) != MergeKind::Separate,
    ensures
        ({
            let both = merged_record(previous, record, merge_kind(previous, record, origin));
            let after = all_changed(all_changed(text, previous.changes), record.changes);
            &&& changes_apply(text, both.changes)
            &&& all_changed(text, both.changes) == after
            &&& all_taken_back(after, both.changes) == text
            &&& both.selection_before == previous.selection_before
            &&& both.selection_after == record.selection_after
        }),
{
    let kind = merge_kind(previous, record, origin);
    let both = merged_record(previous, record, kind);
    if kind == MergeKind::Append {
        lemma_appended(text, previous.changes, record.changes);
    } else {
        let left = previous.changes[0];
        let right = record.changes[0];
        assert(previous.changes =~= seq![left]);
        assert(record.changes =~= seq![right]);
        lemma_single(text, left);
        lemma_single(changed(text, left), right);
        lemma_merged_change(text, left, right, kind);
        lemma_single(text, merged_change(left, right, kind));
    }
    law_changes_taken_back_are_gone(text, both.changes);
}

/// A new edit is one more record or continues the newest one, leaves the older
/// records alone, and drops what could be redone.
pub proof fn law_edits_add_at_most_one_record<I>(
    undo: UndoView<I>,
    record: RecordView<I>,
    origin: EditOrigin,
)
    ensures
        undo.added(record, origin).redo.len() == 0,
        undo.added(record, origin).undo.len() <= undo.undo.len() + 1,
        undo.continues(record, origin) ==> undo.added(record, origin).undo.len()
            <= undo.undo.len(),
        forall|i: int|
            0 <= i < undo.undo.len() - 1 && i < undo.added(record, origin).undo.len()
                ==> undo.added(record, origin).undo[i] == #[trigger] undo.undo[i],
{
}

// ---------------------------------------------------------------------------
// What is undone at once
// ---------------------------------------------------------------------------

/// Changes put a line feed or a carriage return into the text.
pub open spec fn breaks_lines(changes: Seq<ChangeView>) -> bool {
    exists|i: int, j: int|
        #![trigger changes[i].inserted[j]]
        0 <= i < changes.len() && 0 <= j < changes[i].inserted.len() && (changes[i].inserted[j]
            == 0x0a || changes[i].inserted[j] == 0x0d)
}

/// A line break that the user types is a record of its own: it is not merged
/// with what was typed before it, nor is what is typed behind it.
pub proof fn law_line_breaks_are_records_of_their_own<I>(
    undo: UndoView<I>,
    record: RecordView<I>,
)
    requires
        !record.is_void(),
        breaks_lines(record.changes) || (undo.undo.len() > 0 && breaks_lines(
            undo.undo.last().changes,
        )),
    ensures
        undo.added(record, EditOrigin::User).undo == undo.undo.push(record),
{
    let origin = EditOrigin::User;
    if undo.continues(record, origin) {
        let previous = undo.undo.last();
        let left = previous.changes[0];
        let right = record.changes[0];
        let kind = merge_kind(previous, record, origin);
        assert(kind == user_merge(left, right));
        if breaks_lines(record.changes) {
            let (i, j) = choose|i: int, j: int|
                #![trigger record.changes[i].inserted[j]]
                0 <= i < record.changes.len() && 0 <= j < record.changes[i].inserted.len() && (
                record.changes[i].inserted[j] == 0x0a || record.changes[i].inserted[j] == 0x0d);
            assert(i == 0);
            assert(right.inserted[j] == 0x0a || right.inserted[j] == 0x0d);
            assert(has_line_break(right.inserted));
        } else {
            let (i, j) = choose|i: int, j: int|
                #![trigger previous.changes[i].inserted[j]]
                0 <= i < previous.changes.len() && 0 <= j < previous.changes[i].inserted.len() && (
                previous.changes[i].inserted[j] == 0x0a || previous.changes[i].inserted[j]
                    == 0x0d);
            assert(i == 0);
            assert(left.inserted[j] == 0x0a || left.inserted[j] == 0x0d);
            assert(has_line_break(left.inserted));
        }
        assert(false);
    }
    assert(undo.undo.push(record).last() == record);
}

/// Pasted text and text of a host are records of their own.
pub proof fn law_pasted_text_is_a_record_of_its_own<I>(
    undo: UndoView<I>,
    record: RecordView<I>,
    origin: EditOrigin,
)
    requires
        !record.is_void(),
        origin != EditOrigin::User,
        origin != EditOrigin::Composition,
    ensures
        undo.added(record, origin).undo == undo.undo.push(record),
        undo.added(record, origin).coalescing is None,
{
    assert(undo.undo.push(record).last() == record);
}

/// Where the selection was moved, a record is left alone, and so is an edit of
/// another node or of another kind.
pub proof fn law_interrupted_edits_are_apart<I>(
    undo: UndoView<I>,
    record: RecordView<I>,
    origin: EditOrigin,
)
    requires
        !record.is_void(),
        undo.undo.len() == 0 || undo.coalescing != Some(origin) || undo.undo.last().region_id
            != record.region_id || undo.undo.last().selection_after != record.selection_before,
    ensures
        undo.added(record, origin).undo == undo.undo.push(record),
        undo.broken().coalescing is None,
        undo.broken().added(record, origin).undo == undo.undo.push(record),
{
    assert(undo.undo.push(record).last() == record);
}

/// A record may be merged with the newest one: it is of the same kind and
/// node, it comes where the newest one has left the selection, and each is one
/// change.
pub open spec fn follows_on<I>(
    undo: UndoView<I>,
    record: RecordView<I>,
    origin: EditOrigin,
) -> bool {
    &&& undo.undo.len() > 0
    &&& undo.coalescing == Some(origin)
    &&& undo.undo.last().region_id == record.region_id
    &&& undo.undo.last().selection_after == record.selection_before
    &&& undo.undo.last().changes.len() == 1
    &&& record.changes.len() == 1
    &&& undo.undo.last().changes[0].bytes() + record.changes[0].bytes() <= MAX_UNDO_BYTES
}

/// There is still one record for both, of one change.
pub open spec fn grown_to<I>(
    undo: UndoView<I>,
    record: RecordView<I>,
    origin: EditOrigin,
    change: ChangeView,
) -> bool {
    let after = undo.added(record, origin).undo;
    &&& after.len() == undo.undo.len()
    &&& after.drop_last() == undo.undo.drop_last()
    &&& after.last().changes == seq![change]
    &&& after.last().region_id == record.region_id
    &&& after.last().selection_before == undo.undo.last().selection_before
    &&& after.last().selection_after == record.selection_after
}

/// What is typed on behind what was typed before, without a line break, is one
/// record with it: one undo takes both back.
pub proof fn law_typing_is_one_record<I>(undo: UndoView<I>, record: RecordView<I>)
    requires
        follows_on(undo, record, EditOrigin::User),
        ({
            let left = undo.undo.last().changes[0];
            let right = record.changes[0];
            &&& left.removed.len() == 0
            &&& right.removed.len() == 0
            &&& right.start == left.start + left.inserted.len()
            &&& right.inserted.len() > 0
        }),
        !breaks_lines(undo.undo.last().changes),
        !breaks_lines(record.changes),
    ensures
        ({
            let left = undo.undo.last().changes[0];
            let right = record.changes[0];
            grown_to(
                undo,
                record,
                EditOrigin::User,
                ChangeView { inserted: left.inserted + right.inserted, ..left },
            )
        }),
{
    let previous = undo.undo.last();
    let left = previous.changes[0];
    let right = record.changes[0];
    assert(!has_line_break(left.inserted)) by {
        if has_line_break(left.inserted) {
            let j = choose|j: int|
                0 <= j < left.inserted.len() && (#[trigger] left.inserted[j] == 0x0a
                    || left.inserted[j] == 0x0d);
            assert(previous.changes[0].inserted[j] == 0x0a || previous.changes[0].inserted[j]
                == 0x0d);
        }
    }
    assert(!has_line_break(right.inserted)) by {
        if has_line_break(right.inserted) {
            let j = choose|j: int|
                0 <= j < right.inserted.len() && (#[trigger] right.inserted[j] == 0x0a
                    || right.inserted[j] == 0x0d);
            assert(record.changes[0].inserted[j] == 0x0a || record.changes[0].inserted[j] == 0x0d);
        }
    }
    let both = merged_record(previous, record, MergeKind::Insert);
    assert(both.changes[0].inserted.len() > 0);
    assert(!both.is_void());
    assert(undo.undo.drop_last().push(both).drop_last() =~= undo.undo.drop_last());
}

/// Deletions before and behind the caret that touch are one record: one undo
/// brings all of the text back.
pub proof fn law_deleting_is_one_record<I>(undo: UndoView<I>, record: RecordView<I>)
    requires
        follows_on(undo, record, EditOrigin::User),
        ({
            let left = undo.undo.last().changes[0];
            let right = record.changes[0];
            &&& left.inserted.len() == 0
            &&& right.inserted.len() == 0
            &&& right.removed.len() > 0
            &&& right.end == left.start || right.start == left.start
            &&& 0 <= left.start <= left.end
            &&& left.end + right.removed.len() <= usize::MAX
        }),
    ensures
        ({
            let left = undo.undo.last().changes[0];
            let right = record.changes[0];
            grown_to(
                undo,
                record,
                EditOrigin::User,
                if right.end == left.start {
                    ChangeView {
                        start: right.start,
                        removed: right.removed + left.removed,
                        ..left
                    }
                } else {
                    ChangeView {
                        end: left.end + right.removed.len(),
                        removed: left.removed + right.removed,
                        ..left
                    }
                },
            )
        }),
{
    let previous = undo.undo.last();
    let left = previous.changes[0];
    let right = record.changes[0];
    let kind = merge_kind(previous, record, EditOrigin::User);
    assert(kind == (if right.end == left.start {
        MergeKind::DeleteBackward
    } else {
        MergeKind::DeleteForward
    }));
    let both = merged_record(previous, record, kind);
    assert(both.changes[0].removed.len() > 0);
    assert(!both.is_void());
    assert(undo.undo.drop_last().push(both).drop_last() =~= undo.undo.drop_last());
}

/// A step of a composition that replaces the step before is one record with
/// it, as if only the last step had been made.
pub proof fn law_compositions_are_one_record<I>(undo: UndoView<I>, record: RecordView<I>)
    requires
        follows_on(undo, record, EditOrigin::Composition),
        ({
            let left = undo.undo.last().changes[0];
            let right = record.changes[0];
            &&& right.start == left.start
            &&& right.end == left.start + left.inserted.len()
            &&& right.removed == left.inserted
            &&& right.inserted != left.removed
        }),
    ensures
        ({
            let left = undo.undo.last().changes[0];
            let right = record.changes[0];
            grown_to(
                undo,
                record,
                EditOrigin::Composition,
                ChangeView { inserted: right.inserted, ..left },
            )
        }),
{
    let previous = undo.undo.last();
    let both = merged_record(previous, record, MergeKind::Refine);
    assert(both.changes[0].removed != both.changes[0].inserted);
    assert(!both.is_void());
    assert(undo.undo.drop_last().push(both).drop_last() =~= undo.undo.drop_last());
}

} // verus!
