//! What undo and redo do to an edit, seen from the view.

use crate::document::edit_laws::edits_of;
use crate::document::edit_lemmas::caret_after;
use crate::document::laws::lemma_routed_edits;
use crate::document::model_edit::lemma_anchor_position;
use crate::document::model_view::ModelView;
use crate::document::position::{DocumentAnchor, DocumentPosition, PositionError};
use crate::document::region::{lemma_region_index, region_index_of};
use crate::document::replay_laws::{
    law_one_edit_is_redone, law_one_edit_is_undone, law_redo_goes_through,
    law_replayed_edits_give_their_text, law_styles_with_text_come_back, law_undo_goes_through,
    lemma_plain_edits_replay, nth_replayed, presentable, records_edits, replays, restored,
    shows_alike, spares_styles,
};
use crate::document::state_edit::{
    composed_range, composed_selection, lemma_edit_applies, lemma_edit_composes, positions_ok,
    undo_change, undo_changes,
};
use crate::document::state_view::StateView;
use crate::document::transaction::{edits_fit, EditDecision, EditTransaction, TextEdit};
use crate::document::undo::{
    law_eviction_is_minimal, sizes_cover, RecordView, UndoRecord, MAX_UNDO_BYTES,
    MAX_UNDO_RECORDS,
};
use crate::document::undo_laws::{law_undo_takes_edits_back, same_source, unadorned};
use vstd::prelude::*;

verus! {

/// An edit of the user that was applied and whose undo record is `record`, on
/// its own and still there.
#[verifier::opaque]
pub open(crate) spec fn edit_recorded<I>(
    s: StateView<I>,
    transaction: EditTransaction,
    composition: Option<(int, int)>,
    after: StateView<I>,
    record: UndoRecord<I>,
) -> bool {
    &&& s.committed(transaction, composition, after)
    &&& s.decision(transaction) == EditDecision::<I>::Apply
    &&& record@ == s.edit_record(transaction, composition)
    &&& !record@.is_void()
    &&& !s.undo.continues(record@, transaction.spec_origin())
    &&& after.undo.undo.len() > 0
}

/// Edits that can be undone. One edit can if the styles fit where they are when
/// its text is put back, and so can all edits where there are no anchored rows
/// and styles. Several can if they can be made one by one: none may leave a row
/// or a style without its place for the next to give it back, or take out the
/// place of a style without text.
pub open(crate) spec fn separable<I>(
    m: ModelView<I>,
    edits: Seq<TextEdit>,
    record: RecordView<I>,
) -> bool {
    ||| unadorned(m)
    ||| edits.len() == 1 && presentable(edits_restored(m, edits))
    ||| replays(m, record, false)
}

/// A document after edits were made and taken back. One edit moves the styles
/// without text in what it takes out to the end of it; all else is as before.
pub open(crate) spec fn edits_restored<I>(m: ModelView<I>, edits: Seq<TextEdit>) -> ModelView<I> {
    if edits.len() == 1 {
        restored(m, edits[0].start(), edits[0].end())
    } else {
        m
    }
}

// ---------------------------------------------------------------------------
// The selection
// ---------------------------------------------------------------------------

/// An anchor that was made for a position is there.
proof fn lemma_anchor_at<I>(m: ModelView<I>, anchor: DocumentAnchor, position: DocumentPosition<I>)
    requires
        m.bytes.len() <= isize::MAX,
        m.resolve_position(position) is Ok,
        m.anchors[anchor].node_id == Some(position.node_id),
        m.anchors[anchor].affinity == position.affinity,
        m.anchors[anchor].offset == m.resolve_position(position)->Ok_0,
        region_index_of(m.regions, position.node_id) matches Some(at) && m.regions[at].end()
            <= m.bytes.len(),
    ensures
        m.position_for_anchor(anchor) == Ok::<
            DocumentPosition<I>,
            PositionError,
        >(position),
{
}

/// Positions that were selected are the selected positions, whatever is marked
/// then.
proof fn lemma_positions_selected<I>(
    m: ModelView<I>,
    anchor: DocumentPosition<I>,
    head: DocumentPosition<I>,
    range: Option<(int, int)>,
)
    requires
        m.wf(),
        m.has_room(2),
        range is Some ==> m.has_room(4),
        m.positions_fault(anchor, head) is None,
    ensures
        m.with_positions(anchor, head).with_marked(range).selected_positions() == Ok::<
            (DocumentPosition<I>, DocumentPosition<I>),
            PositionError,
        >((anchor, head)),
{
    let placed = m.with_positions(anchor, head);
    let after = placed.with_marked(range);
    let a = after.selection.spec_anchor();
    let h = after.selection.spec_head();
    let i = region_index_of(m.regions, anchor.node_id)->0;
    let j = region_index_of(m.regions, head.node_id)->0;
    assert(m.regions[i].end() <= m.bytes.len());
    assert(m.regions[j].end() <= m.bytes.len());
    assert(placed.selection == after.selection);
    assert(after.anchors[a] == placed.anchors[a] && after.anchors[h] == placed.anchors[h]);
    lemma_anchor_at(after, a, anchor);
    lemma_anchor_at(after, h, head);
}

/// The selection of a document can be selected in another of the same text
/// and regions.
proof fn lemma_reselected<I>(m: ModelView<I>, text: ModelView<I>)
    requires
        m.wf(),
        m.selected_positions() is Ok,
        text.wf(),
        text.has_room(2),
        text.bytes == m.bytes,
        text.regions == m.regions,
    ensures
        text.reselected(Some(m.selected_positions()->Ok_0)).with_marked(None).selected_positions()
            == m.selected_positions(),
{
    let (anchor, head) = m.selected_positions()->Ok_0;
    lemma_anchor_position(m, m.selection.spec_anchor());
    lemma_anchor_position(m, m.selection.spec_head());
    lemma_positions_selected(text, anchor, head, None);
}

/// Replaying a record makes no anchors.
proof fn lemma_replayed_ids<I>(m: ModelView<I>, record: RecordView<I>, undo: bool, count: int)
    ensures
        m.replayed(record.region_id, record.changes, undo, count) matches Some(end) ==> end.next_id
            == m.next_id,
    decreases count,
{
    if count > 0 {
        lemma_replayed_ids(m, record, undo, count - 1);
        reveal(ModelView::replayed_once);
    }
}

/// What a replay leaves behind, given the text that it leaves.
proof fn lemma_replayed<I>(s: StateView<I>, record: RecordView<I>, undo: bool, text: ModelView<I>)
    requires
        s.replayed_text(record, undo) == Some(text),
        s.pin is None,
        s.viewport is None,
    ensures
        s.replayed(record, undo).pin is None,
        s.replayed(record, undo).viewport is None,
        shows_alike(s.replayed(record, undo).model, text),
        s.replayed(record, undo).model.marked_range() is None,
        s.replayed(record, undo).model.revision == s.model.revision.spec_next(),
        s.replayed(record, undo).model.selected_positions() == text.reselected(
            record.selection(undo),
        ).with_marked(None).selected_positions(),
        s.replayed(record, undo).model.next_id == text.reselected(record.selection(undo)).next_id,
{
}

/// What an undo leaves behind, given the text that it leaves.
proof fn lemma_undone<I>(s: StateView<I>, record: RecordView<I>, text: ModelView<I>)
    requires
        s.undo.undo.len() > 0,
        s.undo.undo.last() == record,
        s.replayed_text(record, true) == Some(text),
        s.pin is None,
        s.viewport is None,
    ensures
        s.undone().pin is None,
        s.undone().viewport is None,
        shows_alike(s.undone().model, text),
        s.undone().model.marked_range() is None,
        s.undone().model.revision == s.model.revision.spec_next(),
        s.undone().model.selected_positions() == text.reselected(
            record.selection_before,
        ).with_marked(None).selected_positions(),
        s.undone().undo.undo == s.undo.undo.drop_last(),
        s.undone().undo.redo == s.undo.redo.push(record),
{
    lemma_replayed(s.broken(), record, true, text);
}

/// What a redo leaves behind, given the text that it leaves.
proof fn lemma_redone<I>(s: StateView<I>, record: RecordView<I>, text: ModelView<I>)
    requires
        s.undo.redo.len() > 0,
        s.undo.redo.last() == record,
        s.replayed_text(record, false) == Some(text),
        s.pin is None,
        s.viewport is None,
    ensures
        shows_alike(s.redone().model, text),
        s.redone().model.marked_range() is None,
        s.redone().model.revision == s.model.revision.spec_next(),
        s.redone().model.selected_positions() == text.reselected(
            record.selection_after,
        ).with_marked(None).selected_positions(),
        s.redone().undo.undo == s.undo.undo.push(record),
        s.redone().undo.redo == s.undo.redo.drop_last(),
{
    lemma_replayed(s.broken(), record, false, text);
}

// ---------------------------------------------------------------------------
// An edit, an undo and a redo
// ---------------------------------------------------------------------------

/// A record of its own is the newest one.
proof fn lemma_newest<I>(
    s: StateView<I>,
    transaction: EditTransaction,
    composition: Option<(int, int)>,
    after: StateView<I>,
    record: UndoRecord<I>,
)
    requires
        edit_recorded(s, transaction, composition, after, record),
    ensures
        after.undo.undo.len() > 0,
        after.undo.undo.last() == record@,
        after.pin is None,
        after.viewport is None,
        shows_alike(after.model, s.edited_text(transaction)),
{
    reveal(edit_recorded);
    let origin = transaction.spec_origin();
    let added = s.undo.added(record@, origin);
    let sizes = choose|sizes: Seq<usize>| #[trigger]
        sizes_cover(sizes, added.undo) && after == s.applied(transaction, composition, sizes);
    assert(added.undo == s.undo.undo.push(record@));
    let kept = added.trimmed(MAX_UNDO_RECORDS as nat, MAX_UNDO_BYTES as nat, sizes);
    assert(after.undo.undo == kept.undo);
    law_eviction_is_minimal(sizes, MAX_UNDO_RECORDS as nat, MAX_UNDO_BYTES as nat);
}

/// What was recorded are the edits of one region.
proof fn lemma_recorded<I>(
    s: StateView<I>,
    transaction: EditTransaction,
    composition: Option<(int, int)>,
    after: StateView<I>,
    record: UndoRecord<I>,
)
    requires
        s.wf(),
        transaction.wf(),
        edits_fit(s.model.bytes.len() as int, transaction.spec_edits()),
        edit_recorded(s, transaction, composition, after, record),
    ensures
        edits_of(s.model, s.edit_target(transaction), transaction.spec_edits()),
        s.model.edit_rejection(s.edit_target(transaction), transaction.spec_edits()) is None,
        records_edits(
            record@,
            s.model,
            s.edit_target(transaction),
            transaction.spec_edits(),
        ),
        record@.selection_before == positions_ok(s.model.selected_positions()),
        record@.changes.len() == transaction.spec_edits().len(),
{
    reveal(edit_recorded);
    lemma_routed_edits(s.model, transaction, None);
}

/// Edits that can be made one by one.
proof fn lemma_replays<I>(m: ModelView<I>, target: int, edits: Seq<TextEdit>, record: UndoRecord<I>)
    requires
        edits_of(m, target, edits),
        records_edits(record@, m, target, edits),
        unadorned(m) || replays(m, record@, false),
    ensures
        replays(m, record@, false),
{
    if unadorned(m) {
        lemma_plain_edits_replay(m, target, edits, record, edits.len() as int);
        assert forall|k: int| 0 <= k < edits.len() implies unadorned(
            (#[trigger] m.replayed(record@.region_id, record@.changes, false, k))->0,
        ) by {
            lemma_plain_edits_replay(m, target, edits, record, k);
        }
    }
}

/// Where edits can be made one by one, one edit spares the styles without
/// text.
proof fn lemma_spared<I>(m: ModelView<I>, target: int, edits: Seq<TextEdit>, record: UndoRecord<I>)
    requires
        edits_of(m, target, edits),
        records_edits(record@, m, target, edits),
        replays(m, record@, false),
    ensures
        shows_alike(edits_restored(m, edits), m),
{
    if edits.len() == 1 {
        assert(m.replayed(record@.region_id, record@.changes, false, 0) == Some(m));
        assert(record@.changes[0] == undo_change(m, target, edits[0]));
        lemma_region_index(m.regions, m.bytes.len() as int, target);
        assert(spares_styles(m, record@.region_id, nth_replayed(record@, false, 0), false));
        law_styles_with_text_come_back(m, edits[0].start(), edits[0].end());
    }
}

/// Edits that can be undone are undone.
proof fn lemma_edits_undone<I>(
    m: ModelView<I>,
    target: int,
    edits: Seq<TextEdit>,
    after: ModelView<I>,
    record: UndoRecord<I>,
)
    requires
        edits.len() > 0,
        edits_of(m, target, edits),
        m.edit_rejection(target, edits) is None,
        presentable(m),
        records_edits(record@, m, target, edits),
        separable(m, edits, record@),
        after.wf(),
        shows_alike(after, m.edited_in(target, edits)),
    ensures
        after.replayed(
            record@.region_id,
            record@.changes,
            true,
            record@.changes.len() as int,
        ) matches Some(end) && end.wf() && shows_alike(end, edits_restored(m, edits)),
{
    if edits.len() == 1 && presentable(edits_restored(m, edits)) {
        assert(edits =~= seq![edits[0]]);
        law_one_edit_is_undone(m, target, edits[0], after, record);
    } else {
        lemma_replays(m, target, edits, record);
        lemma_spared(m, target, edits, record);
        law_undo_goes_through(m, target, edits, after, record);
    }
}

/// Edits that were undone are redone.
proof fn lemma_edits_redone<I>(
    m: ModelView<I>,
    target: int,
    edits: Seq<TextEdit>,
    back: ModelView<I>,
    record: UndoRecord<I>,
)
    requires
        edits.len() > 0,
        edits_of(m, target, edits),
        m.edit_rejection(target, edits) is None,
        presentable(m),
        records_edits(record@, m, target, edits),
        separable(m, edits, record@),
        back.wf(),
        shows_alike(back, edits_restored(m, edits)),
    ensures
        back.replayed(
            record@.region_id,
            record@.changes,
            false,
            record@.changes.len() as int,
        ) matches Some(end) && end.wf() && shows_alike(end, m.edited_in(target, edits)),
{
    if edits.len() == 1 {
        assert(edits =~= seq![edits[0]]);
        law_one_edit_is_redone(m, target, edits[0], back, record);
    } else {
        lemma_replays(m, target, edits, record);
        law_redo_goes_through(m, target, edits, back, record);
    }
}

/// An undo right after an edit gives the text, the regions and the selection
/// from before, whatever the styles, if its record can be replayed. If not, it
/// is refused, and nothing but the grouping of records changes.
pub proof fn law_undo_is_refused_or_gives_the_text_back<I>(
    s: StateView<I>,
    transaction: EditTransaction,
    composition: Option<(int, int)>,
    after: StateView<I>,
    record: UndoRecord<I>,
)
    requires
        s.wf(),
        transaction.wf(),
        edits_fit(s.model.bytes.len() as int, transaction.spec_edits()),
        edit_recorded(s, transaction, composition, after, record),
        after.wf(),
        after.model.has_room(2),
    ensures
        after.replayed_text(record@, true) is None ==> after.undone() == after.broken(),
        after.replayed_text(record@, true) is Some ==> {
            let undone = after.undone();
            &&& undone.model.bytes == s.model.bytes
            &&& undone.model.regions == s.model.regions
            &&& s.model.selected_positions() is Ok ==> undone.model.selected_positions()
                == s.model.selected_positions()
            &&& undone.model.marked_range() is None
            &&& undone.model.revision == after.model.revision.spec_next()
            &&& undone.undo.undo == after.undo.undo.drop_last()
            &&& undone.undo.redo == after.undo.redo.push(record@)
        },
{
    let m = s.model;
    let edits = transaction.spec_edits();
    let target = s.edit_target(transaction);
    lemma_newest(s, transaction, composition, after, record);
    lemma_recorded(s, transaction, composition, after, record);
    if let Some(end) = after.replayed_text(record@, true) {
        law_undo_takes_edits_back(m, target, edits, after.model, record, end);
        lemma_replayed_ids(after.model, record@, true, record@.changes.len() as int);
        lemma_undone(after, record@, end);
        if m.selected_positions() is Ok {
            lemma_reselected(m, end);
        }
    }
}

/// Undo takes an edit back: right after it, the document shows what it showed
/// before, with the same text, regions, projection, blocks and rows, and with
/// the same selection. The styles are those from before too, but for styles
/// without text in what one edit takes out, which come to its end. Nothing is
/// marked, the revision is a new one, and the edit can be redone.
pub proof fn law_undo_takes_an_edit_back<I>(
    s: StateView<I>,
    transaction: EditTransaction,
    composition: Option<(int, int)>,
    after: StateView<I>,
    record: UndoRecord<I>,
)
    requires
        s.wf(),
        transaction.wf(),
        edits_fit(s.model.bytes.len() as int, transaction.spec_edits()),
        edit_recorded(s, transaction, composition, after, record),
        presentable(s.model),
        separable(s.model, transaction.spec_edits(), record@),
        after.wf(),
        after.model.has_room(2),
    ensures
        after.undone().model.bytes == s.model.bytes,
        after.undone().model.regions == s.model.regions,
        shows_alike(
            after.undone().model,
            edits_restored(s.model, transaction.spec_edits()),
        ),
        s.model.selected_positions() is Ok ==> after.undone().model.selected_positions()
            == s.model.selected_positions(),
        after.undone().model.marked_range() is None,
        after.undone().model.revision == after.model.revision.spec_next(),
        after.undone().undo.undo == after.undo.undo.drop_last(),
        after.undone().undo.redo == after.undo.redo.push(record@),
{
    let m = s.model;
    let edits = transaction.spec_edits();
    let target = s.edit_target(transaction);
    lemma_newest(s, transaction, composition, after, record);
    lemma_recorded(s, transaction, composition, after, record);
    lemma_edits_undone(m, target, edits, after.model, record);
    let end = after.replayed_text(record@, true)->0;
    lemma_undone(after, record@, end);
    law_undo_is_refused_or_gives_the_text_back(s, transaction, composition, after, record);
}

/// What an edit selects stays selected when the view is told, and is what its
/// record remembers.
proof fn lemma_selected_after<I>(
    s: StateView<I>,
    transaction: EditTransaction,
    composition: Option<(int, int)>,
    after: StateView<I>,
    record: UndoRecord<I>,
)
    requires
        s.wf(),
        s.model.has_room(4),
        transaction.wf(),
        edits_fit(s.model.bytes.len() as int, transaction.spec_edits()),
        composition is Some ==> transaction.spec_edits().len() == 1,
        edit_recorded(s, transaction, composition, after, record),
    ensures
        after.model.selected_positions() is Ok,
        record@.selection(false) == Some(after.model.selected_positions()->Ok_0),
{
    reveal(edit_recorded);
    let m = s.model;
    let edits = transaction.spec_edits();
    let target = s.edit_target(transaction);
    let text = s.edited_text(transaction);
    let model = s.edited_model(transaction, composition);
    let start = text.regions[target].start();
    lemma_routed_edits(m, transaction, None);
    lemma_edit_applies(s, transaction);
    assert(text.next_id == m.next_id);
    let (offsets, range) = match composition {
        None => ((caret_after(edits), caret_after(edits)), None),
        Some(selected) => (composed_selection(edits[0], selected), composed_range(edits[0])),
    };
    if let Some(selected) = composition {
        lemma_edit_composes(s, transaction, selected);
    }
    lemma_region_index(text.regions, text.bytes.len() as int, target);
    assert(text.regions[target].start() <= text.regions[target].end() <= text.bytes.len());
    let anchor = text.region_position(target, offsets.0 - start);
    let head = text.region_position(target, offsets.1 - start);
    assert(text.positions_fault(anchor, head) is None);
    lemma_positions_selected(text, anchor, head, range);
    assert(model == text.with_positions(anchor, head).with_marked(range));
    let sizes = choose|sizes: Seq<usize>| #[trigger]
        sizes_cover(
            sizes,
            s.undo.added(record@, transaction.spec_origin()).undo,
        ) && after == s.applied(transaction, composition, sizes);
    let a = model.selection.spec_anchor();
    let h = model.selection.spec_head();
    assert(a.spec_id() >= m.next_id && h.spec_id() >= m.next_id);
    assert(s.pin matches Some(pin) ==> pin.spec_anchor().spec_id() < m.next_id);
    assert(s.viewport matches Some(place) ==> place.spec_id() < m.next_id);
    assert(after.model.selection == model.selection);
    assert(after.model.anchors[a] == model.anchors[a]);
    assert(after.model.anchors[h] == model.anchors[h]);
    assert(after.model.position_for_anchor(a) == model.position_for_anchor(a));
    assert(after.model.position_for_anchor(h) == model.position_for_anchor(h));
}

/// A redo right after an undo that gave the text back gives the text, the
/// regions and the selection from after the edit, if the record can be
/// replayed. If not, it is refused, and nothing but the grouping of records
/// changes.
pub proof fn law_redo_is_refused_or_gives_the_text_back<I>(
    s: StateView<I>,
    transaction: EditTransaction,
    composition: Option<(int, int)>,
    after: StateView<I>,
    record: UndoRecord<I>,
)
    requires
        s.wf(),
        s.model.has_room(4),
        transaction.wf(),
        edits_fit(s.model.bytes.len() as int, transaction.spec_edits()),
        composition is Some ==> transaction.spec_edits().len() == 1,
        edit_recorded(s, transaction, composition, after, record),
        after.wf(),
        after.model.has_room(2),
        after.replayed_text(record@, true) is Some,
        after.undone().wf(),
        after.undone().model.has_room(2),
    ensures
        after.model.selected_positions() is Ok,
        after.undone().replayed_text(record@, false) is None ==> after.undone().redone()
            == after.undone().broken(),
        after.undone().replayed_text(record@, false) is Some ==> {
            let redone = after.undone().redone();
            &&& redone.model.bytes == after.model.bytes
            &&& redone.model.regions == after.model.regions
            &&& redone.model.selected_positions() == after.model.selected_positions()
            &&& redone.model.marked_range() is None
            &&& redone.model.revision == after.model.revision.spec_next().spec_next()
            &&& redone.undo.undo == after.undo.undo
            &&& redone.undo.redo == after.undo.redo
        },
{
    let back = after.undone();
    lemma_newest(s, transaction, composition, after, record);
    lemma_selected_after(s, transaction, composition, after, record);
    law_undo_is_refused_or_gives_the_text_back(s, transaction, composition, after, record);
    lemma_undone_free(s, transaction, composition, after, record);
    assert(back.undo.redo.last() == record@);
    if let Some(end) = back.replayed_text(record@, false) {
        lemma_text_redone(s, transaction, composition, after, record, end);
        lemma_replayed_ids(back.model, record@, false, record@.changes.len() as int);
        lemma_redone(back, record@, end);
        lemma_reselected(after.model, end);
        assert(back.undo.undo.push(record@) =~= after.undo.undo);
        assert(back.undo.redo.drop_last() =~= after.undo.redo);
    }
}

/// The text that a redo leaves is the text after the edit.
proof fn lemma_text_redone<I>(
    s: StateView<I>,
    transaction: EditTransaction,
    composition: Option<(int, int)>,
    after: StateView<I>,
    record: UndoRecord<I>,
    end: ModelView<I>,
)
    requires
        s.wf(),
        transaction.wf(),
        edits_fit(s.model.bytes.len() as int, transaction.spec_edits()),
        edit_recorded(s, transaction, composition, after, record),
        after.undone().wf(),
        same_source(after.undone().model, s.model),
        after.undone().replayed_text(record@, false) == Some(end),
    ensures
        end.wf(),
        same_source(end, after.model),
{
    let m = s.model;
    let back = after.undone().model;
    let edits = transaction.spec_edits();
    let target = s.edit_target(transaction);
    lemma_newest(s, transaction, composition, after, record);
    lemma_recorded(s, transaction, composition, after, record);
    assert(undo_changes(back, target, edits) =~= undo_changes(m, target, edits));
    law_replayed_edits_give_their_text(back, target, edits, record);
}

/// Redo brings back what undo took: after an edit, an undo and a redo the
/// document shows what it did after the edit, with the same selection and the
/// same records.
pub proof fn law_redo_brings_an_edit_back<I>(
    s: StateView<I>,
    transaction: EditTransaction,
    composition: Option<(int, int)>,
    after: StateView<I>,
    record: UndoRecord<I>,
)
    requires
        s.wf(),
        s.model.has_room(4),
        transaction.wf(),
        edits_fit(s.model.bytes.len() as int, transaction.spec_edits()),
        composition is Some ==> transaction.spec_edits().len() == 1,
        edit_recorded(s, transaction, composition, after, record),
        presentable(s.model),
        separable(s.model, transaction.spec_edits(), record@),
        after.wf(),
        after.model.has_room(2),
        after.undone().wf(),
        after.undone().model.has_room(2),
    ensures
        shows_alike(after.undone().redone().model, after.model),
        after.model.selected_positions() is Ok,
        after.undone().redone().model.selected_positions() == after.model.selected_positions(),
        after.undone().redone().model.marked_range() is None,
        after.undone().redone().model.revision
            == after.model.revision.spec_next().spec_next(),
        after.undone().redone().undo.undo == after.undo.undo,
        after.undone().redone().undo.redo == after.undo.redo,
{
    let back = after.undone();
    lemma_newest(s, transaction, composition, after, record);
    law_undo_takes_an_edit_back(s, transaction, composition, after, record);
    lemma_undone_free(s, transaction, composition, after, record);
    lemma_edit_goes_through(s, transaction, composition, after, record);
    let end = back.replayed_text(record@, false)->0;
    assert(back.undo.redo.last() == record@);
    lemma_redone(back, record@, end);
    law_redo_is_refused_or_gives_the_text_back(s, transaction, composition, after, record);
}

/// The record of an edit that can be undone is replayed both ways.
proof fn lemma_edit_goes_through<I>(
    s: StateView<I>,
    transaction: EditTransaction,
    composition: Option<(int, int)>,
    after: StateView<I>,
    record: UndoRecord<I>,
)
    requires
        s.wf(),
        transaction.wf(),
        edits_fit(s.model.bytes.len() as int, transaction.spec_edits()),
        edit_recorded(s, transaction, composition, after, record),
        presentable(s.model),
        separable(s.model, transaction.spec_edits(), record@),
        after.wf(),
        after.undone().wf(),
        shows_alike(
            after.undone().model,
            edits_restored(s.model, transaction.spec_edits()),
        ),
    ensures
        after.replayed_text(record@, true) is Some,
        after.undone().replayed_text(record@, false) matches Some(end) && shows_alike(
            end,
            after.model,
        ),
{
    let edits = transaction.spec_edits();
    let target = s.edit_target(transaction);
    lemma_newest(s, transaction, composition, after, record);
    lemma_recorded(s, transaction, composition, after, record);
    lemma_edits_undone(s.model, target, edits, after.model, record);
    lemma_edits_redone(s.model, target, edits, after.undone().model, record);
}

/// An undo leaves no pin and no kept place in the viewport.
proof fn lemma_undone_free<I>(
    s: StateView<I>,
    transaction: EditTransaction,
    composition: Option<(int, int)>,
    after: StateView<I>,
    record: UndoRecord<I>,
)
    requires
        edit_recorded(s, transaction, composition, after, record),
    ensures
        after.undone().pin is None,
        after.undone().viewport is None,
{
    lemma_newest(s, transaction, composition, after, record);
}

} // verus!
