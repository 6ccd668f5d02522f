//! What holds of a view on a document: moving the selection, scrolling, and
//! transactions that come too late.

use crate::document::event::{DocumentEffect, DocumentEvent, SnapshotView};
use crate::document::host_laws::{
    law_host_updates_keep_drafts, law_splices_replace_only_their_nodes,
};
use crate::document::model_edit::lemma_anchor_position;
use crate::document::model_view::ModelView;
use crate::document::outcome::{DocumentEditRejection, HostTransactionError, RoutingOutcome};
use crate::document::position::DocumentPosition;
use crate::document::state_host::HostView;
use crate::document::state_view::StateView;
use crate::document::transaction::{EditOrigin, EditTransaction};
use crate::text::starts_clean;
use vstd::prelude::*;

verus! {

// ---------------------------------------------------------------------------
// The selection
// ---------------------------------------------------------------------------

/// Two views of the same document, with the same rows and the same to undo
/// and redo.
pub open spec fn same_document<I>(a: StateView<I>, b: StateView<I>) -> bool {
    &&& a.model.bytes == b.model.bytes
    &&& a.model.revision == b.model.revision
    &&& a.model.regions == b.model.regions
    &&& a.model.projection == b.model.projection
    &&& a.model.blocks == b.model.blocks
    &&& a.model.anchored == b.model.anchored
    &&& a.model.styles == b.model.styles
    &&& a.model.resolved == b.model.resolved
    &&& a.items == b.items
    &&& a.trailer == b.trailer
    &&& a.undo.undo == b.undo.undo
    &&& a.undo.redo == b.undo.redo
}

/// A move of the head changes the selection and nothing of the document. The
/// head goes to the position. The anchor goes with it, or stays where it was
/// when the selection is extended.
pub proof fn law_moves_change_only_the_selection<I>(
    s: StateView<I>,
    position: DocumentPosition<I>,
    extend: bool,
)
    requires
        s.wf(),
        s.model.has_room(2),
        s.model.resolve_position(position) is Ok,
        s.model.tail_position() is Ok,
    ensures
        ({
            let after = s.moved_to(position, extend);
            &&& same_document(after, s)
            &&& after.model.cursor() == s.model.resolve_position(position)->Ok_0
            &&& !extend ==> after.model.anchor_offset() == after.model.cursor()
            &&& extend ==> after.model.anchor_offset() == s.model.anchor_offset()
        }),
{
    lemma_anchor_position(s.model, s.model.selection.spec_anchor());
}

/// A press selects at its position, or reaches to it from the anchor, and
/// changes nothing of the document.
pub proof fn law_presses_change_only_the_selection<I>(
    s: StateView<I>,
    position: DocumentPosition<I>,
    extend: bool,
)
    requires
        s.wf(),
        s.model.has_room(2),
        s.model.resolve_position(position) is Ok,
        s.model.tail_position() is Ok,
    ensures
        ({
            let after = s.pressed_at(Some(position), extend);
            &&& same_document(after, s)
            &&& after.model.cursor() == s.model.resolve_position(position)->Ok_0
            &&& !extend ==> after.model.anchor_offset() == after.model.cursor()
            &&& extend ==> after.model.anchor_offset() == s.model.anchor_offset()
        }),
{
    lemma_anchor_position(s.model, s.model.selection.spec_anchor());
}

/// A drag moves the head and leaves the anchor, and changes nothing of the
/// document.
pub proof fn law_drags_keep_the_anchor<I>(s: StateView<I>, position: DocumentPosition<I>)
    requires
        s.wf(),
        s.model.has_room(2),
        s.model.resolve_position(position) is Ok,
        s.model.tail_position() is Ok,
    ensures
        ({
            let after = s.dragged_to(Some(position));
            &&& same_document(after, s)
            &&& after.model.cursor() == s.model.resolve_position(position)->Ok_0
            &&& after.model.anchor_offset() == s.model.anchor_offset()
        }),
{
    lemma_anchor_position(s.model, s.model.selection.spec_anchor());
    lemma_anchor_position(s.model, s.model.selection.spec_head());
}

/// Selecting all selects from the start to the end of the text.
pub proof fn law_select_all_reaches_both_ends<I>(s: StateView<I>)
    requires
        s.wf(),
        s.model.has_room(2),
    ensures
        same_document(s.all_selected(), s),
        s.all_selected().model.selected() == (0int, s.model.bytes.len() as int),
{
}

// ---------------------------------------------------------------------------
// Scrolling
// ---------------------------------------------------------------------------

/// A pin is taken back only by its own id.
pub proof fn law_pins_are_released_by_their_id<I>(s: StateView<I>, id: I)
    ensures
        s.pin matches Some(pin) && pin.spec_id() == id ==> s.unpinned(id).pin is None,
        !(s.pin matches Some(pin) && pin.spec_id() == id) ==> s.unpinned(id) == s,
{
}

/// A pin that is replaced cannot release its successor.
pub proof fn law_replaced_pins_are_powerless<I>(
    s: StateView<I>,
    old: I,
    id: I,
    position: DocumentPosition<I>,
    fraction: u32,
)
    requires
        old != id,
    ensures
        s.pinned(id, position, fraction).unpinned(old) == s.pinned(id, position, fraction),
{
}

/// A drag of the scrollbar ends following, and tells so once.
pub proof fn law_the_scrollbar_ends_following<I>(s: StateView<I>)
    ensures
        s.scrolled_by_bar().pin is None,
        s.pin matches Some(pin) ==> s.scrolled_by_bar().effects == s.effects.push(
            DocumentEffect::Emit(DocumentEvent::StopFollowingRequested { pin_id: pin.spec_id() }),
        ).push(DocumentEffect::Notify),
        s.pin is None ==> s.scrolled_by_bar().effects == s.effects,
{
}

/// Revealing a position ends following, and tells so once.
pub proof fn law_revealing_ends_following<I>(s: StateView<I>, position: DocumentPosition<I>)
    ensures
        s.revealed(position).pin is None,
        s.pin matches Some(pin) ==> {
            let told = s.revealed(position).effects;
            &&& told.len() == s.effects.len() + 4
            &&& told[s.effects.len() as int] == DocumentEffect::<I>::Emit(
                DocumentEvent::StopFollowingRequested { pin_id: pin.spec_id() },
            )
        },
        s.pin is None ==> s.revealed(position).effects.len() == s.effects.len() + 2,
{
}

/// A scroll of the user ends following, and tells so once; without a pin it
/// tells nothing.
pub proof fn law_scrolling_ends_following<I>(s: StateView<I>)
    ensures
        s.scrolled().pin is None,
        s.scrolled().scrolled() == s.scrolled(),
        s.pin matches Some(pin) ==> s.scrolled().effects == s.effects.push(
            DocumentEffect::Emit(DocumentEvent::StopFollowingRequested { pin_id: pin.spec_id() }),
        ).push(DocumentEffect::Notify),
        s.pin is None ==> s.scrolled().effects == s.effects,
{
}

// ---------------------------------------------------------------------------
// Revisions
// ---------------------------------------------------------------------------

/// After an edit, transactions for the document from before are refused,
/// whoever makes them.
pub proof fn law_edits_make_older_transactions_stale<I>(
    m: ModelView<I>,
    transaction: EditTransaction,
    node: Option<I>,
    later: EditTransaction,
    update: HostView<I>,
)
    requires
        m.routing(transaction, node) == RoutingOutcome::<I>::Applied,
        later.spec_revision() == m.revision,
        m.revision.spec_value() < u64::MAX,
    ensures
        m.routed(transaction, node).routing(later, node) == RoutingOutcome::<I>::Rejected(
            DocumentEditRejection::StaleRevision,
        ),
        later.spec_origin() == EditOrigin::Host ==> m.routed(transaction, node).host_fault(
            later,
            update,
        ) == Some(HostTransactionError::StaleRevision),
{
}

/// After a host has changed the document, transactions for the document from
/// before are refused.
pub proof fn law_host_updates_make_edits_stale<I>(
    s: StateView<I>,
    transaction: EditTransaction,
    update: HostView<I>,
    top: Option<DocumentPosition<I>>,
    later: EditTransaction,
    node: Option<I>,
)
    requires
        s.model.host_fault(transaction, update) is None,
        later.spec_revision() == s.model.revision,
        s.model.revision.spec_value() < u64::MAX,
    ensures
        s.host_updated(update, top).model.routing(later, node) == RoutingOutcome::<I>::Rejected(
            DocumentEditRejection::StaleRevision,
        ),
        s.host_updated(update, top).model.host_fault(transaction, update) == Some(
            HostTransactionError::StaleRevision,
        ),
{
    law_host_updates_keep_drafts(s, transaction, update, top);
}

/// After a fragment was replaced, transactions for the document from before are
/// refused.
pub proof fn law_splices_make_edits_stale<I>(
    s: StateView<I>,
    first: Option<I>,
    end: Option<I>,
    snapshot: SnapshotView<I>,
    top: Option<DocumentPosition<I>>,
    later: EditTransaction,
    node: Option<I>,
)
    requires
        s.wf(),
        s.model.has_room(5),
        starts_clean(snapshot.text),
        snapshot.projection.valid(),
        s.model.bytes.len() + snapshot.text.len() <= isize::MAX,
        s.splice_fault(s.model.revision, first, end, snapshot) is None,
        later.spec_revision() == s.model.revision,
        s.model.revision.spec_value() < u64::MAX,
    ensures
        s.spliced(first, end, snapshot, top).model.routing(later, node)
            == RoutingOutcome::<I>::Rejected(DocumentEditRejection::StaleRevision),
{
    law_splices_replace_only_their_nodes(s, s.model.revision, first, end, snapshot, top);
}

/// After a reset, transactions for the document from before are refused, and
/// nothing of it can be undone.
pub proof fn law_resets_forget_the_past<I>(
    s: StateView<I>,
    snapshot: SnapshotView<I>,
    later: EditTransaction,
    node: Option<I>,
)
    requires
        later.spec_revision() == s.model.revision,
        s.model.revision.spec_value() < u64::MAX,
    ensures
        s.was_reset(snapshot).model.routing(later, node) == RoutingOutcome::<I>::Rejected(
            DocumentEditRejection::StaleRevision,
        ),
        s.was_reset(snapshot).undo.undo.len() == 0,
        s.was_reset(snapshot).undo.redo.len() == 0,
        s.was_reset(snapshot).pin is None,
{
}

} // verus!
