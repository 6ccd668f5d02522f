//! What changes of the host leave alone.

use crate::document::block::DocumentBlock;
use crate::document::event::{DocumentEffect, DocumentEvent, SnapshotView};
use crate::document::mapping::{lemma_rendered_splice, rendered};
use crate::document::model::{lemma_region_position, lemma_resolved};
use crate::document::model_edit::capture_fits;
use crate::document::model_view::{edit_on_boundaries, last_editable, ModelView, RelativeView};
use crate::document::position::{
    Affinity, AnchorBias, DocumentPosition, DocumentRevision, DocumentSelection,
};
use crate::document::region::{
    lemma_regions_valid, region_index_of, regions_on_boundaries, regions_valid, DocumentRegion,
    EditPolicy,
};
use crate::document::splice::{lemma_fragment_captures, lemma_fragment_shown, lemma_splice_ready};
use crate::document::splice_lemmas::{
    lemma_fragment_keeps, lemma_fragment_model, lemma_regions_shape, splice_ready,
};
use crate::document::state::lemma_spares_anchor;
use crate::document::state_host::{
    edit_range_fault, editable_kept, lemma_capture_kept, lemma_capturing, lemma_host_model,
    lemma_kept_update, region_kept, HostView,
};
use crate::document::state_view::{first_changed, StateView};
use crate::document::transaction::{
    applicable, edits_fit, edits_on_boundaries, landing, law_edits_replace_their_own_source,
    lemma_edited, EditOrigin, EditTransaction,
};
use crate::document::validate::boundary_fault;
use crate::order::{lemma_sort_members, stable_sort};
use crate::scan::{lemma_first_fault, lemma_last_where};
use crate::text::{at_boundary, splice_bytes, starts_clean};
use vstd::prelude::*;

verus! {

/// Marking a range leaves the ends of the selection where they are.
proof fn lemma_marked_keeps_selection<I>(m: ModelView<I>, range: Option<(int, int)>)
    requires
        m.selection_live(m.selection),
        m.selection.spec_anchor().spec_id() < m.next_id,
        m.selection.spec_head().spec_id() < m.next_id,
        m.has_room(2),
        m.marked matches Some(marked) ==> !ModelView::<I>::selects(
            m.selection,
            marked.spec_anchor(),
        ) && !ModelView::<I>::selects(m.selection, marked.spec_head()),
    ensures
        m.with_marked(range).anchor_offset() == m.anchor_offset(),
        m.with_marked(range).cursor() == m.cursor(),
        m.with_marked(range).bytes == m.bytes,
        m.with_marked(range).regions == m.regions,
{
}

/// A captured selection is put back at the same place of its region.
proof fn lemma_restored_offsets<I>(m: ModelView<I>, capture: (I, RelativeView), at: int)
    requires
        m.wf(),
        m.has_room(4),
        region_index_of(m.regions, capture.0) == Some(at),
        capture_fits(m, capture),
        0 <= capture.1.anchor <= m.regions[at].end() - m.regions[at].start(),
        0 <= capture.1.head <= m.regions[at].end() - m.regions[at].start(),
    ensures
        ({
            let back = m.restored(Some(capture));
            &&& back.anchor_offset() == m.regions[at].start() + capture.1.anchor
            &&& back.cursor() == m.regions[at].start() + capture.1.head
            &&& back.bytes == m.bytes
            &&& back.regions == m.regions
            &&& back.marked == m.marked
            &&& back.selection_live(back.selection)
            &&& m.next_id <= back.selection.spec_anchor().spec_id() < back.next_id
            &&& m.next_id <= back.selection.spec_head().spec_id() < back.next_id
            &&& back.has_room(2)
        }),
{
    assert(m.regions[at].start() <= m.regions[at].end() <= m.bytes.len());
    lemma_region_position(m, at, capture.1.anchor);
    lemma_region_position(m, at, capture.1.head);
}

/// What was captured in editable regions goes back to the same places.
proof fn lemma_recaptured<I>(
    m: ModelView<I>,
    capture: (I, RelativeView),
    marked: Option<(I, RelativeView)>,
    at: int,
)
    requires
        m.wf(),
        m.has_room(4),
        region_index_of(m.regions, capture.0) == Some(at),
        capture_fits(m, capture),
        0 <= capture.1.anchor <= m.regions[at].end() - m.regions[at].start(),
        0 <= capture.1.head <= m.regions[at].end() - m.regions[at].start(),
    ensures
        ({
            let back = m.recaptured(Some(capture), marked);
            &&& back.anchor_offset() == m.regions[at].start() + capture.1.anchor
            &&& back.cursor() == m.regions[at].start() + capture.1.head
            &&& back.bytes == m.bytes
            &&& back.regions == m.regions
        }),
{
    lemma_restored_offsets(m, capture, at);
    let selected = m.restored(Some(capture));
    if let Some(range) = m.marked {
        assert(range.spec_anchor().spec_id() < m.next_id);
        assert(range.spec_head().spec_id() < m.next_id);
    }
    lemma_marked_keeps_selection(selected, selected.marked_from(marked));
}

/// A change of the host keeps every editable region with its text, adds
/// nothing to undo and drops nothing from it, leaves the scroll pin as it is,
/// and is told as one change.
pub proof fn law_host_updates_keep_drafts<I>(
    s: StateView<I>,
    transaction: EditTransaction,
    update: HostView<I>,
    top: Option<DocumentPosition<I>>,
)
    requires
        s.model.host_fault(transaction, update) is None,
    ensures
        ({
            let after = s.host_updated(update, top);
            &&& editable_kept(
                s.model.regions,
                s.model.bytes,
                after.model.regions,
                after.model.bytes,
            )
            &&& after.undo == s.undo
            &&& after.pin == s.pin
            &&& after.model.revision == s.model.revision.spec_next()
            &&& after.effects.len() >= 2
            &&& after.effects.last() is Notify
            &&& after.effects[after.effects.len() - 2] == DocumentEffect::<I>::Emit(
                DocumentEvent::Changed {
                    revision: after.model.revision,
                    origin: EditOrigin::Host,
                },
            )
        }),
{
    lemma_kept_update(s, top, update);
    let kept = s.keeping_viewport(top);
    let rows = kept.with_model(kept.model.host_model(update)).reconciled(
        first_changed(s.items, update.edits),
    );
    lemma_recaptured_text(
        rows.model,
        s.model.captured(s.model.selection),
        s.model.captured_marked(),
    );
}

/// Putting a selection back changes no text.
pub(crate) proof fn lemma_recaptured_text<I>(
    m: ModelView<I>,
    selection: Option<(I, RelativeView)>,
    marked: Option<(I, RelativeView)>,
)
    ensures
        m.recaptured(selection, marked).bytes == m.bytes,
        m.recaptured(selection, marked).regions == m.regions,
        m.recaptured(selection, marked).revision == m.revision,
        m.recaptured(selection, marked).projection == m.projection,
{
}

/// A change of the host brings what it says: each edit its text, in the place
/// of its source, and the regions and the presentation that come with it. The
/// text that no edit touches stays.
pub proof fn law_host_updates_bring_what_they_say<I>(
    s: StateView<I>,
    transaction: EditTransaction,
    update: HostView<I>,
    top: Option<DocumentPosition<I>>,
    i: int,
)
    requires
        s.wf(),
        transaction.wf(),
        update.edits == transaction.spec_edits(),
        edits_fit(s.model.bytes.len() as int, update.edits),
        update.projection matches Some(projection) ==> projection.valid(),
        s.model.host_fault(transaction, update) is None,
        0 <= i < update.edits.len(),
    ensures
        ({
            let after = s.host_updated(update, top).model;
            let edits = update.edits;
            let at = landing(edits, i);
            let text = edits[i].bytes();
            let kept_end = if i == 0 {
                s.model.bytes.len() as int
            } else {
                edits[i - 1].start()
            };
            let behind = at + text.len();
            &&& 0 <= at
            &&& behind + (kept_end - edits[i].end()) <= after.bytes.len()
            &&& after.bytes.subrange(at, behind) == text
            &&& after.bytes.subrange(behind, behind + (kept_end - edits[i].end()))
                == s.model.bytes.subrange(edits[i].end(), kept_end)
            &&& after.bytes.subrange(0, edits.last().start()) == s.model.bytes.subrange(
                0,
                edits.last().start(),
            )
            &&& forall|r: DocumentRegion<I>| #[trigger]
                after.regions.contains(r) <==> update.regions.contains(r)
            &&& update.projection matches Some(projection) ==> after.projection == projection
            &&& update.styles matches Some(styles) ==> after.styles == styles
            &&& update.blocks matches Some(blocks) ==> forall|b: DocumentBlock<I>| #[trigger]
                after.blocks.contains(b) <==> blocks.contains(b)
        }),
{
    let kept = s.keeping_viewport(top);
    lemma_update_applies(s.model, transaction, update);
    law_edits_replace_their_own_source(s.model.bytes, update.edits, i);
    lemma_sort_members(update.regions);
    if let Some(blocks) = update.blocks {
        lemma_sort_members(blocks);
    }
    let next = kept.model.host_model(update);
    lemma_recaptured_text(
        next,
        s.model.captured(s.model.selection),
        s.model.captured_marked(),
    );
}

/// A selection in an editable region stays at the same place of that region
/// when the host changes the document.
pub proof fn law_host_updates_keep_the_selection<I>(
    s: StateView<I>,
    transaction: EditTransaction,
    update: HostView<I>,
    top: Option<DocumentPosition<I>>,
)
    requires
        s.wf(),
        s.model.has_room(5),
        transaction.wf(),
        update.edits == transaction.spec_edits(),
        edits_fit(s.model.bytes.len() as int, update.edits),
        update.projection matches Some(projection) ==> projection.valid(),
        s.model.host_fault(transaction, update) is None,
        s.model.captured(s.model.selection) is Some,
    ensures
        ({
            let after = s.host_updated(update, top).model;
            let (id, relative) = s.model.captured(s.model.selection)->0;
            region_index_of(after.regions, id) matches Some(at) && after.anchor_offset()
                == after.regions[at].start() + relative.anchor && after.cursor()
                == after.regions[at].start() + relative.head
        }),
{
    let m = s.model;
    lemma_host_next(s, transaction, update, top);
    let next = s.keeping_viewport(top).model.host_model(update);
    lemma_capture_kept(m, m.selection, next);
    let at = lemma_captured(m, m.selection, next);
    lemma_recaptured(next, m.captured(m.selection)->0, m.captured_marked(), at);
}

/// Two offsets, the lower first.
pub open spec fn in_order(a: int, b: int) -> (int, int) {
    if a <= b {
        (a, b)
    } else {
        (b, a)
    }
}

/// A composition in an editable region goes back to the same place.
proof fn lemma_remarked<I>(
    m: ModelView<I>,
    capture: Option<(I, RelativeView)>,
    marked: (I, RelativeView),
    at: int,
)
    requires
        m.wf(),
        m.has_room(4),
        region_index_of(m.regions, marked.0) == Some(at),
        0 <= marked.1.anchor <= m.regions[at].end() - m.regions[at].start(),
        0 <= marked.1.head <= m.regions[at].end() - m.regions[at].start(),
    ensures
        m.recaptured(capture, Some(marked)).marked_range() == Some(
            in_order(
                m.regions[at].start() + marked.1.anchor,
                m.regions[at].start() + marked.1.head,
            ),
        ),
{
    let selected = m.restored(capture);
    assert(selected.regions == m.regions);
    assert(selected.has_room(2));
}

/// A composition in an editable region stays at the same place of that region
/// when the host changes the document.
pub proof fn law_host_updates_keep_the_composition<I>(
    s: StateView<I>,
    transaction: EditTransaction,
    update: HostView<I>,
    top: Option<DocumentPosition<I>>,
)
    requires
        s.wf(),
        s.model.has_room(5),
        transaction.wf(),
        update.edits == transaction.spec_edits(),
        edits_fit(s.model.bytes.len() as int, update.edits),
        update.projection matches Some(projection) ==> projection.valid(),
        s.model.host_fault(transaction, update) is None,
        s.model.captured_marked() is Some,
    ensures
        ({
            let after = s.host_updated(update, top).model;
            let (id, relative) = s.model.captured_marked()->0;
            region_index_of(after.regions, id) matches Some(at) && after.marked_range() == Some(
                in_order(
                    after.regions[at].start() + relative.anchor,
                    after.regions[at].start() + relative.head,
                ),
            )
        }),
{
    let m = s.model;
    lemma_host_next(s, transaction, update, top);
    let next = s.keeping_viewport(top).model.host_model(update);
    let at = lemma_captured(m, m.marked->0, next);
    lemma_remarked(next, m.captured(m.selection), m.captured_marked()->0, at);
}

/// The document that a host wants is valid, and keeps editable text.
proof fn lemma_host_next<I>(
    s: StateView<I>,
    transaction: EditTransaction,
    update: HostView<I>,
    top: Option<DocumentPosition<I>>,
)
    requires
        s.wf(),
        s.model.has_room(5),
        transaction.wf(),
        update.edits == transaction.spec_edits(),
        edits_fit(s.model.bytes.len() as int, update.edits),
        update.projection matches Some(projection) ==> projection.valid(),
        s.model.host_fault(transaction, update) is None,
    ensures
        ({
            let next = s.keeping_viewport(top).model.host_model(update);
            &&& next.wf()
            &&& next.has_room(4)
            &&& editable_kept(s.model.regions, s.model.bytes, next.regions, next.bytes)
        }),
{
    lemma_kept_update(s, top, update);
    lemma_viewport_wf(s, top);
    lemma_update_applies(s.model, transaction, update);
    lemma_host_model(s.keeping_viewport(top).model, update);
}

/// The region that a selection was captured in, after its text was kept.
proof fn lemma_captured<I>(m: ModelView<I>, selection: DocumentSelection, next: ModelView<I>) -> (at:
    int)
    requires
        m.wf(),
        next.wf(),
        m.captured(selection) is Some,
        forall|r: int|
            0 <= r < m.regions.len() && (#[trigger] m.regions[r]).spec_policy()
                == EditPolicy::Editable ==> region_kept(
                m.regions[r],
                m.bytes,
                next.regions,
                next.bytes,
            ),
    ensures
        ({
            let (id, relative) = m.captured(selection)->0;
            &&& region_index_of(next.regions, id) == Some(at)
            &&& 0 <= relative.anchor <= next.regions[at].end() - next.regions[at].start()
            &&& 0 <= relative.head <= next.regions[at].end() - next.regions[at].start()
        }),
{
    lemma_capturing(m, selection, 0);
    let from = m.capturing_region(selection, 0);
    let r = m.regions[from];
    assert(region_kept(r, m.bytes, next.regions, next.bytes));
    let at = region_index_of(next.regions, r.spec_id())->0;
    assert(r.start() <= r.end() <= m.bytes.len());
    assert(next.regions[at].start() <= next.regions[at].end() <= next.bytes.len());
    assert(m.bytes.subrange(r.start(), r.end()).len() == r.end() - r.start());
    assert(next.bytes.subrange(next.regions[at].start(), next.regions[at].end()).len()
        == next.regions[at].end() - next.regions[at].start());
    at
}

/// With the place at the top kept a document is as valid as before.
pub(crate) proof fn lemma_viewport_wf<I>(s: StateView<I>, top: Option<DocumentPosition<I>>)
    requires
        s.wf(),
        s.model.has_room(1),
    ensures
        s.keeping_viewport(top).model.wf(),
{
    if let Some(position) = top {
        if let Ok(offset) = s.model.resolve_position(position) {
            lemma_resolved(s.model, position);
            lemma_spares_anchor(
                s.model,
                offset as int,
                AnchorBias::Right,
                Some(position.spec_node_id()),
                position.spec_affinity(),
            );
        }
    }
}

/// What a host may change fits the text.
proof fn lemma_update_applies<I>(m: ModelView<I>, transaction: EditTransaction, update: HostView<I>)
    requires
        m.wf(),
        transaction.wf(),
        update.edits == transaction.spec_edits(),
        edits_fit(m.bytes.len() as int, update.edits),
        update.projection matches Some(projection) ==> projection.valid(),
        m.host_fault(transaction, update) is None,
    ensures
        m.host_projection(update)->0.valid(),
        applicable(update.edits),
        edits_on_boundaries(update.edits, m.bytes),
        regions_valid(
            stable_sort(update.regions),
            m.host_bytes(update).len() as int,
        ),
        regions_on_boundaries(stable_sort(update.regions), m.host_bytes(update)),
{
    let n = update.edits.len() as int;
    let fault = edit_range_fault(update.edits, m.bytes);
    lemma_first_fault(fault, 0, n);
    assert forall|i: int| 0 <= i < n implies edit_on_boundaries(
        #[trigger] update.edits[i],
        m.bytes,
    ) by {
        assert(fault(i) is None);
    }
    lemma_edited(m.bytes, update.edits);
    lemma_regions_valid(update.regions, m.host_bytes(update).len() as usize);
    let sorted = stable_sort(update.regions);
    lemma_first_fault(boundary_fault(sorted, m.host_bytes(update)), 0, sorted.len() as int);
    assert forall|i: int| 0 <= i < sorted.len() implies at_boundary(
        m.host_bytes(update),
        (#[trigger] sorted[i]).start(),
    ) && at_boundary(m.host_bytes(update), sorted[i].end()) by {
        assert(boundary_fault(sorted, m.host_bytes(update))(i) is None);
    }
}

// ---------------------------------------------------------------------------
// Fragments
// ---------------------------------------------------------------------------

/// A snapshot without a fault is a document.
proof fn lemma_snapshot_wf<I>(snapshot: SnapshotView<I>)
    requires
        starts_clean(snapshot.text),
        snapshot.text.len() <= isize::MAX,
        snapshot.projection.valid(),
        snapshot.selection is None,
        ModelView::new_fault(snapshot.text, snapshot.regions) is None,
        ModelView::initial(snapshot.text, snapshot.regions).presentation_fault(
            snapshot.projection,
            snapshot.blocks,
            snapshot.anchored,
            snapshot.styles,
        ) is None,
    ensures
        StateView::snapshot_model(snapshot).wf(),
{
    let m = StateView::snapshot_model(snapshot);
    let regions = stable_sort(snapshot.regions);
    lemma_regions_valid(snapshot.regions, snapshot.text.len() as usize);
    lemma_first_fault(boundary_fault(regions, snapshot.text), 0, regions.len() as int);
    assert forall|i: int| 0 <= i < regions.len() implies at_boundary(
        snapshot.text,
        (#[trigger] regions[i]).start(),
    ) && at_boundary(snapshot.text, regions[i].end()) by {
        assert(boundary_fault(regions, snapshot.text)(i) is None);
    }
    let editable = |r: DocumentRegion<I>| r.spec_policy() == EditPolicy::Editable;
    lemma_last_where(regions, editable, regions.len() as int);
    let at = last_editable(regions);
    assert(m.anchors_fit()) by {
        assert(at_boundary(snapshot.text, 0));
        if at >= 0 {
            assert(at_boundary(snapshot.text, regions[at].start()));
        }
    }
}

/// A fragment that fits makes a splice ready.
pub(crate) proof fn lemma_ready<I>(
    s: StateView<I>,
    revision: DocumentRevision,
    first: Option<I>,
    end: Option<I>,
    snapshot: SnapshotView<I>,
)
    requires
        s.wf(),
        starts_clean(snapshot.text),
        snapshot.projection.valid(),
        s.model.bytes.len() + snapshot.text.len() <= isize::MAX,
        s.splice_fault(revision, first, end, snapshot) is None,
    ensures
        ({
            let from = s.model.fragment_edge(first)->0;
            let to = s.model.fragment_edge(end)->0;
            splice_ready(s.model, from, to, StateView::snapshot_model(snapshot))
        }),
{
    let m = s.model;
    let from = m.fragment_edge(first)->0;
    let to = m.fragment_edge(end)->0;
    lemma_snapshot_wf(snapshot);
    lemma_splice_ready(s, from, to, snapshot);
}

/// A splice replaces the text of its nodes with that of the fragment and the
/// display of its nodes with that of the fragment. Editable regions keep their
/// text, and undo and the scroll pin stay as they are.
pub proof fn law_splices_replace_only_their_nodes<I>(
    s: StateView<I>,
    revision: DocumentRevision,
    first: Option<I>,
    end: Option<I>,
    snapshot: SnapshotView<I>,
    top: Option<DocumentPosition<I>>,
)
    requires
        s.wf(),
        s.model.has_room(5),
        starts_clean(snapshot.text),
        snapshot.projection.valid(),
        s.model.bytes.len() + snapshot.text.len() <= isize::MAX,
        s.splice_fault(revision, first, end, snapshot) is None,
    ensures
        ({
            let after = s.spliced(first, end, snapshot, top);
            let start = s.model.fragment_start(s.model.fragment_edge(first)->0);
            let stop = s.model.fragment_start(s.model.fragment_edge(end)->0);
            &&& after.model.bytes == splice_bytes(s.model.bytes, start, stop, snapshot.text)
            &&& after.model.display() == splice_bytes(
                s.model.display(),
                s.model.shown(start, Affinity::Before),
                s.model.shown(stop, Affinity::Before),
                rendered(snapshot.text, snapshot.projection.spans),
            )
            &&& after.model.revision == s.model.revision.spec_next()
            &&& after.undo == s.undo
            &&& after.pin == s.pin
            &&& forall|r: int|
                0 <= r < s.model.regions.len() && (#[trigger] s.model.regions[r]).spec_policy()
                    == EditPolicy::Editable ==> region_kept(
                    s.model.regions[r],
                    s.model.bytes,
                    after.model.regions,
                    after.model.bytes,
                )
        }),
{
    let m = s.model;
    let from = m.fragment_edge(first)->0;
    let to = m.fragment_edge(end)->0;
    let c = StateView::snapshot_model(snapshot);
    let kept = s.keeping_viewport(top).model;
    lemma_ready(s, revision, first, end, snapshot);
    lemma_fragment_shown(m, from, to, c);
    lemma_fragment_display(m, from, to, c);
    let next = kept.fragment_model(from, to, c);
    let plain = m.fragment_model(from, to, c);
    assert(next.bytes == plain.bytes);
    assert(next.regions == plain.regions);
    assert(next.projection == plain.projection);
    lemma_recaptured_text(next, m.captured(m.selection), m.captured_marked());
    assert forall|r: int|
        0 <= r < m.regions.len() && (#[trigger] m.regions[r]).spec_policy()
            == EditPolicy::Editable implies region_kept(
        m.regions[r],
        m.bytes,
        plain.regions,
        plain.bytes,
    ) by {
        lemma_fragment_keeps(m, from, to, c, r);
    }
}

/// The display of a document after a fragment was replaced.
proof fn lemma_fragment_display<I>(m: ModelView<I>, from: int, to: int, c: ModelView<I>)
    requires
        splice_ready(m, from, to, c),
    ensures
        ({
            let start = m.fragment_start(from);
            let stop = m.fragment_start(to);
            m.fragment_model(from, to, c).display() == splice_bytes(
                m.display(),
                m.shown(start, Affinity::Before),
                m.shown(stop, Affinity::Before),
                c.display(),
            )
        }),
{
    let start = m.fragment_start(from);
    let stop = m.fragment_start(to);
    lemma_fragment_shown(m, from, to, c);
    lemma_regions_shape(m, from, to, c);
    assert(m.wf() && c.wf()) by {
        reveal(splice_ready);
    }
    assert(0 <= start <= stop <= m.bytes.len()) by {
        reveal(splice_ready);
        let n = m.regions.len() as int;
        if from < n {
            assert(m.regions[from].start() <= m.regions[from].end() <= m.bytes.len());
            if from < to && to < n {
                assert(m.regions[from].end() <= m.regions[to].start());
            }
        }
    }
    lemma_rendered_splice(m.bytes, m.projection, start, stop, c.bytes, c.projection);
}

/// A selection in an editable region stays at the same place of that region
/// when a fragment is replaced.
pub proof fn law_splices_keep_the_selection<I>(
    s: StateView<I>,
    revision: DocumentRevision,
    first: Option<I>,
    end: Option<I>,
    snapshot: SnapshotView<I>,
    top: Option<DocumentPosition<I>>,
)
    requires
        s.wf(),
        s.model.has_room(5),
        starts_clean(snapshot.text),
        snapshot.projection.valid(),
        s.model.bytes.len() + snapshot.text.len() <= isize::MAX,
        s.splice_fault(revision, first, end, snapshot) is None,
        s.model.captured(s.model.selection) is Some,
    ensures
        ({
            let after = s.spliced(first, end, snapshot, top).model;
            let (id, relative) = s.model.captured(s.model.selection)->0;
            region_index_of(after.regions, id) matches Some(at) && after.anchor_offset()
                == after.regions[at].start() + relative.anchor && after.cursor()
                == after.regions[at].start() + relative.head
        }),
{
    let m = s.model;
    let from = m.fragment_edge(first)->0;
    let to = m.fragment_edge(end)->0;
    let c = StateView::snapshot_model(snapshot);
    let kept = s.keeping_viewport(top).model;
    lemma_ready(s, revision, first, end, snapshot);
    lemma_viewport_wf(s, top);
    assert(splice_ready(kept, from, to, c)) by {
        reveal(splice_ready);
    }
    let next = kept.fragment_model(from, to, c);
    lemma_fragment_model(kept, from, to, c);
    lemma_fragment_captures(kept, from, to, c, m);
    assert forall|r: int|
        0 <= r < m.regions.len() && (#[trigger] m.regions[r]).spec_policy()
            == EditPolicy::Editable implies region_kept(
        m.regions[r],
        m.bytes,
        next.regions,
        next.bytes,
    ) by {
        lemma_fragment_keeps(kept, from, to, c, r);
    }
    let at = lemma_captured(m, m.selection, next);
    lemma_recaptured(next, m.captured(m.selection)->0, m.captured_marked(), at);
}

} // verus!
