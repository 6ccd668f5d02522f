//! What an edit of one range does to the text and the selection.

use crate::document::edit_laws::{edits_of, law_only_rows_and_styles_refuse_edits};
use crate::document::laws::{law_declined_edits_change_nothing, lemma_routed_edits};
use crate::document::model_edit::lemma_anchor_position;
use crate::document::model_view::{edit_on_boundaries, region_at, ModelView};
use crate::document::outcome::DocumentEditRejection;
use crate::document::position::{DocumentAnchor, DocumentPosition, PositionError};
use crate::document::region::{
    lemma_region_index, region_index_of, DocumentRegion, EditPolicy,
};
use crate::document::state_edit::{
    composed_range, composed_selection, is_user_origin, lemma_edit_applies, lemma_edit_composes,
    lemma_one_edit, lemma_only_edit,
};
use crate::document::state_view::StateView;
use crate::document::transaction::{
    edited, EditDecision, EditOrigin, EditTransaction, TextEdit,
};
use crate::document::undo::sizes_cover;
use crate::document::undo_laws::{lemma_unadorned, unadorned};
use crate::scan::{lemma_first_where_is, lemma_last_where};
use crate::text::{at_boundary, splice_bytes, utf16_offset};
use vstd::prelude::*;

verus! {

/// The text between two offsets is replaced, and all else of the text stays.
pub open spec fn text_replaced<I>(
    s: StateView<I>,
    after: StateView<I>,
    start: int,
    end: int,
    bytes: Seq<u8>,
) -> bool {
    let n = s.model.bytes.len() as int;
    &&& after.model.bytes.len() == n - (end - start) + bytes.len()
    &&& forall|i: int| 0 <= i < start ==> #[trigger] after.model.bytes[i] == s.model.bytes[i]
    &&& forall|i: int| 0 <= i < bytes.len() ==> after.model.bytes[start + i] == #[trigger] bytes[i]
    &&& forall|i: int|
        end <= i < n ==> after.model.bytes[i - (end - start) + bytes.len()]
            == #[trigger] s.model.bytes[i]
    &&& after.model.revision == s.model.revision.spec_next()
}

/// The caret is at an offset, and nothing is selected or marked.
pub open spec fn caret_at<I>(m: ModelView<I>, offset: int) -> bool {
    &&& m.cursor() == offset
    &&& m.anchor_offset() == offset
    &&& m.selected() == (offset, offset)
    &&& m.marked_range() is None
}

/// Nothing changes, and what the view is told is that an edit did not happen.
pub open spec fn left_alone<I>(s: StateView<I>, after: StateView<I>) -> bool {
    &&& after == (StateView { effects: after.effects, ..s })
    &&& after.effects.len() == s.effects.len() + 1
    &&& after.effects.drop_last() == s.effects
    &&& after.effects.last() is Emit
}

/// Text that the user may replace: a part of one editable region, or an
/// insertion at a caret in one.
pub open(crate) spec fn is_editable<I>(m: ModelView<I>, start: int, end: int) -> bool {
    &&& at_boundary(m.bytes, start)
    &&& at_boundary(m.bytes, end)
    &&& if start < end {
        exists|r: int|
            0 <= r < m.regions.len() && (#[trigger] m.regions[r]).spec_policy()
                == EditPolicy::Editable && m.regions[r].start() <= start && end
                <= m.regions[r].end()
    } else {
        start == end && start == m.cursor() && m.editable_range_for_cursor() is Some
    }
}

/// An edit of `start..end` replaces it with text and leaves the caret behind
/// the text, or does nothing. It is not refused in a document without styles
/// and anchored rows where the user may edit.
pub open(crate) spec fn edit_outcome<I>(
    s: StateView<I>,
    after: StateView<I>,
    start: int,
    end: int,
    bytes: Seq<u8>,
) -> bool {
    &&& left_alone(s, after) || (text_replaced(s, after, start, end, bytes) && caret_at(
        after.model,
        start + bytes.len(),
    ))
    &&& unadorned(s.model) && is_editable(s.model, start, end) ==> text_replaced(
        s,
        after,
        start,
        end,
        bytes,
    )
}

/// Where an edit of the user may happen it is applied.
proof fn lemma_accepted<I>(
    s: StateView<I>,
    transaction: EditTransaction,
    range: (int, int),
    bytes: Seq<u8>,
    origin: EditOrigin,
)
    requires
        s.wf(),
        is_user_origin(origin),
        s.is_replacement(transaction, range, bytes, origin),
        0 <= range.0 <= range.1 <= s.model.bytes.len(),
        s.model.bytes.len() + bytes.len() <= isize::MAX,
        unadorned(s.model),
        is_editable(s.model, range.0, range.1),
    ensures
        s.decision(transaction) == EditDecision::<I>::Apply,
{
    let m = s.model;
    let edits = transaction.spec_edits();
    let edit = edits[0];
    lemma_one_edit(edits, m.bytes.len() as usize);
    lemma_only_edit(edits);
    assert(edits.last() == edit);
    assert(edit_on_boundaries(edit, m.bytes));
    assert(m.transaction_rejection(transaction) is None);
    let target = if range.0 < range.1 {
        let r = choose|r: int|
            0 <= r < m.regions.len() && (#[trigger] m.regions[r]).spec_policy()
                == EditPolicy::Editable && m.regions[r].start() <= range.0 && range.1
                <= m.regions[r].end();
        let holds = |r: DocumentRegion<I>|
            r.start() <= range.0 && range.1 <= r.end();
        assert forall|i: int| 0 <= i < r implies !(#[trigger] holds(m.regions[i])) by {
            assert(m.regions[i].end() <= m.regions[r].start());
        }
        assert(holds(m.regions[r]));
        lemma_first_where_is(m.regions, holds, 0, r);
        r
    } else {
        let r = m.region_for_range(range.0, range.1)->0;
        lemma_cursor_region(m);
        r
    };
    assert(m.region_for_range(range.0, range.1) == Some(target));
    assert(m.target_region(edits, None) == Ok::<
        int,
        DocumentEditRejection,
    >(target));
    assert(edits_of(m, target, edits));
    law_only_rows_and_styles_refuse_edits(m, target, edits);
    lemma_unadorned(m.edited_in(target, edits));
}

/// The region that typing at the caret goes to holds the caret.
proof fn lemma_cursor_region<I>(m: ModelView<I>)
    requires
        m.wf(),
        m.editable_range_for_cursor() is Some,
    ensures
        m.region_for_range(m.cursor(), m.cursor()) matches Some(r) && 0 <= r < m.regions.len()
            && m.regions[r].spec_policy() == EditPolicy::Editable && m.regions[r].start()
            <= m.cursor() <= m.regions[r].end(),
{
    lemma_anchor_position(m, m.selection.spec_head());
    let r = m.region_for_range(m.cursor(), m.cursor())->0;
    lemma_last_where(m.regions, region_at(m.cursor()), m.regions.len() as int);
    let head = m.position_for_anchor(m.selection.spec_head());
    if head is Ok {
        if region_index_of(m.regions, head->Ok_0.node_id) is Some {
            lemma_region_index(
                m.regions,
                m.bytes.len() as int,
                region_index_of(m.regions, head->Ok_0.node_id)->0,
            );
        }
    }
}

/// Where a selection and a marked range are once they are made.
proof fn lemma_placed<I>(
    text: ModelView<I>,
    anchor: DocumentPosition<I>,
    head: DocumentPosition<I>,
    range: Option<(int, int)>,
)
    requires
        text.wf(),
        text.has_room(4),
        text.resolve_position(anchor) is Ok,
        text.resolve_position(head) is Ok,
        range matches Some(marked) ==> 0 <= marked.0 <= marked.1 <= usize::MAX,
    ensures
        ({
            let after = text.with_positions(anchor, head).with_marked(range);
            &&& after.anchor_offset() == text.resolve_position(anchor)->Ok_0
            &&& after.cursor() == text.resolve_position(head)->Ok_0
            &&& after.marked_range() == range
            &&& after.selection.spec_anchor().spec_id() >= text.next_id
            &&& after.selection.spec_head().spec_id() >= text.next_id
            &&& after.marked matches Some(marked) ==> marked.spec_anchor().spec_id()
                >= text.next_id && marked.spec_head().spec_id() >= text.next_id
            &&& after.bytes == text.bytes
            &&& after.revision == text.revision
        }),
{
    let placed = text.with_positions(anchor, head);
    let after = placed.with_marked(range);
    if let Some(marked) = text.marked {
        assert(text.is_live(marked.spec_anchor()) && text.is_live(marked.spec_head()));
    }
    let a = placed.selection.spec_anchor();
    let h = placed.selection.spec_head();
    assert(after.anchors[a] == placed.anchors[a]);
    assert(after.anchors[h] == placed.anchors[h]);
}

/// Telling an edit to the view changes no anchor that the edit has made.
proof fn lemma_told<I>(
    s: StateView<I>,
    transaction: EditTransaction,
    composition: Option<(int, int)>,
    after: StateView<I>,
)
    requires
        s.wf(),
        s.decision(transaction) == EditDecision::<I>::Apply,
        s.committed(transaction, composition, after),
    ensures
        ({
            let model = s.edited_model(transaction, composition);
            &&& after.model.selection == model.selection
            &&& after.model.marked == model.marked
            &&& after.model.bytes == model.bytes
            &&& after.model.revision == model.revision
            &&& forall|a: DocumentAnchor|
                a.spec_id() >= s.model.next_id ==> #[trigger] after.model.anchors[a]
                    == model.anchors[a]
        }),
{
    let sizes = choose|sizes: Seq<usize>| #[trigger]
        sizes_cover(
            sizes,
            s.undo.added(
                s.edit_record(transaction, composition),
                transaction.spec_origin(),
            ).undo,
        ) && after == s.applied(transaction, composition, sizes);
    assert(s.pin matches Some(pin) ==> pin.spec_anchor().spec_id() < s.model.next_id);
    assert(s.viewport matches Some(place) ==> place.spec_id() < s.model.next_id);
}

/// The ends of the selection that an edit leaves behind, and what it marks.
spec fn left_selection(edit: TextEdit, composition: Option<(int, int)>) -> (
    (int, int),
    Option<(int, int)>,
) {
    match composition {
        None => (
            (edit.start() + edit.bytes().len(), edit.start() + edit.bytes().len()),
            None,
        ),
        Some(selected) => (composed_selection(edit, selected), composed_range(edit)),
    }
}

/// The document that an applied edit leaves behind.
proof fn lemma_edited_model<I>(
    s: StateView<I>,
    transaction: EditTransaction,
    composition: Option<(int, int)>,
)
    requires
        s.wf(),
        s.model.has_room(4),
        transaction.spec_edits().len() == 1,
        transaction.spec_edits()[0].start() <= transaction.spec_edits()[0].end(),
        s.model.bytes.len() + transaction.spec_edits()[0].bytes().len() <= isize::MAX,
        s.decision(transaction) == EditDecision::<I>::Apply,
    ensures
        ({
            let model = s.edited_model(transaction, composition);
            let edit = transaction.spec_edits()[0];
            let (ends, marked) = left_selection(edit, composition);
            &&& model.bytes == splice_bytes(s.model.bytes, edit.start(), edit.end(), edit.bytes())
            &&& model.revision == s.model.revision.spec_next()
            &&& edit.end() <= s.model.bytes.len()
            &&& model.anchor_offset() == ends.0
            &&& model.cursor() == ends.1
            &&& model.marked_range() == marked
            &&& model.selection.spec_anchor().spec_id() >= s.model.next_id
            &&& model.selection.spec_head().spec_id() >= s.model.next_id
            &&& model.marked matches Some(marked) ==> marked.spec_anchor().spec_id()
                >= s.model.next_id && marked.spec_head().spec_id() >= s.model.next_id
        }),
{
    let m = s.model;
    let edits = transaction.spec_edits();
    let edit = edits[0];
    let target = s.edit_target(transaction);
    let text = s.edited_text(transaction);
    lemma_one_edit(edits, m.bytes.len() as usize);
    lemma_only_edit(edits);
    lemma_routed_edits(m, transaction, None);
    lemma_edit_applies(s, transaction);
    assert(text.bytes == splice_bytes(m.bytes, edit.start(), edit.end(), edit.bytes())) by {
        reveal_with_fuel(edited, 2);
    }
    let start = text.regions[target].start();
    let (offsets, marked) = left_selection(edit, composition);
    if let Some(selected) = composition {
        lemma_edit_composes(s, transaction, selected);
    }
    assert(offsets.0 - start >= 0 && offsets.1 - start >= 0);
    assert(text.regions[target].start() <= text.regions[target].end() <= text.bytes.len());
    let anchor = text.region_position(target, offsets.0 - start);
    let head = text.region_position(target, offsets.1 - start);
    assert(text.resolve_position(anchor) == Ok::<usize, PositionError>(offsets.0 as usize)
        && text.resolve_position(head) == Ok::<usize, PositionError>(offsets.1 as usize)) by {
        lemma_region_index(text.regions, text.bytes.len() as int, target);
    }
    assert(s.edited_model(transaction, composition) == text.with_positions(
        anchor,
        head,
    ).with_marked(marked));
    lemma_placed(text, anchor, head, marked);
}

/// What an applied edit does to the text and to the selection.
#[verifier::spinoff_prover]
#[verifier::rlimit(30)]
proof fn lemma_applied<I>(
    s: StateView<I>,
    transaction: EditTransaction,
    range: (int, int),
    bytes: Seq<u8>,
    origin: EditOrigin,
    composition: Option<(int, int)>,
    after: StateView<I>,
)
    requires
        s.wf(),
        s.model.has_room(4),
        s.is_replacement(transaction, range, bytes, origin),
        0 <= range.0 <= range.1 <= s.model.bytes.len(),
        s.model.bytes.len() + bytes.len() <= isize::MAX,
        s.decision(transaction) == EditDecision::<I>::Apply,
        s.committed(transaction, composition, after),
    ensures
        text_replaced(s, after, range.0, range.1, bytes),
        after.model.bytes == splice_bytes(s.model.bytes, range.0, range.1, bytes),
        ({
            let (ends, marked) = left_selection(transaction.spec_edits()[0], composition);
            &&& after.model.anchor_offset() == ends.0
            &&& after.model.cursor() == ends.1
            &&& after.model.marked_range() == marked
        }),
{
    let model = s.edited_model(transaction, composition);
    lemma_edited_model(s, transaction, composition);
    lemma_told(s, transaction, composition, after);
    lemma_same_ends(model, after.model);
    lemma_spliced_text(s, after, range.0, range.1, bytes);
}

/// A text with a part spliced in is replaced there.
proof fn lemma_spliced_text<I>(
    s: StateView<I>,
    after: StateView<I>,
    start: int,
    end: int,
    bytes: Seq<u8>,
)
    requires
        0 <= start <= end <= s.model.bytes.len(),
        after.model.bytes == splice_bytes(s.model.bytes, start, end, bytes),
        after.model.revision == s.model.revision.spec_next(),
    ensures
        text_replaced(s, after, start, end, bytes),
{
}

/// Two documents with the same anchors for the selection and the marked range
/// have the same of both.
proof fn lemma_same_ends<I>(a: ModelView<I>, b: ModelView<I>)
    requires
        a.selection == b.selection,
        a.marked == b.marked,
        a.anchors[a.selection.spec_anchor()] == b.anchors[a.selection.spec_anchor()],
        a.anchors[a.selection.spec_head()] == b.anchors[a.selection.spec_head()],
        a.marked matches Some(marked) ==> a.anchors[marked.spec_anchor()]
            == b.anchors[marked.spec_anchor()] && a.anchors[marked.spec_head()]
            == b.anchors[marked.spec_head()],
    ensures
        a.anchor_offset() == b.anchor_offset(),
        a.cursor() == b.cursor(),
        a.marked_range() == b.marked_range(),
{
}

/// Replacing a range puts the text in its place and the caret behind it, or
/// does nothing; it succeeds where nothing stands in the way. What is decided
/// says which of both happened.
pub proof fn law_edits_replace_their_range<I>(
    s: StateView<I>,
    range: (int, int),
    bytes: Seq<u8>,
    origin: EditOrigin,
    decision: EditDecision<I>,
    after: StateView<I>,
)
    requires
        s.wf(),
        s.model.has_room(4),
        is_user_origin(origin),
        0 <= range.0 <= range.1 <= s.model.bytes.len(),
        s.model.bytes.len() + bytes.len() <= isize::MAX,
        s.replaced(range, bytes, origin, None, decision, after),
    ensures
        edit_outcome(s, after, range.0, range.1, bytes),
        decision == EditDecision::<I>::Apply ==> text_replaced(s, after, range.0, range.1, bytes)
            && caret_at(after.model, range.0 + bytes.len()) && after.model.bytes == splice_bytes(
            s.model.bytes,
            range.0,
            range.1,
            bytes,
        ),
        decision != EditDecision::<I>::Apply ==> left_alone(s, after),
{
    let transaction = choose|transaction: EditTransaction| #[trigger]
        s.is_replacement(transaction, range, bytes, origin) && decision == s.decision(transaction)
            && s.committed(transaction, None, after);
    if unadorned(s.model) && is_editable(s.model, range.0, range.1) {
        lemma_accepted(s, transaction, range, bytes, origin);
    }
    if decision == EditDecision::<I>::Apply {
        lemma_applied(s, transaction, range, bytes, origin, None, after);
    } else {
        law_declined_edits_change_nothing(s, transaction, None, after);
    }
}

/// What is composed is put in the place of the range and marked, and the
/// selection is where the input wants it, or nothing happens; it succeeds
/// where nothing stands in the way.
pub(crate) proof fn lemma_composed_outcome<I>(
    s: StateView<I>,
    range: (int, int),
    bytes: Seq<u8>,
    selected: (int, int),
    after: StateView<I>,
)
    requires
        s.wf(),
        s.model.has_room(4),
        0 <= range.0 <= range.1 <= s.model.bytes.len(),
        s.model.bytes.len() + bytes.len() <= isize::MAX,
        s.edited(range, bytes, EditOrigin::Composition, Some(selected), after),
    ensures
        left_alone(s, after) || {
            &&& text_replaced(s, after, range.0, range.1, bytes)
            &&& after.model.bytes == splice_bytes(s.model.bytes, range.0, range.1, bytes)
            &&& after.model.anchor_offset() == range.0 + utf16_offset(bytes, selected.0)
            &&& after.model.cursor() == range.0 + utf16_offset(bytes, selected.1)
            &&& after.model.marked_range() == (if bytes.len() > 0 {
                Some((range.0, range.0 + bytes.len()))
            } else {
                None
            })
        },
        unadorned(s.model) && is_editable(s.model, range.0, range.1) ==> text_replaced(
            s,
            after,
            range.0,
            range.1,
            bytes,
        ),
{
    let origin = EditOrigin::Composition;
    let decision = choose|decision: EditDecision<I>| #[trigger]
        s.replaced(range, bytes, origin, Some(selected), decision, after);
    let transaction = choose|transaction: EditTransaction| #[trigger]
        s.is_replacement(transaction, range, bytes, origin) && decision == s.decision(transaction)
            && s.committed(transaction, Some(selected), after);
    if unadorned(s.model) && is_editable(s.model, range.0, range.1) {
        lemma_accepted(s, transaction, range, bytes, origin);
    }
    if decision == EditDecision::<I>::Apply {
        lemma_applied(s, transaction, range, bytes, origin, Some(selected), after);
    } else {
        law_declined_edits_change_nothing(s, transaction, Some(selected), after);
    }
}

} // verus!
