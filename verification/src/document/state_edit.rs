//! Edits by the user, and their undo.

use crate::document::edit_lemmas::{caret_after, lemma_caret, lemma_edited_anchors};
use crate::document::event::{DocumentEffect, DocumentEvent, RoutedEdit};
use crate::document::model::{range_ends, region_offset};
use crate::document::model_edit::{lemma_addressable, lemma_target_region};
use crate::document::model_lemmas::{lemma_edited_in_wf, lemma_regions_grown};
use crate::document::model_view::ModelView;
use crate::document::outcome::{DocumentEditRejection, RoutingOutcome};
use crate::document::position::{transform_offset, AnchorBias, DocumentPosition};
use crate::document::region::EditPolicy;
use crate::document::state::{
    lemma_same_anchors, lemma_spared, lemma_spares_positions, DocumentState,
};
use crate::document::state_view::{first_changed, StateView};
use crate::document::transaction::{
    applicable, edit_fault, edited, edits_addressable, edits_fit, edits_inside, edits_on_boundaries,
    inserted_len, net_growth, transaction_fault, EditDecision, EditOrigin, EditTransaction,
    TextEdit,
};
use crate::document::undo::{
    change_views, sizes_cover, ChangeView, RecordView, SelectedPositions, UndoChange, UndoRecord,
    UndoView, MAX_UNDO_BYTES, MAX_UNDO_RECORDS,
};
use crate::identity::copy_id;
use crate::order::{lemma_sort_keeps_ordered, stable_sort};
use crate::scan::lemma_first_fault;
use crate::text::{
    at_boundary, lemma_encoded, lemma_splice_boundaries, splice_bytes, starts_clean, utf16_floor,
    utf16_offset, utf16_units, SourceText,
};
use std::ops::Range;
use vstd::prelude::*;
use vstd::string::*;
use vstd::utf8::*;

verus! {

/// An origin of edits that go through the selection and undo.
pub open spec fn is_user_origin(origin: EditOrigin) -> bool {
    origin == EditOrigin::User || origin == EditOrigin::Paste || origin == EditOrigin::Composition
}

/// What an edit of a region changes, relative to the region.
pub open spec fn undo_change<I>(m: ModelView<I>, target: int, edit: TextEdit) -> ChangeView {
    let start = m.regions[target].start();
    ChangeView {
        start: edit.start() - start,
        end: edit.end() - start,
        removed: m.bytes.subrange(edit.start(), edit.end()),
        inserted: edit.bytes(),
    }
}

/// What edits of a region change, in the order of the edits.
pub open spec fn undo_changes<I>(m: ModelView<I>, target: int, edits: Seq<TextEdit>) -> Seq<
    ChangeView,
> {
    edits.map_values(|e: TextEdit| undo_change(m, target, e))
}

/// Positions that may not be there.
pub open spec fn positions_ok<I, E>(
    positions: Result<(DocumentPosition<I>, DocumentPosition<I>), E>,
) -> SelectedPositions<I> {
    match positions {
        Ok(positions) => Some(positions),
        Err(_) => None,
    }
}

/// The selection that a composition leaves, given in UTF-16 code units of the
/// inserted text.
pub open spec fn composed_selection(edit: TextEdit, selected: (int, int)) -> (int, int) {
    (
        edit.start() + utf16_offset(edit.bytes(), selected.0),
        edit.start() + utf16_offset(edit.bytes(), selected.1),
    )
}

/// The range that a composition marks: what it inserted, unless that is
/// nothing.
pub open spec fn composed_range(edit: TextEdit) -> Option<(int, int)> {
    if edit.bytes().len() > 0 {
        Some((edit.start(), edit.start() + edit.bytes().len()))
    } else {
        None
    }
}

impl<I> StateView<I> {
    // -----------------------------------------------------------------------
    // Edits by the user
    // -----------------------------------------------------------------------

    /// What becomes of a transaction of the user.
    pub open(crate) spec fn decision(self, transaction: EditTransaction) -> EditDecision<I> {
        if !is_user_origin(transaction.spec_origin()) {
            EditDecision::Reject
        } else {
            match self.model.routing(transaction, None) {
                RoutingOutcome::Applied => EditDecision::Apply,
                RoutingOutcome::Routed(id) => EditDecision::Route(id),
                RoutingOutcome::Rejected(_) => EditDecision::Reject,
            }
        }
    }

    /// After a transaction that was not applied: its fate is told, and nothing
    /// else changes.
    pub open(crate) spec fn declined(self, transaction: EditTransaction) -> StateView<I> {
        if !is_user_origin(transaction.spec_origin()) {
            self.rejected(DocumentEditRejection::InvalidOrigin)
        } else {
            match self.model.routing(transaction, None) {
                RoutingOutcome::Applied => self,
                RoutingOutcome::Routed(id) => self.emitted(
                    DocumentEvent::Routed(RoutedEdit::of(id, transaction)),
                ),
                RoutingOutcome::Rejected(reason) => self.rejected(reason),
            }
        }
    }

    /// The region that a transaction goes to.
    pub open(crate) spec fn edit_target(self, transaction: EditTransaction) -> int {
        self.model.target_region(transaction.spec_edits(), None)->Ok_0
    }

    /// The document after the text of an applied transaction has changed.
    pub open(crate) spec fn edited_text(self, transaction: EditTransaction) -> ModelView<I> {
        self.model.edited_in(self.edit_target(transaction), transaction.spec_edits())
    }

    /// The document after an applied transaction: the caret is behind the
    /// inserted text, or the selection is where a composition wants it.
    pub open(crate) spec fn edited_model(
        self,
        transaction: EditTransaction,
        composition: Option<(int, int)>,
    ) -> ModelView<I> {
        let edits = transaction.spec_edits();
        let target = self.edit_target(transaction);
        let text = self.edited_text(transaction);
        let start = text.regions[target].start();
        let caret = caret_after(edits);
        match composition {
            None => text.selected_in_region(target, caret - start, caret - start).with_marked(None),
            Some(selected) => {
                let ends = composed_selection(edits[0], selected);
                text.selected_in_region(target, ends.0 - start, ends.1 - start).with_marked(
                    composed_range(edits[0]),
                )
            },
        }
    }

    /// The undo record of an applied transaction.
    pub open(crate) spec fn edit_record(
        self,
        transaction: EditTransaction,
        composition: Option<(int, int)>,
    ) -> RecordView<I> {
        let target = self.edit_target(transaction);
        RecordView {
            region_id: self.model.regions[target].spec_id(),
            changes: undo_changes(self.model, target, transaction.spec_edits()),
            selection_before: positions_ok(self.model.selected_positions()),
            selection_after: positions_ok(
                self.edited_model(transaction, composition).selected_positions(),
            ),
        }
    }

    /// An edit of the user is told: the caret is revealed, and the text and
    /// the selection have changed.
    pub open(crate) spec fn edit_told(self, origin: EditOrigin) -> StateView<I> {
        self.with_effect(DocumentEffect::ForgetColumn).revealing().emitted(
            DocumentEvent::Changed { revision: self.model.revision, origin },
        ).selection_told()
    }

    /// With other undo records. A composition that marks nothing is over.
    pub open spec fn with_undo(self, undo: UndoView<I>) -> StateView<I> {
        StateView {
            undo: if self.model.marked_range() is None {
                undo.finished()
            } else {
                undo
            },
            ..self
        }
    }

    /// After a transaction that was applied. Which old undo records go depends
    /// on the sizes of all.
    pub open(crate) spec fn applied(
        self,
        transaction: EditTransaction,
        composition: Option<(int, int)>,
        sizes: Seq<usize>,
    ) -> StateView<I> {
        let origin = transaction.spec_origin();
        let model = self.edited_model(transaction, composition);
        let rows = self.with_model(self.edited_text(transaction)).reconciled(
            first_changed(self.items, transaction.spec_edits()),
        );
        let undo = self.undo.added(self.edit_record(transaction, composition), origin).trimmed(
            MAX_UNDO_RECORDS as nat,
            MAX_UNDO_BYTES as nat,
            sizes,
        );
        rows.with_model(model).with_undo(undo).edit_told(origin)
    }

    /// What a transaction of the user leaves behind.
    pub open(crate) spec fn committed(
        self,
        transaction: EditTransaction,
        composition: Option<(int, int)>,
        after: StateView<I>,
    ) -> bool {
        if self.decision(transaction) == EditDecision::<I>::Apply {
            exists|sizes: Seq<usize>| #[trigger]
                sizes_cover(
                    sizes,
                    self.undo.added(
                        self.edit_record(transaction, composition),
                        transaction.spec_origin(),
                    ).undo,
                ) && after == self.applied(transaction, composition, sizes)
        } else {
            after == self.declined(transaction)
        }
    }

    /// A transaction of one edit at the revision of the document.
    pub open(crate) spec fn is_replacement(
        self,
        transaction: EditTransaction,
        range: (int, int),
        bytes: Seq<u8>,
        origin: EditOrigin,
    ) -> bool {
        &&& transaction.spec_revision() == self.model.revision
        &&& transaction.spec_origin() == origin
        &&& transaction.spec_edits().len() == 1
        &&& transaction.spec_edits()[0].start() == range.0
        &&& transaction.spec_edits()[0].end() == range.1
        &&& transaction.spec_edits()[0].bytes() == bytes
    }

    /// What replacing a range leaves behind: a range out of bounds is
    /// rejected, and any other becomes a transaction.
    pub open(crate) spec fn replaced(
        self,
        range: (int, int),
        bytes: Seq<u8>,
        origin: EditOrigin,
        composition: Option<(int, int)>,
        decision: EditDecision<I>,
        after: StateView<I>,
    ) -> bool {
        if range.0 > range.1 || range.1 > self.model.bytes.len() {
            decision == EditDecision::<I>::Reject && after == self.rejected(
                DocumentEditRejection::OutsideRegion,
            )
        } else {
            exists|transaction: EditTransaction| #[trigger]
                self.is_replacement(transaction, range, bytes, origin) && decision
                    == self.decision(transaction) && self.committed(
                    transaction,
                    composition,
                    after,
                )
        }
    }
}

/// A composed offset lies in what a composition inserted, and so in the
/// region that it was inserted to.
proof fn lemma_composed(bytes: Seq<u8>, edit: TextEdit, units: int, start: int, end: int)
    requires
        starts_clean(bytes),
        at_boundary(bytes, edit.start()),
        at_boundary(bytes, edit.end()),
        start <= edit.start() <= edit.end() <= end,
    ensures
        ({
            let text = splice_bytes(bytes, edit.start(), edit.end(), edit.bytes());
            let at = edit.start() + utf16_offset(edit.bytes(), units);
            &&& start <= at <= end + edit.bytes().len() - (edit.end() - edit.start())
            &&& at <= edit.start() + edit.bytes().len()
            &&& at_boundary(text, at)
            &&& at_boundary(text, edit.start())
            &&& at_boundary(text, edit.start() + edit.bytes().len())
        }),
{
    let insert = edit.bytes();
    lemma_encoded(edit.replacement@);
    lemma_utf16_offset(insert, units);
    lemma_splice_boundaries(bytes, edit.start(), edit.end(), insert);
    let text = splice_bytes(bytes, edit.start(), edit.end(), insert);
    assert(at_boundary(insert, insert.len() as int));
    assert(at_boundary(text, edit.start() + utf16_offset(insert, units)));
    assert(at_boundary(text, edit.start() + insert.len()));
}

/// An applied transaction goes to a region, and the caret lies in it.
pub(crate) proof fn lemma_edit_applies<I>(s: StateView<I>, transaction: EditTransaction)
    requires
        s.model.wf(),
        transaction.wf(),
        s.decision(transaction) == EditDecision::<I>::Apply,
        edits_fit(s.model.bytes.len() as int, transaction.spec_edits()),
        edits_on_boundaries(transaction.spec_edits(), s.model.bytes),
    ensures
        ({
            let target = s.edit_target(transaction);
            let edits = transaction.spec_edits();
            let text = s.edited_text(transaction);
            let r = s.model.regions[target];
            &&& 0 <= target < s.model.regions.len()
            &&& r.spec_policy() == EditPolicy::Editable
            &&& text.regions.len() == s.model.regions.len()
            &&& text.wf()
            &&& text.anchors.dom() == s.model.anchors.dom()
            &&& text.regions[target].start() == r.start()
            &&& text.regions[target].end() == r.end() + net_growth(edits)
            &&& r.start() <= r.end() <= s.model.bytes.len()
            &&& edits_inside(edits, r.start(), r.end())
            &&& r.start() <= caret_after(edits)
            &&& region_offset(text, target, caret_after(edits) - r.start())
        }),
{
    let m = s.model;
    let edits = transaction.spec_edits();
    let target = s.edit_target(transaction);
    lemma_target_region(m, edits, None);
    lemma_edited_in_wf(m, target, edits);
    lemma_edited_anchors(m, target, edits);
    lemma_regions_grown(m, target, edits);
    let r = m.regions[target];
    assert(r.start() <= r.end() <= m.bytes.len());
    lemma_caret(m.bytes, edits, r.start(), r.end());
}

/// The selection of a composition lies in the edited region.
pub(crate) proof fn lemma_edit_composes<I>(s: StateView<I>, transaction: EditTransaction, selected: (int, int))
    requires
        s.model.wf(),
        transaction.wf(),
        s.decision(transaction) == EditDecision::<I>::Apply,
        edits_fit(s.model.bytes.len() as int, transaction.spec_edits()),
        edits_on_boundaries(transaction.spec_edits(), s.model.bytes),
        transaction.spec_edits().len() == 1,
    ensures
        ({
            let target = s.edit_target(transaction);
            let edit = transaction.spec_edits()[0];
            let text = s.edited_text(transaction);
            let start = s.model.regions[target].start();
            let ends = composed_selection(edit, selected);
            &&& start <= ends.0
            &&& start <= ends.1
            &&& region_offset(text, target, ends.0 - start)
            &&& region_offset(text, target, ends.1 - start)
            &&& at_boundary(text.bytes, edit.start())
            &&& at_boundary(text.bytes, edit.start() + edit.bytes().len())
        }),
{
    let edits = transaction.spec_edits();
    let edit = edits[0];
    lemma_edit_applies(s, transaction);
    lemma_only_edit(edits);
    let r = s.model.regions[s.edit_target(transaction)];
    let text = s.edited_text(transaction);
    assert(text.bytes == splice_bytes(s.model.bytes, edit.start(), edit.end(), edit.bytes())) by {
        reveal_with_fuel(edited, 2);
    }
    assert(r.start() <= edit.start() && edit.end() <= r.end());
    assert(starts_clean(s.model.bytes));
    lemma_composed(s.model.bytes, edit, selected.0, r.start(), r.end());
    lemma_composed(s.model.bytes, edit, selected.1, r.start(), r.end());
}

/// An offset counted in UTF-16 code units is an offset between characters.
proof fn lemma_utf16_offset(bytes: Seq<u8>, units: int)
    ensures
        at_boundary(bytes, utf16_offset(bytes, units)),
{
    lemma_utf16_floor(bytes, units, bytes.len() as int);
}

proof fn lemma_utf16_floor(bytes: Seq<u8>, units: int, from: int)
    requires
        0 <= from <= bytes.len(),
    ensures
        at_boundary(bytes, utf16_floor(bytes, units, from)),
    decreases from,
{
    if from <= 0 || (at_boundary(bytes, from) && utf16_units(bytes.subrange(0, from))
        <= units) {
    } else {
        lemma_utf16_floor(bytes, units, from - 1);
    }
}

/// What an edit of a region will leave behind, worked out before the text
/// changes.
pub(crate) struct EditPlan<I> {
    pub(crate) index: usize,
    pub(crate) region_id: I,
    pub(crate) changes: Vec<UndoChange>,
    pub(crate) selection_before: SelectedPositions<I>,
    pub(crate) selected: Range<usize>,
    pub(crate) marked: Option<Range<usize>>,
    pub(crate) first_changed_item: usize,
}

impl<I> EditPlan<I> {
    pub(crate) open(crate) spec fn fits(
        self,
        s: StateView<I>,
        transaction: EditTransaction,
        composition: Option<(int, int)>,
        target: int,
    ) -> bool {
        let edits = transaction.spec_edits();
        &&& self.index == target
        &&& self.region_id == s.model.regions[target].spec_id()
        &&& change_views(self.changes@) == undo_changes(s.model, target, edits)
        &&& self.selection_before == positions_ok(s.model.selected_positions())
        &&& (self.selected.start as int, self.selected.end as int) == (match composition {
            Some(selected) => composed_selection(edits[0], selected),
            None => (caret_after(edits), caret_after(edits)),
        })
        &&& range_ends(self.marked) == (match composition {
            Some(_) => composed_range(edits[0]),
            None => None,
        })
        &&& self.first_changed_item == first_changed(s.items, edits)
    }
}

impl<I: Clone + Eq> DocumentState<I> {
    /// What edits of a region change.
    fn edit_changes(&self, index: usize, edits: &[TextEdit]) -> (changes: Vec<UndoChange>)
        requires
            self.wf(),
            index < self@.model.regions.len(),
            edits_on_boundaries(edits@, self@.model.bytes),
            edits_inside(
                edits@,
                self@.model.regions[index as int].start(),
                self@.model.regions[index as int].end(),
            ),
        ensures
            change_views(changes@) == undo_changes(self@.model, index as int, edits@),
    {
        let start = self.model.regions.regions[index].range().start;
        let mut changes: Vec<UndoChange> = Vec::new();
        let ghost m = self@.model;
        let mut i: usize = 0;
        while i < edits.len()
            invariant
                self.wf(),
                m == self@.model,
                index < m.regions.len(),
                start == m.regions[index as int].start(),
                edits_on_boundaries(edits@, m.bytes),
                edits_inside(
                    edits@,
                    m.regions[index as int].start(),
                    m.regions[index as int].end(),
                ),
                i <= edits@.len(),
                change_views(changes@) == undo_changes(m, index as int, edits@).subrange(
                    0,
                    i as int,
                ),
            decreases edits@.len() - i,
        {
            let edit = &edits[i];
            let range = edit.range();
            let ghost before = change_views(changes@);
            let removed = self.model.text.slice(&range);
            let change = UndoChange {
                range: range.start - start..range.end - start,
                removed,
                inserted: edit.replacement().to_string(),
            };
            assert(change@ == undo_change(m, index as int, edits@[i as int]));
            changes.push(change);
            proof {
                assert(change_views(changes@) =~= before.push(change@));
                assert(before.push(change@) =~= undo_changes(
                    m,
                    index as int,
                    edits@,
                ).subrange(0, i + 1));
            }
            i += 1;
        }
        assert(undo_changes(m, index as int, edits@).subrange(0, edits@.len() as int)
            =~= undo_changes(m, index as int, edits@));
        changes
    }

    /// The first row that any of the edits starts in.
    pub(crate) fn first_changed_item(&self, edits: &[TextEdit]) -> (first: usize)
        ensures
            first == first_changed(self@.items, edits@),
    {
        let mut first: usize = 0;
        let mut i: usize = 0;
        assert(edits@.subrange(0, 0) =~= Seq::empty());
        while i < edits.len()
            invariant
                i <= edits@.len(),
                first == first_changed(self@.items, edits@.subrange(0, i as int)),
            decreases edits@.len() - i,
        {
            proof {
                assert(edits@.subrange(0, i + 1).drop_last() =~= edits@.subrange(0, i as int));
            }
            let item = self.layout_item_for_source(edits[i].range().start);
            if i == 0 || item <= first {
                first = item;
            }
            i += 1;
        }
        assert(edits@.subrange(0, edits@.len() as int) =~= edits@);
        first
    }

    /// Where the caret is after edits.
    fn caret_behind(edits: &[TextEdit]) -> (caret: usize)
        requires
            edits@.len() > 0,
            edits_addressable(edits@),
        ensures
            caret == caret_after(edits@),
    {
        assert(edits@[0].start() + edits@[0].bytes().len() <= usize::MAX);
        let mut caret = edits[0].range().start + edits[0].replacement_len();
        let mut i: usize = 1;
        assert(edits@.subrange(0, 1)[0] == edits@[0]);
        while i < edits.len()
            invariant
                1 <= i <= edits@.len(),
                edits_addressable(edits@),
                caret == caret_after(edits@.subrange(0, i as int)),
            decreases edits@.len() - i,
        {
            let ghost part = edits@.subrange(0, i + 1);
            proof {
                assert(part.drop_last() =~= edits@.subrange(0, i as int));
                assert(part.last() == edits@[i as int]);
            }
            caret = transform_offset(
                caret,
                AnchorBias::Right,
                &edits[i].range(),
                edits[i].replacement_len(),
            );
            i += 1;
        }
        assert(edits@.subrange(0, edits@.len() as int) =~= edits@);
        caret
    }

    pub(crate) fn finish_user_edit(&mut self, origin: EditOrigin)
        requires
            old(self).wf(),
        ensures
            final(self).wf(),
            final(self)@ == old(self)@.edit_told(origin),
    {
        self.effect(DocumentEffect::ForgetColumn);
        self.request_caret_reveal();
        self.emit(DocumentEvent::Changed { revision: self.model.revision, origin });
        self.emit(DocumentEvent::SelectionChanged);
        self.notify();
    }

    /// Commits an edit of the user, a paste or a composition, with undo and
    /// selection. A composition ends the marked range; refinements of it come
    /// through the input handler. Changes of the host go through the host
    /// transactions. Rejected and routed edits change nothing.
    pub fn apply_transaction(&mut self, transaction: EditTransaction) -> (decision: EditDecision<I>)
        requires
            old(self).wf(),
            transaction.wf(),
            old(self)@.model.has_room(4),
            edits_fit(old(self)@.model.bytes.len() as int, transaction.spec_edits()),
        ensures
            final(self).wf(),
            decision == old(self)@.decision(transaction),
            old(self)@.committed(transaction, None, final(self)@),
    {
        self.commit_user_transaction(transaction, None)
    }

    /// Selects and marks what an edit leaves.
    fn select_edited(
        &mut self,
        index: usize,
        selected: Range<usize>,
        marked: Option<Range<usize>>,
    )
        requires
            old(self).wf(),
            old(self)@.model.has_room(4),
            index < old(self)@.model.regions.len(),
            old(self)@.model.regions[index as int].start() <= selected.start,
            old(self)@.model.regions[index as int].start() <= selected.end,
            region_offset(
                old(self)@.model,
                index as int,
                selected.start - old(self)@.model.regions[index as int].start(),
            ),
            region_offset(
                old(self)@.model,
                index as int,
                selected.end - old(self)@.model.regions[index as int].start(),
            ),
            marked matches Some(range) ==> at_boundary(old(self)@.model.bytes, range.start as int)
                && at_boundary(old(self)@.model.bytes, range.end as int),
        ensures
            final(self).wf(),
            ({
                let start = old(self)@.model.regions[index as int].start();
                final(self)@ == old(self)@.with_model(
                    old(self)@.model.selected_in_region(
                        index as int,
                        selected.start - start,
                        selected.end - start,
                    ).with_marked(range_ends(marked)),
                )
            }),
    {
        let ghost before = self@;
        let start = self.model.regions.regions[index].range().start;
        proof {
            lemma_spares_positions(
                before.model,
                before.model.region_position(index as int, selected.start - start),
                before.model.region_position(index as int, selected.end - start),
            );
        }
        self.model.select_in_region(index, selected.start - start, selected.end - start);
        proof {
            lemma_spared(before, self@);
        }
        self.mark_range(marked);
        assert(self@ =~= before.with_model(
            before.model.selected_in_region(
                index as int,
                selected.start - start,
                selected.end - start,
            ).with_marked(range_ends(marked)),
        ));
    }

    /// What an edit of a region will leave behind.
    fn plan_edit(
        &self,
        index: usize,
        transaction: &EditTransaction,
        composition_selection: &Option<Range<usize>>,
    ) -> (plan: EditPlan<I>)
        requires
            self.wf(),
            transaction.wf(),
            edits_fit(self@.model.bytes.len() as int, transaction.spec_edits()),
            composition_selection is Some ==> transaction.spec_edits().len() == 1,
            index < self@.model.regions.len(),
            edits_on_boundaries(transaction.spec_edits(), self@.model.bytes),
            edits_inside(
                transaction.spec_edits(),
                self@.model.regions[index as int].start(),
                self@.model.regions[index as int].end(),
            ),
        ensures
            plan.fits(self@, *transaction, range_ends(*composition_selection), index as int),
    {
        let ghost edits = transaction.spec_edits();
        proof {
            lemma_addressable(self@.model.bytes.len() as int, edits, self@.model.bytes);
        }
        let selection_before = match self.selected_positions() {
            Ok(positions) => Some(positions),
            Err(_) => None,
        };
        let changes = self.edit_changes(index, transaction.edits.as_slice());
        let caret = Self::caret_behind(transaction.edits.as_slice());
        let mut selected = caret..caret;
        let mut marked: Option<Range<usize>> = None;
        if let Some(units) = composition_selection {
            let first = &transaction.edits[0];
            let start = first.range().start;
            proof {
                lemma_only_edit(edits);
                lemma_utf16_offset(edits[0].bytes(), units.start as int);
                lemma_utf16_offset(edits[0].bytes(), units.end as int);
            }
            let replacement = SourceText::new(first.replacement());
            let len = replacement.len();
            selected =
            start + replacement.offset_utf16_to_offset(units.start)..start
                + replacement.offset_utf16_to_offset(units.end);
            if len > 0 {
                marked = Some(start..start + len);
            }
        }
        EditPlan {
            index,
            region_id: copy_id(&self.model.regions.regions[index].id),
            changes,
            selection_before,
            selected,
            marked,
            first_changed_item: self.first_changed_item(transaction.edits.as_slice()),
        }
    }

    /// Publishes an edit whose text has changed: rows, selection, undo and
    /// what is told.
    fn publish_edit(
        &mut self,
        plan: EditPlan<I>,
        origin: EditOrigin,
        Ghost(before): Ghost<StateView<I>>,
        Ghost(transaction): Ghost<EditTransaction>,
        Ghost(composition): Ghost<Option<(int, int)>>,
    )
        requires
            old(self).model.fits(),
            old(self)@ == before.with_model(before.edited_text(transaction)),
            before.wf(),
            before.model.has_room(4),
            transaction.wf(),
            transaction.spec_origin() == origin,
            edits_fit(before.model.bytes.len() as int, transaction.spec_edits()),
            edits_on_boundaries(transaction.spec_edits(), before.model.bytes),
            before.decision(transaction) == EditDecision::<I>::Apply,
            composition is Some ==> transaction.spec_edits().len() == 1,
            plan.fits(before, transaction, composition, before.edit_target(transaction)),
        ensures
            final(self).wf(),
            before.committed(transaction, composition, final(self)@),
    {
        proof {
            lemma_edit_applies(before, transaction);
            if let Some(selected) = composition {
                lemma_edit_composes(before, transaction, selected);
            }
            lemma_same_anchors(before, self@);
        }
        self.reconcile_layout_items_from(plan.first_changed_item);
        let ghost rows = self@;
        let selected = plan.selected.start..plan.selected.end;
        let marked = match &plan.marked {
            Some(range) => Some(range.start..range.end),
            None => None,
        };
        self.select_edited(plan.index, selected, marked);
        let ghost model = before.edited_model(transaction, composition);
        assert(self@ == rows.with_model(model));
        self.record_edit(plan, origin, Ghost(before), Ghost(transaction), Ghost(composition));
        self.finish_user_edit(origin);
    }

    /// Records an edit for undo. The marked range decides whether a
    /// composition goes on.
    fn record_edit(
        &mut self,
        plan: EditPlan<I>,
        origin: EditOrigin,
        Ghost(before): Ghost<StateView<I>>,
        Ghost(transaction): Ghost<EditTransaction>,
        Ghost(composition): Ghost<Option<(int, int)>>,
    )
        requires
            old(self).wf(),
            old(self)@.undo == before.undo,
            old(self)@.model == before.edited_model(transaction, composition),
            plan.fits(before, transaction, composition, before.edit_target(transaction)),
        ensures
            final(self).wf(),
            exists|sizes: Seq<usize>| #[trigger]
                sizes_cover(
                    sizes,
                    before.undo.added(before.edit_record(transaction, composition), origin).undo,
                ) && final(self)@ == old(self)@.with_undo(
                    before.undo.added(
                        before.edit_record(transaction, composition),
                        origin,
                    ).trimmed(MAX_UNDO_RECORDS as nat, MAX_UNDO_BYTES as nat, sizes),
                ),
    {
        let ghost record = before.edit_record(transaction, composition);
        let ghost placed = self@;
        let selection_after = match self.selected_positions() {
            Ok(positions) => Some(positions),
            Err(_) => None,
        };
        let entry = UndoRecord {
            region_id: plan.region_id,
            changes: plan.changes,
            selection_before: plan.selection_before,
            selection_after,
        };
        assert(entry@ =~= record);
        let composed = self.model.marked_range().is_some();
        let ghost added = before.undo.added(record, origin);
        self.undo.record(entry, origin);
        let ghost trimmed = self.undo@;
        if !composed {
            self.undo.finish_composition();
        }
        assert(self@ =~= placed.with_undo(trimmed));
    }

    pub(crate) fn commit_user_transaction(
        &mut self,
        transaction: EditTransaction,
        composition_selection: Option<Range<usize>>,
    ) -> (decision: EditDecision<I>)
        requires
            old(self).wf(),
            transaction.wf(),
            old(self)@.model.has_room(4),
            edits_fit(old(self)@.model.bytes.len() as int, transaction.spec_edits()),
            composition_selection is Some ==> transaction.spec_edits().len() == 1,
        ensures
            final(self).wf(),
            decision == old(self)@.decision(transaction),
            old(self)@.committed(
                transaction,
                range_ends(composition_selection),
                final(self)@,
            ),
    {
        let ghost before = self@;
        let ghost edits = transaction.spec_edits();
        let ghost composition = range_ends(composition_selection);
        let origin = transaction.origin();
        if !(origin == EditOrigin::User || origin == EditOrigin::Paste || origin
            == EditOrigin::Composition) {
            self.emit(DocumentEvent::Rejected(DocumentEditRejection::InvalidOrigin));
            return EditDecision::Reject;
        }
        match self.model.validate_transaction(&transaction) {
            Ok(()) => {},
            Err(reason) => {
                self.emit(DocumentEvent::Rejected(reason));
                return EditDecision::Reject;
            },
        }
        let mut plan: Option<EditPlan<I>> = None;
        if let Ok(index) = self.model.target_region_for_transaction(&transaction, None) {
            if self.model.regions.regions[index].policy == EditPolicy::Editable {
                proof {
                    lemma_target_region(before.model, edits, None);
                }
                plan = Some(self.plan_edit(index, &transaction, &composition_selection));
            }
        }
        match self.model.route_and_apply(&transaction, None) {
            RoutingOutcome::Applied => {},
            RoutingOutcome::Routed(region_id) => {
                assert(self@ =~= before);
                let copy = copy_id(&region_id);
                self.emit(DocumentEvent::Routed(RoutedEdit { region_id, transaction }));
                return EditDecision::Route(copy);
            },
            RoutingOutcome::Rejected(reason) => {
                assert(self@ =~= before);
                self.emit(DocumentEvent::Rejected(reason));
                return EditDecision::Reject;
            },
        }
        assert(self@ =~= before.with_model(before.edited_text(transaction)));
        assert(before.decision(transaction) == EditDecision::<I>::Apply);
        if let Some(plan) = plan {
            self.publish_edit(
                plan,
                origin,
                Ghost(before),
                Ghost(transaction),
                Ghost(composition),
            );
        }
        EditDecision::Apply
    }

    /// Replaces a range of the source.
    pub fn replace(
        &mut self,
        range: Range<usize>,
        text: &str,
        origin: EditOrigin,
        composition_selection: Option<Range<usize>>,
    ) -> (decision: EditDecision<I>)
        requires
            old(self).wf(),
            old(self)@.model.has_room(4),
            old(self)@.model.bytes.len() + text.spec_bytes().len() <= isize::MAX,
        ensures
            final(self).wf(),
            old(self)@.replaced(
                (range.start as int, range.end as int),
                text.spec_bytes(),
                origin,
                range_ends(composition_selection),
                decision,
                final(self)@,
            ),
    {
        let ghost before = self@;
        let ghost ends = (range.start as int, range.end as int);
        let mut edits: Vec<TextEdit> = Vec::new();
        edits.push(TextEdit::new(range, text));
        proof {
            lemma_one_edit(edits@, before.model.bytes.len() as usize);
        }
        let transaction = match EditTransaction::new(
            self.model.revision,
            origin,
            edits,
            self.model.text.len(),
        ) {
            Ok(transaction) => transaction,
            Err(_) => {
                self.emit(DocumentEvent::Rejected(DocumentEditRejection::OutsideRegion));
                return EditDecision::Reject;
            },
        };
        proof {
            lemma_only_edit(transaction.spec_edits());
            assert(before.is_replacement(transaction, ends, text.spec_bytes(), origin));
        }
        self.commit_user_transaction(transaction, composition_selection)
    }
}

/// One edit inserts what it inserts.
pub(crate) proof fn lemma_only_edit(edits: Seq<TextEdit>)
    requires
        edits.len() == 1,
    ensures
        inserted_len(edits) == edits[0].bytes().len(),
        net_growth(edits) == edits[0].bytes().len() - (edits[0].end() - edits[0].start()),
{
    reveal_with_fuel(inserted_len, 2);
    reveal_with_fuel(net_growth, 2);
}

/// One edit makes a transaction exactly when it lies in the text.
pub(crate) proof fn lemma_one_edit(edits: Seq<TextEdit>, source_len: usize)
    requires
        edits.len() == 1,
    ensures
        transaction_fault(edits, source_len) is None <==> edits[0].start() <= edits[0].end()
            <= source_len,
        stable_sort(edits) == edits,
        applicable(edits) <==> edits[0].start() <= edits[0].end(),
{
    lemma_sort_keeps_ordered(edits);
    let fault = edit_fault(edits, source_len);
    lemma_first_fault(fault, 0, 1);
    assert(fault(0) is None <==> edits[0].start() <= edits[0].end() <= source_len);
}

} // verus!
