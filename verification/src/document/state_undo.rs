//! Undo and redo.

use crate::document::edit_lemmas::{lemma_alike, lemma_edited_anchors, lemma_text_edit, text_edit};
use crate::document::model::DocumentModel;
use crate::document::model_edit::copy_position;
use crate::document::model_lemmas::{lemma_edited_in_wf, lemma_regions_grown};
use crate::document::model_view::{edit_on_boundaries, ModelView};
use crate::document::outcome::{DocumentEditRejection, RoutingOutcome};
use crate::document::position::{DocumentAnchor, DocumentRevision};
use crate::document::region::{lemma_region_index, region_index_of, EditPolicy};
use crate::document::state::{
    lemma_spared, lemma_spares_marked, lemma_spares_positions, DocumentState,
};
use crate::document::state_edit::{lemma_one_edit, lemma_only_edit};
use crate::document::state_view::{item_for_source, StateView};
use crate::document::transaction::{
    applicable, edited, edits_fit, edits_inside, edits_on_boundaries, EditOrigin, EditTransaction,
    TextEdit,
};
use crate::document::undo::{
    change_views, changes_bytes, lemma_changes_bytes_concat, record_views, ChangeView, RecordView,
    SelectedPositions, UndoChange, UndoRecord, UndoView, MAX_UNDO_BYTES,
};
use crate::document::validate::valid_source_range;
use crate::text::{at_boundary, byte_len, same_text, splice_bytes};
use std::ops::Range;
use vstd::prelude::*;
use vstd::string::*;
use vstd::utf8::*;

verus! {

impl ChangeView {
    /// The text that must be there to replay a change.
    pub open spec fn expected(self, undo: bool) -> Seq<u8> {
        if undo {
            self.inserted
        } else {
            self.removed
        }
    }

    /// The text that replaying a change puts there.
    pub open spec fn replacement(self, undo: bool) -> Seq<u8> {
        if undo {
            self.removed
        } else {
            self.inserted
        }
    }
}

impl<I> ModelView<I> {
    /// The document after one change of a region was replayed. The region must
    /// still be there and editable, the text must be the expected, and the
    /// presentation must still fit.
    #[verifier::opaque]
    pub open(crate) spec fn replayed_once(self, id: I, change: ChangeView, undo: bool) -> Option<
        ModelView<I>,
    > {
        match region_index_of(self.regions, id) {
            None => None,
            Some(at) => {
                let region = self.regions[at];
                let start = region.start() + change.start;
                let end = start + change.expected(undo).len();
                let edits = seq![text_edit(start, end, change.replacement(undo))];
                if region.spec_policy() != EditPolicy::Editable || end > region.end()
                    || !at_boundary(self.bytes, start) || !at_boundary(self.bytes, end)
                    || self.bytes.subrange(start, end) != change.expected(undo) {
                    None
                } else if self.edit_rejection(at, edits) is Some {
                    None
                } else {
                    Some(self.edited_in(at, edits))
                }
            },
        }
    }

    /// The document after the first `count` changes were replayed: undo goes
    /// backwards.
    pub open(crate) spec fn replayed(self, id: I, changes: Seq<ChangeView>, undo: bool, count: int) -> Option<
        ModelView<I>,
    >
        decreases count,
    {
        if count <= 0 {
            Some(self)
        } else {
            match self.replayed(id, changes, undo, count - 1) {
                None => None,
                Some(before) => before.replayed_once(
                    id,
                    changes[if undo {
                        changes.len() - count
                    } else {
                        count - 1
                    }],
                    undo,
                ),
            }
        }
    }

    /// The lowest source offset that replaying the first `count` changes
    /// touches, or the length of the text.
    pub open(crate) spec fn first_replayed(
        self,
        id: I,
        changes: Seq<ChangeView>,
        undo: bool,
        count: int,
    ) -> int
        decreases count,
    {
        if count <= 0 {
            self.bytes.len() as int
        } else {
            let before = self.replayed(id, changes, undo, count - 1)->0;
            let change = changes[if undo {
                changes.len() - count
            } else {
                count - 1
            }];
            let start = before.regions[region_index_of(before.regions, id)->0].start()
                + change.start;
            let lowest = self.first_replayed(id, changes, undo, count - 1);
            if start < lowest {
                start
            } else {
                lowest
            }
        }
    }

    /// With a remembered selection, if it still resolves.
    pub open(crate) spec fn reselected(self, selection: SelectedPositions<I>) -> ModelView<I> {
        match selection {
            Some((anchor, head)) => if self.positions_fault(anchor, head) is None {
                self.with_positions(anchor, head)
            } else {
                self
            },
            None => self,
        }
    }
}

impl<I> RecordView<I> {
    /// The selection that replaying the record brings back.
    pub open spec fn selection(self, undo: bool) -> SelectedPositions<I> {
        if undo {
            self.selection_before
        } else {
            self.selection_after
        }
    }
}

impl<I> StateView<I> {
    /// The document after a record was replayed, with its text alone.
    pub open(crate) spec fn replayed_text(self, record: RecordView<I>, undo: bool) -> Option<
        ModelView<I>,
    > {
        self.model.replayed(
            record.region_id,
            record.changes,
            undo,
            record.changes.len() as int,
        )
    }

    /// After a record was replayed.
    pub open(crate) spec fn replayed(self, record: RecordView<I>, undo: bool) -> StateView<I> {
        let text = self.replayed_text(record, undo)->0;
        let model = ModelView {
            revision: self.model.revision.spec_next(),
            ..text.reselected(record.selection(undo)).with_marked(None)
        };
        let first = self.model.first_replayed(
            record.region_id,
            record.changes,
            undo,
            record.changes.len() as int,
        );
        self.with_model(model).reconciled(item_for_source(self.items, first)).edit_told(
            if undo {
                EditOrigin::Undo
            } else {
                EditOrigin::Redo
            },
        )
    }

    /// After an undo: the newest record is replayed backwards and can be
    /// redone. A record that cannot be replayed stays where it is.
    pub open(crate) spec fn undone(self) -> StateView<I> {
        let quiet = self.broken();
        if quiet.undo.undo.len() == 0 {
            quiet
        } else {
            let record = quiet.undo.undo.last();
            if quiet.replayed_text(record, true) is Some {
                StateView {
                    undo: UndoView {
                        undo: quiet.undo.undo.drop_last(),
                        redo: quiet.undo.redo.push(record),
                        coalescing: None,
                    },
                    ..quiet.replayed(record, true)
                }
            } else {
                quiet
            }
        }
    }

    /// After a redo.
    pub open(crate) spec fn redone(self) -> StateView<I> {
        let quiet = self.broken();
        if quiet.undo.redo.len() == 0 {
            quiet
        } else {
            let record = quiet.undo.redo.last();
            if quiet.replayed_text(record, false) is Some {
                StateView {
                    undo: UndoView {
                        undo: quiet.undo.undo.push(record),
                        redo: quiet.undo.redo.drop_last(),
                        coalescing: None,
                    },
                    ..quiet.replayed(record, false)
                }
            } else {
                quiet
            }
        }
    }
}

/// A replayed change keeps the document valid, and the anchors of the view.
pub(crate) proof fn lemma_replayed_once<I>(m: ModelView<I>, at: int, edit: TextEdit)
    requires
        m.wf(),
        0 <= at < m.regions.len(),
        m.regions[at].spec_policy() == EditPolicy::Editable,
        m.regions[at].start() <= edit.start() <= edit.end() <= m.regions[at].end(),
        at_boundary(m.bytes, edit.start()),
        at_boundary(m.bytes, edit.end()),
        m.bytes.len() + edit.bytes().len() <= isize::MAX,
    ensures
        ({
            let edits = seq![edit];
            let next = m.edited_in(at, edits);
            &&& applicable(edits)
            &&& edits_on_boundaries(edits, m.bytes)
            &&& edits_inside(edits, m.regions[at].start(), m.regions[at].end())
            &&& edits_fit(m.bytes.len() as int, edits)
            &&& m.edit_rejection(at, edits) is None ==> next.wf()
            &&& m.spares(next)
            &&& next.next_id == m.next_id
            &&& next.bytes == splice_bytes(m.bytes, edit.start(), edit.end(), edit.bytes())
            &&& next.regions.len() == m.regions.len()
            &&& region_index_of(m.regions, m.regions[at].spec_id()) == Some(at)
            &&& forall|i: int|
                0 <= i < m.regions.len() ==> {
                    let growth = edit.bytes().len() - (edit.end() - edit.start());
                    &&& (#[trigger] next.regions[i]).spec_id() == m.regions[i].spec_id()
                    &&& next.regions[i].spec_policy() == m.regions[i].spec_policy()
                    &&& next.regions[i].start() == m.regions[i].start() + (if i <= at {
                        0
                    } else {
                        growth
                    })
                    &&& next.regions[i].end() == m.regions[i].end() + (if i < at {
                        0
                    } else {
                        growth
                    })
                }
        }),
{
    let edits = seq![edit];
    lemma_only_edit(edits);
    assert(applicable(edits));
    assert(edits_inside(edits, m.regions[at].start(), m.regions[at].end()));
    assert(m.regions[at].start() <= m.regions[at].end() <= m.bytes.len());
    assert(edits_on_boundaries(edits, m.bytes));
    lemma_regions_grown(m, at, edits);
    lemma_edited_anchors(m, at, edits);
    lemma_region_index(m.regions, m.bytes.len() as int, at);
    if m.edit_rejection(at, edits) is None {
        lemma_edited_in_wf(m, at, edits);
    }
    assert(edited(m.bytes, edits) == splice_bytes(m.bytes, edit.start(), edit.end(), edit.bytes()))
        by {
        reveal_with_fuel(edited, 2);
        assert(edits.drop_last() =~= Seq::empty());
    }
}

/// The text that a change expects is there.
pub open(crate) spec fn change_fits<I>(m: ModelView<I>, id: I, change: ChangeView, undo: bool) -> bool {
    &&& region_index_of(m.regions, id) matches Some(at)
    &&& {
        let region = m.regions[at];
        let start = region.start() + change.start;
        let end = start + change.expected(undo).len();
        &&& region.spec_policy() == EditPolicy::Editable
        &&& end <= region.end()
        &&& at_boundary(m.bytes, start)
        &&& at_boundary(m.bytes, end)
        &&& m.bytes.subrange(start, end) == change.expected(undo)
    }
}

/// Replaying a change is one edit.
pub(crate) proof fn lemma_replay_is<I>(m: ModelView<I>, id: I, change: ChangeView, undo: bool, edit: TextEdit)
    requires
        change_fits(m, id, change, undo),
        ({
            let start = m.regions[region_index_of(m.regions, id)->0].start() + change.start;
            &&& edit.start() == start
            &&& edit.end() == start + change.expected(undo).len()
            &&& edit.bytes() == change.replacement(undo)
        }),
    ensures
        ({
            let at = region_index_of(m.regions, id)->0;
            m.replayed_once(id, change, undo) == (if m.edit_rejection(at, seq![edit]) is None {
                Some(m.edited_in(at, seq![edit]))
            } else {
                None
            })
        }),
{
    reveal(ModelView::replayed_once);
    let at = region_index_of(m.regions, id)->0;
    lemma_text_edit(edit);
    lemma_alike(
        m,
        at,
        seq![edit],
        seq![text_edit(edit.start(), edit.end(), edit.bytes())],
    );
}

pub(crate) proof fn lemma_no_replay<I>(m: ModelView<I>, id: I, change: ChangeView, undo: bool)
    requires
        !change_fits(m, id, change, undo),
    ensures
        m.replayed_once(id, change, undo) is None,
{
    reveal(ModelView::replayed_once);
}

/// Where a change is to be replayed, if the text that it expects is there.
fn find_change<I: Clone + Eq>(model: &DocumentModel<I>, id: &I, change: &UndoChange, undo: bool) -> (place:
    Option<(usize, Range<usize>)>)
    requires
        model.wf(),
    ensures
        match place {
            Some((index, range)) => {
                &&& change_fits(model@, *id, change@, undo)
                &&& region_index_of(model@.regions, *id) == Some(index as int)
                &&& index < model@.regions.len()
                &&& range.start == model@.regions[index as int].start() + change@.start
                &&& range.end == range.start + change@.expected(undo).len()
            },
            None => !change_fits(model@, *id, change@, undo),
        },
{
    let index = match model.region_index(id) {
        Some(index) => index,
        None => {
            return None;
        },
    };
    let region = &model.regions.regions[index];
    if region.policy != EditPolicy::Editable {
        return None;
    }
    let expected = if undo {
        &change.inserted
    } else {
        &change.removed
    };
    let range = region.range();
    assert(model@.regions[index as int].start() <= model@.regions[index as int].end()
        <= model@.bytes.len());
    let expected_len = byte_len(expected);
    if change.range.start > range.end - range.start || expected_len > range.end - range.start
        - change.range.start {
        return None;
    }
    let start = range.start + change.range.start;
    let end = start + expected_len;
    if !valid_source_range(&model.text, &(start..end)) {
        return None;
    }
    let found = model.text.slice(&(start..end));
    if !same_text(found.as_str(), expected.as_str()) {
        return None;
    }
    Some((index, start..end))
}

/// One edit of a node goes to the node.
proof fn lemma_edit_of_node<I>(m: ModelView<I>, transaction: EditTransaction, at: int, edit: TextEdit)
    requires
        m.wf(),
        0 <= at < m.regions.len(),
        m.regions[at].spec_policy() == EditPolicy::Editable,
        m.regions[at].start() <= edit.start() <= edit.end() <= m.regions[at].end(),
        edit_on_boundaries(edit, m.bytes),
        transaction.spec_edits() == seq![edit],
        transaction.spec_revision() == m.revision,
    ensures
        ({
            let id = m.regions[at].spec_id();
            &&& m.routing(transaction, Some(id)) == RoutingOutcome::<I>::Applied <==> m.edit_rejection(
                at,
                seq![edit],
            ) is None
            &&& m.edit_rejection(at, seq![edit]) is None ==> m.routed(transaction, Some(id))
                == m.edited_in(at, seq![edit])
        }),
{
    let id = m.regions[at].spec_id();
    lemma_region_index(m.regions, m.bytes.len() as int, at);
    assert(m.transaction_rejection(transaction) is None);
    assert(m.region_for_edit(edit, Some(id)) == Some(at));
    assert(m.target_region(seq![edit], Some(id)) == Ok::<
        int,
        DocumentEditRejection,
    >(at)) by {
        assert(seq![edit].last() == edit);
    }
}

/// Replays one change. Returns where, if it could be replayed.
fn replay_change<I: Clone + Eq>(
    model: &mut DocumentModel<I>,
    id: &I,
    change: &UndoChange,
    undo: bool,
) -> (start: Option<usize>)
    requires
        old(model).wf(),
        old(model)@.bytes.len() + change@.replacement(undo).len() <= isize::MAX,
    ensures
        match start {
            Some(start) => {
                &&& final(model).wf()
                &&& old(model)@.replayed_once(*id, change@, undo) == Some(final(model)@)
                &&& start == old(model)@.regions[region_index_of(old(model)@.regions, *id)->0].start()
                    + change@.start
                &&& old(model)@.spares(final(model)@)
                &&& final(model)@.next_id == old(model)@.next_id
                &&& final(model)@.bytes.len() <= old(model)@.bytes.len() + change@.replacement(
                    undo,
                ).len()
            },
            None => old(model)@.replayed_once(*id, change@, undo) is None,
        },
{
    let ghost m = model@;
    let (index, range) = match find_change(model, id, change, undo) {
        Some(place) => place,
        None => {
            proof {
                lemma_no_replay(m, *id, change@, undo);
            }
            return None;
        },
    };
    let start = range.start;
    let replacement = if undo {
        &change.removed
    } else {
        &change.inserted
    };
    let len = model.text.len();
    let edit = TextEdit::new(range, replacement.as_str());
    let ghost made = edit;
    let mut edits: Vec<TextEdit> = Vec::new();
    edits.push(edit);
    proof {
        lemma_one_edit(edits@, len);
        assert(edits@ =~= seq![made]);
        lemma_replay_is(m, *id, change@, undo, made);
        lemma_replayed_once(m, index as int, made);
    }
    let origin = if undo {
        EditOrigin::Undo
    } else {
        EditOrigin::Redo
    };
    match EditTransaction::new(model.revision, origin, edits, len) {
        Ok(transaction) => {
            proof {
                lemma_edit_of_node(m, transaction, index as int, made);
            }
            match model.route_and_apply(&transaction, Some(id)) {
                RoutingOutcome::Applied => Some(start),
                _ => None,
            }
        },
        Err(_) => None,
    }
}

/// Another revision keeps a document valid.
proof fn lemma_renumbered<I>(m: ModelView<I>, revision: DocumentRevision)
    requires
        m.wf(),
    ensures
        (ModelView { revision, ..m }).wf(),
        m.spares(ModelView { revision, ..m }),
{
}

/// Replays the changes of a record. Returns the document and the lowest
/// offset that was touched.
fn replay_record<I: Clone + Eq>(start: DocumentModel<I>, record: &UndoRecord<I>, undo: bool) -> (replayed:
    Option<(DocumentModel<I>, usize)>)
    requires
        start.wf(),
        start@.bytes.len() + record@.bytes() <= isize::MAX,
    ensures
        ({
            let n = record@.changes.len() as int;
            let end = start@.replayed(record@.region_id, record@.changes, undo, n);
            match replayed {
                Some((model, first)) => {
                    &&& model.wf()
                    &&& end == Some(model@)
                    &&& first == start@.first_replayed(
                        record@.region_id,
                        record@.changes,
                        undo,
                        n,
                    )
                    &&& start@.spares(model@)
                    &&& model@.next_id == start@.next_id
                },
                None => end is None,
            }
        }),
{
    let ghost m = start@;
    let ghost changes = record@.changes;
    let ghost id = record.region_id;
    let ghost n = changes.len() as int;
    let mut first_changed = start.text.len();
    let mut model = start;
    let count = record.changes.len();
    proof {
        assert(changes.subrange(0, n) =~= changes);
    }
    let mut k: usize = 0;
    while k < count
        invariant
            model.wf(),
            m == start@,
            changes == change_views(record.changes@),
            id == record.region_id,
            n == changes.len(),
            count == n,
            k <= count,
            m.replayed(id, changes, undo, k as int) == Some(model@),
            first_changed == m.first_replayed(id, changes, undo, k as int),
            m.spares(model@),
            model@.next_id == m.next_id,
            model@.bytes.len() + changes_bytes(
                if undo {
                    changes.subrange(0, n - k)
                } else {
                    changes.subrange(k as int, n)
                },
            ) <= isize::MAX,
        decreases count - k,
    {
        let at = if undo {
            count - 1 - k
        } else {
            k
        };
        let change = &record.changes[at];
        assert(change@ == changes[at as int]);
        let ghost before = model@;
        proof {
            lemma_rest_bytes(changes, undo, k as int);
            lemma_failed_replay(m, id, changes, undo, k + 1, n);
            assert(m.replayed(id, changes, undo, k + 1) == before.replayed_once(
                id,
                change@,
                undo,
            ));
        }
        match replay_change(&mut model, &record.region_id, change, undo) {
            None => {
                return None;
            },
            Some(start) => {
                if start < first_changed {
                    first_changed = start;
                }
            },
        }
        proof {
            assert(m.spares(model@)) by {
                assert forall|a: DocumentAnchor| #[trigger] m.holds(a) implies model@.holds(a) by {
                    assert(before.holds(a));
                }
            }
        }
        k += 1;
    }
    Some((model, first_changed))
}

/// Selects what a record remembers, and marks nothing.
fn reselect<I: Clone + Eq>(model: &mut DocumentModel<I>, selection: &SelectedPositions<I>)
    requires
        old(model).wf(),
        old(model)@.has_room(2),
    ensures
        final(model).wf(),
        final(model)@ == old(model)@.reselected(*selection).with_marked(None),
        old(model)@.spares(final(model)@),
{
    let ghost text = model@;
    if let Some((anchor, head)) = selection {
        proof {
            lemma_spares_positions(text, *anchor, *head);
        }
        let _ = model.replace_selection_positions(copy_position(anchor), copy_position(head));
    }
    let ghost chosen = model@;
    unmark(model);
    proof {
        assert forall|a: DocumentAnchor| #[trigger] text.holds(a) implies model@.holds(a) by {
            assert(chosen.holds(a));
        }
    }
}

/// Marks nothing.
fn unmark<I: Clone + Eq>(model: &mut DocumentModel<I>)
    requires
        old(model).wf(),
    ensures
        final(model).wf(),
        final(model)@ == old(model)@.with_marked(None),
        old(model)@.spares(final(model)@),
{
    proof {
        lemma_spares_marked(model@, None);
    }
    model.clear_marked();
}

impl<I: Clone + Eq> DocumentState<I> {
    /// Replays a record. A missing node, changed text or a presentation that
    /// no longer fits rejects the whole record, and nothing changes.
    fn restore_undo_record(&mut self, record: &UndoRecord<I>, undo: bool) -> (restored: bool)
        requires
            old(self).wf(),
            old(self)@.model.has_room(2),
            old(self)@.model.bytes.len() + record@.bytes() <= isize::MAX,
        ensures
            final(self).wf(),
            restored == (old(self)@.replayed_text(record@, undo) is Some),
            final(self)@ == (if restored {
                old(self)@.replayed(record@, undo)
            } else {
                old(self)@
            }),
    {
        let ghost before = self@;
        let ghost m = before.model;
        let copy = self.model.copy();
        let (mut model, first_changed) = match replay_record(copy, record, undo) {
            Some(replayed) => replayed,
            None => {
                return false;
            },
        };
        let ghost text = model@;
        let selection = if undo {
            &record.selection_before
        } else {
            &record.selection_after
        };
        reselect(&mut model, selection);
        model.revision = self.model.revision.next();
        let first_item = self.layout_item_for_source(first_changed);
        self.model = model;
        proof {
            let unmarked = text.reselected(record@.selection(undo)).with_marked(None);
            let after = ModelView { revision: before.model.revision.spec_next(), ..unmarked };
            assert(self@ =~= before.with_model(after));
            lemma_renumbered(unmarked, before.model.revision.spec_next());
            assert forall|a: DocumentAnchor| #[trigger] m.holds(a) implies after.holds(a) by {
                assert(text.holds(a));
                assert(unmarked.holds(a));
            }
            lemma_spared(before, self@);
        }
        self.reconcile_layout_items_from(first_item);
        self.finish_user_edit(
            if undo {
                EditOrigin::Undo
            } else {
                EditOrigin::Redo
            },
        );
        true
    }

    /// Takes the newest edit back.
    #[verifier::spinoff_prover]
    #[verifier::rlimit(30)]
    pub fn undo(&mut self)
        requires
            old(self).wf(),
            old(self)@.model.has_room(2),
            old(self)@.model.bytes.len() + MAX_UNDO_BYTES <= isize::MAX,
        ensures
            final(self).wf(),
            final(self)@ == old(self)@.undone(),
    {
        self.break_coalescing();
        let ghost quiet = self@;
        let record = match self.undo.undo.pop() {
            Some(record) => record,
            None => {
                assert(self@ =~= quiet);
                return;
            },
        };
        assert(record@ == quiet.undo.undo.last());
        assert(record_views(self.undo.undo@) =~= quiet.undo.undo.drop_last());
        assert(self@ =~= (StateView {
            undo: UndoView { undo: quiet.undo.undo.drop_last(), ..quiet.undo },
            ..quiet
        }));
        if self.restore_undo_record(&record, true) {
            let ghost redo = record_views(self.undo.redo@);
            self.undo.redo.push(record);
            assert(record_views(self.undo.redo@) =~= redo.push(record@));
            assert(self@ =~= quiet.undone());
        } else {
            let ghost undo = record_views(self.undo.undo@);
            self.undo.undo.push(record);
            assert(record_views(self.undo.undo@) =~= undo.push(record@));
            assert(undo.push(record@) =~= quiet.undo.undo);
            assert(self@ =~= quiet);
        }
    }

    /// Makes the newest edit that was taken back again.
    #[verifier::spinoff_prover]
    #[verifier::rlimit(30)]
    pub fn redo(&mut self)
        requires
            old(self).wf(),
            old(self)@.model.has_room(2),
            old(self)@.model.bytes.len() + MAX_UNDO_BYTES <= isize::MAX,
        ensures
            final(self).wf(),
            final(self)@ == old(self)@.redone(),
    {
        self.break_coalescing();
        let ghost quiet = self@;
        let record = match self.undo.redo.pop() {
            Some(record) => record,
            None => {
                assert(self@ =~= quiet);
                return;
            },
        };
        assert(record@ == quiet.undo.redo.last());
        assert(record_views(self.undo.redo@) =~= quiet.undo.redo.drop_last());
        assert(self@ =~= (StateView {
            undo: UndoView { redo: quiet.undo.redo.drop_last(), ..quiet.undo },
            ..quiet
        }));
        if self.restore_undo_record(&record, false) {
            let ghost undo = record_views(self.undo.undo@);
            self.undo.undo.push(record);
            assert(record_views(self.undo.undo@) =~= undo.push(record@));
            assert(self@ =~= quiet.redone());
        } else {
            let ghost redo = record_views(self.undo.redo@);
            self.undo.redo.push(record);
            assert(record_views(self.undo.redo@) =~= redo.push(record@));
            assert(redo.push(record@) =~= quiet.undo.redo);
            assert(self@ =~= quiet);
        }
    }
}

/// The bytes of the changes that are still to be replayed.
pub(crate) proof fn lemma_rest_bytes(changes: Seq<ChangeView>, undo: bool, k: int)
    requires
        0 <= k < changes.len(),
    ensures
        ({
            let n = changes.len() as int;
            let rest = if undo {
                changes.subrange(0, n - k)
            } else {
                changes.subrange(k, n)
            };
            let next = if undo {
                changes.subrange(0, n - k - 1)
            } else {
                changes.subrange(k + 1, n)
            };
            let change = changes[if undo {
                n - 1 - k
            } else {
                k
            }];
            changes_bytes(rest) == changes_bytes(next) + change.bytes()
        }),
{
    let n = changes.len() as int;
    if undo {
        assert(changes.subrange(0, n - k).drop_last() =~= changes.subrange(0, n - k - 1));
    } else {
        lemma_changes_bytes_concat(seq![changes[k]], changes.subrange(k + 1, n));
        assert(seq![changes[k]] + changes.subrange(k + 1, n) =~= changes.subrange(k, n));
        assert(seq![changes[k]].drop_last() =~= Seq::empty());
        reveal_with_fuel(changes_bytes, 2);
    }
}

/// A replay that fails once fails.
pub(crate) proof fn lemma_failed_replay<I>(
    m: ModelView<I>,
    id: I,
    changes: Seq<ChangeView>,
    undo: bool,
    k: int,
    n: int,
)
    requires
        0 < k <= n,
    ensures
        m.replayed(id, changes, undo, k) is None ==> m.replayed(id, changes, undo, n) is None,
    decreases n - k,
{
    if k < n {
        lemma_failed_replay(m, id, changes, undo, k + 1, n);
    }
}

} // verus!
