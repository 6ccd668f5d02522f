//! A document that is shown and edited.

use crate::document::anchored_block::{AnchoredBlock, AnchoredBlockError};
use crate::document::block::{BlockError, DocumentBlock};
use crate::document::event::{DocumentEffect, DocumentEvent, DocumentSnapshot};
use crate::document::layout::{layout_views, DocumentLayoutItem, LayoutView};
use crate::document::model::{lemma_resolved, range_ends, DocumentModel};
use crate::document::model_edit::copy_position;
use crate::document::model_view::ModelView;
use crate::document::outcome::{PresentationError, ScrollPinError};
use crate::document::position::{
    Affinity, AnchorBias, DocumentAnchor, DocumentPosition, DocumentRevision, PositionError,
};
use crate::document::projection::{DocumentProjection, ProjectionError};
use crate::document::region::{region_index_of, DocumentRegion, RegionError};
use crate::document::state_view::{
    item_for_source, row_reaches, shared_prefix, shared_suffix, ScrollPin, StateView,
};
use crate::document::style::{no_styles, DocumentStyles};
use crate::document::undo::DocumentUndoManager;
use crate::identity::{copy_id, lawful_id, same_id};
use crate::scan::{first_where, lemma_first_where_is};
use crate::text::{at_boundary, Bias};
use std::ops::Range;
use vstd::prelude::*;
use vstd::string::*;
use vstd::utf8::*;

verus! {

/// A document that is shown and edited: text with regions of different edit
/// policies, a selection, a presentation, rows, undo and scrolling.
///
/// What the view that shows it has to do piles up as effects, in order, until
/// the view takes them.
pub struct DocumentState<I> {
    pub(crate) model: DocumentModel<I>,
    pub(crate) layout_items: Vec<DocumentLayoutItem<I>>,
    pub(crate) undo: DocumentUndoManager<I>,
    pub(crate) pending_viewport_anchor: Option<DocumentAnchor>,
    pub(crate) scroll_pin: Option<ScrollPin<I>>,
    pub(crate) dynamic_trailer: bool,
    pub(crate) caret_reveal_pending: bool,
    pub(crate) has_block_renderer: bool,
    pub(crate) effects: Vec<DocumentEffect<I>>,
}

impl<I> View for DocumentState<I> {
    type V = StateView<I>;

    open(crate) spec fn view(&self) -> StateView<I> {
        StateView {
            model: self.model@,
            items: layout_views(self.layout_items@),
            undo: self.undo@,
            viewport: self.pending_viewport_anchor,
            pin: self.scroll_pin,
            trailer: self.dynamic_trailer,
            reveal: self.caret_reveal_pending,
            renderer: self.has_block_renderer,
            effects: self.effects@,
        }
    }
}

// ---------------------------------------------------------------------------
// Anchors of the view survive changes of the selection
// ---------------------------------------------------------------------------

/// One more anchor leaves the others alone.
pub proof fn lemma_spares_anchor<I>(
    m: ModelView<I>,
    offset: int,
    bias: AnchorBias,
    node: Option<I>,
    affinity: Affinity,
)
    requires
        m.wf(),
        m.has_room(1),
        at_boundary(m.bytes, offset),
    ensures
        m.anchored_at(offset, bias, node, affinity).wf(),
        m.spares(m.anchored_at(offset, bias, node, affinity)),
        m.anchored_at(offset, bias, node, affinity).holds(m.next_anchor()),
        !m.is_live(m.next_anchor()),
{
    let after = m.anchored_at(offset, bias, node, affinity);
    assert(after.anchors_fit());
    assert(m.is_live(m.selection.spec_anchor()) && m.is_live(m.selection.spec_head()));
    if let Some(marked) = m.marked {
        assert(m.is_live(marked.spec_anchor()) && m.is_live(marked.spec_head()));
    }
}

/// Without an anchor that nothing uses a document stays valid.
pub proof fn lemma_spares_removal<I>(m: ModelView<I>, anchor: DocumentAnchor)
    requires
        m.wf(),
        m.holds(anchor),
    ensures
        m.without_anchor(anchor).wf(),
        forall|a: DocumentAnchor|
            #![trigger m.holds(a)]
            #![trigger m.without_anchor(anchor).holds(a)]
            m.holds(a) && a != anchor ==> m.without_anchor(anchor).holds(a),
{
    assert(m.without_anchor(anchor).anchors_fit());
}

/// Selecting positions leaves other anchors alone.
pub proof fn lemma_spares_positions<I>(
    m: ModelView<I>,
    anchor: DocumentPosition<I>,
    head: DocumentPosition<I>,
)
    requires
        m.wf(),
        m.has_room(2),
    ensures
        m.spares(m.with_positions(anchor, head)),
{
    assert forall|a: DocumentAnchor| #[trigger] m.holds(a) implies m.with_positions(
        anchor,
        head,
    ).holds(a) by {
        assert(a.spec_id() < m.next_id);
    }
}

/// Selecting offsets leaves other anchors alone.
pub proof fn lemma_spares_selection<I>(m: ModelView<I>, anchor: int, head: int)
    requires
        m.wf(),
        m.has_room(2),
    ensures
        m.spares(m.with_selection(anchor, head)),
{
    assert forall|a: DocumentAnchor| #[trigger] m.holds(a) implies m.with_selection(
        anchor,
        head,
    ).holds(a) by {
        assert(a.spec_id() < m.next_id);
    }
}

/// Marking a range leaves other anchors alone.
pub proof fn lemma_spares_marked<I>(m: ModelView<I>, range: Option<(int, int)>)
    requires
        m.wf(),
        range is Some ==> m.has_room(2),
    ensures
        m.spares(m.with_marked(range)),
{
    assert forall|a: DocumentAnchor| #[trigger] m.holds(a) implies m.with_marked(range).holds(
        a,
    ) by {
        assert(a.spec_id() < m.next_id);
    }
}

/// A document that spares the anchors of the view keeps the whole valid.
pub proof fn lemma_spared<I>(before: StateView<I>, after: StateView<I>)
    requires
        before.wf(),
        after.model.wf(),
        before.model.spares(after.model),
        after.undo.within_budget(),
        after.pin == before.pin,
        after.viewport == before.viewport,
    ensures
        after.wf(),
{
}

// ---------------------------------------------------------------------------
// The document
// ---------------------------------------------------------------------------

impl<I: Clone + Eq> DocumentState<I> {
    /// The document is valid, and its parts agree.
    pub open(crate) spec fn wf(self) -> bool {
        &&& self.model.fits()
        &&& self@.wf()
    }

    pub fn new(text: &str, regions: Vec<DocumentRegion<I>>) -> (result: Result<Self, RegionError>)
        requires
            lawful_id::<I>(),
            text.spec_bytes().len() <= isize::MAX,
        ensures
            match result {
                Ok(state) => {
                    &&& ModelView::new_fault(text.spec_bytes(), regions@) is None
                    &&& state@ == StateView::initial(text.spec_bytes(), regions@)
                    &&& state.wf()
                },
                Err(error) => ModelView::new_fault(text.spec_bytes(), regions@) == Some(error),
            },
    {
        let model = match DocumentModel::new(text, regions) {
            Ok(model) => model,
            Err(error) => {
                return Err(error);
            },
        };
        let layout_items = model.layout_items();
        let state = DocumentState {
            model,
            layout_items,
            undo: DocumentUndoManager::new(),
            pending_viewport_anchor: None,
            scroll_pin: None,
            dynamic_trailer: false,
            caret_reveal_pending: false,
            has_block_renderer: false,
            effects: Vec::new(),
        };
        assert(state@ =~= StateView::initial(text.spec_bytes(), regions@));
        Ok(state)
    }

    /// Hands over what the view has to do.
    pub fn take_effects(&mut self) -> (effects: Vec<DocumentEffect<I>>)
        requires
            old(self).wf(),
        ensures
            final(self).wf(),
            effects@ == old(self)@.effects,
            final(self)@ == (StateView { effects: Seq::empty(), ..old(self)@ }),
    {
        let mut effects: Vec<DocumentEffect<I>> = Vec::new();
        std::mem::swap(&mut effects, &mut self.effects);
        assert(self@ =~= (StateView { effects: Seq::empty(), ..old(self)@ }));
        effects
    }

    /// Whether there are numbers for more anchors.
    pub fn has_anchor_room(&self, count: u64) -> (room: bool)
        ensures
            room == self@.model.has_room(count as int),
    {
        self.model.anchors.next_id <= u64::MAX - count
    }

    pub(crate) fn effect(&mut self, effect: DocumentEffect<I>)
        requires
            old(self).wf(),
        ensures
            final(self).wf(),
            final(self)@ == old(self)@.with_effect(effect),
    {
        self.effects.push(effect);
        assert(self@ =~= old(self)@.with_effect(effect));
    }

    pub(crate) fn emit(&mut self, event: DocumentEvent<I>)
        requires
            old(self).wf(),
        ensures
            final(self).wf(),
            final(self)@ == old(self)@.emitted(event),
    {
        self.effect(DocumentEffect::Emit(event));
    }

    pub(crate) fn notify(&mut self)
        requires
            old(self).wf(),
        ensures
            final(self).wf(),
            final(self)@ == old(self)@.notified(),
    {
        self.effect(DocumentEffect::Notify);
    }

    /// The document without what shows it.
    pub fn model(&self) -> (model: &DocumentModel<I>)
        ensures
            model@ == self@.model,
            self.wf() ==> model.wf(),
    {
        &self.model
    }

    /// What can be undone and redone.
    pub fn undo_manager(&self) -> (undo: &DocumentUndoManager<I>)
        ensures
            undo@ == self@.undo,
    {
        &self.undo
    }

    pub fn text(&self) -> (text: String)
        ensures
            encode_utf8(text@) == self@.model.bytes,
    {
        self.model.text()
    }

    /// The number of bytes of the text.
    pub fn text_len(&self) -> (len: usize)
        requires
            self.wf(),
        ensures
            len == self@.model.bytes.len(),
    {
        self.model.text.len()
    }

    pub fn display_text(&self) -> (text: &str)
        requires
            self.wf(),
        ensures
            text.spec_bytes() == self@.model.display(),
    {
        self.model.display_text()
    }

    pub fn revision(&self) -> (revision: DocumentRevision)
        ensures
            revision == self@.model.revision,
    {
        self.model.revision
    }

    pub fn regions(&self) -> (regions: &[DocumentRegion<I>])
        ensures
            regions@ == self@.model.regions,
    {
        self.model.regions.as_slice()
    }

    /// The rows of the document.
    pub fn layout_items(&self) -> (items: &[DocumentLayoutItem<I>])
        ensures
            layout_views(items@) == self@.items,
    {
        self.layout_items.as_slice()
    }

    pub fn selected_range(&self) -> (range: Range<usize>)
        requires
            self.wf(),
        ensures
            (range.start as int, range.end as int) == self@.model.selected(),
    {
        self.model.selected_range()
    }

    pub fn region(&self, id: &I) -> (region: Option<&DocumentRegion<I>>)
        requires
            self.wf(),
        ensures
            match region {
                Some(region) => region_index_of(self@.model.regions, *id) matches Some(at)
                    && *region == self@.model.regions[at],
                None => region_index_of(self@.model.regions, *id) is None,
            },
    {
        match self.model.region_index(id) {
            Some(index) => Some(&self.model.regions.regions[index]),
            None => None,
        }
    }

    pub fn region_text(&self, id: &I) -> (text: Option<String>)
        requires
            self.wf(),
        ensures
            match text {
                Some(text) => region_index_of(self@.model.regions, *id) matches Some(at)
                    && encode_utf8(text@) == self@.model.bytes.subrange(
                    self@.model.regions[at].start(),
                    self@.model.regions[at].end(),
                ),
                None => region_index_of(self@.model.regions, *id) is None,
            },
    {
        match self.model.region_index(id) {
            Some(index) => {
                let range = self.model.regions.regions[index].range();
                proof {
                    let m = self@.model;
                    assert(m.regions[index as int].start() <= m.regions[index as int].end()
                        <= m.bytes.len());
                    assert(at_boundary(m.bytes, m.regions[index as int].start()));
                }
                Some(self.model.text.slice(&range))
            },
            None => None,
        }
    }

    pub fn selected_positions(&self) -> (positions: Result<
        (DocumentPosition<I>, DocumentPosition<I>),
        PositionError,
    >)
        requires
            self.wf(),
        ensures
            positions == self@.model.selected_positions(),
    {
        let anchor = match self.model.position_for_anchor(self.model.selection.anchor) {
            Ok(position) => position,
            Err(error) => {
                return Err(error);
            },
        };
        match self.model.position_for_anchor(self.model.selection.head) {
            Ok(head) => Ok((anchor, head)),
            Err(error) => Err(error),
        }
    }

    pub fn position_for_offset(&self, offset: usize, affinity: Affinity) -> (position: Result<
        DocumentPosition<I>,
        PositionError,
    >)
        requires
            self.wf(),
        ensures
            position == self@.model.position_for_offset(offset as int, affinity),
    {
        self.model.position_for_offset(offset, affinity)
    }

    pub fn resolve_position(&self, position: &DocumentPosition<I>) -> (offset: Result<
        usize,
        PositionError,
    >)
        requires
            self.wf(),
        ensures
            offset == self@.model.resolve_position(*position),
    {
        self.model.resolve_position(position)
    }

    // -----------------------------------------------------------------------
    // Rows
    // -----------------------------------------------------------------------

    /// The first row that reaches a source offset.
    pub fn layout_item_for_source(&self, source: usize) -> (index: usize)
        ensures
            index == item_for_source(self@.items, source as int),
            index <= self@.items.len(),
    {
        let ghost items = self@.items;
        let ghost test = row_reaches::<I>(source as int);
        let mut i: usize = 0;
        while i < self.layout_items.len()
            invariant
                i <= items.len(),
                items == layout_views(self.layout_items@),
                test == row_reaches::<I>(source as int),
                forall|k: int| 0 <= k < i ==> !(#[trigger] test(items[k])),
            decreases items.len() - i,
        {
            let reaches = match &self.layout_items[i] {
                DocumentLayoutItem::Text { source: text, .. } => source <= text.end,
                DocumentLayoutItem::Block { source: block, .. } => source <= block.end,
                DocumentLayoutItem::AnchoredBlock { source: at, .. } => source <= *at,
                DocumentLayoutItem::Trailer => true,
            };
            assert(reaches == test(items[i as int]));
            if reaches {
                proof {
                    lemma_first_where_is(items, test, 0, i as int);
                }
                return i;
            }
            i += 1;
        }
        proof {
            lemma_first_where_is(items, test, 0, items.len() as int);
        }
        self.layout_items.len()
    }

    fn next_layout_items(&self) -> (items: Vec<DocumentLayoutItem<I>>)
        requires
            self.wf(),
        ensures
            layout_views(items@) == self@.next_items(),
    {
        let mut items = self.model.layout_items();
        if self.dynamic_trailer {
            let ghost before = layout_views(items@);
            items.push(DocumentLayoutItem::Trailer);
            assert(layout_views(items@) =~= before.push(LayoutView::Trailer));
        }
        items
    }

    pub(crate) fn reconcile_layout_items_from(&mut self, first_changed_item: usize)
        requires
            old(self).wf(),
        ensures
            final(self).wf(),
            final(self)@ == old(self)@.reconciled(first_changed_item as int),
    {
        let next = self.next_layout_items();
        let ghost before = self@;
        let ghost old_views = layout_views(self.layout_items@);
        let ghost new_views = layout_views(next@);
        let mut prefix: usize = 0;
        while prefix < first_changed_item && prefix < self.layout_items.len() && prefix
            < next.len() && self.layout_items[prefix].same_layout_identity(&next[prefix])
            invariant
                self.wf(),
                old_views == layout_views(self.layout_items@),
                new_views == layout_views(next@),
                prefix <= old_views.len(),
                prefix <= new_views.len(),
                shared_prefix(old_views, new_views, 0, first_changed_item as int)
                    == shared_prefix(
                    old_views,
                    new_views,
                    prefix as int,
                    first_changed_item as int,
                ),
            decreases first_changed_item - prefix,
        {
            assert(old_views[prefix as int].same_identity(new_views[prefix as int]));
            prefix += 1;
        }
        assert(shared_prefix(old_views, new_views, 0, first_changed_item as int) == prefix);
        let mut suffix: usize = 0;
        while suffix < self.layout_items.len() - prefix && suffix < next.len() - prefix
            && self.layout_items[self.layout_items.len() - 1 - suffix].same_layout_identity(
            &next[next.len() - 1 - suffix],
        )
            invariant
                self.wf(),
                old_views == layout_views(self.layout_items@),
                new_views == layout_views(next@),
                prefix <= old_views.len(),
                prefix <= new_views.len(),
                suffix <= old_views.len() - prefix,
                suffix <= new_views.len() - prefix,
                shared_suffix(old_views, new_views, 0, prefix as int) == shared_suffix(
                    old_views,
                    new_views,
                    suffix as int,
                    prefix as int,
                ),
            decreases old_views.len() - suffix,
        {
            suffix += 1;
        }
        assert(shared_suffix(old_views, new_views, 0, prefix as int) == suffix);
        let old_end = self.layout_items.len() - suffix;
        let count = next.len() - prefix - suffix;
        if prefix != old_end || count != 0 {
            self.effects.push(DocumentEffect::SpliceItems { from: prefix, to: old_end, count });
        }
        self.layout_items = next;
        assert(self@ =~= before.reconciled(first_changed_item as int));
    }

    // -----------------------------------------------------------------------
    // Presentation
    // -----------------------------------------------------------------------

    pub fn set_projection(&mut self, projection: DocumentProjection) -> (result: Result<
        (),
        ProjectionError,
    >)
        requires
            old(self).wf(),
            projection@.valid(),
        ensures
            final(self).wf(),
            match result {
                Ok(()) => {
                    &&& old(self)@.model.set_projection_fault(projection@) is None
                    &&& final(self)@ == old(self)@.with_projection(projection@)
                },
                Err(error) => {
                    &&& old(self)@.model.set_projection_fault(projection@) == Some(error)
                    &&& final(self)@ == old(self)@
                },
            },
    {
        match self.model.set_projection(projection) {
            Ok(()) => {},
            Err(error) => {
                assert(self@ =~= old(self)@);
                return Err(error);
            },
        }
        proof {
            assert(self@ =~= old(self)@.with_model(
                old(self)@.model.with_projection(projection@),
            ));
            lemma_same_anchors(old(self)@, self@);
        }
        self.reconcile_layout_items_from(0);
        self.emit(DocumentEvent::ProjectionChanged);
        self.notify();
        Ok(())
    }

    /// A renderer for blocks is there. Rows are to be measured again.
    pub fn set_block_renderer(&mut self)
        requires
            old(self).wf(),
        ensures
            final(self).wf(),
            final(self)@ == (StateView { renderer: true, ..old(self)@ }).remeasured(),
    {
        self.has_block_renderer = true;
        self.effect(DocumentEffect::RemeasureItems { from: 0, to: self.layout_items.len() });
        self.notify();
        assert(self@ =~= (StateView { renderer: true, ..old(self)@ }).remeasured());
    }

    /// A renderer for text is there. Rows are to be measured again.
    pub fn set_text_renderer(&mut self)
        requires
            old(self).wf(),
        ensures
            final(self).wf(),
            final(self)@ == old(self)@.remeasured(),
    {
        self.effect(DocumentEffect::RemeasureItems { from: 0, to: self.layout_items.len() });
        self.notify();
    }

    /// Whether blocks can be rendered.
    fn check_renderer(
        &self,
        blocks: &Vec<DocumentBlock<I>>,
        anchored_blocks: &Vec<AnchoredBlock<I>>,
    ) -> (result: Result<(), PresentationError>)
        ensures
            match result {
                Ok(()) => self@.renderer_fault(blocks@, anchored_blocks@) is None,
                Err(error) => self@.renderer_fault(blocks@, anchored_blocks@) == Some(error),
            },
    {
        if self.has_block_renderer {
            Ok(())
        } else if blocks.len() > 0 {
            Err(PresentationError::Blocks(BlockError::MissingRenderer))
        } else if anchored_blocks.len() > 0 {
            Err(
                PresentationError::AnchoredBlocks(
                    AnchoredBlockError::MissingRenderer,
                ),
            )
        } else {
            Ok(())
        }
    }

    /// Replaces the whole document, or nothing.
    pub fn reset(&mut self, snapshot: DocumentSnapshot<I>) -> (result: Result<
        (),
        PresentationError,
    >)
        requires
            old(self).wf(),
            snapshot@.text.len() <= isize::MAX,
            snapshot@.projection.valid(),
        ensures
            final(self).wf(),
            match result {
                Ok(()) => {
                    &&& old(self)@.reset_fault(snapshot@) is None
                    &&& final(self)@ == old(self)@.was_reset(snapshot@)
                },
                Err(error) => {
                    &&& old(self)@.reset_fault(snapshot@) == Some(error)
                    &&& final(self)@ == old(self)@
                },
            },
    {
        let ghost given = snapshot@;
        let ghost before = self@;
        match self.check_renderer(&snapshot.blocks, &snapshot.anchored_blocks) {
            Ok(()) => {},
            Err(error) => {
                return Err(error);
            },
        }
        let mut model = match DocumentModel::new(snapshot.text.as_str(), snapshot.regions) {
            Ok(model) => model,
            Err(error) => {
                return Err(PresentationError::Regions(error));
            },
        };
        match model.set_rich_presentation_with_anchors(
            snapshot.projection,
            snapshot.blocks,
            snapshot.anchored_blocks,
            snapshot.styles,
        ) {
            Ok(()) => {},
            Err(error) => {
                return Err(error);
            },
        }
        if let Some(position) = snapshot.selection {
            let other = copy_position(&position);
            match model.replace_selection_positions(other, position) {
                Ok(()) => {},
                Err(error) => {
                    return Err(PresentationError::Position(error));
                },
            }
        }
        assert(model@ == StateView::snapshot_model(given));
        model.revision = self.model.revision.next();
        self.model = model;
        self.undo = DocumentUndoManager::new();
        self.pending_viewport_anchor = None;
        self.scroll_pin = None;
        self.caret_reveal_pending = false;
        self.layout_items = self.next_layout_items();
        let ghost placed = self@;
        self.effect(DocumentEffect::StopAutoScroll);
        self.effect(DocumentEffect::ForgetColumn);
        self.effect(DocumentEffect::ResetItems(self.layout_items.len()));
        self.emit(DocumentEvent::PresentationChanged);
        self.emit(DocumentEvent::SelectionChanged);
        self.notify();
        assert(self@ =~= before.was_reset(given));
        Ok(())
    }

    pub fn set_presentation(
        &mut self,
        projection: DocumentProjection,
        blocks: Vec<DocumentBlock<I>>,
    ) -> (result: Result<(), PresentationError>)
        requires
            old(self).wf(),
            projection@.valid(),
        ensures
            final(self).wf(),
            match result {
                Ok(()) => {
                    &&& old(self)@.presentation_fault(
                        projection@,
                        blocks@,
                        Seq::empty(),
                        no_styles(),
                    ) is None
                    &&& final(self)@ == old(self)@.presented(
                        projection@,
                        blocks@,
                        Seq::empty(),
                        no_styles(),
                    )
                },
                Err(error) => {
                    &&& old(self)@.presentation_fault(
                        projection@,
                        blocks@,
                        Seq::empty(),
                        no_styles(),
                    ) == Some(error)
                    &&& final(self)@ == old(self)@
                },
            },
    {
        self.set_rich_presentation(projection, blocks, DocumentStyles::none())
    }

    pub fn set_rich_presentation(
        &mut self,
        projection: DocumentProjection,
        blocks: Vec<DocumentBlock<I>>,
        styles: DocumentStyles,
    ) -> (result: Result<(), PresentationError>)
        requires
            old(self).wf(),
            projection@.valid(),
        ensures
            final(self).wf(),
            match result {
                Ok(()) => {
                    &&& old(self)@.presentation_fault(
                        projection@,
                        blocks@,
                        Seq::empty(),
                        styles@,
                    ) is None
                    &&& final(self)@ == old(self)@.presented(
                        projection@,
                        blocks@,
                        Seq::empty(),
                        styles@,
                    )
                },
                Err(error) => {
                    &&& old(self)@.presentation_fault(
                        projection@,
                        blocks@,
                        Seq::empty(),
                        styles@,
                    ) == Some(error)
                    &&& final(self)@ == old(self)@
                },
            },
    {
        self.set_rich_presentation_with_anchors(projection, blocks, Vec::new(), styles)
    }

    /// Replaces the whole presentation, or nothing.
    pub fn set_rich_presentation_with_anchors(
        &mut self,
        projection: DocumentProjection,
        blocks: Vec<DocumentBlock<I>>,
        anchored_blocks: Vec<AnchoredBlock<I>>,
        styles: DocumentStyles,
    ) -> (result: Result<(), PresentationError>)
        requires
            old(self).wf(),
            projection@.valid(),
        ensures
            final(self).wf(),
            match result {
                Ok(()) => {
                    &&& old(self)@.presentation_fault(
                        projection@,
                        blocks@,
                        anchored_blocks@,
                        styles@,
                    ) is None
                    &&& final(self)@ == old(self)@.presented(
                        projection@,
                        blocks@,
                        anchored_blocks@,
                        styles@,
                    )
                },
                Err(error) => {
                    &&& old(self)@.presentation_fault(
                        projection@,
                        blocks@,
                        anchored_blocks@,
                        styles@,
                    ) == Some(error)
                    &&& final(self)@ == old(self)@
                },
            },
    {
        let ghost shown = old(self)@.model.presented(
            projection@,
            blocks@,
            anchored_blocks@,
            styles@,
        );
        match self.check_renderer(&blocks, &anchored_blocks) {
            Ok(()) => {},
            Err(error) => {
                return Err(error);
            },
        }
        match self.model.set_rich_presentation_with_anchors(
            projection,
            blocks,
            anchored_blocks,
            styles,
        ) {
            Ok(()) => {},
            Err(error) => {
                assert(self@ =~= old(self)@);
                return Err(error);
            },
        }
        proof {
            assert(self@ =~= old(self)@.with_model(shown));
            lemma_same_anchors(old(self)@, self@);
        }
        self.reconcile_layout_items_from(0);
        self.emit(DocumentEvent::PresentationChanged);
        self.notify();
        Ok(())
    }

    pub fn set_dynamic_trailer(&mut self, enabled: bool)
        requires
            old(self).wf(),
        ensures
            final(self).wf(),
            final(self)@ == old(self)@.with_trailer(enabled),
    {
        if self.dynamic_trailer == enabled {
            return;
        }
        self.dynamic_trailer = enabled;
        assert(self@ =~= (StateView { trailer: enabled, ..old(self)@ }));
        if !enabled {
            self.effect(DocumentEffect::ForgetTrailer);
        }
        self.reconcile_layout_items_from(0);
        self.notify();
    }

    pub fn has_dynamic_trailer(&self) -> (enabled: bool)
        ensures
            enabled == self@.trailer,
    {
        self.dynamic_trailer
    }

    // -----------------------------------------------------------------------
    // Scrolling
    // -----------------------------------------------------------------------

    /// Forgets the anchor of a scroll pin.
    fn drop_pin(&mut self)
        requires
            old(self).wf(),
        ensures
            final(self).wf(),
            final(self)@ == old(self)@.without_pin(),
    {
        let anchor = match &self.scroll_pin {
            Some(pin) => Some(pin.anchor),
            None => None,
        };
        if let Some(anchor) = anchor {
            proof {
                lemma_spares_removal(self@.model, anchor);
            }
            self.scroll_pin = None;
            self.model.anchors.remove(anchor);
        }
        assert(self@ =~= old(self)@.without_pin());
    }

    pub(crate) fn clear_pending_viewport_anchor(&mut self)
        requires
            old(self).wf(),
        ensures
            final(self).wf(),
            final(self)@ == old(self)@.without_viewport(),
    {
        if let Some(anchor) = self.pending_viewport_anchor {
            proof {
                lemma_spares_removal(self@.model, anchor);
            }
            self.pending_viewport_anchor = None;
            self.model.anchors.remove(anchor);
        }
        assert(self@ =~= old(self)@.without_viewport());
    }

    pub(crate) fn stop_following(&mut self)
        requires
            old(self).wf(),
        ensures
            final(self).wf(),
            final(self)@ == old(self)@.unfollowed(),
    {
        let pin_id = match &self.scroll_pin {
            Some(pin) => copy_id(&pin.id),
            None => {
                return;
            },
        };
        self.drop_pin();
        self.emit(DocumentEvent::StopFollowingRequested { pin_id });
        self.notify();
    }

    pub(crate) fn request_caret_reveal(&mut self)
        requires
            old(self).wf(),
        ensures
            final(self).wf(),
            final(self)@ == old(self)@.revealing(),
    {
        self.stop_following();
        self.clear_pending_viewport_anchor();
        self.caret_reveal_pending = true;
        self.notify();
        assert(self@ =~= old(self)@.revealing());
    }

    /// Keeps a position at a fraction of the viewport. The fraction is given
    /// by the bits of a floating-point number.
    pub fn pin_scroll(
        &mut self,
        pin_id: I,
        position: &DocumentPosition<I>,
        viewport_fraction: u32,
    ) -> (result: Result<(), ScrollPinError>)
        requires
            old(self).wf(),
            old(self)@.model.has_room(1),
        ensures
            final(self).wf(),
            match result {
                Ok(()) => {
                    &&& old(self)@.pin_fault(*position, viewport_fraction) is None
                    &&& final(self)@ == old(self)@.pinned(pin_id, *position, viewport_fraction)
                },
                Err(error) => {
                    &&& old(self)@.pin_fault(*position, viewport_fraction) == Some(error)
                    &&& final(self)@ == old(self)@
                },
            },
    {
        let ghost before = self@;
        if !(viewport_fraction <= 0x3f80_0000 || viewport_fraction == 0x8000_0000) {
            return Err(ScrollPinError::InvalidViewportFraction);
        }
        let offset = match self.resolve_position(position) {
            Ok(offset) => offset,
            Err(error) => {
                return Err(ScrollPinError::InvalidPosition(error));
            },
        };
        proof {
            lemma_resolved(before.model, *position);
        }
        self.drop_pin();
        let ghost free = self@;
        let bias = if position.affinity == Affinity::Before {
            AnchorBias::Left
        } else {
            AnchorBias::Right
        };
        proof {
            lemma_spares_anchor(
                free.model,
                offset as int,
                bias,
                Some(position.node_id),
                position.affinity,
            );
        }
        let anchor = self.model.create_anchor(
            offset,
            bias,
            Some(copy_id(&position.node_id)),
            position.affinity,
        );
        self.scroll_pin = Some(
            ScrollPin { id: pin_id, anchor, affinity: position.affinity, viewport_fraction },
        );
        self.caret_reveal_pending = false;
        assert(self.wf());
        self.clear_pending_viewport_anchor();
        self.notify();
        assert(self@ =~= before.pinned(pin_id, *position, viewport_fraction));
        Ok(())
    }

    pub fn pinned_scroll_id(&self) -> (id: Option<&I>)
        ensures
            match id {
                Some(id) => self@.pin matches Some(pin) && *id == pin.spec_id(),
                None => self@.pin is None,
            },
    {
        match &self.scroll_pin {
            Some(pin) => Some(&pin.id),
            None => None,
        }
    }

    pub fn unpin_scroll(&mut self, pin_id: &I) -> (unpinned: bool)
        requires
            old(self).wf(),
        ensures
            final(self).wf(),
            unpinned == (old(self)@.pin matches Some(pin) && pin.spec_id() == *pin_id),
            final(self)@ == old(self)@.unpinned(*pin_id),
    {
        match &self.scroll_pin {
            Some(pin) => {
                if !same_id(&pin.id, pin_id) {
                    return false;
                }
            },
            None => {
                return false;
            },
        }
        self.drop_pin();
        self.notify();
        true
    }

    pub fn reveal_position(&mut self, position: &DocumentPosition<I>) -> (result: Result<
        (),
        PositionError,
    >)
        requires
            old(self).wf(),
        ensures
            final(self).wf(),
            match result {
                Ok(()) => {
                    &&& old(self)@.model.resolve_position(*position) is Ok
                    &&& final(self)@ == old(self)@.revealed(*position)
                },
                Err(error) => {
                    &&& old(self)@.model.resolve_position(*position) == Err::<usize, PositionError>(
                        error,
                    )
                    &&& final(self)@ == old(self)@
                },
            },
    {
        let offset = match self.resolve_position(position) {
            Ok(offset) => offset,
            Err(error) => {
                return Err(error);
            },
        };
        self.stop_following();
        let item = self.layout_item_for_source(offset);
        self.effect(DocumentEffect::RevealItem(item));
        self.notify();
        Ok(())
    }

    pub fn reveal_caret(&mut self)
        requires
            old(self).wf(),
        ensures
            final(self).wf(),
            final(self)@ == old(self)@.revealing(),
    {
        self.request_caret_reveal();
    }

    /// The user has scrolled.
    pub fn scrolled(&mut self)
        requires
            old(self).wf(),
        ensures
            final(self).wf(),
            final(self)@ == old(self)@.scrolled(),
    {
        self.caret_reveal_pending = false;
        assert(self@ =~= (StateView { reveal: false, ..old(self)@ }));
        self.stop_following();
    }

    /// The user has moved the scrollbar.
    pub fn apply_scrollbar_input(&mut self)
        requires
            old(self).wf(),
        ensures
            final(self).wf(),
            final(self)@ == old(self)@.scrolled_by_bar(),
    {
        self.caret_reveal_pending = false;
        assert(self@ =~= (StateView { reveal: false, ..old(self)@ }));
        self.clear_pending_viewport_anchor();
        self.stop_following();
    }

    /// Keeps the place at the top of the viewport, unless something else
    /// decides where the viewport is.
    pub fn capture_viewport_anchor(&mut self, top: Option<&DocumentPosition<I>>)
        requires
            old(self).wf(),
            old(self)@.model.has_room(1),
        ensures
            final(self).wf(),
            final(self)@ == old(self)@.keeping_viewport(position_of(top)),
    {
        if self.pending_viewport_anchor.is_some() || self.scroll_pin.is_some()
            || self.caret_reveal_pending {
            return;
        }
        if let Some(position) = top {
            if let Ok(offset) = self.resolve_position(position) {
                proof {
                    lemma_resolved(self@.model, *position);
                    lemma_spares_anchor(
                        self@.model,
                        offset as int,
                        AnchorBias::Right,
                        Some(position.node_id),
                        position.affinity,
                    );
                }
                let anchor = self.model.create_anchor(
                    offset,
                    AnchorBias::Right,
                    Some(copy_id(&position.node_id)),
                    position.affinity,
                );
                self.pending_viewport_anchor = Some(anchor);
            }
        }
        assert(self@ =~= old(self)@.keeping_viewport(position_of(top)));
    }

    /// A block has changed its height.
    pub fn remeasure_block(&mut self, id: &I, top: Option<&DocumentPosition<I>>) -> (found: bool)
        requires
            old(self).wf(),
            old(self)@.model.has_room(1),
        ensures
            final(self).wf(),
            ({
                let at = block_row(old(self)@.items, *id);
                &&& found == (at < old(self)@.items.len())
                &&& final(self)@ == (if found {
                    old(self)@.keeping_viewport(position_of(top)).with_effect(
                        DocumentEffect::RemeasureItems { from: at as usize, to: (at + 1) as usize },
                    ).notified()
                } else {
                    old(self)@
                })
            }),
    {
        let ghost items = self@.items;
        let ghost test = is_block_of::<I>(*id);
        let mut i: usize = 0;
        while i < self.layout_items.len()
            invariant
                self.wf(),
                *self == *old(self),
                i <= items.len(),
                items == layout_views(self.layout_items@),
                test == is_block_of::<I>(*id),
                forall|k: int| 0 <= k < i ==> !(#[trigger] test(items[k])),
                old(self)@.model.has_room(1),
            decreases items.len() - i,
        {
            let hit = match &self.layout_items[i] {
                DocumentLayoutItem::Block { id: block_id, .. } => same_id(block_id, id),
                _ => false,
            };
            assert(hit == test(items[i as int]));
            if hit {
                proof {
                    lemma_first_where_is(items, test, 0, i as int);
                }
                self.capture_viewport_anchor(top);
                self.effect(DocumentEffect::RemeasureItems { from: i, to: i + 1 });
                self.notify();
                return true;
            }
            i += 1;
        }
        proof {
            lemma_first_where_is(items, test, 0, items.len() as int);
        }
        false
    }

    // -----------------------------------------------------------------------
    // Selection
    // -----------------------------------------------------------------------

    /// Selects node-relative positions without losing ownership at a shared
    /// boundary.
    pub fn set_selection_positions(
        &mut self,
        anchor: DocumentPosition<I>,
        head: DocumentPosition<I>,
    ) -> (result: Result<(), PositionError>)
        requires
            old(self).wf(),
            old(self)@.model.has_room(2),
        ensures
            final(self).wf(),
            match result {
                Ok(()) => {
                    &&& old(self)@.model.positions_fault(anchor, head) is None
                    &&& final(self)@ == old(self)@.with_model(
                        old(self)@.model.with_positions(anchor, head),
                    ).broken().with_effect(DocumentEffect::ForgetColumn).with_effect(
                        DocumentEffect::StopAutoScroll,
                    ).selection_told()
                },
                Err(error) => {
                    &&& old(self)@.model.positions_fault(anchor, head) == Some(error)
                    &&& final(self)@ == old(self)@
                },
            },
    {
        match self.select_positions(anchor, head) {
            Ok(()) => {},
            Err(error) => {
                return Err(error);
            },
        }
        self.break_coalescing();
        self.effect(DocumentEffect::ForgetColumn);
        self.effect(DocumentEffect::StopAutoScroll);
        self.emit(DocumentEvent::SelectionChanged);
        self.notify();
        Ok(())
    }

    /// Selects positions in the document.
    pub(crate) fn select_positions(
        &mut self,
        anchor: DocumentPosition<I>,
        head: DocumentPosition<I>,
    ) -> (result: Result<(), PositionError>)
        requires
            old(self).wf(),
            old(self)@.model.has_room(2),
        ensures
            final(self).wf(),
            match result {
                Ok(()) => {
                    &&& old(self)@.model.positions_fault(anchor, head) is None
                    &&& final(self)@ == old(self)@.with_model(
                        old(self)@.model.with_positions(anchor, head),
                    )
                },
                Err(error) => {
                    &&& old(self)@.model.positions_fault(anchor, head) == Some(error)
                    &&& final(self)@ == old(self)@
                },
            },
    {
        proof {
            lemma_spares_positions(self@.model, anchor, head);
        }
        let result = self.model.replace_selection_positions(anchor, head);
        proof {
            if result is Ok {
                assert(self@ =~= old(self)@.with_model(
                    old(self)@.model.with_positions(anchor, head),
                ));
                lemma_spared(old(self)@, self@);
            } else {
                assert(self@ =~= old(self)@);
            }
        }
        result
    }

    /// Selects offsets in the document.
    pub(crate) fn select_offsets(&mut self, anchor: usize, head: usize)
        requires
            old(self).wf(),
            old(self)@.model.has_room(2),
            at_boundary(old(self)@.model.bytes, anchor as int),
            at_boundary(old(self)@.model.bytes, head as int),
        ensures
            final(self).wf(),
            final(self)@ == old(self)@.with_model(
                old(self)@.model.with_selection(anchor as int, head as int),
            ),
    {
        proof {
            lemma_spares_selection(self@.model, anchor as int, head as int);
        }
        self.model.replace_selection(anchor, head);
        proof {
            assert(self@ =~= old(self)@.with_model(
                old(self)@.model.with_selection(anchor as int, head as int),
            ));
            lemma_spared(old(self)@, self@);
        }
    }

    /// Marks a range of the document.
    pub(crate) fn mark_range(&mut self, range: Option<Range<usize>>)
        requires
            old(self).wf(),
            old(self)@.model.has_room(2),
            range matches Some(range) ==> at_boundary(old(self)@.model.bytes, range.start as int)
                && at_boundary(old(self)@.model.bytes, range.end as int),
        ensures
            final(self).wf(),
            final(self)@ == old(self)@.with_model(
                old(self)@.model.with_marked(range_ends(range)),
            ),
    {
        proof {
            lemma_spares_marked(self@.model, range_ends(range));
        }
        self.model.set_marked_range(range);
        proof {
            assert(self@ =~= old(self)@.with_model(
                old(self)@.model.with_marked(range_ends(range)),
            ));
            lemma_spared(old(self)@, self@);
        }
    }

    pub(crate) fn break_coalescing(&mut self)
        requires
            old(self).wf(),
        ensures
            final(self).wf(),
            final(self)@ == old(self)@.broken(),
    {
        self.undo.break_coalescing();
        assert(self@ =~= old(self)@.broken());
    }

    /// Selects a range of the source, moved to character boundaries.
    pub fn set_selection(&mut self, range: Range<usize>, reversed: bool)
        requires
            old(self).wf(),
            old(self)@.model.has_room(2),
        ensures
            final(self).wf(),
            final(self)@ == old(self)@.range_selected(
                range.start as int,
                range.end as int,
                reversed,
            ),
    {
        self.break_coalescing();
        self.effect(DocumentEffect::ForgetColumn);
        self.effect(DocumentEffect::StopAutoScroll);
        let start = self.model.text.clip_offset(range.start, Bias::Left);
        let end = self.model.text.clip_offset(range.end, Bias::Right);
        if reversed {
            self.select_offsets(end, start);
        } else {
            self.select_offsets(start, end);
        }
        self.emit(DocumentEvent::SelectionChanged);
        self.notify();
    }
}

/// Another document with the same anchors and selection keeps the whole valid.
pub(crate) proof fn lemma_same_anchors<I>(before: StateView<I>, after: StateView<I>)
    requires
        before.wf(),
        after.model.wf(),
        after.model.anchors.dom() == before.model.anchors.dom(),
        after.model.selection == before.model.selection,
        after.model.marked == before.model.marked,
        after.undo.within_budget(),
        after.pin == before.pin,
        after.viewport == before.viewport,
    ensures
        after.wf(),
{
}

/// A position behind a reference.
pub open spec fn position_of<I>(position: Option<&DocumentPosition<I>>) -> Option<
    DocumentPosition<I>,
> {
    match position {
        Some(position) => Some(*position),
        None => None,
    }
}

/// The row of the block with an id.
pub open spec fn is_block_of<I>(id: I) -> spec_fn(LayoutView<I>) -> bool {
    |item: LayoutView<I>| item matches LayoutView::Block { id: block_id, .. } && block_id == id
}

/// The first row of a block, or the number of rows.
pub open spec fn block_row<I>(items: Seq<LayoutView<I>>, id: I) -> int {
    first_where(items, is_block_of(id), 0)
}

} // verus!
