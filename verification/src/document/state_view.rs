//! The mathematical model of a document that is shown and edited.

use crate::document::anchored_block::{AnchoredBlock, AnchoredBlockError};
use crate::document::block::{BlockError, DocumentBlock};
use crate::document::event::{DocumentEffect, DocumentEvent, SnapshotView};
use crate::document::layout::LayoutView;
use crate::document::model_view::ModelView;
use crate::document::outcome::{DocumentEditRejection, PresentationError, ScrollPinError};
use crate::document::position::{
    Affinity, AnchorBias, DocumentAnchor, DocumentPosition, PositionError,
};
use crate::document::projection::ProjectionView;
use crate::document::region::DocumentRegion;
use crate::document::style::StylesView;
use crate::document::transaction::TextEdit;
use crate::document::undo::UndoView;
use crate::scan::first_where;
use vstd::prelude::*;

verus! {

/// A place in the text that scrolling follows, and where in the viewport it
/// is kept. The fraction of the viewport is held by its bits.
#[derive(Debug)]
pub struct ScrollPin<I> {
    pub(crate) id: I,
    pub(crate) anchor: DocumentAnchor,
    pub(crate) affinity: Affinity,
    pub(crate) viewport_fraction: u32,
}

impl<I> ScrollPin<I> {
    pub open(crate) spec fn of(
        id: I,
        anchor: DocumentAnchor,
        affinity: Affinity,
        viewport_fraction: u32,
    ) -> ScrollPin<I> {
        ScrollPin { id, anchor, affinity, viewport_fraction }
    }

    pub open(crate) spec fn spec_id(self) -> I {
        self.id
    }

    pub open(crate) spec fn spec_anchor(self) -> DocumentAnchor {
        self.anchor
    }

    pub open(crate) spec fn spec_affinity(self) -> Affinity {
        self.affinity
    }

    pub open(crate) spec fn spec_fraction(self) -> u32 {
        self.viewport_fraction
    }
}

/// The bits of a number between 0 and 1: zero of either sign, or positive
/// bits up to those of 1.
pub open spec fn is_fraction(bits: u32) -> bool {
    bits <= 0x3f80_0000 || bits == 0x8000_0000
}

/// Everything that a document on a screen is.
#[verifier::ext_equal]
pub struct StateView<I> {
    pub model: ModelView<I>,
    pub items: Seq<LayoutView<I>>,
    pub undo: UndoView<I>,
    pub viewport: Option<DocumentAnchor>,
    pub pin: Option<ScrollPin<I>>,
    pub trailer: bool,
    pub reveal: bool,
    pub renderer: bool,
    pub effects: Seq<DocumentEffect<I>>,
}

impl<I> ModelView<I> {
    /// The selection or the marked range uses an anchor.
    pub open spec fn uses(self, anchor: DocumentAnchor) -> bool {
        ||| Self::selects(self.selection, anchor)
        ||| self.marked matches Some(marked) && Self::selects(marked, anchor)
    }

    /// An anchor is live and free of the selection and the marked range.
    pub open spec fn holds(self, anchor: DocumentAnchor) -> bool {
        self.is_live(anchor) && !self.uses(anchor)
    }

    /// Anchors that neither the selection nor the marked range uses stay so.
    pub open spec fn spares(self, after: ModelView<I>) -> bool {
        forall|a: DocumentAnchor| #[trigger] self.holds(a) ==> after.holds(a)
    }

    /// The positions of both ends of the selection.
    pub open(crate) spec fn selected_positions(self) -> Result<
        (DocumentPosition<I>, DocumentPosition<I>),
        PositionError,
    > {
        match self.position_for_anchor(self.selection.spec_anchor()) {
            Err(error) => Err(error),
            Ok(anchor) => match self.position_for_anchor(self.selection.spec_head()) {
                Err(error) => Err(error),
                Ok(head) => Ok((anchor, head)),
            },
        }
    }
}

/// How many rows, from `from` on, are the same in both layouts. Looks at no
/// more than the first `limit` rows.
pub open spec fn shared_prefix<I>(
    old_items: Seq<LayoutView<I>>,
    items: Seq<LayoutView<I>>,
    from: int,
    limit: int,
) -> int
    decreases limit - from,
{
    if from < limit && from < old_items.len() && from < items.len() && old_items[from].same_identity(
        items[from],
    ) {
        shared_prefix(old_items, items, from + 1, limit)
    } else {
        from
    }
}

/// How many rows at the end, from the `from`-th on, are the same in both
/// layouts. The first `prefix` rows do not count.
pub open spec fn shared_suffix<I>(
    old_items: Seq<LayoutView<I>>,
    items: Seq<LayoutView<I>>,
    from: int,
    prefix: int,
) -> int
    decreases old_items.len() - prefix - from,
{
    if from < old_items.len() - prefix && from < items.len() - prefix && old_items[old_items.len()
        - 1 - from].same_identity(items[items.len() - 1 - from]) {
        shared_suffix(old_items, items, from + 1, prefix)
    } else {
        from
    }
}

/// A row that reaches a source offset.
pub open spec fn row_reaches<I>(source: int) -> spec_fn(LayoutView<I>) -> bool {
    |item: LayoutView<I>|
        match item {
            LayoutView::Text { source: text, .. } => source <= text.end,
            LayoutView::Block { source: block, .. } => source <= block.end,
            LayoutView::AnchoredBlock { source: at, .. } => source <= at,
            LayoutView::Trailer => true,
        }
}

/// The first row that reaches a source offset, or the number of rows.
pub open spec fn item_for_source<I>(items: Seq<LayoutView<I>>, source: int) -> int {
    first_where(items, row_reaches(source), 0)
}

/// The first row that any of the edits starts in.
pub open spec fn first_changed<I>(items: Seq<LayoutView<I>>, edits: Seq<TextEdit>) -> int
    decreases edits.len(),
{
    if edits.len() == 0 {
        0
    } else {
        let last = item_for_source(items, edits.last().start());
        if edits.len() == 1 || last <= first_changed(items, edits.drop_last()) {
            last
        } else {
            first_changed(items, edits.drop_last())
        }
    }
}

impl<I> StateView<I> {
    /// The document is valid, undo is within its budget, and the anchors that
    /// scrolling uses are live and its own.
    pub open(crate) spec fn wf(self) -> bool {
        &&& self.model.wf()
        &&& self.undo.within_budget()
        &&& self.pin matches Some(pin) ==> self.model.holds(pin.spec_anchor())
        &&& self.viewport matches Some(anchor) ==> self.model.holds(anchor)
        &&& self.pin matches Some(pin) ==> self.viewport != Some(pin.spec_anchor())
    }

    pub open spec fn with_model(self, model: ModelView<I>) -> StateView<I> {
        StateView { model, ..self }
    }

    pub open spec fn with_effect(self, effect: DocumentEffect<I>) -> StateView<I> {
        StateView { effects: self.effects.push(effect), ..self }
    }

    pub open spec fn emitted(self, event: DocumentEvent<I>) -> StateView<I> {
        self.with_effect(DocumentEffect::Emit(event))
    }

    pub open spec fn notified(self) -> StateView<I> {
        self.with_effect(DocumentEffect::Notify)
    }

    pub open spec fn rejected(self, reason: DocumentEditRejection) -> StateView<I> {
        self.emitted(DocumentEvent::Rejected(reason))
    }

    // -----------------------------------------------------------------------
    // Rows
    // -----------------------------------------------------------------------

    /// The rows of the document as it is now.
    pub open(crate) spec fn next_items(self) -> Seq<LayoutView<I>> {
        if self.trailer {
            self.model.layout().push(LayoutView::Trailer)
        } else {
            self.model.layout()
        }
    }

    /// With the rows of the document as it is now. The view is asked to
    /// replace what changed from the first changed row on; the rows at the
    /// end that stayed the same keep their measurements.
    pub open(crate) spec fn reconciled(self, first: int) -> StateView<I> {
        let next = self.next_items();
        let prefix = shared_prefix(self.items, next, 0, first);
        let suffix = shared_suffix(self.items, next, 0, prefix);
        let to = self.items.len() - suffix;
        let count = next.len() - prefix - suffix;
        let spliced = if prefix != to || count != 0 {
            self.with_effect(
                DocumentEffect::SpliceItems {
                    from: prefix as usize,
                    to: to as usize,
                    count: count as usize,
                },
            )
        } else {
            self
        };
        StateView { items: next, ..spliced }
    }

    // -----------------------------------------------------------------------
    // A new document
    // -----------------------------------------------------------------------

    pub open(crate) spec fn initial(bytes: Seq<u8>, regions: Seq<DocumentRegion<I>>) -> StateView<I> {
        let model = ModelView::initial(bytes, regions);
        StateView {
            model,
            items: model.layout(),
            undo: UndoView::empty(),
            viewport: None,
            pin: None,
            trailer: false,
            reveal: false,
            renderer: false,
            effects: Seq::empty(),
        }
    }

    /// Rows of a host cannot be shown without a renderer.
    pub open spec fn renderer_fault(
        self,
        blocks: Seq<DocumentBlock<I>>,
        anchored: Seq<AnchoredBlock<I>>,
    ) -> Option<PresentationError> {
        if self.renderer {
            None
        } else if blocks.len() > 0 {
            Some(PresentationError::Blocks(BlockError::MissingRenderer))
        } else if anchored.len() > 0 {
            Some(PresentationError::AnchoredBlocks(AnchoredBlockError::MissingRenderer))
        } else {
            None
        }
    }

    /// Why a snapshot cannot be shown.
    pub open(crate) spec fn reset_fault(self, snapshot: SnapshotView<I>) -> Option<
        PresentationError,
    > {
        let model = ModelView::initial(snapshot.text, snapshot.regions);
        let shown = model.presented(
            snapshot.projection,
            snapshot.blocks,
            snapshot.anchored,
            snapshot.styles,
        );
        if self.renderer_fault(snapshot.blocks, snapshot.anchored) is Some {
            self.renderer_fault(snapshot.blocks, snapshot.anchored)
        } else if ModelView::new_fault(snapshot.text, snapshot.regions) is Some {
            Some(
                PresentationError::Regions(
                    ModelView::new_fault(snapshot.text, snapshot.regions)->0,
                ),
            )
        } else if model.presentation_fault(
            snapshot.projection,
            snapshot.blocks,
            snapshot.anchored,
            snapshot.styles,
        ) is Some {
            model.presentation_fault(
                snapshot.projection,
                snapshot.blocks,
                snapshot.anchored,
                snapshot.styles,
            )
        } else {
            match snapshot.selection {
                Some(position) => match shown.positions_fault(position, position) {
                    Some(error) => Some(PresentationError::Position(error)),
                    None => None,
                },
                None => None,
            }
        }
    }

    /// The document of a snapshot, before it has a revision.
    pub open(crate) spec fn snapshot_model(snapshot: SnapshotView<I>) -> ModelView<I> {
        let shown = ModelView::initial(snapshot.text, snapshot.regions).presented(
            snapshot.projection,
            snapshot.blocks,
            snapshot.anchored,
            snapshot.styles,
        );
        match snapshot.selection {
            Some(position) => shown.with_positions(position, position),
            None => shown,
        }
    }

    /// With the document of a snapshot instead of this one: nothing of the
    /// old one can be undone, and nothing is followed.
    pub open(crate) spec fn was_reset(self, snapshot: SnapshotView<I>) -> StateView<I> {
        let model = ModelView {
            revision: self.model.revision.spec_next(),
            ..Self::snapshot_model(snapshot)
        };
        let next = StateView {
            model,
            undo: UndoView::empty(),
            viewport: None,
            pin: None,
            reveal: false,
            ..self
        };
        let items = next.next_items();
        StateView { items, ..next }.with_effect(DocumentEffect::StopAutoScroll).with_effect(
            DocumentEffect::ForgetColumn,
        ).with_effect(DocumentEffect::ResetItems(items.len() as usize)).emitted(
            DocumentEvent::PresentationChanged,
        ).emitted(DocumentEvent::SelectionChanged).notified()
    }

    // -----------------------------------------------------------------------
    // Presentation
    // -----------------------------------------------------------------------

    pub open(crate) spec fn with_projection(self, projection: ProjectionView) -> StateView<I> {
        self.with_model(self.model.with_projection(projection)).reconciled(0).emitted(
            DocumentEvent::ProjectionChanged,
        ).notified()
    }

    pub open(crate) spec fn presentation_fault(
        self,
        projection: ProjectionView,
        blocks: Seq<DocumentBlock<I>>,
        anchored: Seq<AnchoredBlock<I>>,
        styles: StylesView,
    ) -> Option<PresentationError> {
        if self.renderer_fault(blocks, anchored) is Some {
            self.renderer_fault(blocks, anchored)
        } else {
            self.model.presentation_fault(projection, blocks, anchored, styles)
        }
    }

    pub open(crate) spec fn presented(
        self,
        projection: ProjectionView,
        blocks: Seq<DocumentBlock<I>>,
        anchored: Seq<AnchoredBlock<I>>,
        styles: StylesView,
    ) -> StateView<I> {
        self.with_model(
            self.model.presented(projection, blocks, anchored, styles),
        ).reconciled(0).emitted(DocumentEvent::PresentationChanged).notified()
    }

    pub open spec fn remeasured(self) -> StateView<I> {
        self.with_effect(
            DocumentEffect::RemeasureItems { from: 0, to: self.items.len() as usize },
        ).notified()
    }

    pub open(crate) spec fn with_trailer(self, enabled: bool) -> StateView<I> {
        if self.trailer == enabled {
            self
        } else {
            let next = StateView { trailer: enabled, ..self };
            let forgotten = if enabled {
                next
            } else {
                next.with_effect(DocumentEffect::ForgetTrailer)
            };
            forgotten.reconciled(0).notified()
        }
    }

    // -----------------------------------------------------------------------
    // Scrolling
    // -----------------------------------------------------------------------

    /// Without the place in the viewport that is kept.
    pub open spec fn without_viewport(self) -> StateView<I> {
        match self.viewport {
            Some(anchor) => StateView {
                model: self.model.without_anchor(anchor),
                viewport: None,
                ..self
            },
            None => self,
        }
    }

    /// Without a scroll pin, and without a word.
    pub open(crate) spec fn without_pin(self) -> StateView<I> {
        match self.pin {
            Some(pin) => StateView {
                model: self.model.without_anchor(pin.spec_anchor()),
                pin: None,
                ..self
            },
            None => self,
        }
    }

    /// Following ends because something else moves the viewport.
    pub open(crate) spec fn unfollowed(self) -> StateView<I> {
        match self.pin {
            Some(pin) => self.without_pin().emitted(
                DocumentEvent::StopFollowingRequested { pin_id: pin.spec_id() },
            ).notified(),
            None => self,
        }
    }

    /// The caret is to be visible once rows are measured.
    pub open(crate) spec fn revealing(self) -> StateView<I> {
        StateView { reveal: true, ..self.unfollowed().without_viewport() }.notified()
    }

    pub open(crate) spec fn pin_fault(self, position: DocumentPosition<I>, fraction: u32) -> Option<
        ScrollPinError,
    > {
        if !is_fraction(fraction) {
            Some(ScrollPinError::InvalidViewportFraction)
        } else {
            match self.model.resolve_position(position) {
                Err(error) => Some(ScrollPinError::InvalidPosition(error)),
                Ok(_) => None,
            }
        }
    }

    pub open(crate) spec fn pinned(self, id: I, position: DocumentPosition<I>, fraction: u32) -> StateView<
        I,
    > {
        let free = self.without_pin();
        let offset = self.model.resolve_position(position)->Ok_0 as int;
        let pinned = StateView {
            model: free.model.anchored_at(
                offset,
                if position.spec_affinity() == Affinity::Before {
                    AnchorBias::Left
                } else {
                    AnchorBias::Right
                },
                Some(position.spec_node_id()),
                position.spec_affinity(),
            ),
            pin: Some(
                ScrollPin::of(id, free.model.next_anchor(), position.spec_affinity(), fraction),
            ),
            reveal: false,
            ..free
        };
        pinned.without_viewport().notified()
    }

    pub open(crate) spec fn unpinned(self, id: I) -> StateView<I> {
        if self.pin matches Some(pin) && pin.spec_id() == id {
            self.without_pin().notified()
        } else {
            self
        }
    }

    /// With the place at the top of the viewport kept, unless something else
    /// decides where the viewport is.
    pub open(crate) spec fn keeping_viewport(self, top: Option<DocumentPosition<I>>) -> StateView<I> {
        if self.viewport is Some || self.pin is Some || self.reveal {
            self
        } else {
            match top {
                None => self,
                Some(position) => match self.model.resolve_position(position) {
                    Err(_) => self,
                    Ok(offset) => StateView {
                        model: self.model.anchored_at(
                            offset as int,
                            AnchorBias::Right,
                            Some(position.spec_node_id()),
                            position.spec_affinity(),
                        ),
                        viewport: Some(self.model.next_anchor()),
                        ..self
                    },
                },
            }
        }
    }

    /// A scroll by the user ends following and revealing.
    pub open(crate) spec fn scrolled(self) -> StateView<I> {
        StateView { reveal: false, ..self }.unfollowed()
    }

    /// A scroll by the scrollbar also gives up the place that is kept.
    pub open(crate) spec fn scrolled_by_bar(self) -> StateView<I> {
        StateView { reveal: false, ..self }.without_viewport().unfollowed()
    }

    pub open(crate) spec fn revealed(self, position: DocumentPosition<I>) -> StateView<I> {
        let offset = self.model.resolve_position(position)->Ok_0 as int;
        let free = self.unfollowed();
        free.with_effect(
            DocumentEffect::RevealItem(item_for_source(free.items, offset) as usize),
        ).notified()
    }

    // -----------------------------------------------------------------------
    // Selection
    // -----------------------------------------------------------------------

    /// The next edit starts an undo record of its own.
    pub open spec fn broken(self) -> StateView<I> {
        StateView { undo: self.undo.broken(), ..self }
    }

    pub open spec fn selection_told(self) -> StateView<I> {
        self.emitted(DocumentEvent::SelectionChanged).notified()
    }
}

} // verus!
