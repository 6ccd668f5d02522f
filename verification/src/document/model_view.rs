//! The mathematical model of a document.

use crate::document::anchored_block::{follows_line, AnchoredBlock, AnchoredBlockError};
use crate::document::anchors::AnchorRecord;
use crate::document::block::{blocks_carried, blocks_fault, DocumentBlock};
use crate::document::mapping::rendered;
use crate::document::outcome::{DocumentEditRejection, PresentationError, RoutingOutcome};
use crate::document::position::{
    saturated, Affinity, AnchorBias, DocumentAnchor, DocumentPosition, DocumentRevision,
    DocumentSelection, PositionError,
};
use crate::document::projection::{ProjectionError, ProjectionView};
use crate::document::region::{
    region_index_of, regions_fault, regions_on_boundaries, regions_valid, DocumentRegion,
    EditPolicy, RegionError,
};
use crate::document::resolve::{
    nothing_resolved, resolved_styles, styles_fault, ResolvedView,
};
use crate::document::style::{no_styles, StylesView};
use crate::document::transaction::{edited, net_growth, EditTransaction, TextEdit};
use crate::document::validate::{boundaries_fault, projection_fault};
use crate::order::stable_sort;
use crate::scan::{first_fault, first_where, last_where};
use crate::text::{at_boundary, starts_clean};
use vstd::prelude::*;

verus! {

/// Everything that a document is: its text and regions, its anchors and
/// selection, and how it is presented.
#[verifier::ext_equal]
pub struct ModelView<I> {
    pub bytes: Seq<u8>,
    pub revision: DocumentRevision,
    pub regions: Seq<DocumentRegion<I>>,
    pub next_id: u64,
    pub anchors: Map<DocumentAnchor, AnchorRecord<I>>,
    pub selection: DocumentSelection,
    pub marked: Option<DocumentSelection>,
    pub projection: ProjectionView,
    pub blocks: Seq<DocumentBlock<I>>,
    pub anchored: Seq<AnchoredBlock<I>>,
    pub styles: StylesView,
    pub resolved: ResolvedView,
}

// ---------------------------------------------------------------------------
// Positions
// ---------------------------------------------------------------------------

/// A region that an offset lies in or at an edge of.
pub open spec fn region_at<I>(offset: int) -> spec_fn(DocumentRegion<I>) -> bool {
    |r: DocumentRegion<I>| r.start() <= offset <= r.end()
}

/// The region that owns an offset: among those that hold it or touch it, the
/// first or, with the other affinity, the last; none is an index out of
/// bounds.
pub open spec fn owner_of<I>(regions: Seq<DocumentRegion<I>>, offset: int, affinity: Affinity) -> int {
    if affinity == Affinity::Before {
        first_where(regions, region_at(offset), 0)
    } else {
        last_where(regions, region_at(offset), regions.len() as int)
    }
}

/// The position of a source offset, relative to the region that owns it.
pub open(crate) spec fn position_in<I>(
    bytes: Seq<u8>,
    regions: Seq<DocumentRegion<I>>,
    offset: int,
    affinity: Affinity,
) -> Result<DocumentPosition<I>, PositionError> {
    let at = owner_of(regions, offset, affinity);
    if offset > bytes.len() {
        Err(
            PositionError::SourceOffsetOutOfBounds {
                offset: offset as usize,
                source_len: bytes.len() as usize,
            },
        )
    } else if !at_boundary(bytes, offset) {
        Err(PositionError::InvalidBoundary { offset: offset as usize })
    } else if !(0 <= at < regions.len()) {
        Err(PositionError::NodeNotFound)
    } else {
        Ok(
            DocumentPosition {
                node_id: regions[at].id,
                offset: (offset - regions[at].start()) as usize,
                affinity,
            },
        )
    }
}

/// The source offset of a position.
pub open(crate) spec fn resolve_in<I>(
    bytes: Seq<u8>,
    regions: Seq<DocumentRegion<I>>,
    position: DocumentPosition<I>,
) -> Result<usize, PositionError> {
    match region_index_of(regions, position.node_id) {
        None => Err(PositionError::NodeNotFound),
        Some(at) => {
            let len = regions[at].end() - regions[at].start();
            let offset = regions[at].start() + position.offset;
            if position.offset > len {
                Err(
                    PositionError::NodeOffsetOutOfBounds {
                        offset: position.offset,
                        node_len: len as usize,
                    },
                )
            } else if !at_boundary(bytes, offset) {
                Err(PositionError::InvalidBoundary { offset: offset as usize })
            } else {
                Ok(offset as usize)
            }
        },
    }
}

// ---------------------------------------------------------------------------
// Anchored rows
// ---------------------------------------------------------------------------

/// Where an anchored row is placed, in the source and in the display.
pub open(crate) spec fn row_in<I>(
    bytes: Seq<u8>,
    regions: Seq<DocumentRegion<I>>,
    projection: ProjectionView,
    block: AnchoredBlock<I>,
) -> Result<(int, int), AnchoredBlockError> {
    match resolve_in(bytes, regions, block.position) {
        Err(error) => Err(AnchoredBlockError::InvalidPosition(error)),
        Ok(source) => match projection.source_to_display(
            source as int,
            block.position.affinity,
        ) {
            None => Err(AnchoredBlockError::InvalidPosition(PositionError::NodeNotFound)),
            Some(offset) => if follows_line(rendered(bytes, projection.spans), offset) {
                Ok((source as int, offset))
            } else {
                Err(AnchoredBlockError::NotLineBoundary)
            },
        },
    }
}

/// An id is used by a region or by an anchored block before index `i`.
pub open spec fn row_id_taken<I>(
    regions: Seq<DocumentRegion<I>>,
    anchored: Seq<AnchoredBlock<I>>,
    i: int,
) -> bool {
    ||| exists|r: int|
        0 <= r < regions.len() && (#[trigger] regions[r]).spec_id() == anchored[i].spec_id()
    ||| exists|j: int| 0 <= j < i && (#[trigger] anchored[j]).spec_id() == anchored[i].spec_id()
}

/// A region that an anchored row may belong to.
pub open spec fn holds_rows(policy: EditPolicy) -> bool {
    policy == EditPolicy::Readonly || policy == EditPolicy::Routed
}

/// What is wrong with an anchored row: its id is taken, its position does not
/// resolve, its region can be edited or is atomic, or no line ends there.
pub open(crate) spec fn row_fault<I>(
    bytes: Seq<u8>,
    regions: Seq<DocumentRegion<I>>,
    projection: ProjectionView,
    anchored: Seq<AnchoredBlock<I>>,
) -> spec_fn(int) -> Option<AnchoredBlockError> {
    |i: int|
        {
            let position = anchored[i].position;
            if row_id_taken(regions, anchored, i) {
                Some(AnchoredBlockError::DuplicateId)
            } else if resolve_in(bytes, regions, position) is Err {
                Some(
                    AnchoredBlockError::InvalidPosition(
                        resolve_in(bytes, regions, position)->Err_0,
                    ),
                )
            } else if !holds_rows(
                regions[region_index_of(regions, position.node_id)->0].spec_policy(),
            ) {
                Some(AnchoredBlockError::EditableRegion)
            } else {
                match row_in(bytes, regions, projection, anchored[i]) {
                    Err(error) => Some(error),
                    Ok(_) => None,
                }
            }
        }
}

/// Why anchored rows cannot be shown: the first that has a fault.
pub open(crate) spec fn rows_fault<I>(
    bytes: Seq<u8>,
    regions: Seq<DocumentRegion<I>>,
    projection: ProjectionView,
    anchored: Seq<AnchoredBlock<I>>,
) -> Option<AnchoredBlockError> {
    first_fault(row_fault(bytes, regions, projection, anchored), 0, anchored.len() as int)
}

// ---------------------------------------------------------------------------
// Anchors
// ---------------------------------------------------------------------------

/// Anchors after edits, applied in order.
pub open spec fn anchors_edited<I>(
    anchors: Map<DocumentAnchor, AnchorRecord<I>>,
    edits: Seq<TextEdit>,
) -> Map<DocumentAnchor, AnchorRecord<I>>
    decreases edits.len(),
{
    if edits.len() == 0 {
        anchors
    } else {
        let edit = edits.last();
        anchors_edited(anchors, edits.drop_last()).map_values(
            |r: AnchorRecord<I>| r.moved(edit.start(), edit.end(), edit.bytes().len() as int),
        )
    }
}

/// An anchor of a node stays in the node; without the node it belongs to
/// none.
pub open spec fn reconciled_record<I>(record: AnchorRecord<I>, regions: Seq<DocumentRegion<I>>) -> AnchorRecord<
    I,
> {
    match record.spec_node_id() {
        None => record,
        Some(id) => match region_index_of(regions, id) {
            None => AnchorRecord::of(
                record.spec_offset(),
                record.spec_bias(),
                None,
                record.spec_affinity(),
            ),
            Some(at) => AnchorRecord::of(
                if record.spec_offset() < regions[at].start() {
                    regions[at].start()
                } else if record.spec_offset() > regions[at].end() {
                    regions[at].end()
                } else {
                    record.spec_offset()
                },
                record.spec_bias(),
                record.spec_node_id(),
                record.spec_affinity(),
            ),
        },
    }
}

/// Anchors in the regions that they belong to.
pub open spec fn anchors_reconciled<I>(
    anchors: Map<DocumentAnchor, AnchorRecord<I>>,
    regions: Seq<DocumentRegion<I>>,
) -> Map<DocumentAnchor, AnchorRecord<I>> {
    anchors.map_values(|r: AnchorRecord<I>| reconciled_record(r, regions))
}

/// An offset relative to a region, with the head of the same selection.
pub struct RelativeView {
    pub anchor: int,
    pub head: int,
}

/// The last editable region, or -1.
pub open spec fn last_editable<I>(regions: Seq<DocumentRegion<I>>) -> int {
    last_where(
        regions,
        |r: DocumentRegion<I>| r.spec_policy() == EditPolicy::Editable,
        regions.len() as int,
    )
}

impl<I> ModelView<I> {
    // -----------------------------------------------------------------------
    // Validity
    // -----------------------------------------------------------------------

    /// What the presentation says fits the text and its regions.
    pub open spec fn presentation_fits(self) -> bool {
        &&& self.projection.valid()
        &&& projection_fault(self.projection, self.regions, self.bytes) is None
        &&& blocks_fault(
            self.blocks,
            self.regions,
            self.projection,
            self.bytes.len() as usize,
        ) is None
    }

    /// Every anchor was made before the next one, and lies between
    /// characters.
    pub open spec fn anchors_fit(self) -> bool {
        forall|a: DocumentAnchor| #[trigger]
            self.anchors.dom().contains(a) ==> a.spec_id() < self.next_id && at_boundary(
                self.bytes,
                self.anchors[a].spec_offset(),
            )
    }

    pub open spec fn is_live(self, anchor: DocumentAnchor) -> bool {
        self.anchors.dom().contains(anchor)
    }

    /// Both ends of a selection are live.
    pub open spec fn selection_live(self, selection: DocumentSelection) -> bool {
        self.is_live(selection.spec_anchor()) && self.is_live(selection.spec_head())
    }

    /// An anchor is one of the ends of a selection.
    pub open spec fn selects(selection: DocumentSelection, anchor: DocumentAnchor) -> bool {
        selection.spec_anchor() == anchor || selection.spec_head() == anchor
    }

    /// The selection and the marked range are live and share no anchor.
    pub open spec fn selections_fit(self) -> bool {
        &&& self.selection_live(self.selection)
        &&& self.marked matches Some(marked) ==> {
            &&& self.selection_live(marked)
            &&& !Self::selects(self.selection, marked.spec_anchor())
            &&& !Self::selects(self.selection, marked.spec_head())
        }
    }

    pub open spec fn wf(self) -> bool {
        &&& starts_clean(self.bytes)
        &&& self.bytes.len() <= isize::MAX
        &&& regions_valid(self.regions, self.bytes.len() as int)
        &&& regions_on_boundaries(self.regions, self.bytes)
        &&& self.presentation_fits()
        &&& self.anchors_fit()
        &&& self.selections_fit()
    }

    /// There are numbers for `count` more anchors.
    pub open spec fn has_room(self, count: int) -> bool {
        self.next_id + count <= u64::MAX
    }

    // -----------------------------------------------------------------------
    // A new document
    // -----------------------------------------------------------------------

    /// Why text and regions do not make a document.
    pub open spec fn new_fault(bytes: Seq<u8>, regions: Seq<DocumentRegion<I>>) -> Option<
        RegionError,
    > {
        if regions_fault(regions, bytes.len() as usize) is Some {
            regions_fault(regions, bytes.len() as usize)
        } else {
            boundaries_fault(stable_sort(regions), bytes)
        }
    }

    /// A document of text and regions: the cursor is at the start of the last
    /// editable region, and nothing is projected.
    pub open(crate) spec fn initial(bytes: Seq<u8>, given: Seq<DocumentRegion<I>>) -> ModelView<I> {
        let regions = stable_sort(given);
        let at = last_editable(regions);
        let cursor = DocumentAnchor(0);
        ModelView {
            bytes,
            revision: DocumentRevision(0),
            regions,
            next_id: 1,
            anchors: Map::empty().insert(
                cursor,
                AnchorRecord::of(
                    if at >= 0 {
                        regions[at].start()
                    } else {
                        0
                    },
                    AnchorBias::Right,
                    if at >= 0 {
                        Some(regions[at].id)
                    } else {
                        None
                    },
                    Affinity::After,
                ),
            ),
            selection: DocumentSelection { anchor: cursor, head: cursor },
            marked: None,
            projection: ProjectionView { source_len: bytes.len() as int, spans: Seq::empty() },
            blocks: Seq::empty(),
            anchored: Seq::empty(),
            styles: no_styles(),
            resolved: nothing_resolved(),
        }
    }

    // -----------------------------------------------------------------------
    // Presentation
    // -----------------------------------------------------------------------

    /// The displayed text.
    pub open spec fn display(self) -> Seq<u8> {
        rendered(self.bytes, self.projection.spans)
    }

    /// Why a projection cannot be set by itself.
    pub open spec fn set_projection_fault(self, projection: ProjectionView) -> Option<
        ProjectionError,
    > {
        if self.blocks.len() > 0 || self.anchored.len() > 0 {
            Some(ProjectionError::BlocksRequirePresentation)
        } else {
            projection_fault(projection, self.regions, self.bytes)
        }
    }

    /// With another projection, and without styles.
    pub open spec fn with_projection(self, projection: ProjectionView) -> ModelView<I> {
        ModelView { projection, styles: no_styles(), resolved: nothing_resolved(), ..self }
    }

    /// Why a presentation cannot be set: its projection, a block, an anchored
    /// row or a style does not fit, in that order.
    pub open(crate) spec fn presentation_fault(
        self,
        projection: ProjectionView,
        blocks: Seq<DocumentBlock<I>>,
        anchored: Seq<AnchoredBlock<I>>,
        styles: StylesView,
    ) -> Option<PresentationError> {
        let sorted = stable_sort(blocks);
        let len = self.bytes.len() as usize;
        if projection_fault(projection, self.regions, self.bytes) is Some {
            Some(
                PresentationError::Projection(
                    projection_fault(projection, self.regions, self.bytes)->0,
                ),
            )
        } else if blocks_fault(sorted, self.regions, projection, len) is Some {
            Some(
                PresentationError::Blocks(
                    blocks_fault(sorted, self.regions, projection, len)->0,
                ),
            )
        } else if rows_fault(self.bytes, self.regions, projection, anchored) is Some {
            Some(
                PresentationError::AnchoredBlocks(
                    rows_fault(self.bytes, self.regions, projection, anchored)->0,
                ),
            )
        } else {
            match styles_fault(
                styles,
                self.bytes,
                self.regions,
                projection,
                rendered(self.bytes, projection.spans),
            ) {
                Some(error) => Some(PresentationError::Styles(error)),
                None => None,
            }
        }
    }

    /// With another presentation.
    pub open(crate) spec fn presented(
        self,
        projection: ProjectionView,
        blocks: Seq<DocumentBlock<I>>,
        anchored: Seq<AnchoredBlock<I>>,
        styles: StylesView,
    ) -> ModelView<I> {
        ModelView {
            projection,
            blocks: stable_sort(blocks),
            anchored,
            styles,
            resolved: resolved_styles(styles, projection),
            ..self
        }
    }

    // -----------------------------------------------------------------------
    // Positions
    // -----------------------------------------------------------------------

    pub open(crate) spec fn position_for_offset(self, offset: int, affinity: Affinity) -> Result<
        DocumentPosition<I>,
        PositionError,
    > {
        position_in(self.bytes, self.regions, offset, affinity)
    }

    pub open(crate) spec fn resolve_position(self, position: DocumentPosition<I>) -> Result<
        usize,
        PositionError,
    > {
        resolve_in(self.bytes, self.regions, position)
    }

    /// The position of an anchor: in its node while the node holds it, else
    /// that of its offset.
    pub open(crate) spec fn position_for_anchor(self, anchor: DocumentAnchor) -> Result<
        DocumentPosition<I>,
        PositionError,
    > {
        let record = self.anchors[anchor];
        match record.node_id {
            Some(id) => match region_index_of(self.regions, id) {
                Some(at) => if self.regions[at].start() <= record.offset
                    <= self.regions[at].end() {
                    Ok(
                        DocumentPosition {
                            node_id: id,
                            offset: (record.offset - self.regions[at].start()) as usize,
                            affinity: record.affinity,
                        },
                    )
                } else {
                    self.position_for_offset(record.offset as int, record.affinity)
                },
                None => self.position_for_offset(record.offset as int, record.affinity),
            },
            None => self.position_for_offset(record.offset as int, record.affinity),
        }
    }

    /// The node of a position, if there is a position.
    pub open(crate) spec fn node_of(position: Result<DocumentPosition<I>, PositionError>) -> Option<
        I,
    > {
        match position {
            Ok(position) => Some(position.node_id),
            Err(_) => None,
        }
    }

    // -----------------------------------------------------------------------
    // Selection
    // -----------------------------------------------------------------------

    pub open spec fn anchor_offset(self) -> int {
        self.anchors[self.selection.spec_anchor()].spec_offset()
    }

    pub open spec fn cursor(self) -> int {
        self.anchors[self.selection.spec_head()].spec_offset()
    }

    pub open spec fn selected(self) -> (int, int) {
        if self.anchor_offset() <= self.cursor() {
            (self.anchor_offset(), self.cursor())
        } else {
            (self.cursor(), self.anchor_offset())
        }
    }

    pub open spec fn marked_range(self) -> Option<(int, int)> {
        match self.marked {
            None => None,
            Some(marked) => {
                let start = self.anchors[marked.spec_anchor()].spec_offset();
                let end = self.anchors[marked.spec_head()].spec_offset();
                Some(
                    if start <= end {
                        (start, end)
                    } else {
                        (end, start)
                    },
                )
            },
        }
    }

    /// The anchor that is made next.
    pub open(crate) spec fn next_anchor(self) -> DocumentAnchor {
        DocumentAnchor(self.next_id)
    }

    /// With one more anchor.
    pub open(crate) spec fn anchored_at(
        self,
        offset: int,
        bias: AnchorBias,
        node_id: Option<I>,
        affinity: Affinity,
    ) -> ModelView<I> {
        ModelView {
            next_id: if self.next_id == u64::MAX {
                u64::MAX
            } else {
                (self.next_id + 1) as u64
            },
            anchors: self.anchors.insert(
                self.next_anchor(),
                AnchorRecord::of(offset, bias, node_id, affinity),
            ),
            ..self
        }
    }

    /// With one more anchor, in the node that owns its offset.
    pub open(crate) spec fn anchored_in_owner(
        self,
        offset: int,
        bias: AnchorBias,
        affinity: Affinity,
    ) -> ModelView<I> {
        self.anchored_at(
            offset,
            bias,
            Self::node_of(self.position_for_offset(offset, affinity)),
            affinity,
        )
    }

    /// Without the anchors of a selection.
    pub open spec fn released(self, selection: DocumentSelection) -> ModelView<I> {
        ModelView {
            anchors: self.anchors.remove(selection.spec_anchor()).remove(selection.spec_head()),
            ..self
        }
    }

    pub open spec fn without_anchor(self, anchor: DocumentAnchor) -> ModelView<I> {
        ModelView { anchors: self.anchors.remove(anchor), ..self }
    }

    /// With a cursor instead of the selection.
    pub open(crate) spec fn collapsed(self, offset: int) -> ModelView<I> {
        let free = self.released(self.selection);
        let cursor = free.next_anchor();
        ModelView {
            selection: DocumentSelection { anchor: cursor, head: cursor },
            ..free.anchored_in_owner(offset, AnchorBias::Right, Affinity::After)
        }
    }

    /// With another selection, given by source offsets. Its ends belong to
    /// the nodes between them.
    pub open(crate) spec fn with_selection(self, anchor_offset: int, head_offset: int) -> ModelView<I> {
        if anchor_offset == head_offset {
            self.collapsed(head_offset)
        } else {
            let (outer, inner) = if head_offset < anchor_offset {
                (Affinity::Before, Affinity::After)
            } else {
                (Affinity::After, Affinity::Before)
            };
            let free = self.released(self.selection);
            let first = free.anchored_in_owner(anchor_offset, AnchorBias::Left, outer);
            let both = first.anchored_in_owner(head_offset, AnchorBias::Right, inner);
            ModelView {
                selection: DocumentSelection {
                    anchor: free.next_anchor(),
                    head: first.next_anchor(),
                },
                ..both
            }
        }
    }

    /// With another selection, given by positions that resolve.
    pub open(crate) spec fn with_positions(
        self,
        anchor: DocumentPosition<I>,
        head: DocumentPosition<I>,
    ) -> ModelView<I> {
        let anchor_offset = self.resolve_position(anchor)->Ok_0 as int;
        let head_offset = self.resolve_position(head)->Ok_0 as int;
        let free = self.released(self.selection);
        if anchor == head {
            let cursor = free.next_anchor();
            ModelView {
                selection: DocumentSelection { anchor: cursor, head: cursor },
                ..free.anchored_at(
                    head_offset,
                    AnchorBias::Right,
                    Some(head.node_id),
                    head.affinity,
                )
            }
        } else {
            let first = free.anchored_at(
                anchor_offset,
                AnchorBias::Left,
                Some(anchor.node_id),
                anchor.affinity,
            );
            let both = first.anchored_at(
                head_offset,
                AnchorBias::Right,
                Some(head.node_id),
                head.affinity,
            );
            ModelView {
                selection: DocumentSelection {
                    anchor: free.next_anchor(),
                    head: first.next_anchor(),
                },
                ..both
            }
        }
    }

    /// Why positions cannot be selected: the first of them that does not
    /// resolve.
    pub open(crate) spec fn positions_fault(
        self,
        anchor: DocumentPosition<I>,
        head: DocumentPosition<I>,
    ) -> Option<PositionError> {
        match self.resolve_position(anchor) {
            Err(error) => Some(error),
            Ok(_) => match self.resolve_position(head) {
                Err(error) => Some(error),
                Ok(_) => None,
            },
        }
    }

    /// The positions of a region-relative selection.
    pub open(crate) spec fn region_position(self, index: int, offset: int) -> DocumentPosition<I> {
        DocumentPosition {
            node_id: self.regions[index].id,
            offset: offset as usize,
            affinity: Affinity::After,
        }
    }

    /// With a selection in a region.
    pub open(crate) spec fn selected_in_region(self, index: int, anchor: int, head: int) -> ModelView<
        I,
    > {
        self.with_positions(
            self.region_position(index, anchor),
            self.region_position(index, head),
        )
    }

    /// With another marked range. Its ends belong to the node of the cursor.
    pub open(crate) spec fn with_marked(self, range: Option<(int, int)>) -> ModelView<I> {
        let free = match self.marked {
            Some(marked) => ModelView { marked: None, ..self.released(marked) },
            None => self,
        };
        match range {
            None => free,
            Some((start, end)) => {
                let node = Self::node_of(
                    free.position_for_anchor(free.selection.spec_head()),
                );
                let first = free.anchored_at(start, AnchorBias::Left, node, Affinity::After);
                let both = first.anchored_at(end, AnchorBias::Right, node, Affinity::Before);
                ModelView {
                    marked: Some(
                        DocumentSelection {
                            anchor: free.next_anchor(),
                            head: first.next_anchor(),
                        },
                    ),
                    ..both
                }
            },
        }
    }

    // -----------------------------------------------------------------------
    // Routing
    // -----------------------------------------------------------------------

    /// Why a transaction cannot even be looked at: it was made for another
    /// revision, or an edit is out of bounds or not between characters.
    pub open spec fn transaction_rejection(self, transaction: EditTransaction) -> Option<
        DocumentEditRejection,
    > {
        if transaction.spec_revision() != self.revision {
            Some(DocumentEditRejection::StaleRevision)
        } else if exists|i: int|
            0 <= i < transaction.spec_edits().len() && !edit_on_boundaries(
                #[trigger] transaction.spec_edits()[i],
                self.bytes,
            ) {
            Some(DocumentEditRejection::InvalidBoundary)
        } else {
            None
        }
    }

    /// The region that an insertion goes to when the cursor is elsewhere: the
    /// last that holds or touches it.
    pub open spec fn insertion_region(self, offset: int) -> Option<int> {
        let at = last_where(self.regions, region_at(offset), self.regions.len() as int);
        if at >= 0 {
            Some(at)
        } else {
            None
        }
    }

    /// The region that a range belongs to. An insertion at the cursor goes to
    /// the node of the cursor; other text to the first region that holds it.
    pub open(crate) spec fn region_for_range(self, start: int, end: int) -> Option<int> {
        if start >= end {
            let head = self.position_for_anchor(self.selection.spec_head());
            if start == self.cursor() && head is Ok && region_index_of(
                self.regions,
                head->Ok_0.node_id,
            ) is Some {
                region_index_of(self.regions, head->Ok_0.node_id)
            } else {
                self.insertion_region(start)
            }
        } else {
            let at = first_where(
                self.regions,
                |r: DocumentRegion<I>| r.start() <= start && end <= r.end(),
                0,
            );
            if at < self.regions.len() {
                Some(at)
            } else {
                None
            }
        }
    }

    /// The region that one edit belongs to: the given node if it holds the
    /// edit, and without a node the region of its range.
    pub open(crate) spec fn region_for_edit(self, edit: TextEdit, node: Option<I>) -> Option<int> {
        match node {
            None => self.region_for_range(edit.start(), edit.end()),
            Some(id) => match region_index_of(self.regions, id) {
                Some(at) => if self.regions[at].start() <= edit.start() && edit.end()
                    <= self.regions[at].end() {
                    Some(at)
                } else {
                    None
                },
                None => None,
            },
        }
    }

    /// The one region that all edits belong to. The first edit outside every
    /// region, or outside that of the edit before, decides the rejection.
    pub open(crate) spec fn target_region(self, edits: Seq<TextEdit>, node: Option<I>) -> Result<
        int,
        DocumentEditRejection,
    >
        decreases edits.len(),
    {
        if edits.len() == 0 {
            Err(DocumentEditRejection::OutsideRegion)
        } else {
            let before = if edits.len() == 1 {
                None
            } else {
                Some(self.target_region(edits.drop_last(), node))
            };
            match before {
                Some(Err(error)) => Err(error),
                _ => match self.region_for_edit(edits.last(), node) {
                    None => Err(DocumentEditRejection::OutsideRegion),
                    Some(at) => match before {
                        Some(Ok(previous)) => if previous == at {
                            Ok(at)
                        } else {
                            Err(DocumentEditRejection::CrossesRegions)
                        },
                        _ => Ok(at),
                    },
                },
            }
        }
    }

    /// The regions after one of them has grown by `growth`.
    pub open spec fn regions_grown(self, target: int, growth: int) -> Seq<DocumentRegion<I>> {
        self.regions.map(
            |i: int, r: DocumentRegion<I>|
                if i == target {
                    r.at(r.start(), saturated(r.end() + growth))
                } else if i > target {
                    r.at(saturated(r.start() + growth), saturated(r.end() + growth))
                } else {
                    r
                },
        )
    }

    /// The document after edits in one region, without a look at whether its
    /// presentation still fits.
    pub open spec fn edited_in(self, target: int, edits: Seq<TextEdit>) -> ModelView<I> {
        let bytes = edited(self.bytes, edits);
        let regions = stable_sort(self.regions_grown(target, net_growth(edits)));
        let projection = self.projection.carried(edits, bytes.len() as int);
        let styles = self.styles.carried(edits);
        ModelView {
            bytes,
            revision: self.revision.spec_next(),
            regions,
            anchors: anchors_reconciled(anchors_edited(self.anchors, edits), regions),
            projection,
            blocks: blocks_carried(self.blocks, edits),
            styles,
            resolved: resolved_of(styles, projection),
            ..self
        }
    }

    /// Why edits in one region are rejected: its presentation would no longer
    /// fit.
    pub open(crate) spec fn edit_rejection(self, target: int, edits: Seq<TextEdit>) -> Option<
        DocumentEditRejection,
    > {
        let next = self.edited_in(target, edits);
        let len = next.bytes.len() as usize;
        if regions_fault(
            self.regions_grown(target, net_growth(edits)),
            saturated(self.bytes.len() + net_growth(edits)) as usize,
        ) is Some {
            Some(DocumentEditRejection::InvalidRegions)
        } else if projection_fault(next.projection, next.regions, next.bytes) is Some
            || blocks_fault(next.blocks, next.regions, next.projection, len) is Some || rows_fault(
            next.bytes,
            next.regions,
            next.projection,
            next.anchored,
        ) is Some || styles_fault(
            next.styles,
            next.bytes,
            next.regions,
            next.projection,
            next.display(),
        ) is Some {
            Some(DocumentEditRejection::InvalidPresentation)
        } else {
            None
        }
    }

    /// What becomes of a transaction.
    pub open(crate) spec fn routing(self, transaction: EditTransaction, node: Option<I>) -> RoutingOutcome<
        I,
    > {
        if self.transaction_rejection(transaction) is Some {
            RoutingOutcome::Rejected(self.transaction_rejection(transaction)->0)
        } else {
            match self.target_region(transaction.spec_edits(), node) {
                Err(error) => RoutingOutcome::Rejected(error),
                Ok(target) => match self.regions[target].policy {
                    EditPolicy::Readonly => RoutingOutcome::Rejected(
                        DocumentEditRejection::Readonly,
                    ),
                    EditPolicy::Atomic => RoutingOutcome::Rejected(DocumentEditRejection::Atomic),
                    EditPolicy::Routed => RoutingOutcome::Routed(self.regions[target].id),
                    EditPolicy::Editable => match self.edit_rejection(
                        target,
                        transaction.spec_edits(),
                    ) {
                        Some(error) => RoutingOutcome::Rejected(error),
                        None => RoutingOutcome::Applied,
                    },
                },
            }
        }
    }

    /// The document after a transaction: changed only where it was applied.
    pub open(crate) spec fn routed(self, transaction: EditTransaction, node: Option<I>) -> ModelView<I> {
        if self.routing(transaction, node) == RoutingOutcome::<I>::Applied {
            self.edited_in(
                self.target_region(transaction.spec_edits(), node)->Ok_0,
                transaction.spec_edits(),
            )
        } else {
            self
        }
    }

    /// The editable region at the cursor.
    pub open(crate) spec fn editable_range_for_cursor(self) -> Option<(int, int)> {
        match self.region_for_range(self.cursor(), self.cursor()) {
            Some(at) => if self.regions[at].policy == EditPolicy::Editable {
                Some((self.regions[at].start(), self.regions[at].end()))
            } else {
                None
            },
            None => None,
        }
    }

    // -----------------------------------------------------------------------
    // Selections across host updates
    // -----------------------------------------------------------------------

    /// A selection relative to a region, if both its ends belong to it.
    pub open(crate) spec fn capture_in_region(self, selection: DocumentSelection, index: int) -> Option<
        RelativeView,
    > {
        let region = self.regions[index];
        let anchor = self.anchors[selection.anchor].spec_offset();
        let head = self.anchors[selection.head].spec_offset();
        if self.is_live(selection.anchor) && self.is_live(selection.head) && region.start()
            <= anchor <= region.end() && region.start() <= head <= region.end() && Self::node_of(
            self.position_for_anchor(selection.anchor),
        ) == Some(region.id) && Self::node_of(self.position_for_anchor(selection.head)) == Some(
            region.id,
        ) {
            Some(RelativeView { anchor: anchor - region.start(), head: head - region.start() })
        } else {
            None
        }
    }

    /// The editable region that holds a selection, or the number of regions.
    pub open(crate) spec fn capturing_region(self, selection: DocumentSelection, from: int) -> int
        decreases self.regions.len() - from,
    {
        if from >= self.regions.len() {
            self.regions.len() as int
        } else if self.regions[from].policy == EditPolicy::Editable && self.capture_in_region(
            selection,
            from,
        ) is Some {
            from
        } else {
            self.capturing_region(selection, from + 1)
        }
    }

    /// A selection in an editable region: the id of the region and the
    /// selection relative to it.
    pub open(crate) spec fn captured(self, selection: DocumentSelection) -> Option<
        (I, RelativeView),
    > {
        let at = self.capturing_region(selection, 0);
        if at < self.regions.len() {
            Some((self.regions[at].id, self.capture_in_region(selection, at)->0))
        } else {
            None
        }
    }

    pub open(crate) spec fn captured_marked(self) -> Option<(I, RelativeView)> {
        match self.marked {
            Some(marked) => self.captured(marked),
            None => None,
        }
    }

    /// An offset cut to the length of a region.
    pub open spec fn cut(self, index: int, offset: int) -> int {
        let len = self.regions[index].end() - self.regions[index].start();
        if offset <= len {
            offset
        } else {
            len
        }
    }

    /// With a captured selection put back into its region.
    pub open(crate) spec fn restored(self, capture: Option<(I, RelativeView)>) -> ModelView<I> {
        match capture {
            None => self,
            Some((id, relative)) => match region_index_of(self.regions, id) {
                None => self,
                Some(at) => self.selected_in_region(
                    at,
                    self.cut(at, relative.anchor),
                    self.cut(at, relative.head),
                ),
            },
        }
    }

    /// Where a captured marked range lies.
    pub open spec fn marked_from(self, capture: Option<(I, RelativeView)>) -> Option<(int, int)> {
        match capture {
            None => None,
            Some((id, relative)) => match region_index_of(self.regions, id) {
                None => None,
                Some(at) => Some(
                    (
                        self.regions[at].start() + self.cut(at, relative.anchor),
                        self.regions[at].start() + self.cut(at, relative.head),
                    ),
                ),
            },
        }
    }
}

/// Styles on the display.
pub open(crate) spec fn resolved_of(styles: StylesView, projection: ProjectionView) -> ResolvedView {
    resolved_styles(styles, projection)
}

/// An edit lies in a text, between characters.
pub open spec fn edit_on_boundaries(edit: TextEdit, bytes: Seq<u8>) -> bool {
    &&& edit.start() <= edit.end() <= bytes.len()
    &&& at_boundary(bytes, edit.start())
    &&& at_boundary(bytes, edit.end())
}

} // verus!
