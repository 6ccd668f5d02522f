//! The retained state of a document's text.

use crate::document::anchored_block::AnchoredBlock;
use crate::document::anchors::AnchorStore;
use crate::document::block::DocumentBlock;
use crate::document::model_view::{
    last_editable, position_in, region_at, resolve_in, ModelView, RelativeView,
};
use crate::document::position::{
    Affinity, AnchorBias, DocumentAnchor, DocumentPosition, DocumentRevision, DocumentSelection,
    PositionError,
};
use crate::document::projection::DocumentProjection;
use crate::document::projection_map::{int_of, ProjectionMap};
use crate::document::region::{
    find_region, lemma_region_index, region_index_of, regions_valid, DocumentRegion,
    DocumentRegions, EditPolicy, RegionError,
};
use crate::document::resolve::ResolvedDocumentStyles;
use crate::document::style::DocumentStyles;
use crate::document::undo::same_position;
use crate::document::validate::validate_region_boundaries;
use crate::identity::{copy_id, lawful_id};
use crate::scan::{last_where, lemma_first_where_is, lemma_last_where};
use crate::text::{at_boundary, boundary_range, SourceText};
use std::ops::Range;
use vstd::prelude::*;
use vstd::string::*;
use vstd::utf8::*;

verus! {

/// Text, regions, anchors, selection and presentation of a document.
pub struct DocumentModel<I> {
    pub(crate) text: SourceText,
    pub(crate) revision: DocumentRevision,
    pub(crate) regions: DocumentRegions<I>,
    pub(crate) anchors: AnchorStore<I>,
    pub(crate) selection: DocumentSelection,
    pub(crate) marked: Option<DocumentSelection>,
    pub(crate) projection: DocumentProjection,
    pub(crate) projection_map: ProjectionMap,
    pub(crate) blocks: Vec<DocumentBlock<I>>,
    pub(crate) anchored_blocks: Vec<AnchoredBlock<I>>,
    pub(crate) styles: DocumentStyles,
    pub(crate) resolved_styles: ResolvedDocumentStyles,
}

impl<I> View for DocumentModel<I> {
    type V = ModelView<I>;

    open(crate) spec fn view(&self) -> ModelView<I> {
        ModelView {
            bytes: self.text.bytes(),
            revision: self.revision,
            regions: self.regions.items(),
            next_id: self.anchors.spec_next_id(),
            anchors: self.anchors.records(),
            selection: self.selection,
            marked: self.marked,
            projection: self.projection@,
            blocks: self.blocks@,
            anchored: self.anchored_blocks@,
            styles: self.styles@,
            resolved: self.resolved_styles@,
        }
    }
}

/// Two ends of a selection, relative to a region.
#[derive(Clone, Copy, Debug)]
pub struct RelativeSelection {
    pub(crate) anchor: usize,
    pub(crate) head: usize,
}

/// A selection in a region.
#[derive(Debug)]
pub struct RegionSelection<I> {
    pub(crate) region_id: I,
    pub(crate) selection: RelativeSelection,
}

impl<I> RegionSelection<I> {
    pub open(crate) spec fn pair(self) -> (I, RelativeView) {
        (
            self.region_id,
            RelativeView { anchor: self.selection.anchor as int, head: self.selection.head as int },
        )
    }
}

/// What an optional capture says.
pub open(crate) spec fn capture_view<I>(capture: Option<RegionSelection<I>>) -> Option<
    (I, RelativeView),
> {
    match capture {
        Some(capture) => Some(capture.pair()),
        None => None,
    }
}

/// The ends of an optional range.
pub open spec fn range_ends(range: Option<Range<usize>>) -> Option<(int, int)> {
    match range {
        Some(range) => Some((range.start as int, range.end as int)),
        None => None,
    }
}

impl<I: Clone + Eq> DocumentModel<I> {
    /// The document is valid, and its parts agree.
    pub open(crate) spec fn wf(self) -> bool {
        &&& self.fits()
        &&& self@.wf()
    }

    /// The parts of the document agree.
    pub open(crate) spec fn fits(self) -> bool {
        &&& lawful_id::<I>()
        &&& self.anchors.wf()
        &&& self.projection_map.shows(self@.bytes, self@.projection)
    }

    pub fn new(text: &str, regions: Vec<DocumentRegion<I>>) -> (result: Result<Self, RegionError>)
        requires
            lawful_id::<I>(),
            text.spec_bytes().len() <= isize::MAX,
        ensures
            match result {
                Ok(model) => {
                    &&& ModelView::new_fault(text.spec_bytes(), regions@) is None
                    &&& model@ == ModelView::initial(text.spec_bytes(), regions@)
                    &&& model.wf()
                },
                Err(error) => ModelView::new_fault(text.spec_bytes(), regions@) == Some(error),
            },
    {
        let ghost bytes = text.spec_bytes();
        let ghost given = regions@;
        let text = SourceText::new(text);
        let len = text.len();
        let regions = match DocumentRegions::new(regions, len) {
            Ok(regions) => regions,
            Err(error) => {
                return Err(error);
            },
        };
        match validate_region_boundaries(&regions, &text) {
            Ok(()) => {},
            Err(error) => {
                return Err(error);
            },
        }
        let ghost editable = |r: DocumentRegion<I>| r.spec_policy() == EditPolicy::Editable;
        let mut at: usize = regions.regions.len();
        proof {
            lemma_last_where(regions.items(), editable, regions.items().len() as int);
        }
        while at > 0 && regions.regions[at - 1].policy != EditPolicy::Editable
            invariant
                at <= regions.regions.len(),
                editable == (|r: DocumentRegion<I>| r.spec_policy() == EditPolicy::Editable),
                last_where(regions.items(), editable, regions.items().len() as int) == last_where(
                    regions.items(),
                    editable,
                    at as int,
                ),
            decreases at,
        {
            at -= 1;
        }
        let mut offset: usize = 0;
        let mut node: Option<I> = None;
        if at > 0 {
            offset = regions.regions[at - 1].range.start;
            node = Some(copy_id(&regions.regions[at - 1].id));
        }
        assert(last_editable(regions.items()) == at - 1);
        let mut anchors = AnchorStore::new();
        let cursor = anchors.create_for_node(offset, AnchorBias::Right, node, Affinity::After);
        let projection = DocumentProjection::identity(len);
        let projection_map = ProjectionMap::new(&text, &projection);
        let model = DocumentModel {
            text,
            revision: DocumentRevision(0),
            regions,
            anchors,
            selection: DocumentSelection { anchor: cursor, head: cursor },
            marked: None,
            projection,
            projection_map,
            blocks: Vec::new(),
            anchored_blocks: Vec::new(),
            styles: DocumentStyles::none(),
            resolved_styles: ResolvedDocumentStyles::none(),
        };
        proof {
            let view = model@;
            assert(view =~= ModelView::initial(bytes, given));
            assert(view.anchors_fit()) by {
                assert(at_boundary(bytes, 0));
                if at > 0 {
                    assert(at_boundary(bytes, view.regions[at - 1].start()));
                }
            }
        }
        Ok(model)
    }

    pub fn text(&self) -> (text: String)
        ensures
            encode_utf8(text@) == self@.bytes,
    {
        self.text.text()
    }

    pub fn revision(&self) -> (revision: DocumentRevision)
        ensures
            revision == self@.revision,
    {
        self.revision
    }

    /// The regions in source order.
    pub fn regions(&self) -> (regions: &[DocumentRegion<I>])
        ensures
            regions@ == self@.regions,
    {
        self.regions.as_slice()
    }

    /// The blocks in source order.
    pub fn blocks(&self) -> (blocks: &[DocumentBlock<I>])
        ensures
            blocks@ == self@.blocks,
    {
        self.blocks.as_slice()
    }

    /// The rows that stand at positions.
    pub fn anchored_blocks(&self) -> (blocks: &[AnchoredBlock<I>])
        ensures
            blocks@ == self@.anchored,
    {
        self.anchored_blocks.as_slice()
    }

    pub fn styles(&self) -> (styles: &DocumentStyles)
        ensures
            styles@ == self@.styles,
    {
        &self.styles
    }

    /// The styles and the display that they cover.
    pub fn resolved_styles(&self) -> (styles: &ResolvedDocumentStyles)
        ensures
            styles@ == self@.resolved,
    {
        &self.resolved_styles
    }

    pub fn display_text(&self) -> (text: &str)
        requires
            self.wf(),
        ensures
            text.spec_bytes() == self@.display(),
    {
        self.projection_map.display_text()
    }

    pub fn source_to_display(&self, offset: usize, affinity: Affinity) -> (display: Option<usize>)
        requires
            self.wf(),
        ensures
            int_of(display) == self@.projection.source_to_display(offset as int, affinity),
            display matches Some(d) ==> d <= self@.display().len(),
    {
        self.projection_map.source_to_display(offset, affinity)
    }

    pub fn display_to_source(&self, offset: usize, affinity: Affinity) -> (source: Option<usize>)
        requires
            self.wf(),
        ensures
            int_of(source) == self@.projection.display_to_source(offset as int, affinity),
    {
        self.projection_map.display_to_source(offset, affinity)
    }

    // -----------------------------------------------------------------------
    // Positions
    // -----------------------------------------------------------------------

    pub fn region_index(&self, id: &I) -> (index: Option<usize>)
        requires
            self.wf(),
        ensures
            int_of(index) == region_index_of(self@.regions, *id),
            index matches Some(i) ==> i < self@.regions.len() && self@.regions[i as int].spec_id()
                == *id,
    {
        find_region(self.regions.as_slice(), id, Ghost(self@.bytes.len() as int))
    }

    pub fn position_for_offset(&self, offset: usize, affinity: Affinity) -> (position: Result<
        DocumentPosition<I>,
        PositionError,
    >)
        requires
            self.wf(),
        ensures
            position == self@.position_for_offset(offset as int, affinity),
    {
        find_position(&self.text, &self.regions, offset, affinity)
    }

    pub fn resolve_position(&self, position: &DocumentPosition<I>) -> (offset: Result<
        usize,
        PositionError,
    >)
        requires
            self.wf(),
        ensures
            offset == self@.resolve_position(*position),
    {
        find_offset(&self.text, &self.regions, position)
    }

    pub fn position_for_anchor(&self, anchor: DocumentAnchor) -> (position: Result<
        DocumentPosition<I>,
        PositionError,
    >)
        requires
            self.wf(),
            self@.is_live(anchor),
        ensures
            position == self@.position_for_anchor(anchor),
    {
        match self.anchors.record(anchor) {
            None => Err(PositionError::NodeNotFound),
            Some(record) => {
                if let Some(node_id) = &record.node_id {
                    if let Some(index) = self.region_index(node_id) {
                        let range = self.regions.regions[index].range();
                        if range.start <= record.offset && record.offset <= range.end {
                            return Ok(
                                DocumentPosition {
                                    node_id: copy_id(node_id),
                                    offset: record.offset - range.start,
                                    affinity: record.affinity,
                                },
                            );
                        }
                    }
                }
                self.position_for_offset(record.offset, record.affinity)
            },
        }
    }

    // -----------------------------------------------------------------------
    // Selection
    // -----------------------------------------------------------------------

    /// The offset of a live anchor.
    pub(crate) fn offset_of(&self, anchor: DocumentAnchor) -> (offset: usize)
        requires
            self.wf(),
            self@.is_live(anchor),
        ensures
            offset == self@.anchors[anchor].spec_offset(),
            at_boundary(self@.bytes, offset as int),
    {
        match self.anchors.resolve(anchor) {
            Some(offset) => offset,
            None => 0,
        }
    }

    pub fn selection_offsets(&self) -> (offsets: (usize, usize))
        requires
            self.wf(),
        ensures
            offsets.0 == self@.anchor_offset(),
            offsets.1 == self@.cursor(),
            at_boundary(self@.bytes, offsets.0 as int),
            at_boundary(self@.bytes, offsets.1 as int),
    {
        (self.offset_of(self.selection.anchor), self.offset_of(self.selection.head))
    }

    pub fn selected_range(&self) -> (range: Range<usize>)
        requires
            self.wf(),
        ensures
            (range.start as int, range.end as int) == self@.selected(),
            boundary_range(self@.bytes, range),
    {
        let (anchor, head) = self.selection_offsets();
        if anchor <= head {
            anchor..head
        } else {
            head..anchor
        }
    }

    pub fn selection_reversed(&self) -> (reversed: bool)
        requires
            self.wf(),
        ensures
            reversed == (self@.cursor() < self@.anchor_offset()),
    {
        let (anchor, head) = self.selection_offsets();
        head < anchor
    }

    pub fn cursor(&self) -> (cursor: usize)
        requires
            self.wf(),
        ensures
            cursor == self@.cursor(),
            at_boundary(self@.bytes, cursor as int),
    {
        self.offset_of(self.selection.head)
    }

    /// Ends the anchors of a selection.
    fn release_selection(&mut self, selection: DocumentSelection)
        requires
            old(self).fits(),
        ensures
            final(self).fits(),
            final(self)@ == old(self)@.released(selection),
    {
        let ghost before = self@;
        self.anchors.remove(selection.anchor);
        if selection.head != selection.anchor {
            self.anchors.remove(selection.head);
        }
        proof {
            assert(self@.anchors =~= before.released(selection).anchors);
            assert(self@ =~= before.released(selection));
        }
    }

    /// Makes an anchor.
    pub(crate) fn create_anchor(
        &mut self,
        offset: usize,
        bias: AnchorBias,
        node_id: Option<I>,
        affinity: Affinity,
    ) -> (anchor: DocumentAnchor)
        requires
            old(self).fits(),
        ensures
            final(self).fits(),
            final(self)@ == old(self)@.anchored_at(offset as int, bias, node_id, affinity),
            anchor == old(self)@.next_anchor(),
    {
        self.anchors.create_for_node(offset, bias, node_id, affinity)
    }

    /// Makes an anchor in the node that owns its offset.
    fn selection_anchor(&mut self, offset: usize, bias: AnchorBias, affinity: Affinity) -> (anchor:
        DocumentAnchor)
        requires
            old(self).fits(),
            regions_valid(old(self)@.regions, old(self)@.bytes.len() as int),
            old(self)@.bytes.len() <= isize::MAX,
        ensures
            final(self).fits(),
            final(self)@ == old(self)@.anchored_in_owner(offset as int, bias, affinity),
            anchor == old(self)@.next_anchor(),
    {
        let node_id = match find_position(&self.text, &self.regions, offset, affinity) {
            Ok(position) => Some(position.node_id),
            Err(_) => None,
        };
        self.create_anchor(offset, bias, node_id, affinity)
    }

    pub fn collapse_selection(&mut self, offset: usize)
        requires
            old(self).wf(),
            old(self)@.has_room(1),
            at_boundary(old(self)@.bytes, offset as int),
        ensures
            final(self).wf(),
            final(self)@ == old(self)@.collapsed(offset as int),
    {
        let ghost before = self@;
        self.release_selection(self.selection);
        let cursor = self.selection_anchor(offset, AnchorBias::Right, Affinity::After);
        self.selection = DocumentSelection { anchor: cursor, head: cursor };
        proof {
            assert(self@ =~= before.collapsed(offset as int));
            lemma_reselected(before, self@);
        }
    }

    pub fn replace_selection(&mut self, anchor_offset: usize, head_offset: usize)
        requires
            old(self).wf(),
            old(self)@.has_room(2),
            at_boundary(old(self)@.bytes, anchor_offset as int),
            at_boundary(old(self)@.bytes, head_offset as int),
        ensures
            final(self).wf(),
            final(self)@ == old(self)@.with_selection(anchor_offset as int, head_offset as int),
    {
        if anchor_offset == head_offset {
            self.collapse_selection(head_offset);
            return;
        }
        let ghost before = self@;
        self.release_selection(self.selection);
        let reversed = head_offset < anchor_offset;
        let anchor = self.selection_anchor(
            anchor_offset,
            AnchorBias::Left,
            if reversed {
                Affinity::Before
            } else {
                Affinity::After
            },
        );
        let head = self.selection_anchor(
            head_offset,
            AnchorBias::Right,
            if reversed {
                Affinity::After
            } else {
                Affinity::Before
            },
        );
        self.selection = DocumentSelection { anchor, head };
        proof {
            assert(self@ =~= before.with_selection(anchor_offset as int, head_offset as int));
            lemma_reselected(before, self@);
        }
    }

    pub fn replace_selection_positions(
        &mut self,
        anchor: DocumentPosition<I>,
        head: DocumentPosition<I>,
    ) -> (result: Result<(), PositionError>)
        requires
            old(self).wf(),
            old(self)@.has_room(2),
        ensures
            final(self).wf(),
            match result {
                Ok(()) => {
                    &&& old(self)@.positions_fault(anchor, head) is None
                    &&& final(self)@ == old(self)@.with_positions(anchor, head)
                },
                Err(error) => {
                    &&& old(self)@.positions_fault(anchor, head) == Some(error)
                    &&& final(self)@ == old(self)@
                },
            },
    {
        let ghost before = self@;
        let anchor_offset = match self.resolve_position(&anchor) {
            Ok(offset) => offset,
            Err(error) => {
                return Err(error);
            },
        };
        let head_offset = match self.resolve_position(&head) {
            Ok(offset) => offset,
            Err(error) => {
                return Err(error);
            },
        };
        proof {
            lemma_resolved(before, anchor);
            lemma_resolved(before, head);
        }
        self.release_selection(self.selection);
        if same_position(&anchor, &head) {
            let cursor = self.create_anchor(
                head_offset,
                AnchorBias::Right,
                Some(copy_id(&head.node_id)),
                head.affinity,
            );
            self.selection = DocumentSelection { anchor: cursor, head: cursor };
        } else {
            let first = self.create_anchor(
                anchor_offset,
                AnchorBias::Left,
                Some(copy_id(&anchor.node_id)),
                anchor.affinity,
            );
            let second = self.create_anchor(
                head_offset,
                AnchorBias::Right,
                Some(copy_id(&head.node_id)),
                head.affinity,
            );
            self.selection = DocumentSelection { anchor: first, head: second };
        }
        proof {
            assert(self@ =~= before.with_positions(anchor, head));
            lemma_reselected(before, self@);
        }
        Ok(())
    }

    pub fn select_in_region(&mut self, index: usize, anchor: usize, head: usize)
        requires
            old(self).wf(),
            old(self)@.has_room(2),
            index < old(self)@.regions.len(),
            region_offset(old(self)@, index as int, anchor as int),
            region_offset(old(self)@, index as int, head as int),
        ensures
            final(self).wf(),
            final(self)@ == old(self)@.selected_in_region(
                index as int,
                anchor as int,
                head as int,
            ),
    {
        proof {
            lemma_region_position(self@, index as int, anchor as int);
            lemma_region_position(self@, index as int, head as int);
        }
        let region = &self.regions.regions[index];
        let anchor = DocumentPosition {
            node_id: copy_id(&region.id),
            offset: anchor,
            affinity: Affinity::After,
        };
        let head = DocumentPosition {
            node_id: copy_id(&region.id),
            offset: head,
            affinity: Affinity::After,
        };
        let _ = self.replace_selection_positions(anchor, head);
    }

    pub fn set_marked_range(&mut self, range: Option<Range<usize>>)
        requires
            old(self).wf(),
            old(self)@.has_room(2),
            range matches Some(range) ==> at_boundary(old(self)@.bytes, range.start as int)
                && at_boundary(old(self)@.bytes, range.end as int),
        ensures
            final(self).wf(),
            final(self)@ == old(self)@.with_marked(range_ends(range)),
    {
        let ghost before = self@;
        let ghost free = match before.marked {
            Some(marked) => ModelView { marked: None, ..before.released(marked) },
            None => before,
        };
        if let Some(marked) = self.marked {
            self.release_selection(marked);
            self.marked = None;
        }
        assert(self@ =~= free);
        assert(self@.wf());
        if let Some(range) = range {
            let node_id = match self.position_for_anchor(self.selection.head) {
                Ok(position) => Some(position.node_id),
                Err(_) => None,
            };
            let other = match &node_id {
                Some(id) => Some(copy_id(id)),
                None => None,
            };
            let start = self.create_anchor(
                range.start,
                AnchorBias::Left,
                other,
                Affinity::After,
            );
            let end = self.create_anchor(range.end, AnchorBias::Right, node_id, Affinity::Before);
            self.marked = Some(DocumentSelection { anchor: start, head: end });
            assert(self@ =~= before.with_marked(range_ends(Some(range))));
            assert(self@.wf());
        }
    }

    /// Marks nothing.
    pub(crate) fn clear_marked(&mut self)
        requires
            old(self).wf(),
        ensures
            final(self).wf(),
            final(self)@ == old(self)@.with_marked(None),
    {
        let ghost before = self@;
        if let Some(marked) = self.marked {
            self.release_selection(marked);
            self.marked = None;
        }
        assert(self@ =~= before.with_marked(None));
    }

    pub fn marked_range(&self) -> (range: Option<Range<usize>>)
        requires
            self.wf(),
        ensures
            range_ends(range) == self@.marked_range(),
            range matches Some(range) ==> boundary_range(self@.bytes, range),
    {
        match self.marked {
            None => None,
            Some(marked) => {
                let start = self.offset_of(marked.anchor);
                let end = self.offset_of(marked.head);
                Some(
                    if start <= end {
                        start..end
                    } else {
                        end..start
                    },
                )
            },
        }
    }
}

/// An offset in a region that lies between characters.
pub open spec fn region_offset<I>(m: ModelView<I>, index: int, offset: int) -> bool {
    &&& 0 <= offset <= m.regions[index].end() - m.regions[index].start()
    &&& at_boundary(m.bytes, m.regions[index].start() + offset)
}

/// A position that resolves lies between characters.
pub proof fn lemma_resolved<I>(m: ModelView<I>, position: DocumentPosition<I>)
    requires
        m.wf(),
        m.resolve_position(position) is Ok,
    ensures
        at_boundary(m.bytes, m.resolve_position(position)->Ok_0 as int),
        region_index_of(m.regions, position.spec_node_id()) matches Some(at) && 0 <= at < m.regions.len()
            && m.regions[at].start() <= m.resolve_position(position)->Ok_0 <= m.regions[at].end(),
{
    let at = region_index_of(m.regions, position.node_id)->0;
    assert(0 <= at < m.regions.len());
    assert(m.regions[at].start() <= m.regions[at].end() <= m.bytes.len());
}

/// Offsets of a region between characters resolve.
pub proof fn lemma_region_position<I>(m: ModelView<I>, index: int, offset: int)
    requires
        m.wf(),
        0 <= index < m.regions.len(),
        region_offset(m, index, offset),
    ensures
        m.resolve_position(m.region_position(index, offset)) == Ok::<usize, PositionError>(
            (m.regions[index].start() + offset) as usize,
        ),
{
    lemma_region_index(m.regions, m.bytes.len() as int, index);
    assert(m.regions[index].start() <= m.regions[index].end() <= m.bytes.len());
}

/// Another selection at fresh anchors between characters keeps a document
/// valid.
proof fn lemma_reselected<I>(before: ModelView<I>, after: ModelView<I>)
    requires
        before.wf(),
        before.has_room(2) || (before.has_room(1) && after.next_id == before.next_id + 1),
        after == (ModelView {
            next_id: after.next_id,
            anchors: after.anchors,
            selection: after.selection,
            ..before
        }),
        after.next_id == before.next_id + 1 || after.next_id == before.next_id + 2,
        forall|a: DocumentAnchor| #[trigger]
            after.anchors.dom().contains(a) ==> {
                ||| before.anchors.dom().contains(a) && after.anchors[a] == before.anchors[a]
                ||| before.next_id <= a.spec_id() < after.next_id && at_boundary(
                    before.bytes,
                    after.anchors[a].spec_offset(),
                )
            },
        forall|a: DocumentAnchor| #[trigger]
            before.anchors.dom().contains(a) && !ModelView::<I>::selects(before.selection, a)
                ==> after.anchors.dom().contains(a),
        after.selection_live(after.selection),
        before.next_id <= after.selection.spec_anchor().spec_id(),
        before.next_id <= after.selection.spec_head().spec_id(),
    ensures
        after.wf(),
{
    assert(after.anchors_fit());
    if let Some(marked) = before.marked {
        assert(before.is_live(marked.spec_anchor()) && before.is_live(marked.spec_head()));
    }
}

/// The position of a source offset, relative to the region that owns it.
pub(crate) fn find_position<I: Clone + Eq>(
    text: &SourceText,
    regions: &DocumentRegions<I>,
    offset: usize,
    affinity: Affinity,
) -> (position: Result<DocumentPosition<I>, PositionError>)
    requires
        lawful_id::<I>(),
    ensures
        position == position_in(text.bytes(), regions.items(), offset as int, affinity),
{
    let len = text.len();
    if offset > len {
        return Err(PositionError::SourceOffsetOutOfBounds { offset, source_len: len });
    }
    if !text.is_boundary(offset) {
        return Err(PositionError::InvalidBoundary { offset });
    }
    let ghost items = regions.items();
    let ghost test = region_at::<I>(offset as int);
    let count = regions.regions.len();
    if affinity == Affinity::Before {
        let mut i: usize = 0;
        while i < count
            invariant
                lawful_id::<I>(),
                i <= count,
                count == regions.regions.len(),
                items == regions.items(),
                test == region_at::<I>(offset as int),
                affinity == Affinity::Before,
                offset <= text.bytes().len(),
                at_boundary(text.bytes(), offset as int),
                forall|k: int| 0 <= k < i ==> !(#[trigger] test(items[k])),
            decreases count - i,
        {
            let region = &regions.regions[i];
            if region.range.start <= offset && offset <= region.range.end {
                proof {
                    assert(test(items[i as int]));
                    lemma_first_where_is(items, test, 0, i as int);
                }
                return Ok(
                    DocumentPosition {
                        node_id: copy_id(&region.id),
                        offset: offset - region.range.start,
                        affinity,
                    },
                );
            }
            assert(!test(items[i as int]));
            i += 1;
        }
        proof {
            lemma_first_where_is(items, test, 0, count as int);
        }
    } else {
        let mut i: usize = count;
        while i > 0
            invariant
                lawful_id::<I>(),
                i <= count,
                count == regions.regions.len(),
                items == regions.items(),
                test == region_at::<I>(offset as int),
                affinity == Affinity::After,
                offset <= text.bytes().len(),
                at_boundary(text.bytes(), offset as int),
                last_where(items, test, count as int) == last_where(items, test, i as int),
            decreases i,
        {
            let region = &regions.regions[i - 1];
            if region.range.start <= offset && offset <= region.range.end {
                assert(test(items[i - 1]));
                return Ok(
                    DocumentPosition {
                        node_id: copy_id(&region.id),
                        offset: offset - region.range.start,
                        affinity,
                    },
                );
            }
            assert(!test(items[i - 1]));
            i -= 1;
        }
    }
    Err(PositionError::NodeNotFound)
}

/// The source offset of a position.
pub(crate) fn find_offset<I: Clone + Eq>(
    text: &SourceText,
    regions: &DocumentRegions<I>,
    position: &DocumentPosition<I>,
) -> (offset: Result<usize, PositionError>)
    requires
        lawful_id::<I>(),
        regions_valid(regions.items(), text.bytes().len() as int),
        text.bytes().len() <= isize::MAX,
    ensures
        offset == resolve_in(text.bytes(), regions.items(), *position),
{
    match find_region(
        regions.as_slice(),
        &position.node_id,
        Ghost(text.bytes().len() as int),
    ) {
        None => Err(PositionError::NodeNotFound),
        Some(index) => {
            let range = regions.regions[index].range();
            assert(regions.items()[index as int].start() <= regions.items()[index as int].end()
                <= text.bytes().len());
            let node_len = range.end - range.start;
            if position.offset > node_len {
                return Err(
                    PositionError::NodeOffsetOutOfBounds { offset: position.offset, node_len },
                );
            }
            let offset = range.start + position.offset;
            if !text.is_boundary(offset) {
                return Err(PositionError::InvalidBoundary { offset });
            }
            Ok(offset)
        },
    }
}

} // verus!
