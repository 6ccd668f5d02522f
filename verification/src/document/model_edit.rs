//! Presenting and editing a document's text.

use crate::document::anchored_block::{display_offset, AnchoredBlock, AnchoredBlockError};
use crate::document::anchors::{lemma_mapped_entries, AnchorRecord, AnchorStore};
use crate::document::block::{copy_blocks, transform_blocks, validate_blocks, DocumentBlock};
use crate::document::model::{
    capture_view, find_offset, range_ends, DocumentModel, RegionSelection, RelativeSelection,
};
use crate::document::model_lemmas::{
    lemma_carried_projection, lemma_edited_in_wf, lemma_regions_grown, lemma_spans_spare,
};
use crate::document::model_view::{
    anchors_edited, anchors_reconciled, edit_on_boundaries, owner_of, reconciled_record, region_at,
    row_fault, row_id_taken, row_in, rows_fault, ModelView, RelativeView,
};
use crate::document::outcome::{DocumentEditRejection, PresentationError, RoutingOutcome};
use crate::document::position::{
    shift_offset, Affinity, DocumentAnchor, DocumentPosition, DocumentSelection, PositionError,
};
use crate::document::projection::{DocumentProjection, ProjectionError, ProjectionView};
use crate::document::projection_map::{int_of, ProjectionMap};
use crate::document::region::{
    find_region, lemma_region_index, region_index_of, regions_valid, DocumentRegion,
    DocumentRegions, EditPolicy,
};
use crate::document::resolve::{resolve_document_styles, ResolvedDocumentStyles};
use crate::document::style::{no_styles, DocumentStyles, StylesView};
use crate::document::transaction::{
    applicable, edited, edits_addressable, edits_conflict, edits_fit, edits_inside,
    edits_on_boundaries, inserted_len, lemma_edited, lemma_net_growth_within, net_growth,
    EditTransaction, TextEdit,
};
use crate::document::validate::{lemma_projection_fits, valid_source_range, validate_projection};
use crate::identity::{copy_id, lawful_id, same_id};
use crate::order::sort_stable;
use crate::scan::{
    first_fault, last_where, lemma_first_where, lemma_first_where_is, lemma_last_where,
};
use crate::text::{at_boundary, boundary_range, SourceText};
use std::ops::Range;
use vstd::prelude::*;
use vstd::string::*;
use vstd::utf8::*;

verus! {

/// Whether an id is used by a region or by an earlier anchored block.
fn check_row_id<I: Clone + Eq>(
    regions: &DocumentRegions<I>,
    anchored: &Vec<AnchoredBlock<I>>,
    index: usize,
    Ghost(len): Ghost<int>,
) -> (taken: bool)
    requires
        lawful_id::<I>(),
        regions_valid(regions.items(), len),
        index < anchored.len(),
    ensures
        taken == row_id_taken(regions.items(), anchored@, index as int),
{
    let id = &anchored[index].id;
    if find_region(regions.as_slice(), id, Ghost(len)).is_some() {
        return true;
    }
    let mut i: usize = 0;
    while i < index
        invariant
            lawful_id::<I>(),
            i <= index < anchored.len(),
            *id == anchored@[index as int].spec_id(),
            region_index_of(regions.items(), *id) is None,
            forall|j: int| 0 <= j < i ==> (#[trigger] anchored@[j]).spec_id() != *id,
        decreases index - i,
    {
        if same_id(&anchored[i].id, id) {
            assert(anchored@[i as int].spec_id() == anchored@[index as int].spec_id());
            return true;
        }
        i += 1;
    }
    false
}

/// Where an anchored row is placed.
pub(crate) fn place_row<I: Clone + Eq>(
    text: &SourceText,
    regions: &DocumentRegions<I>,
    map: &ProjectionMap,
    block: &AnchoredBlock<I>,
) -> (place: Result<(usize, usize), AnchoredBlockError>)
    requires
        lawful_id::<I>(),
        regions_valid(regions.items(), text.bytes().len() as int),
        text.bytes().len() <= isize::MAX,
        map.wf(),
        map.source() == text.bytes(),
    ensures
        match place {
            Ok(place) => row_in(text.bytes(), regions.items(), map.projection(), *block) == Ok::<
                (int, int),
                AnchoredBlockError,
            >((place.0 as int, place.1 as int)),
            Err(error) => row_in(text.bytes(), regions.items(), map.projection(), *block) == Err::<
                (int, int),
                AnchoredBlockError,
            >(error),
        },
{
    let resolved = find_offset(text, regions, &block.position);
    let projected = match resolved {
        Ok(source) => map.source_to_display(source, block.position.affinity),
        Err(_) => None,
    };
    display_offset(resolved, projected, map.display_text())
}

/// Whether anchored rows can be shown.
fn validate_rows<I: Clone + Eq>(
    text: &SourceText,
    regions: &DocumentRegions<I>,
    map: &ProjectionMap,
    anchored: &Vec<AnchoredBlock<I>>,
) -> (result: Result<(), AnchoredBlockError>)
    requires
        lawful_id::<I>(),
        regions_valid(regions.items(), text.bytes().len() as int),
        text.bytes().len() <= isize::MAX,
        map.wf(),
        map.source() == text.bytes(),
    ensures
        match result {
            Ok(()) => rows_fault(text.bytes(), regions.items(), map.projection(), anchored@) is None,
            Err(error) => rows_fault(text.bytes(), regions.items(), map.projection(), anchored@)
                == Some(error),
        },
{
    let ghost fault = row_fault(text.bytes(), regions.items(), map.projection(), anchored@);
    let mut i: usize = 0;
    while i < anchored.len()
        invariant
            lawful_id::<I>(),
            regions_valid(regions.items(), text.bytes().len() as int),
            text.bytes().len() <= isize::MAX,
            map.wf(),
            map.source() == text.bytes(),
            i <= anchored.len(),
            fault == row_fault(text.bytes(), regions.items(), map.projection(), anchored@),
            rows_fault(text.bytes(), regions.items(), map.projection(), anchored@) == first_fault(
                fault,
                i as int,
                anchored@.len() as int,
            ),
        decreases anchored.len() - i,
    {
        if check_row_id(regions, anchored, i, Ghost(text.bytes().len() as int)) {
            assert(fault(i as int) == Some(AnchoredBlockError::DuplicateId));
            return Err(AnchoredBlockError::DuplicateId);
        }
        let block = &anchored[i];
        match find_offset(text, regions, &block.position) {
            Err(error) => {
                assert(fault(i as int) == Some(AnchoredBlockError::InvalidPosition(error)));
                return Err(AnchoredBlockError::InvalidPosition(error));
            },
            Ok(_) => {},
        }
        if let Some(at) = find_region(
            regions.as_slice(),
            &block.position.node_id,
            Ghost(text.bytes().len() as int),
        ) {
            let policy = regions.regions[at].policy;
            if !(policy == EditPolicy::Readonly || policy == EditPolicy::Routed) {
                assert(fault(i as int) == Some(AnchoredBlockError::EditableRegion));
                return Err(AnchoredBlockError::EditableRegion);
            }
        }
        match place_row(text, regions, map, block) {
            Err(error) => {
                assert(fault(i as int) == Some(error));
                return Err(error);
            },
            Ok(_) => {},
        }
        assert(fault(i as int) is None);
        i += 1;
    }
    Ok(())
}

impl<I: Clone + Eq> DocumentModel<I> {
    pub fn set_projection(&mut self, projection: DocumentProjection) -> (result: Result<
        (),
        ProjectionError,
    >)
        requires
            old(self).wf(),
            projection@.valid(),
        ensures
            final(self).wf(),
            match result {
                Ok(()) => {
                    &&& old(self)@.set_projection_fault(projection@) is None
                    &&& final(self)@ == old(self)@.with_projection(projection@)
                },
                Err(error) => {
                    &&& old(self)@.set_projection_fault(projection@) == Some(error)
                    &&& final(self)@ == old(self)@
                },
            },
    {
        if self.blocks.len() > 0 || self.anchored_blocks.len() > 0 {
            return Err(ProjectionError::BlocksRequirePresentation);
        }
        match validate_projection(&projection, &self.regions, &self.text) {
            Ok(()) => {},
            Err(error) => {
                return Err(error);
            },
        }
        proof {
            lemma_projection_fits(projection@, self@.regions, self@.bytes);
        }
        self.projection_map = ProjectionMap::new(&self.text, &projection);
        self.projection = projection;
        self.styles = DocumentStyles::none();
        self.resolved_styles = ResolvedDocumentStyles::none();
        proof {
            assert(self@ =~= old(self)@.with_projection(projection@));
        }
        Ok(())
    }

    pub fn set_presentation(
        &mut self,
        projection: DocumentProjection,
        blocks: Vec<DocumentBlock<I>>,
    ) -> (result: Result<(), PresentationError>)
        requires
            old(self).wf(),
            projection@.valid(),
        ensures
            final(self).wf(),
            presented_result(
                old(self)@,
                final(self)@,
                result,
                projection@,
                blocks@,
                Seq::empty(),
                no_styles(),
            ),
    {
        self.set_rich_presentation(projection, blocks, DocumentStyles::none())
    }

    pub fn set_rich_presentation(
        &mut self,
        projection: DocumentProjection,
        blocks: Vec<DocumentBlock<I>>,
        styles: DocumentStyles,
    ) -> (result: Result<(), PresentationError>)
        requires
            old(self).wf(),
            projection@.valid(),
        ensures
            final(self).wf(),
            presented_result(
                old(self)@,
                final(self)@,
                result,
                projection@,
                blocks@,
                Seq::empty(),
                styles@,
            ),
    {
        self.set_rich_presentation_with_anchors(projection, blocks, Vec::new(), styles)
    }

    /// Replaces the whole presentation, or nothing.
    pub fn set_rich_presentation_with_anchors(
        &mut self,
        projection: DocumentProjection,
        blocks: Vec<DocumentBlock<I>>,
        anchored_blocks: Vec<AnchoredBlock<I>>,
        styles: DocumentStyles,
    ) -> (result: Result<(), PresentationError>)
        requires
            old(self).wf(),
            projection@.valid(),
        ensures
            final(self).wf(),
            presented_result(
                old(self)@,
                final(self)@,
                result,
                projection@,
                blocks@,
                anchored_blocks@,
                styles@,
            ),
    {
        let ghost given = blocks@;
        let mut blocks = blocks;
        sort_stable(&mut blocks);
        match validate_projection(&projection, &self.regions, &self.text) {
            Ok(()) => {},
            Err(error) => {
                return Err(PresentationError::Projection(error));
            },
        }
        match validate_blocks(blocks.as_slice(), &self.regions, &projection, self.text.len()) {
            Ok(()) => {},
            Err(error) => {
                return Err(PresentationError::Blocks(error));
            },
        }
        proof {
            lemma_projection_fits(projection@, self@.regions, self@.bytes);
        }
        let projection_map = ProjectionMap::new(&self.text, &projection);
        match validate_rows(&self.text, &self.regions, &projection_map, &anchored_blocks) {
            Ok(()) => {},
            Err(error) => {
                return Err(PresentationError::AnchoredBlocks(error));
            },
        }
        let resolved_styles = match resolve_document_styles(
            &self.text,
            &self.regions,
            &projection_map,
            &styles,
        ) {
            Ok(resolved) => resolved,
            Err(error) => {
                return Err(PresentationError::Styles(error));
            },
        };
        self.projection_map = projection_map;
        self.projection = projection;
        self.blocks = blocks;
        self.anchored_blocks = anchored_blocks;
        self.styles = styles;
        self.resolved_styles = resolved_styles;
        proof {
            assert(self@ =~= old(self)@.presented(
                projection@,
                given,
                anchored_blocks@,
                styles@,
            ));
        }
        Ok(())
    }
}

/// What becomes of a presentation that is set: all of it or nothing.
pub open(crate) spec fn presented_result<I>(
    before: ModelView<I>,
    after: ModelView<I>,
    result: Result<(), PresentationError>,
    projection: ProjectionView,
    blocks: Seq<DocumentBlock<I>>,
    anchored: Seq<AnchoredBlock<I>>,
    styles: StylesView,
) -> bool {
    match result {
        Ok(()) => {
            &&& before.presentation_fault(projection, blocks, anchored, styles) is None
            &&& after == before.presented(projection, blocks, anchored, styles)
        },
        Err(error) => {
            &&& before.presentation_fault(projection, blocks, anchored, styles) == Some(error)
            &&& after == before
        },
    }
}

// ---------------------------------------------------------------------------
// Routing
// ---------------------------------------------------------------------------

/// Edits in a region stay in it: all belong to the target.
pub proof fn lemma_target_region<I>(m: ModelView<I>, edits: Seq<TextEdit>, node: Option<I>)
    requires
        m.wf(),
        edits.len() > 0,
        forall|i: int| 0 <= i < edits.len() ==> (#[trigger] edits[i]).start() <= edits[i].end(),
        m.target_region(edits, node) is Ok,
    ensures
        ({
            let at = m.target_region(edits, node)->Ok_0;
            &&& 0 <= at < m.regions.len()
            &&& edits_inside(edits, m.regions[at].start(), m.regions[at].end())
        }),
    decreases edits.len(),
{
    let at = m.target_region(edits, node)->Ok_0;
    let last = edits.last();
    let front = edits.drop_last();
    assert(edits[edits.len() - 1] == last);
    assert(m.region_for_edit(last, node) == Some(at));
    lemma_region_for_edit(m, last, node);
    if edits.len() > 1 {
        assert forall|i: int| 0 <= i < front.len() implies (#[trigger] front[i]).start()
            <= front[i].end() by {
            assert(front[i] == edits[i]);
        }
        lemma_target_region(m, front, node);
        assert forall|i: int| 0 <= i < edits.len() implies m.regions[at].start() <= (
        #[trigger] edits[i]).start() && edits[i].end() <= m.regions[at].end() by {
            if i < front.len() {
                assert(front[i] == edits[i]);
            }
        }
    }
}

proof fn lemma_region_for_edit<I>(m: ModelView<I>, edit: TextEdit, node: Option<I>)
    requires
        m.wf(),
        edit.start() <= edit.end(),
    ensures
        m.region_for_edit(edit, node) matches Some(at) ==> 0 <= at < m.regions.len()
            && m.regions[at].start() <= edit.start() && edit.end() <= m.regions[at].end(),
{
    if node is None {
        lemma_region_for_range(m, edit.start(), edit.end());
    } else if let Some(at) = region_index_of(m.regions, node->0) {
        assert(0 <= at < m.regions.len());
    }
}

/// The region that a range belongs to holds the range.
pub proof fn lemma_region_for_range<I>(m: ModelView<I>, start: int, end: int)
    requires
        m.wf(),
        start <= end,
    ensures
        m.region_for_range(start, end) matches Some(at) ==> 0 <= at < m.regions.len()
            && m.regions[at].start() <= start && end <= m.regions[at].end(),
{
    if start >= end {
        let head = m.position_for_anchor(m.selection.spec_head());
        lemma_anchor_position(m, m.selection.spec_head());
        if start == m.cursor() && head is Ok && region_index_of(
            m.regions,
            head->Ok_0.node_id,
        ) is Some {
        } else {
            lemma_last_where(m.regions, region_at(start), m.regions.len() as int);
        }
    } else {
        let test = |r: DocumentRegion<I>| r.start() <= start && end <= r.end();
        lemma_first_where(m.regions, test, 0);
    }
}

/// The position of an anchor names the region and the place in it that the
/// anchor has.
pub proof fn lemma_anchor_position<I>(m: ModelView<I>, anchor: DocumentAnchor)
    requires
        m.wf(),
        m.is_live(anchor),
    ensures
        m.position_for_anchor(anchor) matches Ok(position) ==> {
            &&& region_index_of(m.regions, position.spec_node_id()) matches Some(at) && 0 <= at
                < m.regions.len() && m.regions[at].start() <= m.anchors[anchor].spec_offset()
                <= m.regions[at].end() && position.spec_offset() == m.anchors[anchor].spec_offset()
                - m.regions[at].start()
            &&& m.resolve_position(position) == Ok::<usize, PositionError>(
                m.anchors[anchor].spec_offset() as usize,
            )
        },
{
    let record = m.anchors[anchor];
    let offset = record.spec_offset();
    let len = m.bytes.len() as int;
    assert(at_boundary(m.bytes, offset));
    if let Some(id) = record.node_id {
        if let Some(at) = region_index_of(m.regions, id) {
            assert(0 <= at < m.regions.len() && m.regions[at].spec_id() == id);
            lemma_region_index(m.regions, len, at);
        }
    }
    lemma_offset_position(m, offset, record.affinity);
}

/// A position of an offset resolves to it.
pub proof fn lemma_offset_position<I>(m: ModelView<I>, offset: int, affinity: Affinity)
    requires
        m.wf(),
        0 <= offset <= m.bytes.len(),
    ensures
        m.position_for_offset(offset, affinity) matches Ok(position) ==> {
            &&& region_index_of(m.regions, position.spec_node_id()) matches Some(at) && 0 <= at
                < m.regions.len() && m.regions[at].start() <= offset <= m.regions[at].end()
                && position.spec_offset() == offset - m.regions[at].start()
            &&& position.spec_affinity() == affinity
            &&& m.resolve_position(position) == Ok::<usize, PositionError>(offset as usize)
        },
{
    let test = region_at::<I>(offset);
    lemma_first_where(m.regions, test, 0);
    lemma_last_where(m.regions, test, m.regions.len() as int);
    let at = owner_of(m.regions, offset, affinity);
    if 0 <= at < m.regions.len() {
        assert(test(m.regions[at]));
        lemma_region_index(m.regions, m.bytes.len() as int, at);
        assert(m.regions[at].start() <= m.regions[at].end() <= m.bytes.len());
    }
}

/// A position that an offset has resolves to that offset.
pub proof fn law_positions_resolve_to_their_offset<I>(m: ModelView<I>, offset: int, affinity: Affinity)
    requires
        m.wf(),
        0 <= offset <= m.bytes.len(),
        m.position_for_offset(offset, affinity) is Ok,
    ensures
        m.resolve_position(m.position_for_offset(offset, affinity)->Ok_0) == Ok::<
            usize,
            PositionError,
        >(offset as usize),
{
    lemma_offset_position(m, offset, affinity);
}

/// A position in a node that is gone does not resolve.
pub proof fn law_stale_positions_fail<I>(m: ModelView<I>, position: DocumentPosition<I>)
    requires
        m.wf(),
        forall|i: int|
            0 <= i < m.regions.len() ==> (#[trigger] m.regions[i]).spec_id()
                != position.spec_node_id(),
    ensures
        m.resolve_position(position) == Err::<usize, PositionError>(PositionError::NodeNotFound),
{
}

impl<I: Clone + Eq> DocumentModel<I> {
    /// Whether a transaction can be looked at.
    pub fn validate_transaction(&self, transaction: &EditTransaction) -> (result: Result<
        (),
        DocumentEditRejection,
    >)
        requires
            self.wf(),
        ensures
            match result {
                Ok(()) => {
                    &&& self@.transaction_rejection(*transaction) is None
                    &&& edits_on_boundaries(transaction.spec_edits(), self@.bytes)
                },
                Err(error) => self@.transaction_rejection(*transaction) == Some(error),
            },
    {
        if transaction.revision != self.revision {
            return Err(DocumentEditRejection::StaleRevision);
        }
        let mut i: usize = 0;
        while i < transaction.edits.len()
            invariant
                self.wf(),
                i <= transaction.edits.len(),
                transaction.spec_revision() == self@.revision,
                forall|k: int|
                    0 <= k < i ==> edit_on_boundaries(
                        #[trigger] transaction.spec_edits()[k],
                        self@.bytes,
                    ),
            decreases transaction.edits.len() - i,
        {
            let range = transaction.edits[i].range();
            if !valid_source_range(&self.text, &range) {
                assert(!edit_on_boundaries(transaction.spec_edits()[i as int], self@.bytes));
                return Err(DocumentEditRejection::InvalidBoundary);
            }
            i += 1;
        }
        Ok(())
    }

    /// The region that a range belongs to.
    pub fn region_for_range(&self, range: &Range<usize>) -> (index: Option<usize>)
        requires
            self.wf(),
        ensures
            int_of(index) == self@.region_for_range(range.start as int, range.end as int),
            index matches Some(i) ==> i < self@.regions.len(),
    {
        let ghost items = self@.regions;
        let count = self.regions.regions.len();
        if range.start >= range.end {
            if range.start == self.cursor() {
                if let Ok(position) = self.position_for_anchor(self.selection.head) {
                    if let Some(index) = self.region_index(&position.node_id) {
                        return Some(index);
                    }
                }
            }
            let ghost test = region_at::<I>(range.start as int);
            let mut i: usize = count;
            while i > 0
                invariant
                    self.wf(),
                    i <= count,
                    items == self@.regions,
                    count == items.len(),
                    test == region_at::<I>(range.start as int),
                    self@.region_for_range(range.start as int, range.end as int)
                        == self@.insertion_region(range.start as int),
                    last_where(items, test, count as int) == last_where(items, test, i as int),
                decreases i,
            {
                let region = &self.regions.regions[i - 1];
                if region.range.start <= range.start && range.start <= region.range.end {
                    assert(test(items[i - 1]));
                    return Some(i - 1);
                }
                assert(!test(items[i - 1]));
                i -= 1;
            }
            return None;
        }
        let ghost test = |r: DocumentRegion<I>|
            r.start() <= range.start as int && range.end as int <= r.end();
        let mut i: usize = 0;
        while i < count
            invariant
                self.wf(),
                i <= count,
                items == self@.regions,
                count == items.len(),
                range.start < range.end,
                test == (|r: DocumentRegion<I>|
                    r.start() <= range.start as int && range.end as int <= r.end()),
                forall|k: int| 0 <= k < i ==> !(#[trigger] test(items[k])),
            decreases count - i,
        {
            let region = &self.regions.regions[i];
            if region.range.start <= range.start && range.end <= region.range.end {
                proof {
                    assert(test(items[i as int]));
                    lemma_first_where_is(items, test, 0, i as int);
                }
                return Some(i);
            }
            assert(!test(items[i as int]));
            i += 1;
        }
        proof {
            lemma_first_where_is(items, test, 0, count as int);
        }
        None
    }

    /// The region that one edit belongs to.
    fn region_for_edit(&self, edit: &TextEdit, node_id: Option<&I>) -> (index: Option<usize>)
        requires
            self.wf(),
        ensures
            int_of(index) == self@.region_for_edit(*edit, node_of(node_id)),
            index matches Some(i) ==> i < self@.regions.len(),
    {
        let range = edit.range();
        match node_id {
            None => self.region_for_range(&range),
            Some(id) => match self.region_index(id) {
                None => None,
                Some(index) => {
                    let region = self.regions.regions[index].range();
                    if region.start <= range.start && range.end <= region.end {
                        Some(index)
                    } else {
                        None
                    }
                },
            },
        }
    }

    /// The one region that all edits belong to.
    pub fn target_region_for_transaction(
        &self,
        transaction: &EditTransaction,
        node_id: Option<&I>,
    ) -> (target: Result<usize, DocumentEditRejection>)
        requires
            self.wf(),
            transaction.wf(),
        ensures
            match target {
                Ok(at) => self@.target_region(transaction.spec_edits(), node_of(node_id)) == Ok::<
                    int,
                    DocumentEditRejection,
                >(at as int) && at < self@.regions.len(),
                Err(error) => self@.target_region(transaction.spec_edits(), node_of(node_id))
                    == Err::<int, DocumentEditRejection>(error),
            },
    {
        let ghost edits = transaction.spec_edits();
        let ghost node = node_of(node_id);
        let mut target: usize = 0;
        let mut i: usize = 0;
        while i < transaction.edits.len()
            invariant
                self.wf(),
                edits == transaction.spec_edits(),
                node == node_of(node_id),
                i <= transaction.edits.len(),
                i > 0 ==> self@.target_region(edits.subrange(0, i as int), node) == Ok::<
                    int,
                    DocumentEditRejection,
                >(target as int) && target < self@.regions.len(),
            decreases transaction.edits.len() - i,
        {
            let ghost part = edits.subrange(0, i + 1);
            proof {
                assert(part.drop_last() =~= edits.subrange(0, i as int));
                assert(part.last() == edits[i as int]);
            }
            match self.region_for_edit(&transaction.edits[i], node_id) {
                None => {
                    proof {
                        lemma_target_prefix(self@, edits, node, i + 1);
                    }
                    return Err(DocumentEditRejection::OutsideRegion);
                },
                Some(index) => {
                    if i > 0 && index != target {
                        proof {
                            lemma_target_prefix(self@, edits, node, i + 1);
                        }
                        return Err(DocumentEditRejection::CrossesRegions);
                    }
                    target = index;
                },
            }
            i += 1;
        }
        assert(edits.subrange(0, edits.len() as int) =~= edits);
        Ok(target)
    }

    /// Applies edits to an editable region, unless the presentation would no
    /// longer fit. Then nothing changes.
    pub fn apply_to_editable_region(&mut self, target: usize, transaction: &EditTransaction) -> (result:
        Result<(), DocumentEditRejection>)
        requires
            old(self).wf(),
            transaction.wf(),
            target < old(self)@.regions.len(),
            old(self)@.regions[target as int].spec_policy() == EditPolicy::Editable,
            edits_on_boundaries(transaction.spec_edits(), old(self)@.bytes),
            edits_inside(
                transaction.spec_edits(),
                old(self)@.regions[target as int].start(),
                old(self)@.regions[target as int].end(),
            ),
            edits_fit(old(self)@.bytes.len() as int, transaction.spec_edits()),
        ensures
            final(self).wf(),
            match result {
                Ok(()) => {
                    &&& old(self)@.edit_rejection(target as int, transaction.spec_edits()) is None
                    &&& final(self)@ == old(self)@.edited_in(
                        target as int,
                        transaction.spec_edits(),
                    )
                },
                Err(error) => {
                    &&& old(self)@.edit_rejection(target as int, transaction.spec_edits())
                        == Some(error)
                    &&& final(self)@ == old(self)@
                },
            },
    {
        let ghost m = self@;
        let ghost edits = transaction.spec_edits();
        let ghost next = m.edited_in(target as int, edits);
        proof {
            lemma_regions_grown(m, target as int, edits);
            lemma_spans_spare(m, target as int);
            lemma_addressable(m.bytes.len() as int, edits, m.bytes);
            let t = m.regions[target as int];
            assert(t.start() <= t.end() <= m.bytes.len());
            lemma_carried_projection(m.projection, edits, t.start(), t.end());
            lemma_net_growth_within(edits, t.start(), t.end());
            lemma_edited(m.bytes, edits);
        }
        let growth = edits_growth(transaction.edits.as_slice(), Ghost(m.bytes));
        let grown = self.grown_regions(target, growth);
        let regions = match DocumentRegions::new(grown, shift_offset(self.text.len(), growth)) {
            Ok(regions) => regions,
            Err(_) => {
                return Err(DocumentEditRejection::InvalidRegions);
            },
        };
        let mut text = self.text.copy();
        apply_edits(&mut text, transaction.edits.as_slice());
        let edit_slice = transaction.edits.as_slice();
        let projection = self.projection.transformed(edit_slice, text.len());
        let blocks = transform_blocks(self.blocks.as_slice(), edit_slice);
        assert(projection@ == next.projection);
        match validate_projection(&projection, &regions, &text) {
            Ok(()) => {},
            Err(_) => {
                return Err(DocumentEditRejection::InvalidPresentation);
            },
        }
        match validate_blocks(blocks.as_slice(), &regions, &projection, text.len()) {
            Ok(()) => {},
            Err(_) => {
                return Err(DocumentEditRejection::InvalidPresentation);
            },
        }
        proof {
            lemma_projection_fits(projection@, regions.items(), text.bytes());
        }
        let projection_map = ProjectionMap::new(&text, &projection);
        match validate_rows(&text, &regions, &projection_map, &self.anchored_blocks) {
            Ok(()) => {},
            Err(_) => {
                return Err(DocumentEditRejection::InvalidPresentation);
            },
        }
        let styles = self.styles.transformed(edit_slice);
        let resolved_styles = match resolve_document_styles(
            &text,
            &regions,
            &projection_map,
            &styles,
        ) {
            Ok(resolved) => resolved,
            Err(_) => {
                return Err(DocumentEditRejection::InvalidPresentation);
            },
        };
        proof {
            lemma_edited_in_wf(m, target as int, edits);
        }
        move_anchors(&mut self.anchors, edit_slice);
        self.text = text;
        self.projection = projection;
        self.projection_map = projection_map;
        self.blocks = blocks;
        self.styles = styles;
        self.resolved_styles = resolved_styles;
        self.regions = regions;
        self.reconcile_anchor_nodes();
        self.revision = self.revision.next();
        assert(self@ =~= next);
        Ok(())
    }

    /// Copies of the regions, of which one has grown.
    fn grown_regions(&self, target: usize, growth: isize) -> (grown: Vec<DocumentRegion<I>>)
        requires
            self.wf(),
        ensures
            grown@ == self@.regions_grown(target as int, growth as int),
    {
        let mut grown: Vec<DocumentRegion<I>> = Vec::new();
        let mut i: usize = 0;
        while i < self.regions.regions.len()
            invariant
                self.wf(),
                i <= self.regions.regions.len(),
                grown@ == self@.regions_grown(target as int, growth as int).subrange(0, i as int),
            decreases self.regions.regions.len() - i,
        {
            let region = &self.regions.regions[i];
            let mut range = region.range();
            if i == target {
                range = range.start..shift_offset(range.end, growth);
            } else if i > target {
                range = shift_offset(range.start, growth)..shift_offset(range.end, growth);
            }
            grown.push(DocumentRegion { id: copy_id(&region.id), range, policy: region.policy });
            assert(grown@ =~= self@.regions_grown(target as int, growth as int).subrange(
                0,
                i + 1,
            ));
            i += 1;
        }
        assert(grown@ =~= self@.regions_grown(target as int, growth as int));
        grown
    }

    /// Puts anchors back into their nodes.
    pub(crate) fn reconcile_anchor_nodes(&mut self)
        requires
            lawful_id::<I>(),
            old(self).anchors.wf(),
            regions_valid(old(self)@.regions, old(self)@.bytes.len() as int),
        ensures
            final(self).anchors.wf(),
            final(self)@ == (ModelView {
                anchors: anchors_reconciled(old(self)@.anchors, old(self)@.regions),
                ..old(self)@
            }),
            final(self).projection_map == old(self).projection_map,
            final(self).text == old(self).text,
            final(self).projection == old(self).projection,
    {
        let ghost before = self@;
        let ghost entries = self.anchors.entries@;
        let ghost regions = before.regions;
        let ghost f = |r: AnchorRecord<I>| reconciled_record(r, regions);
        let ghost len = before.bytes.len() as int;
        let mut i: usize = 0;
        while i < self.anchors.entries.len()
            invariant
                lawful_id::<I>(),
                regions_valid(regions, len),
                self.regions.items() == regions,
                i <= self.anchors.entries.len(),
                self.anchors.entries.len() == entries.len(),
                f == (|r: AnchorRecord<I>| reconciled_record(r, regions)),
                before.regions == regions,
                self@ == (ModelView { anchors: self@.anchors, ..before }),
                self.projection_map == old(self).projection_map,
                self.text == old(self).text,
                self.projection == old(self).projection,
                forall|k: int|
                    0 <= k < entries.len() ==> (#[trigger] self.anchors.entries@[k]).anchor
                        == entries[k].anchor,
                forall|k: int|
                    0 <= k < i ==> (#[trigger] self.anchors.entries@[k]).record == f(
                        entries[k].record,
                    ),
                forall|k: int|
                    i <= k < entries.len() ==> (#[trigger] self.anchors.entries@[k]).record
                        == entries[k].record,
            decreases self.anchors.entries.len() - i,
        {
            assert(self.anchors.entries@[i as int].record == entries[i as int].record);
            let mut offset = self.anchors.entries[i].record.offset;
            let mut gone = false;
            if let Some(id) = &self.anchors.entries[i].record.node_id {
                match find_region(self.regions.as_slice(), id, Ghost(len)) {
                    None => {
                        gone = true;
                    },
                    Some(at) => {
                        let range = self.regions.regions[at].range();
                        if offset < range.start {
                            offset = range.start;
                        } else if offset > range.end {
                            offset = range.end;
                        }
                    },
                }
            }
            if gone {
                self.anchors.entries[i].record.node_id = None;
            } else {
                self.anchors.entries[i].record.offset = offset;
            }
            i += 1;
        }
        proof {
            lemma_mapped_entries(entries, self.anchors.entries@, f);
            assert(self@ =~= (ModelView {
                anchors: anchors_reconciled(before.anchors, regions),
                ..before
            }));
        }
    }

    /// Routes a transaction, and applies it where it goes to an editable
    /// region. Rejected and routed transactions change nothing.
    pub fn route_and_apply(&mut self, transaction: &EditTransaction, node_id: Option<&I>) -> (outcome:
        RoutingOutcome<I>)
        requires
            old(self).wf(),
            transaction.wf(),
            edits_fit(old(self)@.bytes.len() as int, transaction.spec_edits()),
        ensures
            final(self).wf(),
            outcome == old(self)@.routing(*transaction, node_of(node_id)),
            final(self)@ == old(self)@.routed(*transaction, node_of(node_id)),
    {
        match self.validate_transaction(transaction) {
            Ok(()) => {},
            Err(error) => {
                return RoutingOutcome::Rejected(error);
            },
        }
        let target = match self.target_region_for_transaction(transaction, node_id) {
            Ok(target) => target,
            Err(error) => {
                return RoutingOutcome::Rejected(error);
            },
        };
        proof {
            lemma_target_region(self@, transaction.spec_edits(), node_of(node_id));
        }
        match self.regions.regions[target].policy {
            EditPolicy::Readonly => RoutingOutcome::Rejected(DocumentEditRejection::Readonly),
            EditPolicy::Atomic => RoutingOutcome::Rejected(DocumentEditRejection::Atomic),
            EditPolicy::Routed => RoutingOutcome::Routed(
                copy_id(&self.regions.regions[target].id),
            ),
            EditPolicy::Editable => match self.apply_to_editable_region(target, transaction) {
                Ok(()) => RoutingOutcome::Applied,
                Err(error) => RoutingOutcome::Rejected(error),
            },
        }
    }

    pub fn editable_range_for_cursor(&self) -> (range: Option<Range<usize>>)
        requires
            self.wf(),
        ensures
            range_ends(range) == self@.editable_range_for_cursor(),
            range matches Some(range) ==> boundary_range(self@.bytes, range),
    {
        let cursor = self.cursor();
        match self.region_for_range(&(cursor..cursor)) {
            None => None,
            Some(index) => {
                let region = &self.regions.regions[index];
                assert(self@.regions[index as int].start() <= self@.regions[index as int].end()
                    <= self@.bytes.len());
                assert(at_boundary(self@.bytes, self@.regions[index as int].start()));
                if region.policy == EditPolicy::Editable {
                    Some(region.range())
                } else {
                    None
                }
            },
        }
    }

    /// A selection relative to a region, if both its ends belong to it.
    fn capture_selection_in_region(&self, selection: DocumentSelection, index: usize) -> (capture:
        Option<RelativeSelection>)
        requires
            self.wf(),
            index < self@.regions.len(),
        ensures
            match capture {
                Some(capture) => self@.capture_in_region(selection, index as int) == Some(
                    RelativeView { anchor: capture.anchor as int, head: capture.head as int },
                ),
                None => self@.capture_in_region(selection, index as int) is None,
            },
    {
        let region = &self.regions.regions[index];
        let range = region.range();
        let anchor = match self.anchors.resolve(selection.anchor) {
            Some(offset) => offset,
            None => {
                return None;
            },
        };
        let head = match self.anchors.resolve(selection.head) {
            Some(offset) => offset,
            None => {
                return None;
            },
        };
        if !(range.start <= anchor && anchor <= range.end) || !(range.start <= head && head
            <= range.end) {
            return None;
        }
        match self.position_for_anchor(selection.anchor) {
            Ok(position) => {
                if !same_id(&position.node_id, &region.id) {
                    return None;
                }
            },
            Err(_) => {
                return None;
            },
        }
        match self.position_for_anchor(selection.head) {
            Ok(position) => {
                if !same_id(&position.node_id, &region.id) {
                    return None;
                }
            },
            Err(_) => {
                return None;
            },
        }
        Some(RelativeSelection { anchor: anchor - range.start, head: head - range.start })
    }

    /// A selection in an editable region.
    pub(crate) fn capture_selection(&self, selection: DocumentSelection) -> (capture: Option<
        RegionSelection<I>,
    >)
        requires
            self.wf(),
        ensures
            capture_view(capture) == self@.captured(selection),
    {
        let mut i: usize = 0;
        while i < self.regions.regions.len()
            invariant
                self.wf(),
                i <= self@.regions.len(),
                self@.capturing_region(selection, 0) == self@.capturing_region(
                    selection,
                    i as int,
                ),
            decreases self.regions.regions.len() - i,
        {
            if self.regions.regions[i].policy == EditPolicy::Editable {
                if let Some(relative) = self.capture_selection_in_region(selection, i) {
                    return Some(
                        RegionSelection {
                            region_id: copy_id(&self.regions.regions[i].id),
                            selection: relative,
                        },
                    );
                }
            }
            i += 1;
        }
        None
    }

    pub fn capture_active_selection_in_editable_region(&self) -> (capture: Option<
        RegionSelection<I>,
    >)
        requires
            self.wf(),
        ensures
            capture_view(capture) == self@.captured(self@.selection),
    {
        self.capture_selection(self.selection)
    }

    pub fn capture_marked_in_editable_region(&self) -> (capture: Option<RegionSelection<I>>)
        requires
            self.wf(),
        ensures
            capture_view(capture) == self@.captured_marked(),
    {
        match self.marked {
            Some(marked) => self.capture_selection(marked),
            None => None,
        }
    }

    /// Puts a captured selection back into its region.
    pub fn restore_active_selection(&mut self, capture: &RegionSelection<I>)
        requires
            old(self).wf(),
            old(self)@.has_room(2),
            capture_fits(old(self)@, capture.pair()),
        ensures
            final(self).wf(),
            final(self)@ == old(self)@.restored(Some(capture.pair())),
    {
        if let Some(index) = self.region_index(&capture.region_id) {
            let range = self.regions.regions[index].range();
            assert(self@.regions[index as int].start() <= self@.regions[index as int].end());
            let len = range.end - range.start;
            self.select_in_region(
                index,
                cut_to(capture.selection.anchor, len),
                cut_to(capture.selection.head, len),
            );
        }
    }

    /// Marks a captured range again.
    pub fn restore_marked(&mut self, capture: Option<&RegionSelection<I>>)
        requires
            old(self).wf(),
            old(self)@.has_room(2),
            pair_of(capture) matches Some(pair) ==> capture_fits(old(self)@, pair),
        ensures
            final(self).wf(),
            final(self)@ == old(self)@.with_marked(old(self)@.marked_from(pair_of(capture))),
    {
        let mut range: Option<Range<usize>> = None;
        if let Some(capture) = capture {
            if let Some(index) = self.region_index(&capture.region_id) {
                let region = self.regions.regions[index].range();
                assert(self@.regions[index as int].start() <= self@.regions[index as int].end()
                    <= self@.bytes.len());
                let len = region.end - region.start;
                range = Some(
                    region.start + cut_to(capture.selection.anchor, len)..region.start + cut_to(
                        capture.selection.head,
                        len,
                    ),
                );
            }
        }
        assert(range_ends(range) == self@.marked_from(pair_of(capture)));
        self.set_marked_range(range);
    }

    /// A copy of the document's text.
    pub fn copy(&self) -> (copy: Self)
        requires
            self.wf(),
        ensures
            copy.wf(),
            copy@ == self@,
    {
        let mut anchored_blocks: Vec<AnchoredBlock<I>> = Vec::new();
        let mut i: usize = 0;
        while i < self.anchored_blocks.len()
            invariant
                self.wf(),
                i <= self.anchored_blocks.len(),
                anchored_blocks@ == self.anchored_blocks@.subrange(0, i as int),
            decreases self.anchored_blocks.len() - i,
        {
            anchored_blocks.push(copy_row(&self.anchored_blocks[i]));
            assert(anchored_blocks@ =~= self.anchored_blocks@.subrange(0, i + 1));
            i += 1;
        }
        assert(anchored_blocks@ =~= self.anchored_blocks@);
        let copy = DocumentModel {
            text: self.text.copy(),
            revision: self.revision,
            regions: self.regions.copy(),
            anchors: self.anchors.copy(),
            selection: self.selection,
            marked: self.marked,
            projection: self.projection.copy(),
            projection_map: self.projection_map.copy(),
            blocks: copy_blocks(&self.blocks),
            anchored_blocks,
            styles: self.styles.copy(),
            resolved_styles: self.resolved_styles.copy(),
        };
        assert(copy@ =~= self@);
        copy
    }
}

/// The offsets of a captured selection, cut to its region, lie between
/// characters.
pub open spec fn capture_fits<I>(m: ModelView<I>, capture: (I, RelativeView)) -> bool {
    region_index_of(m.regions, capture.0) matches Some(at) ==> {
        &&& at_boundary(m.bytes, m.regions[at].start() + m.cut(at, capture.1.anchor))
        &&& at_boundary(m.bytes, m.regions[at].start() + m.cut(at, capture.1.head))
    }
}

/// What an optional capture says.
pub open(crate) spec fn pair_of<I>(capture: Option<&RegionSelection<I>>) -> Option<
    (I, RelativeView),
> {
    match capture {
        Some(capture) => Some(capture.pair()),
        None => None,
    }
}

/// An offset, or the length if that is less.
fn cut_to(offset: usize, len: usize) -> (cut: usize)
    ensures
        cut == (if offset <= len {
            offset
        } else {
            len
        }),
{
    if offset <= len {
        offset
    } else {
        len
    }
}

/// A copy of an anchored row.
pub(crate) fn copy_row<I: Clone + Eq>(block: &AnchoredBlock<I>) -> (copy: AnchoredBlock<I>)
    requires
        lawful_id::<I>(),
    ensures
        copy == *block,
{
    AnchoredBlock { id: copy_id(&block.id), position: copy_position(&block.position) }
}

/// A copy of a position.
pub(crate) fn copy_position<I: Clone + Eq>(position: &DocumentPosition<I>) -> (copy: DocumentPosition<
    I,
>)
    requires
        lawful_id::<I>(),
    ensures
        copy == *position,
{
    DocumentPosition {
        node_id: copy_id(&position.node_id),
        offset: position.offset,
        affinity: position.affinity,
    }
}

/// An optional node.
pub open spec fn node_of<I>(node_id: Option<&I>) -> Option<I> {
    match node_id {
        Some(id) => Some(*id),
        None => None,
    }
}

/// A rejection of the first edits is a rejection of all.
proof fn lemma_target_prefix<I>(m: ModelView<I>, edits: Seq<TextEdit>, node: Option<I>, k: int)
    requires
        0 < k <= edits.len(),
        m.target_region(edits.subrange(0, k), node) is Err,
    ensures
        m.target_region(edits, node) == m.target_region(edits.subrange(0, k), node),
    decreases edits.len() - k,
{
    if k == edits.len() {
        assert(edits.subrange(0, k) =~= edits);
    } else {
        let part = edits.subrange(0, k + 1);
        assert(part.drop_last() =~= edits.subrange(0, k));
        lemma_target_prefix(m, edits, node, k + 1);
    }
}

/// Edits of a text that fit into memory with it can be addressed.
pub proof fn lemma_addressable(len: int, edits: Seq<TextEdit>, bytes: Seq<u8>)
    requires
        edits_fit(len, edits),
        len == bytes.len(),
        edits_on_boundaries(edits, bytes),
    ensures
        edits_addressable(edits),
{
    assert forall|i: int| 0 <= i < edits.len() implies (#[trigger] edits[i]).start()
        + edits[i].bytes().len() <= usize::MAX by {
        lemma_inserted_member(edits, i);
    }
}

proof fn lemma_inserted_member(edits: Seq<TextEdit>, i: int)
    requires
        0 <= i < edits.len(),
    ensures
        edits[i].bytes().len() <= inserted_len(edits),
    decreases edits.len(),
{
    if i < edits.len() - 1 {
        lemma_inserted_member(edits.drop_last(), i);
    }
}

/// By how many bytes edits make a text longer.
pub(crate) fn edits_growth(edits: &[TextEdit], Ghost(bytes): Ghost<Seq<u8>>) -> (growth: isize)
    requires
        applicable(edits@),
        edits_on_boundaries(edits@, bytes),
        bytes.len() <= isize::MAX,
        edits_fit(bytes.len() as int, edits@),
    ensures
        growth == net_growth(edits@),
{
    let mut growth: isize = 0;
    let mut i: usize = 0;
    assert(edits@.subrange(0, 0) =~= Seq::empty());
    while i < edits.len()
        invariant
            applicable(edits@),
            edits_on_boundaries(edits@, bytes),
            bytes.len() <= isize::MAX,
            edits_fit(bytes.len() as int, edits@),
            i <= edits@.len(),
            growth == net_growth(edits@.subrange(0, i as int)),
            -bytes.len() <= growth <= inserted_len(edits@.subrange(0, i as int)),
        decreases edits@.len() - i,
    {
        let ghost part = edits@.subrange(0, i + 1);
        proof {
            assert(part.drop_last() =~= edits@.subrange(0, i as int));
            assert(part.last() == edits@[i as int]);
            lemma_inserted_prefix(edits@, i + 1);
            assert(applicable(part)) by {
                assert forall|a: int, b: int|
                    #![trigger part[a], part[b]]
                    0 <= a < b < part.len() implies !edits_conflict(part[a], part[b]) by {
                    assert(part[a] == edits@[a] && part[b] == edits@[b]);
                }
                assert forall|a: int| 0 <= a < part.len() implies (#[trigger] part[a]).start()
                    <= part[a].end() by {
                    assert(part[a] == edits@[a]);
                }
            }
            assert(edits_inside(part, 0, bytes.len() as int)) by {
                assert forall|a: int| 0 <= a < part.len() implies 0 <= (
                #[trigger] part[a]).start() && part[a].end() <= bytes.len() by {
                    assert(part[a] == edits@[a]);
                }
            }
            lemma_net_growth_within(part, 0, bytes.len() as int);
            assert(at_boundary(bytes, edits@[i as int].start()));
        }
        let range = edits[i].range();
        let inserted = edits[i].replacement_len();
        growth = growth + inserted as isize - (range.end - range.start) as isize;
        i += 1;
    }
    assert(edits@.subrange(0, edits@.len() as int) =~= edits@);
    growth
}

/// The first edits insert no more than all.
pub proof fn lemma_inserted_prefix(edits: Seq<TextEdit>, k: int)
    requires
        0 <= k <= edits.len(),
    ensures
        inserted_len(edits.subrange(0, k)) <= inserted_len(edits),
    decreases edits.len() - k,
{
    if k == edits.len() {
        assert(edits.subrange(0, k) =~= edits);
    } else {
        let part = edits.subrange(0, k + 1);
        assert(part.drop_last() =~= edits.subrange(0, k));
        lemma_inserted_prefix(edits, k + 1);
    }
}

/// Applies edits to a text.
pub(crate) fn apply_edits(text: &mut SourceText, edits: &[TextEdit])
    requires
        old(text).wf(),
        applicable(edits@),
        edits_on_boundaries(edits@, old(text).bytes()),
        edits_fit(old(text).bytes().len() as int, edits@),
    ensures
        final(text).wf(),
        final(text).bytes() == edited(old(text).bytes(), edits@),
{
    let ghost bytes = text.bytes();
    let mut i: usize = 0;
    assert(edits@.subrange(0, 0) =~= Seq::empty());
    while i < edits.len()
        invariant
            text.wf(),
            bytes == old(text).bytes(),
            old(text).wf(),
            applicable(edits@),
            edits_on_boundaries(edits@, bytes),
            edits_fit(bytes.len() as int, edits@),
            i <= edits@.len(),
            text.bytes() == edited(bytes, edits@.subrange(0, i as int)),
        decreases edits@.len() - i,
    {
        let ghost front = edits@.subrange(0, i as int);
        let ghost part = edits@.subrange(0, i + 1);
        let edit = &edits[i];
        proof {
            assert(part.drop_last() =~= front);
            assert(part.last() == edits@[i as int]);
            lemma_part_applicable(edits@, bytes, i + 1);
            lemma_part_applicable(edits@, bytes, i as int);
            lemma_inserted_prefix(edits@, i + 1);
            lemma_edited(bytes, front);
            if i > 0 {
                assert(!edits_conflict(edits@[i - 1], edits@[i as int]));
                assert(front.last() == edits@[i - 1]);
                assert(at_boundary(text.bytes(), edit.start()));
                assert(at_boundary(text.bytes(), edit.end()));
            }
        }
        let range = edit.range();
        text.replace(&range, edit.replacement());
        i += 1;
    }
    assert(edits@.subrange(0, edits@.len() as int) =~= edits@);
}

/// The first edits can be applied like all.
pub proof fn lemma_part_applicable(edits: Seq<TextEdit>, bytes: Seq<u8>, k: int)
    requires
        applicable(edits),
        edits_on_boundaries(edits, bytes),
        0 <= k <= edits.len(),
    ensures
        applicable(edits.subrange(0, k)),
        edits_on_boundaries(edits.subrange(0, k), bytes),
{
    let part = edits.subrange(0, k);
    assert forall|a: int, b: int|
        #![trigger part[a], part[b]]
        0 <= a < b < part.len() implies !edits_conflict(part[a], part[b]) by {
        assert(part[a] == edits[a] && part[b] == edits[b]);
    }
    assert forall|a: int| 0 <= a < part.len() implies (#[trigger] part[a]).start() <= part[a].end()
        <= bytes.len() && at_boundary(bytes, part[a].start()) && at_boundary(
        bytes,
        part[a].end(),
    ) by {
        assert(part[a] == edits[a]);
    }
}

/// Moves anchors by edits.
pub(crate) fn move_anchors<I>(anchors: &mut AnchorStore<I>, edits: &[TextEdit])
    requires
        old(anchors).wf(),
        edits_addressable(edits@),
    ensures
        final(anchors).wf(),
        final(anchors).spec_next_id() == old(anchors).spec_next_id(),
        final(anchors).records() == anchors_edited(old(anchors).records(), edits@),
{
    let ghost before = anchors.records();
    let mut i: usize = 0;
    assert(edits@.subrange(0, 0) =~= Seq::empty());
    while i < edits.len()
        invariant
            anchors.wf(),
            anchors.spec_next_id() == old(anchors).spec_next_id(),
            edits_addressable(edits@),
            i <= edits@.len(),
            anchors.records() == anchors_edited(before, edits@.subrange(0, i as int)),
        decreases edits@.len() - i,
    {
        let ghost part = edits@.subrange(0, i + 1);
        let ghost edit_view = edits@[i as int];
        proof {
            assert(part.drop_last() =~= edits@.subrange(0, i as int));
            assert(part.last() == edit_view);
        }
        let edit = &edits[i];
        let range = edit.range();
        let len = edit.replacement_len();
        let ghost mid = anchors.records();
        anchors.apply_edit(&range, len);
        proof {
            let f = |r: AnchorRecord<I>|
                r.moved(range.start as int, range.end as int, len as int);
            let g = |r: AnchorRecord<I>|
                r.moved(edit_view.start(), edit_view.end(), edit_view.bytes().len() as int);
            assert(mid.map_values(f) =~= mid.map_values(g));
        }
        i += 1;
    }
    assert(edits@.subrange(0, edits@.len() as int) =~= edits@);
}

} // verus!
