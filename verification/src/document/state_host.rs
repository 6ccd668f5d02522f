//! Changes by the host: they leave editable text alone, and the selection
//! where it was.

use crate::document::block::{blocks_fault, validate_blocks, BlockError, DocumentBlock};
use crate::document::event::DocumentEvent;
use crate::document::mapping::rendered;
use crate::document::model::{capture_view, DocumentModel, RegionSelection};
use crate::document::model_edit::{apply_edits, capture_fits, lemma_addressable, move_anchors};
use crate::document::model_lemmas::{lemma_anchors_edited, lemma_anchors_reconciled};
use crate::document::model_view::{
    anchors_edited, anchors_reconciled, edit_on_boundaries, ModelView, RelativeView,
};
use crate::document::outcome::HostTransactionError;
use crate::document::position::{DocumentAnchor, DocumentPosition, DocumentSelection};
use crate::document::projection::{DocumentProjection, ProjectionView};
use crate::document::projection_map::ProjectionMap;
use crate::document::region::{
    find_region, region_index_of, regions_fault, regions_on_boundaries, regions_valid,
    DocumentRegion, DocumentRegions, EditPolicy,
};
use crate::document::resolve::{
    resolve_document_styles, resolved_styles, styles_fault, ResolvedDocumentStyles,
};
use crate::document::state::{
    lemma_same_anchors, lemma_spared, lemma_spares_marked, lemma_spares_positions, position_of,
    DocumentState,
};
use crate::document::state_view::{first_changed, StateView};
use crate::document::style::{no_styles, DocumentStyles, StylesView};
use crate::document::transaction::{
    applicable, edited, edits_fit, edits_on_boundaries, lemma_edited, EditOrigin, EditTransaction,
    TextEdit,
};
use crate::document::validate::{
    boundaries_fault, lemma_projection_fits, projection_fault, valid_source_range,
    validate_projection, validate_region_boundaries,
};
use crate::order::{sort_stable, stable_sort};
use crate::scan::first_fault;
use crate::text::{at_boundary, lemma_part_boundary, same_text, starts_clean, SourceText};
use std::ops::Range;
use vstd::prelude::*;
use vstd::string::*;
use vstd::utf8::*;

verus! {

/// What a host wants to change. What is not given stays empty, if it was.
#[verifier::ext_equal]
pub struct HostView<I> {
    pub edits: Seq<TextEdit>,
    pub regions: Seq<DocumentRegion<I>>,
    pub projection: Option<ProjectionView>,
    pub blocks: Option<Seq<DocumentBlock<I>>>,
    pub styles: Option<StylesView>,
}

/// What is wrong with the place of an edit.
pub open spec fn edit_range_fault(edits: Seq<TextEdit>, bytes: Seq<u8>) -> spec_fn(int) -> Option<
    HostTransactionError,
> {
    |i: int|
        if edit_on_boundaries(edits[i], bytes) {
            None
        } else {
            Some(
                HostTransactionError::InvalidEditRange(
                    Range { start: edits[i].start() as usize, end: edits[i].end() as usize },
                ),
            )
        }
}

/// An edit reaches into a region. Text that is inserted at an edge does not.
pub open spec fn edit_touches<I>(edit: TextEdit, region: DocumentRegion<I>) -> bool {
    if edit.start() >= edit.end() {
        region.start() < edit.start() < region.end()
    } else {
        edit.start() < region.end() && region.start() < edit.end()
    }
}

/// An edit reaches into editable text.
pub open spec fn edits_touch_editable<I>(edits: Seq<TextEdit>, regions: Seq<DocumentRegion<I>>) -> bool {
    exists|i: int, r: int|
        #![trigger edits[i], regions[r]]
        0 <= i < edits.len() && 0 <= r < regions.len() && regions[r].spec_policy()
            == EditPolicy::Editable && edit_touches(edits[i], regions[r])
}

/// How many regions can be edited.
pub open spec fn editable_count<I>(regions: Seq<DocumentRegion<I>>) -> nat
    decreases regions.len(),
{
    if regions.len() == 0 {
        0
    } else {
        editable_count(regions.drop_last()) + (if regions.last().spec_policy()
            == EditPolicy::Editable {
            1nat
        } else {
            0nat
        })
    }
}

/// A region is still there, still editable, and has the same text.
pub open spec fn region_kept<I>(
    region: DocumentRegion<I>,
    bytes: Seq<u8>,
    next_regions: Seq<DocumentRegion<I>>,
    next_bytes: Seq<u8>,
) -> bool {
    &&& region_index_of(next_regions, region.spec_id()) matches Some(at)
    &&& next_regions[at].spec_policy() == EditPolicy::Editable
    &&& next_bytes.subrange(next_regions[at].start(), next_regions[at].end()) == bytes.subrange(
        region.start(),
        region.end(),
    )
}

/// The editable regions are the same, and so is their text.
pub open spec fn editable_kept<I>(
    regions: Seq<DocumentRegion<I>>,
    bytes: Seq<u8>,
    next_regions: Seq<DocumentRegion<I>>,
    next_bytes: Seq<u8>,
) -> bool {
    &&& editable_count(next_regions) == editable_count(regions)
    &&& forall|r: int|
        0 <= r < regions.len() && (#[trigger] regions[r]).spec_policy() == EditPolicy::Editable
            ==> region_kept(regions[r], bytes, next_regions, next_bytes)
}

impl<I> ModelView<I> {
    /// The text that a host wants.
    pub open spec fn host_bytes(self, update: HostView<I>) -> Seq<u8> {
        edited(self.bytes, update.edits)
    }

    /// The projection that a host wants: without one, an identity stays one.
    pub open spec fn host_projection(self, update: HostView<I>) -> Option<ProjectionView> {
        match update.projection {
            Some(projection) => Some(projection),
            None => if self.projection.spans.len() == 0 {
                Some(
                    ProjectionView {
                        source_len: self.host_bytes(update).len() as int,
                        spans: Seq::empty(),
                    },
                )
            } else {
                None
            },
        }
    }

    /// The blocks that a host wants.
    pub open spec fn host_blocks(self, update: HostView<I>) -> Option<Seq<DocumentBlock<I>>> {
        match update.blocks {
            Some(blocks) => Some(stable_sort(blocks)),
            None => if self.blocks.len() == 0 && self.anchored.len() == 0 {
                Some(stable_sort(Seq::empty()))
            } else {
                None
            },
        }
    }

    /// The styles that a host wants.
    pub open spec fn host_styles(self, update: HostView<I>) -> Option<StylesView> {
        match update.styles {
            Some(styles) => Some(styles),
            None => if self.styles.is_empty() {
                Some(no_styles())
            } else {
                None
            },
        }
    }

    /// Why a host cannot have its presentation.
    pub open(crate) spec fn host_presentation_fault(self, update: HostView<I>) -> Option<
        HostTransactionError,
    > {
        let bytes = self.host_bytes(update);
        let regions = stable_sort(update.regions);
        match self.host_projection(update) {
            None => Some(HostTransactionError::ProjectionRequired),
            Some(projection) => match projection_fault(projection, regions, bytes) {
                Some(error) => Some(HostTransactionError::InvalidProjection(error)),
                None => match self.host_blocks(update) {
                    None => Some(HostTransactionError::BlocksRequired),
                    Some(blocks) => match blocks_fault(
                        blocks,
                        regions,
                        projection,
                        bytes.len() as usize,
                    ) {
                        Some(error) => Some(HostTransactionError::InvalidBlocks(error)),
                        None => match self.host_styles(update) {
                            None => Some(HostTransactionError::StylesRequired),
                            Some(styles) => match styles_fault(
                                styles,
                                bytes,
                                regions,
                                projection,
                                rendered(bytes, projection.spans),
                            ) {
                                Some(error) => Some(HostTransactionError::InvalidStyles(error)),
                                None => None,
                            },
                        },
                    },
                },
            },
        }
    }

    /// Why a host cannot have its text and regions.
    pub open(crate) spec fn host_source_fault(self, update: HostView<I>) -> Option<
        HostTransactionError,
    > {
        let bytes = self.host_bytes(update);
        let regions = stable_sort(update.regions);
        if first_fault(
            edit_range_fault(update.edits, self.bytes),
            0,
            update.edits.len() as int,
        ) is Some {
            first_fault(
                edit_range_fault(update.edits, self.bytes),
                0,
                update.edits.len() as int,
            )
        } else if edits_touch_editable(update.edits, self.regions) {
            Some(HostTransactionError::TouchesEditableRegion)
        } else if regions_fault(update.regions, bytes.len() as usize) is Some {
            Some(
                HostTransactionError::InvalidRegions(
                    regions_fault(update.regions, bytes.len() as usize)->0,
                ),
            )
        } else if boundaries_fault(regions, bytes) is Some {
            Some(HostTransactionError::InvalidRegions(boundaries_fault(regions, bytes)->0))
        } else if !editable_kept(self.regions, self.bytes, regions, bytes) {
            Some(HostTransactionError::EditableRegionsChanged)
        } else {
            None
        }
    }

    /// Why a host cannot have its change. The first fault is named.
    pub open(crate) spec fn host_fault(self, transaction: EditTransaction, update: HostView<I>) -> Option<
        HostTransactionError,
    > {
        if transaction.spec_origin() != EditOrigin::Host {
            Some(HostTransactionError::InvalidOrigin)
        } else if transaction.spec_revision() != self.revision {
            Some(HostTransactionError::StaleRevision)
        } else if self.host_source_fault(update) is Some {
            self.host_source_fault(update)
        } else {
            self.host_presentation_fault(update)
        }
    }

    /// The document that a host wants, with the anchors that the edits move.
    /// A transaction brings no anchored rows, and those that stood before it
    /// go: a document that has some is changed only by a transaction that
    /// brings blocks.
    pub open(crate) spec fn host_model(self, update: HostView<I>) -> ModelView<I> {
        let regions = stable_sort(update.regions);
        let projection = self.host_projection(update)->0;
        let styles = self.host_styles(update)->0;
        ModelView {
            bytes: self.host_bytes(update),
            revision: self.revision.spec_next(),
            regions,
            anchors: anchors_reconciled(anchors_edited(self.anchors, update.edits), regions),
            projection,
            blocks: self.host_blocks(update)->0,
            anchored: Seq::empty(),
            styles,
            resolved: resolved_styles(styles, projection),
            ..self
        }
    }

    /// With a selection and a marked range that were captured in editable
    /// regions put back.
    pub open(crate) spec fn recaptured(
        self,
        selection: Option<(I, RelativeView)>,
        marked: Option<(I, RelativeView)>,
    ) -> ModelView<I> {
        let selected = self.restored(selection);
        selected.with_marked(selected.marked_from(marked))
    }
}

impl<I> StateView<I> {
    /// After a change of the host.
    pub open(crate) spec fn host_updated(
        self,
        update: HostView<I>,
        top: Option<DocumentPosition<I>>,
    ) -> StateView<I> {
        let kept = self.keeping_viewport(top);
        let rows = kept.with_model(kept.model.host_model(update)).reconciled(
            first_changed(self.items, update.edits),
        );
        let model = rows.model.recaptured(
            self.model.captured(self.model.selection),
            self.model.captured_marked(),
        );
        rows.with_model(model).emitted(
            DocumentEvent::Changed { revision: model.revision, origin: EditOrigin::Host },
        ).notified()
    }
}

// ---------------------------------------------------------------------------
// Lemmas
// ---------------------------------------------------------------------------

/// A selection that was captured in an editable region fits the region as long
/// as its text is the same.
pub(crate) proof fn lemma_capture_kept<I>(
    m: ModelView<I>,
    selection: DocumentSelection,
    next: ModelView<I>,
)
    requires
        m.wf(),
        next.wf(),
        forall|r: int|
            0 <= r < m.regions.len() && (#[trigger] m.regions[r]).spec_policy()
                == EditPolicy::Editable ==> region_kept(
                m.regions[r],
                m.bytes,
                next.regions,
                next.bytes,
            ),
    ensures
        m.captured(selection) matches Some(pair) ==> capture_fits(next, pair),
{
    lemma_capturing(m, selection, 0);
    let at = m.capturing_region(selection, 0);
    if at < m.regions.len() {
        let r = m.regions[at];
        let relative = m.capture_in_region(selection, at)->0;
        assert(region_kept(r, m.bytes, next.regions, next.bytes));
        let q = region_index_of(next.regions, r.spec_id())->0;
        assert(0 <= q < next.regions.len());
        let s = next.regions[q];
        assert(r.start() <= r.end() <= m.bytes.len());
        assert(s.start() <= s.end() <= next.bytes.len());
        assert(at_boundary(m.bytes, r.start()) && at_boundary(m.bytes, r.end()));
        assert(at_boundary(next.bytes, s.start()) && at_boundary(next.bytes, s.end()));
        let part = m.bytes.subrange(r.start(), r.end());
        assert(part == next.bytes.subrange(s.start(), s.end()));
        assert(part.len() == s.end() - s.start());
        assert(at_boundary(m.bytes, m.anchors[selection.spec_anchor()].spec_offset()));
        assert(at_boundary(m.bytes, m.anchors[selection.spec_head()].spec_offset()));
        lemma_part_boundary(m.bytes, r.start(), r.end(), relative.anchor);
        lemma_part_boundary(m.bytes, r.start(), r.end(), relative.head);
        lemma_part_boundary(next.bytes, s.start(), s.end(), relative.anchor);
        lemma_part_boundary(next.bytes, s.start(), s.end(), relative.head);
    }
}

/// The region that captures a selection is editable.
pub(crate) proof fn lemma_capturing<I>(m: ModelView<I>, selection: DocumentSelection, from: int)
    requires
        0 <= from <= m.regions.len(),
    ensures
        ({
            let at = m.capturing_region(selection, from);
            from <= at <= m.regions.len() && (at < m.regions.len() ==> m.regions[at].spec_policy()
                == EditPolicy::Editable && m.capture_in_region(selection, at) is Some)
        }),
    decreases m.regions.len() - from,
{
    if from < m.regions.len() {
        lemma_capturing(m, selection, from + 1);
    }
}

/// Edits, and regions that anchors are put back into, keep anchors between
/// characters.
pub(crate) proof fn lemma_anchors_follow<I>(
    m: ModelView<I>,
    edits: Seq<TextEdit>,
    bytes: Seq<u8>,
    regions: Seq<DocumentRegion<I>>,
)
    requires
        m.anchors_fit(),
        applicable(edits),
        edits_on_boundaries(edits, m.bytes),
        starts_clean(m.bytes),
        edits_fit(m.bytes.len() as int, edits),
        bytes == edited(m.bytes, edits),
        bytes.len() <= isize::MAX,
        regions_valid(regions, bytes.len() as int),
        regions_on_boundaries(regions, bytes),
    ensures
        ({
            let anchors = anchors_reconciled(anchors_edited(m.anchors, edits), regions);
            &&& anchors.dom() == m.anchors.dom()
            &&& forall|a: DocumentAnchor| #[trigger]
                anchors.dom().contains(a) ==> a.spec_id() < m.next_id && at_boundary(
                    bytes,
                    anchors[a].spec_offset(),
                )
        }),
{
    assert forall|a: DocumentAnchor| #[trigger] m.anchors.dom().contains(a) implies at_boundary(
        m.bytes,
        m.anchors[a].spec_offset(),
    ) by {}
    lemma_anchors_edited(m.bytes, m.anchors, edits);
    let moved = anchors_edited(m.anchors, edits);
    assert forall|a: DocumentAnchor| #[trigger] moved.dom().contains(a) implies at_boundary(
        bytes,
        moved[a].spec_offset(),
    ) by {
        assert(m.anchors.dom().contains(a));
    }
    lemma_anchors_reconciled(bytes, moved, regions);
    let anchors = anchors_reconciled(moved, regions);
    assert forall|a: DocumentAnchor| #[trigger] anchors.dom().contains(a) implies a.spec_id()
        < m.next_id && at_boundary(bytes, anchors[a].spec_offset()) by {
        assert(moved.dom().contains(a));
        assert(m.anchors.dom().contains(a));
    }
}

/// A change of the host without a fault makes a valid document.
pub(crate) proof fn lemma_host_model<I>(m: ModelView<I>, update: HostView<I>)
    requires
        m.wf(),
        applicable(update.edits),
        edits_on_boundaries(update.edits, m.bytes),
        edits_fit(m.bytes.len() as int, update.edits),
        m.host_source_fault(update) is None,
        m.host_presentation_fault(update) is None,
        m.host_projection(update)->0.valid(),
        regions_valid(stable_sort(update.regions), m.host_bytes(update).len() as int),
        regions_on_boundaries(stable_sort(update.regions), m.host_bytes(update)),
    ensures
        m.host_model(update).wf(),
        m.host_model(update).anchors.dom() == m.anchors.dom(),
        editable_kept(
            m.regions,
            m.bytes,
            m.host_model(update).regions,
            m.host_model(update).bytes,
        ),
{
    let next = m.host_model(update);
    lemma_edited(m.bytes, update.edits);
    lemma_anchors_follow(m, update.edits, next.bytes, next.regions);
    assert(next.anchors_fit());
    assert(next.presentation_fits());
    assert(next.selections_fit());
}

/// Putting a captured selection back leaves other anchors alone.
pub(crate) proof fn lemma_spares_restored<I>(m: ModelView<I>, capture: Option<(I, RelativeView)>)
    requires
        m.wf(),
        m.has_room(2),
    ensures
        m.spares(m.restored(capture)),
        m.restored(capture).next_id <= m.next_id + 2,
        m.restored(capture).regions == m.regions,
        m.restored(capture).bytes == m.bytes,
{
    if let Some((id, relative)) = capture {
        if let Some(at) = region_index_of(m.regions, id) {
            lemma_spares_positions(
                m,
                m.region_position(at, m.cut(at, relative.anchor)),
                m.region_position(at, m.cut(at, relative.head)),
            );
        }
    }
}

// ---------------------------------------------------------------------------
// Host transactions
// ---------------------------------------------------------------------------

impl<I: Clone + Eq> DocumentModel<I> {
    /// Whether edits reach into editable text.
    fn check_touches_editable(&self, edits: &[TextEdit]) -> (touches: bool)
        ensures
            touches == edits_touch_editable(edits@, self@.regions),
    {
        let ghost regions = self@.regions;
        let mut i: usize = 0;
        while i < edits.len()
            invariant
                regions == self@.regions,
                i <= edits@.len(),
                forall|k: int, r: int|
                    #![trigger edits@[k], regions[r]]
                    0 <= k < i && 0 <= r < regions.len() && regions[r].spec_policy()
                        == EditPolicy::Editable ==> !edit_touches(edits@[k], regions[r]),
            decreases edits@.len() - i,
        {
            let range = edits[i].range();
            let mut r: usize = 0;
            while r < self.regions.regions.len()
                invariant
                    regions == self@.regions,
                    i < edits@.len(),
                    range.start == edits@[i as int].start(),
                    range.end == edits@[i as int].end(),
                    r <= regions.len(),
                    forall|q: int|
                        0 <= q < r && (#[trigger] regions[q]).spec_policy() == EditPolicy::Editable
                            ==> !edit_touches(edits@[i as int], regions[q]),
                decreases regions.len() - r,
            {
                let region = &self.regions.regions[r];
                let editable = region.range();
                let touches = if range.start >= range.end {
                    editable.start < range.start && range.start < editable.end
                } else {
                    range.start < editable.end && editable.start < range.end
                };
                if region.policy == EditPolicy::Editable && touches {
                    assert(edit_touches(edits@[i as int], regions[r as int]));
                    return true;
                }
                r += 1;
            }
            i += 1;
        }
        false
    }

    /// Whether the editable regions stay, with their text.
    fn check_editable_kept(&self, regions: &DocumentRegions<I>, text: &SourceText) -> (kept: bool)
        requires
            self.wf(),
            regions_valid(regions.items(), text.bytes().len() as int),
            regions_on_boundaries(regions.items(), text.bytes()),
        ensures
            kept == editable_kept(self@.regions, self@.bytes, regions.items(), text.bytes()),
    {
        if count_editable(&self.regions) != count_editable(regions) {
            return false;
        }
        let ghost m = self@;
        let mut r: usize = 0;
        while r < self.regions.regions.len()
            invariant
                self.wf(),
                m == self@,
                regions_valid(regions.items(), text.bytes().len() as int),
                regions_on_boundaries(regions.items(), text.bytes()),
                r <= m.regions.len(),
                forall|q: int|
                    0 <= q < r && (#[trigger] m.regions[q]).spec_policy() == EditPolicy::Editable
                        ==> region_kept(m.regions[q], m.bytes, regions.items(), text.bytes()),
            decreases m.regions.len() - r,
        {
            let region = &self.regions.regions[r];
            if region.policy == EditPolicy::Editable {
                let ghost held = m.regions[r as int];
                match find_region(
                    regions.as_slice(),
                    &region.id,
                    Ghost(text.bytes().len() as int),
                ) {
                    None => {
                        assert(!region_kept(held, m.bytes, regions.items(), text.bytes()));
                        return false;
                    },
                    Some(at) => {
                        let next = &regions.regions[at];
                        if next.policy != EditPolicy::Editable {
                            assert(!region_kept(held, m.bytes, regions.items(), text.bytes()));
                            return false;
                        }
                        proof {
                            assert(held.start() <= held.end() <= m.bytes.len());
                            assert(at_boundary(m.bytes, held.start()));
                            assert(regions.items()[at as int].start() <= regions.items()[at as int].end()
                                <= text.bytes().len());
                            assert(at_boundary(text.bytes(), regions.items()[at as int].start()));
                        }
                        let old_text = self.text.slice(&region.range());
                        let new_text = text.slice(&next.range());
                        if !same_text(old_text.as_str(), new_text.as_str()) {
                            assert(!region_kept(held, m.bytes, regions.items(), text.bytes()));
                            return false;
                        }
                    },
                }
            }
            r += 1;
        }
        true
    }

    /// Whether every edit lies between characters.
    fn check_edit_ranges(&self, edits: &[TextEdit]) -> (result: Result<(), HostTransactionError>)
        requires
            self.wf(),
        ensures
            match result {
                Ok(()) => {
                    &&& first_fault(
                        edit_range_fault(edits@, self@.bytes),
                        0,
                        edits@.len() as int,
                    ) is None
                    &&& edits_on_boundaries(edits@, self@.bytes)
                },
                Err(error) => first_fault(
                    edit_range_fault(edits@, self@.bytes),
                    0,
                    edits@.len() as int,
                ) == Some(error),
            },
    {
        let ghost fault = edit_range_fault(edits@, self@.bytes);
        let mut i: usize = 0;
        while i < edits.len()
            invariant
                self.wf(),
                fault == edit_range_fault(edits@, self@.bytes),
                i <= edits@.len(),
                first_fault(fault, 0, edits@.len() as int) == first_fault(
                    fault,
                    i as int,
                    edits@.len() as int,
                ),
                forall|k: int| 0 <= k < i ==> edit_on_boundaries(#[trigger] edits@[k], self@.bytes),
            decreases edits@.len() - i,
        {
            let range = edits[i].range();
            if !valid_source_range(&self.text, &range) {
                assert(fault(i as int) == Some(HostTransactionError::InvalidEditRange(range)));
                return Err(HostTransactionError::InvalidEditRange(range));
            }
            assert(fault(i as int) is None);
            i += 1;
        }
        Ok(())
    }
}

/// How many regions can be edited.
fn count_editable<I>(regions: &DocumentRegions<I>) -> (count: usize)
    ensures
        count == editable_count(regions.items()),
        count <= regions.items().len(),
{
    let mut count: usize = 0;
    let mut i: usize = 0;
    assert(regions.items().subrange(0, 0) =~= Seq::empty());
    while i < regions.regions.len()
        invariant
            i <= regions.items().len(),
            count == editable_count(regions.items().subrange(0, i as int)),
            count <= i,
        decreases regions.items().len() - i,
    {
        proof {
            assert(regions.items().subrange(0, i + 1).drop_last() =~= regions.items().subrange(
                0,
                i as int,
            ));
        }
        if regions.regions[i].policy == EditPolicy::Editable {
            count += 1;
        }
        i += 1;
    }
    assert(regions.items().subrange(0, regions.items().len() as int) =~= regions.items());
    count
}

/// A presentation that fits, ready to be shown.
pub(crate) struct Presentation<I> {
    pub(crate) projection: DocumentProjection,
    pub(crate) projection_map: ProjectionMap,
    pub(crate) blocks: Vec<DocumentBlock<I>>,
    pub(crate) styles: DocumentStyles,
    pub(crate) resolved_styles: ResolvedDocumentStyles,
}

/// An optional projection.
pub open spec fn projection_of(projection: Option<DocumentProjection>) -> Option<ProjectionView> {
    match projection {
        Some(projection) => Some(projection@),
        None => None,
    }
}

/// Optional blocks.
pub open spec fn blocks_of<I>(blocks: Option<Vec<DocumentBlock<I>>>) -> Option<
    Seq<DocumentBlock<I>>,
> {
    match blocks {
        Some(blocks) => Some(blocks@),
        None => None,
    }
}

/// Optional styles.
pub open spec fn styles_of(styles: Option<DocumentStyles>) -> Option<StylesView> {
    match styles {
        Some(styles) => Some(styles@),
        None => None,
    }
}

/// A projection that is given is valid, and maps what it says it maps.
pub open spec fn projection_fits(projection: Option<ProjectionView>) -> bool {
    projection matches Some(projection) ==> projection.valid()
}

impl<I: Clone + Eq> DocumentModel<I> {
    /// The text and the regions that a host wants.
    fn host_source(
        &self,
        edits: &[TextEdit],
        regions: Vec<DocumentRegion<I>>,
        Ghost(update): Ghost<HostView<I>>,
    ) -> (result: Result<(SourceText, DocumentRegions<I>), HostTransactionError>)
        requires
            self.wf(),
            applicable(edits@),
            edits_fit(self@.bytes.len() as int, edits@),
            update.edits == edits@,
            update.regions == regions@,
        ensures
            match result {
                Ok((text, regions)) => {
                    &&& self@.host_source_fault(update) is None
                    &&& edits_on_boundaries(edits@, self@.bytes)
                    &&& text.wf()
                    &&& text.bytes() == self@.host_bytes(update)
                    &&& regions.items() == stable_sort(update.regions)
                    &&& regions_valid(regions.items(), text.bytes().len() as int)
                    &&& regions_on_boundaries(regions.items(), text.bytes())
                },
                Err(error) => self@.host_source_fault(update) == Some(error),
            },
    {
        match self.check_edit_ranges(edits) {
            Ok(()) => {},
            Err(error) => {
                return Err(error);
            },
        }
        if self.check_touches_editable(edits) {
            return Err(HostTransactionError::TouchesEditableRegion);
        }
        let mut text = self.text.copy();
        apply_edits(&mut text, edits);
        let next_regions = match DocumentRegions::new(regions, text.len()) {
            Ok(regions) => regions,
            Err(error) => {
                return Err(HostTransactionError::InvalidRegions(error));
            },
        };
        match validate_region_boundaries(&next_regions, &text) {
            Ok(()) => {},
            Err(error) => {
                return Err(HostTransactionError::InvalidRegions(error));
            },
        }
        if !self.check_editable_kept(&next_regions, &text) {
            return Err(HostTransactionError::EditableRegionsChanged);
        }
        Ok((text, next_regions))
    }

    /// The presentation that a host wants.
    fn host_presentation(
        &self,
        text: &SourceText,
        regions: &DocumentRegions<I>,
        projection: Option<DocumentProjection>,
        blocks: Option<Vec<DocumentBlock<I>>>,
        styles: Option<DocumentStyles>,
        Ghost(update): Ghost<HostView<I>>,
    ) -> (result: Result<Presentation<I>, HostTransactionError>)
        requires
            self.wf(),
            text.wf(),
            text.bytes() == self@.host_bytes(update),
            regions.items() == stable_sort(update.regions),
            update.projection == projection_of(projection),
            update.blocks == blocks_of(blocks),
            update.styles == styles_of(styles),
            projection_fits(update.projection),
        ensures
            match result {
                Ok(shown) => {
                    &&& self@.host_presentation_fault(update) is None
                    &&& self@.host_projection(update) == Some(shown.projection@)
                    &&& shown.projection@.valid()
                    &&& shown.projection_map.shows(text.bytes(), shown.projection@)
                    &&& self@.host_blocks(update) == Some(shown.blocks@)
                    &&& self@.host_styles(update) == Some(shown.styles@)
                    &&& shown.resolved_styles@ == resolved_styles(
                        shown.styles@,
                        shown.projection@,
                    )
                },
                Err(error) => self@.host_presentation_fault(update) == Some(error),
            },
    {
        let projection = match projection {
            Some(projection) => projection,
            None => {
                if !self.projection.is_identity() {
                    return Err(HostTransactionError::ProjectionRequired);
                }
                DocumentProjection::identity(text.len())
            },
        };
        match validate_projection(&projection, regions, text) {
            Ok(()) => {},
            Err(error) => {
                return Err(HostTransactionError::InvalidProjection(error));
            },
        }
        proof {
            lemma_projection_fits(projection@, regions.items(), text.bytes());
        }
        let mut blocks = match blocks {
            Some(blocks) => blocks,
            None => {
                if self.blocks.len() > 0 || self.anchored_blocks.len() > 0 {
                    return Err(HostTransactionError::BlocksRequired);
                }
                Vec::new()
            },
        };
        sort_stable(&mut blocks);
        match validate_blocks(blocks.as_slice(), regions, &projection, text.len()) {
            Ok(()) => {},
            Err(error) => {
                return Err(HostTransactionError::InvalidBlocks(error));
            },
        }
        let projection_map = ProjectionMap::new(text, &projection);
        let styles = match styles {
            Some(styles) => styles,
            None => {
                if !self.styles.is_empty() {
                    return Err(HostTransactionError::StylesRequired);
                }
                DocumentStyles::none()
            },
        };
        match resolve_document_styles(text, regions, &projection_map, &styles) {
            Ok(resolved_styles) => Ok(
                Presentation { projection, projection_map, blocks, styles, resolved_styles },
            ),
            Err(error) => Err(HostTransactionError::InvalidStyles(error)),
        }
    }

    /// Takes over what a host wants.
    fn install_host(
        &mut self,
        edits: &[TextEdit],
        text: SourceText,
        regions: DocumentRegions<I>,
        shown: Presentation<I>,
        Ghost(update): Ghost<HostView<I>>,
    )
        requires
            old(self).wf(),
            applicable(edits@),
            edits_fit(old(self)@.bytes.len() as int, edits@),
            edits_on_boundaries(edits@, old(self)@.bytes),
            update.edits == edits@,
            text.bytes() == old(self)@.host_bytes(update),
            regions.items() == stable_sort(update.regions),
            regions_valid(regions.items(), text.bytes().len() as int),
            regions_on_boundaries(regions.items(), text.bytes()),
            old(self)@.host_source_fault(update) is None,
            old(self)@.host_presentation_fault(update) is None,
            old(self)@.host_projection(update) == Some(shown.projection@),
            shown.projection@.valid(),
            shown.projection_map.shows(text.bytes(), shown.projection@),
            old(self)@.host_blocks(update) == Some(shown.blocks@),
            old(self)@.host_styles(update) == Some(shown.styles@),
            shown.resolved_styles@ == resolved_styles(shown.styles@, shown.projection@),
        ensures
            final(self).wf(),
            final(self)@ == old(self)@.host_model(update),
            final(self)@.anchors.dom() == old(self)@.anchors.dom(),
    {
        let ghost m = self@;
        proof {
            lemma_addressable(m.bytes.len() as int, edits@, m.bytes);
            lemma_host_model(m, update);
        }
        move_anchors(&mut self.anchors, edits);
        self.text = text;
        self.regions = regions;
        self.reconcile_anchor_nodes();
        self.projection = shown.projection;
        self.projection_map = shown.projection_map;
        self.blocks = shown.blocks;
        self.anchored_blocks = Vec::new();
        self.styles = shown.styles;
        self.resolved_styles = shown.resolved_styles;
        self.revision = self.revision.next();
        assert(self@ =~= m.host_model(update));
    }

    /// Puts a captured selection and a captured marked range back.
    pub(crate) fn recapture(
        &mut self,
        selection: &Option<RegionSelection<I>>,
        marked: &Option<RegionSelection<I>>,
    )
        requires
            old(self).wf(),
            old(self)@.has_room(4),
            capture_view(*selection) matches Some(pair) ==> capture_fits(old(self)@, pair),
            capture_view(*marked) matches Some(pair) ==> capture_fits(old(self)@, pair),
        ensures
            final(self).wf(),
            final(self)@ == old(self)@.recaptured(capture_view(*selection), capture_view(*marked)),
            old(self)@.spares(final(self)@),
    {
        let ghost before = self@;
        proof {
            lemma_spares_restored(before, capture_view(*selection));
        }
        if let Some(capture) = selection {
            self.restore_active_selection(capture);
        }
        let ghost selected = self@;
        proof {
            lemma_spares_marked(selected, selected.marked_from(capture_view(*marked)));
        }
        let marked_ref = match marked {
            Some(capture) => Some(capture),
            None => None,
        };
        self.restore_marked(marked_ref);
        proof {
            assert forall|a: DocumentAnchor| #[trigger] before.holds(a) implies self@.holds(a) by {
                assert(selected.holds(a));
            }
        }
    }
}

impl<I: Clone + Eq> DocumentState<I> {
    /// Replaces text outside the editable regions. The regions after it are
    /// given; a presentation must not be lost.
    pub fn apply_host_transaction(
        &mut self,
        transaction: EditTransaction,
        regions: Vec<DocumentRegion<I>>,
        viewport_top: Option<&DocumentPosition<I>>,
    ) -> (result: Result<(), HostTransactionError>)
        requires
            old(self).wf(),
            transaction.wf(),
            old(self)@.model.has_room(5),
            edits_fit(old(self)@.model.bytes.len() as int, transaction.spec_edits()),
        ensures
            final(self).wf(),
            host_result(
                old(self)@,
                final(self)@,
                result,
                transaction,
                HostView {
                    edits: transaction.spec_edits(),
                    regions: regions@,
                    projection: None,
                    blocks: None,
                    styles: None,
                },
                position_of(viewport_top),
            ),
    {
        self.apply_host_transaction_inner(transaction, regions, None, None, None, viewport_top)
    }

    /// Replaces text outside the editable regions, with the next projection.
    pub fn apply_host_transaction_with_projection(
        &mut self,
        transaction: EditTransaction,
        regions: Vec<DocumentRegion<I>>,
        projection: DocumentProjection,
        viewport_top: Option<&DocumentPosition<I>>,
    ) -> (result: Result<(), HostTransactionError>)
        requires
            old(self).wf(),
            transaction.wf(),
            old(self)@.model.has_room(5),
            edits_fit(old(self)@.model.bytes.len() as int, transaction.spec_edits()),
            projection@.valid(),
        ensures
            final(self).wf(),
            host_result(
                old(self)@,
                final(self)@,
                result,
                transaction,
                HostView {
                    edits: transaction.spec_edits(),
                    regions: regions@,
                    projection: Some(projection@),
                    blocks: None,
                    styles: None,
                },
                position_of(viewport_top),
            ),
    {
        self.apply_host_transaction_inner(
            transaction,
            regions,
            Some(projection),
            None,
            None,
            viewport_top,
        )
    }

    /// Replaces text outside the editable regions, with the next projection
    /// and the next blocks. Anchored rows are not kept.
    pub fn apply_host_transaction_with_presentation(
        &mut self,
        transaction: EditTransaction,
        regions: Vec<DocumentRegion<I>>,
        projection: DocumentProjection,
        blocks: Vec<DocumentBlock<I>>,
        viewport_top: Option<&DocumentPosition<I>>,
    ) -> (result: Result<(), HostTransactionError>)
        requires
            old(self).wf(),
            transaction.wf(),
            old(self)@.model.has_room(5),
            edits_fit(old(self)@.model.bytes.len() as int, transaction.spec_edits()),
            projection@.valid(),
        ensures
            final(self).wf(),
            if blocks@.len() > 0 && !old(self)@.renderer {
                &&& result == Err::<(), HostTransactionError>(
                    HostTransactionError::InvalidBlocks(BlockError::MissingRenderer),
                )
                &&& final(self)@ == old(self)@
            } else {
                host_result(
                    old(self)@,
                    final(self)@,
                    result,
                    transaction,
                    HostView {
                        edits: transaction.spec_edits(),
                        regions: regions@,
                        projection: Some(projection@),
                        blocks: Some(blocks@),
                        styles: None,
                    },
                    position_of(viewport_top),
                )
            },
    {
        if blocks.len() > 0 && !self.has_block_renderer {
            return Err(HostTransactionError::InvalidBlocks(BlockError::MissingRenderer));
        }
        self.apply_host_transaction_inner(
            transaction,
            regions,
            Some(projection),
            Some(blocks),
            None,
            viewport_top,
        )
    }

    /// Replaces text outside the editable regions, with the whole next
    /// presentation. Anchored rows are not kept.
    pub fn apply_host_transaction_with_rich_presentation(
        &mut self,
        transaction: EditTransaction,
        regions: Vec<DocumentRegion<I>>,
        projection: DocumentProjection,
        blocks: Vec<DocumentBlock<I>>,
        styles: DocumentStyles,
        viewport_top: Option<&DocumentPosition<I>>,
    ) -> (result: Result<(), HostTransactionError>)
        requires
            old(self).wf(),
            transaction.wf(),
            old(self)@.model.has_room(5),
            edits_fit(old(self)@.model.bytes.len() as int, transaction.spec_edits()),
            projection@.valid(),
        ensures
            final(self).wf(),
            if blocks@.len() > 0 && !old(self)@.renderer {
                &&& result == Err::<(), HostTransactionError>(
                    HostTransactionError::InvalidBlocks(BlockError::MissingRenderer),
                )
                &&& final(self)@ == old(self)@
            } else {
                host_result(
                    old(self)@,
                    final(self)@,
                    result,
                    transaction,
                    HostView {
                        edits: transaction.spec_edits(),
                        regions: regions@,
                        projection: Some(projection@),
                        blocks: Some(blocks@),
                        styles: Some(styles@),
                    },
                    position_of(viewport_top),
                )
            },
    {
        if blocks.len() > 0 && !self.has_block_renderer {
            return Err(HostTransactionError::InvalidBlocks(BlockError::MissingRenderer));
        }
        self.apply_host_transaction_inner(
            transaction,
            regions,
            Some(projection),
            Some(blocks),
            Some(styles),
            viewport_top,
        )
    }

    fn apply_host_transaction_inner(
        &mut self,
        transaction: EditTransaction,
        regions: Vec<DocumentRegion<I>>,
        projection: Option<DocumentProjection>,
        blocks: Option<Vec<DocumentBlock<I>>>,
        styles: Option<DocumentStyles>,
        viewport_top: Option<&DocumentPosition<I>>,
    ) -> (result: Result<(), HostTransactionError>)
        requires
            old(self).wf(),
            transaction.wf(),
            old(self)@.model.has_room(5),
            edits_fit(old(self)@.model.bytes.len() as int, transaction.spec_edits()),
            projection_fits(projection_of(projection)),
        ensures
            final(self).wf(),
            host_result(
                old(self)@,
                final(self)@,
                result,
                transaction,
                HostView {
                    edits: transaction.spec_edits(),
                    regions: regions@,
                    projection: projection_of(projection),
                    blocks: blocks_of(blocks),
                    styles: styles_of(styles),
                },
                position_of(viewport_top),
            ),
    {
        let ghost before = self@;
        let ghost m = before.model;
        let ghost top = position_of(viewport_top);
        let ghost update = HostView {
            edits: transaction.spec_edits(),
            regions: regions@,
            projection: projection_of(projection),
            blocks: blocks_of(blocks),
            styles: styles_of(styles),
        };
        if transaction.origin() != EditOrigin::Host {
            return Err(HostTransactionError::InvalidOrigin);
        }
        if transaction.revision() != self.model.revision {
            return Err(HostTransactionError::StaleRevision);
        }
        let edits = transaction.edits.as_slice();
        let (text, next_regions) = match self.model.host_source(edits, regions, Ghost(update)) {
            Ok(source) => source,
            Err(error) => {
                return Err(error);
            },
        };
        let selection = self.model.capture_active_selection_in_editable_region();
        let marked = self.model.capture_marked_in_editable_region();
        let shown = match self.model.host_presentation(
            &text,
            &next_regions,
            projection,
            blocks,
            styles,
            Ghost(update),
        ) {
            Ok(shown) => shown,
            Err(error) => {
                return Err(error);
            },
        };
        let first_changed_item = self.first_changed_item(edits);
        self.capture_viewport_anchor(viewport_top);
        let ghost kept = self@;
        proof {
            lemma_kept_update(before, top, update);
            lemma_host_model(kept.model, update);
            lemma_capture_kept(m, m.selection, kept.model.host_model(update));
            if let Some(range) = m.marked {
                lemma_capture_kept(m, range, kept.model.host_model(update));
            }
        }
        self.model.install_host(edits, text, next_regions, shown, Ghost(update));
        proof {
            assert(self@ =~= kept.with_model(kept.model.host_model(update)));
            lemma_same_anchors(kept, self@);
        }
        self.reconcile_layout_items_from(first_changed_item);
        let ghost rows = self@;
        self.model.recapture(&selection, &marked);
        proof {
            assert(self@ =~= rows.with_model(
                rows.model.recaptured(m.captured(m.selection), m.captured_marked()),
            ));
            lemma_spared(rows, self@);
        }
        self.emit(
            DocumentEvent::Changed { revision: self.model.revision, origin: EditOrigin::Host },
        );
        self.notify();
        assert(self@ == before.host_updated(update, top));
        Ok(())
    }
}

/// What becomes of a change of the host: all of it or nothing.
pub open(crate) spec fn host_result<I>(
    before: StateView<I>,
    after: StateView<I>,
    result: Result<(), HostTransactionError>,
    transaction: EditTransaction,
    update: HostView<I>,
    top: Option<DocumentPosition<I>>,
) -> bool {
    match result {
        Ok(()) => {
            &&& before.model.host_fault(transaction, update) is None
            &&& after == before.host_updated(update, top)
        },
        Err(error) => {
            &&& before.model.host_fault(transaction, update) == Some(error)
            &&& after == before
        },
    }
}

/// One more anchor makes no difference to what a host may change.
pub(crate) proof fn lemma_kept_update<I>(
    before: StateView<I>,
    top: Option<DocumentPosition<I>>,
    update: HostView<I>,
)
    ensures
        ({
            let kept = before.keeping_viewport(top).model;
            let m = before.model;
            &&& kept.bytes == m.bytes
            &&& kept.regions == m.regions
            &&& kept.host_source_fault(update) == m.host_source_fault(update)
            &&& kept.host_presentation_fault(update) == m.host_presentation_fault(update)
            &&& kept.host_projection(update) == m.host_projection(update)
            &&& kept.host_blocks(update) == m.host_blocks(update)
            &&& kept.host_styles(update) == m.host_styles(update)
            &&& kept.host_bytes(update) == m.host_bytes(update)
            &&& kept.next_id <= m.next_id + 1
            &&& kept.selection == m.selection
            &&& kept.marked == m.marked
        }),
{
}

} // verus!
