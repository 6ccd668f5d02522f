//! A fragment of a document that the host replaces: what it leaves behind.

use crate::document::anchored_block::AnchoredBlock;
use crate::document::anchors::AnchorRecord;
use crate::document::block::{BlockError, DocumentBlock};
use crate::document::event::{DocumentEffect, DocumentEvent, SnapshotView};
use crate::document::layout::LayoutView;
use crate::document::model_view::{anchors_reconciled, ModelView};
use crate::document::outcome::{HostTransactionError, PresentationError};
use crate::document::position::{
    saturated, Affinity, DocumentAnchor, DocumentPosition, DocumentRevision,
};
use crate::document::region::{
    region_index_of, region_start_at, spliced_regions, DocumentRegion, EditPolicy, RegionError,
};
use crate::document::state_view::{shared_prefix, shared_suffix, StateView};
use crate::document::transaction::EditOrigin;
use crate::scan::first_where;
use crate::text::{at_boundary, lemma_part_boundary, splice_bytes};
use std::ops::Range;
use vstd::prelude::*;

verus! {

// ---------------------------------------------------------------------------
// The least edit between two texts
// ---------------------------------------------------------------------------

/// How many bytes from `from` on are the same at the start of both.
pub open spec fn same_start(a: Seq<u8>, b: Seq<u8>, from: int) -> int
    decreases a.len() - from,
{
    if from < a.len() && from < b.len() && a[from] == b[from] {
        same_start(a, b, from + 1)
    } else {
        from
    }
}

/// How many bytes from the `from`-th on are the same at the end of both, not
/// counting the first `kept`.
pub open spec fn same_end(a: Seq<u8>, b: Seq<u8>, kept: int, from: int) -> int
    decreases a.len() - kept - from,
{
    if from < a.len() - kept && from < b.len() - kept && a[a.len() - 1 - from] == b[b.len() - 1
        - from] {
        same_end(a, b, kept, from + 1)
    } else {
        from
    }
}

/// The last offset up to `from` that is a boundary in both.
pub open spec fn boundary_in_both(a: Seq<u8>, b: Seq<u8>, from: int) -> int
    decreases from,
{
    if from <= 0 || (at_boundary(a, from) && at_boundary(b, from)) {
        from
    } else {
        boundary_in_both(a, b, from - 1)
    }
}

/// The last distance from the end, up to `from`, that is a boundary in both.
pub open spec fn end_boundary_in_both(a: Seq<u8>, b: Seq<u8>, from: int) -> int
    decreases from,
{
    if from <= 0 || (at_boundary(a, a.len() - from) && at_boundary(b, b.len() - from)) {
        from
    } else {
        end_boundary_in_both(a, b, from - 1)
    }
}

/// How much of both texts is kept at the start.
pub open spec fn kept_start(a: Seq<u8>, b: Seq<u8>) -> int {
    boundary_in_both(a, b, same_start(a, b, 0))
}

/// How much of both texts is kept at the end.
pub open spec fn kept_end(a: Seq<u8>, b: Seq<u8>) -> int {
    end_boundary_in_both(a, b, same_end(a, b, kept_start(a, b), 0))
}

/// Anchors after the text at `start` has changed: only those in the part that
/// differs move in it.
pub open spec fn fragment_anchors<I>(
    anchors: Map<DocumentAnchor, AnchorRecord<I>>,
    start: int,
    old_text: Seq<u8>,
    new_text: Seq<u8>,
) -> Map<DocumentAnchor, AnchorRecord<I>> {
    if old_text == new_text {
        anchors
    } else {
        let head = kept_start(old_text, new_text);
        let tail = kept_end(old_text, new_text);
        anchors.map_values(
            |r: AnchorRecord<I>|
                r.moved(
                    start + head,
                    start + old_text.len() - tail,
                    new_text.len() - head - tail,
                ),
        )
    }
}

proof fn lemma_same_start(a: Seq<u8>, b: Seq<u8>, from: int)
    requires
        0 <= from <= a.len(),
        from <= b.len(),
        forall|i: int| 0 <= i < from ==> a[i] == b[i],
    ensures
        from <= same_start(a, b, from) <= a.len(),
        same_start(a, b, from) <= b.len(),
        forall|i: int| 0 <= i < same_start(a, b, from) ==> a[i] == b[i],
    decreases a.len() - from,
{
    if from < a.len() && from < b.len() && a[from] == b[from] {
        lemma_same_start(a, b, from + 1);
    }
}

proof fn lemma_same_end(a: Seq<u8>, b: Seq<u8>, kept: int, from: int)
    requires
        0 <= kept <= a.len(),
        kept <= b.len(),
        0 <= from <= a.len() - kept,
        from <= b.len() - kept,
        a.subrange(a.len() - from, a.len() as int) == b.subrange(b.len() - from, b.len() as int),
    ensures
        from <= same_end(a, b, kept, from) <= a.len() - kept,
        same_end(a, b, kept, from) <= b.len() - kept,
        a.subrange(a.len() - same_end(a, b, kept, from), a.len() as int) == b.subrange(
            b.len() - same_end(a, b, kept, from),
            b.len() as int,
        ),
    decreases a.len() - kept - from,
{
    if from < a.len() - kept && from < b.len() - kept && a[a.len() - 1 - from] == b[b.len() - 1
        - from] {
        let x = a.subrange(a.len() - from, a.len() as int);
        let y = b.subrange(b.len() - from, b.len() as int);
        let u = a.subrange(a.len() - from - 1, a.len() as int);
        let v = b.subrange(b.len() - from - 1, b.len() as int);
        assert forall|i: int| 0 <= i < u.len() implies u[i] == v[i] by {
            if i > 0 {
                assert(u[i] == x[i - 1] && v[i] == y[i - 1]);
            }
        }
        assert(u =~= v);
        lemma_same_end(a, b, kept, from + 1);
    }
}

proof fn lemma_boundary_in_both(a: Seq<u8>, b: Seq<u8>, from: int)
    requires
        0 <= from <= a.len(),
        from <= b.len(),
    ensures
        0 <= boundary_in_both(a, b, from) <= from,
        at_boundary(a, boundary_in_both(a, b, from)),
        at_boundary(b, boundary_in_both(a, b, from)),
    decreases from,
{
    if from <= 0 || (at_boundary(a, from) && at_boundary(b, from)) {
    } else {
        lemma_boundary_in_both(a, b, from - 1);
    }
}

proof fn lemma_end_boundary_in_both(a: Seq<u8>, b: Seq<u8>, from: int)
    requires
        0 <= from <= a.len(),
        from <= b.len(),
    ensures
        0 <= end_boundary_in_both(a, b, from) <= from,
        at_boundary(a, a.len() - end_boundary_in_both(a, b, from)),
        at_boundary(b, b.len() - end_boundary_in_both(a, b, from)),
    decreases from,
{
    if from <= 0 || (at_boundary(a, a.len() - from) && at_boundary(b, b.len() - from)) {
    } else {
        lemma_end_boundary_in_both(a, b, from - 1);
    }
}

/// What is kept of both texts is the same, and what differs lies between
/// characters.
pub proof fn lemma_kept(a: Seq<u8>, b: Seq<u8>)
    ensures
        0 <= kept_start(a, b),
        0 <= kept_end(a, b),
        kept_start(a, b) + kept_end(a, b) <= a.len(),
        kept_start(a, b) + kept_end(a, b) <= b.len(),
        at_boundary(a, kept_start(a, b)),
        at_boundary(b, kept_start(a, b)),
        at_boundary(a, a.len() - kept_end(a, b)),
        at_boundary(b, b.len() - kept_end(a, b)),
        a.subrange(0, kept_start(a, b)) == b.subrange(0, kept_start(a, b)),
        a.subrange(a.len() - kept_end(a, b), a.len() as int) == b.subrange(
            b.len() - kept_end(a, b),
            b.len() as int,
        ),
{
    lemma_same_start(a, b, 0);
    lemma_boundary_in_both(a, b, same_start(a, b, 0));
    let head = kept_start(a, b);
    assert(a.subrange(a.len() as int, a.len() as int) =~= b.subrange(
        b.len() as int,
        b.len() as int,
    ));
    lemma_same_end(a, b, head, 0);
    let shared = same_end(a, b, head, 0);
    lemma_end_boundary_in_both(a, b, shared);
    let tail = kept_end(a, b);
    assert(a.subrange(0, head) =~= b.subrange(0, head));
    let x = a.subrange(a.len() - tail, a.len() as int);
    let y = b.subrange(b.len() - tail, b.len() as int);
    let u = a.subrange(a.len() - shared, a.len() as int);
    let v = b.subrange(b.len() - shared, b.len() as int);
    assert forall|i: int| 0 <= i < tail implies x[i] == y[i] by {
        assert(x[i] == u[i + shared - tail] && y[i] == v[i + shared - tail]);
    }
    assert(x =~= y);
}

/// Replacing only what differs replaces all.
pub proof fn lemma_least_edit(bytes: Seq<u8>, first: int, last: int, new_text: Seq<u8>)
    requires
        0 <= first <= last <= bytes.len(),
        at_boundary(bytes, first),
        at_boundary(bytes, last),
    ensures
        ({
            let old_text = bytes.subrange(first, last);
            let head = kept_start(old_text, new_text);
            let tail = kept_end(old_text, new_text);
            &&& first <= first + head <= last - tail <= last
            &&& at_boundary(bytes, first + head)
            &&& at_boundary(bytes, last - tail)
            &&& splice_bytes(
                bytes,
                first + head,
                last - tail,
                new_text.subrange(head, new_text.len() - tail),
            ) == splice_bytes(bytes, first, last, new_text)
            &&& old_text == new_text ==> splice_bytes(bytes, first, last, new_text) == bytes
        }),
{
    let old_text = bytes.subrange(first, last);
    lemma_kept(old_text, new_text);
    let head = kept_start(old_text, new_text);
    let tail = kept_end(old_text, new_text);
    lemma_part_boundary(bytes, first, last, head);
    lemma_part_boundary(bytes, first, last, old_text.len() - tail);
    let a = splice_bytes(
        bytes,
        first + head,
        last - tail,
        new_text.subrange(head, new_text.len() - tail),
    );
    let b = splice_bytes(bytes, first, last, new_text);
    assert(a.len() == b.len());
    assert forall|i: int| 0 <= i < a.len() implies a[i] == b[i] by {
        if i < first {
        } else if i < first + head {
            assert(old_text.subrange(0, head)[i - first] == new_text.subrange(0, head)[i - first]);
        } else if i < first + new_text.len() - tail {
        } else if i < first + new_text.len() {
            let j = i - (first + new_text.len() - tail);
            assert(old_text.subrange(old_text.len() - tail, old_text.len() as int)[j]
                == new_text.subrange(new_text.len() - tail, new_text.len() as int)[j]);
        }
    }
    assert(a =~= b);
    if old_text == new_text {
        assert(b =~= bytes);
    }
}

// ---------------------------------------------------------------------------
// The fragment
// ---------------------------------------------------------------------------

/// Blocks moved by `delta`.
pub open spec fn shifted_blocks<I>(blocks: Seq<DocumentBlock<I>>, delta: int) -> Seq<
    DocumentBlock<I>,
> {
    blocks.map_values(
        |b: DocumentBlock<I>| b.at(saturated(b.start() + delta), saturated(b.end() + delta)),
    )
}

/// The first block that ends behind an offset.
pub open spec fn block_behind<I>(blocks: Seq<DocumentBlock<I>>, offset: int) -> int {
    first_where(blocks, |b: DocumentBlock<I>| b.end() > offset, 0)
}

/// The first block that starts at or behind an offset.
pub open spec fn block_from<I>(blocks: Seq<DocumentBlock<I>>, offset: int) -> int {
    first_where(blocks, |b: DocumentBlock<I>| b.start() >= offset, 0)
}

/// Blocks with those of a part of the source replaced.
pub open spec fn spliced_blocks<I>(
    blocks: Seq<DocumentBlock<I>>,
    start: int,
    end: int,
    replacement: Seq<DocumentBlock<I>>,
    delta: int,
) -> Seq<DocumentBlock<I>> {
    blocks.subrange(0, block_behind(blocks, start)) + shifted_blocks(replacement, start)
        + shifted_blocks(
        blocks.subrange(block_from(blocks, end), blocks.len() as int),
        delta,
    )
}

/// A node is one of those in `from..to`.
pub open spec fn node_within<I>(regions: Seq<DocumentRegion<I>>, from: int, to: int, id: I) -> bool {
    exists|i: int| from <= i < to && (#[trigger] regions[i]).spec_id() == id
}

/// The anchored rows of other nodes than those in `from..to`.
pub open spec fn retained_rows<I>(
    anchored: Seq<AnchoredBlock<I>>,
    regions: Seq<DocumentRegion<I>>,
    from: int,
    to: int,
) -> Seq<AnchoredBlock<I>>
    decreases anchored.len(),
{
    if anchored.len() == 0 {
        Seq::empty()
    } else {
        let before = retained_rows(anchored.drop_last(), regions, from, to);
        if node_within(regions, from, to, anchored.last().spec_position().spec_node_id()) {
            before
        } else {
            before.push(anchored.last())
        }
    }
}

/// A line of the display begins at an offset.
pub open spec fn begins_line(display: Seq<u8>, offset: int) -> bool {
    offset == 0 || (offset <= display.len() && display[offset - 1] == 0x0a)
}

/// A range reaches over an offset.
pub open spec fn reaches_over(range: Range<usize>, offset: int) -> bool {
    range.start < offset < range.end
}

/// A line feed is the last byte.
pub open spec fn ends_in_line_feed(bytes: Seq<u8>) -> bool {
    bytes.len() > 0 && bytes.last() == 0x0a
}

impl<I> ModelView<I> {
    /// The index of a node, or the end without one.
    pub open spec fn fragment_edge(self, id: Option<I>) -> Option<int> {
        match id {
            Some(id) => region_index_of(self.regions, id),
            None => Some(self.regions.len() as int),
        }
    }

    /// Where a node starts in the source, or the end of the source.
    pub open spec fn fragment_start(self, index: int) -> int {
        region_start_at(self.regions, self.bytes.len() as int, index)
    }

    /// The nodes of a fragment can be replaced: none is editable.
    pub open spec fn fragment_open(self, from: int, to: int) -> bool {
        &&& from <= to
        &&& forall|i: int|
            from <= i < to ==> (#[trigger] self.regions[i]).spec_policy() != EditPolicy::Editable
    }

    /// Nothing of the presentation reaches over an offset.
    pub open spec fn seam(self, offset: int) -> bool {
        &&& self.projection.outside(offset)
        &&& forall|i: int|
            0 <= i < self.styles.paragraphs.len() ==> !reaches_over(
                (#[trigger] self.styles.paragraphs[i]).spec_source(),
                offset,
            )
        &&& forall|i: int|
            0 <= i < self.styles.inline.len() ==> !reaches_over(
                (#[trigger] self.styles.inline[i]).spec_source(),
                offset,
            )
    }

    /// A fragment begins and ends where display lines do, and nothing reaches
    /// over its edges.
    pub open spec fn fragment_fits(self, first: int, last: int) -> bool {
        &&& begins_line(self.display(), self.shown(first, Affinity::Before))
        &&& last != self.bytes.len() ==> begins_line(
            self.display(),
            self.shown(last, Affinity::Before),
        )
        &&& self.seam(first)
        &&& self.seam(last)
    }

    /// An id is used by a node outside a fragment, or by an anchored row of
    /// such a node.
    pub open spec fn retains_id(self, from: int, to: int, id: I) -> bool {
        ||| exists|i: int|
            (0 <= i < from || to <= i < self.regions.len()) && (#[trigger] self.regions[i]).spec_id()
                == id
        ||| exists|i: int|
            0 <= i < self.anchored.len() && (#[trigger] self.anchored[i]).spec_id() == id
                && !node_within(
                self.regions,
                from,
                to,
                self.anchored[i].spec_position().spec_node_id(),
            )
    }

    /// An id is used by a node or an anchored row.
    pub open spec fn has_id(self, id: I) -> bool {
        ||| exists|i: int| 0 <= i < self.regions.len() && (#[trigger] self.regions[i]).spec_id() == id
        ||| exists|i: int|
            0 <= i < self.anchored.len() && (#[trigger] self.anchored[i]).spec_id() == id
    }

    /// An id of a replacement is used outside the fragment.
    pub open spec fn ids_clash(self, from: int, to: int, other: ModelView<I>) -> bool {
        exists|id: I| #[trigger] self.retains_id(from, to, id) && other.has_id(id)
    }

    /// The document after the nodes `from..to` were replaced by another
    /// document, with its anchors moved.
    pub open(crate) spec fn fragment_model(self, from: int, to: int, other: ModelView<I>) -> ModelView<
        I,
    > {
        let first = self.fragment_start(from);
        let last = self.fragment_start(to);
        let delta = other.bytes.len() - (last - first);
        let shown_first = self.shown(first, Affinity::Before);
        let shown_last = self.shown(last, Affinity::Before);
        let display_delta = other.display().len() - (shown_last - shown_first);
        let regions = spliced_regions(self.regions, from, to, other.regions, first, delta);
        ModelView {
            bytes: splice_bytes(self.bytes, first, last, other.bytes),
            revision: self.revision.spec_next(),
            regions,
            anchors: anchors_reconciled(
                fragment_anchors(
                    self.anchors,
                    first,
                    self.bytes.subrange(first, last),
                    other.bytes,
                ),
                regions,
            ),
            projection: self.projection.spliced(first, last, other.projection),
            blocks: spliced_blocks(self.blocks, first, last, other.blocks, delta),
            anchored: retained_rows(self.anchored, self.regions, from, to) + other.anchored,
            styles: self.styles.spliced(first, last, other.bytes.len() as int, other.styles),
            resolved: self.resolved.spliced(
                shown_first,
                shown_last,
                display_delta,
                other.resolved,
            ),
            ..self
        }
    }
}

/// The first row whose source starts at or behind an offset.
pub open spec fn row_from<I>(items: Seq<LayoutView<I>>, source: int) -> int {
    first_where(items, |item: LayoutView<I>| item.source_start() >= source, 0)
}

/// The node that a row belongs to.
pub open spec fn row_node<I>(item: LayoutView<I>, anchored: Seq<AnchoredBlock<I>>) -> Option<I> {
    match item {
        LayoutView::Text { node_id, .. } => node_id,
        LayoutView::Block { id, .. } => Some(id),
        LayoutView::AnchoredBlock { id, .. } => {
            let at = first_where(anchored, |b: AnchoredBlock<I>| b.spec_id() == id, 0);
            if at < anchored.len() {
                Some(anchored[at].spec_position().spec_node_id())
            } else {
                None
            }
        },
        LayoutView::Trailer => None,
    }
}

/// Rows moved by text before them that grows.
pub open spec fn shifted_rows<I>(items: Seq<LayoutView<I>>, source_delta: int, display_delta: int) -> Seq<
    LayoutView<I>,
> {
    items.map_values(|item: LayoutView<I>| item.shifted(source_delta, display_delta))
}

impl<I> StateView<I> {
    /// A row belongs to a node before another.
    pub open spec fn row_before(self, index: int, region: int) -> bool {
        row_node(self.items[index], self.model.anchored) matches Some(id) && region_index_of(
            self.model.regions,
            id,
        ) matches Some(owner) && owner < region
    }

    /// The first row from `from` on that does not belong to a node before
    /// another.
    pub open spec fn skip_rows(self, from: int, region: int) -> int
        decreases self.items.len() - from,
    {
        if from < self.items.len() && self.row_before(from, region) {
            self.skip_rows(from + 1, region)
        } else {
            from
        }
    }

    /// The first row of a node.
    pub open spec fn layout_edge(self, region: int) -> int {
        self.skip_rows(row_from(self.items, self.model.fragment_start(region)), region)
    }

    /// The rows that replace those of a fragment. The node behind it owns the
    /// caret row at the end of the fragment.
    pub open(crate) spec fn fragment_rows(self, from: int, to: int, other: ModelView<I>) -> Seq<
        LayoutView<I>,
    > {
        let rows = other.layout();
        let own = if to != self.model.regions.len() && rows.len() > 0 && rows.last().is_empty_text() {
            rows.drop_last()
        } else {
            rows
        };
        let first = self.model.fragment_start(from);
        shifted_rows(own, first, self.model.shown(first, Affinity::Before))
    }

    /// With rows replaced and those behind them moved. The rows that stay the
    /// same at both ends are not replaced.
    pub open(crate) spec fn with_rows(
        self,
        start: int,
        end: int,
        rows: Seq<LayoutView<I>>,
        source_delta: int,
        display_delta: int,
    ) -> StateView<I> {
        let gone = self.items.subrange(start, end);
        let prefix = shared_prefix(gone, rows, 0, gone.len() as int);
        let suffix = shared_suffix(gone, rows, 0, prefix);
        let count = rows.len() - prefix - suffix;
        let asked = if start + prefix != end - suffix || count != 0 {
            self.with_effect(
                DocumentEffect::SpliceItems {
                    from: (start + prefix) as usize,
                    to: (end - suffix) as usize,
                    count: count as usize,
                },
            )
        } else {
            self
        };
        StateView {
            items: self.items.subrange(0, start) + rows + shifted_rows(
                self.items.subrange(end, self.items.len() as int),
                source_delta,
                display_delta,
            ),
            ..asked
        }
    }

    /// With the rows of a fragment replaced, those behind moved, and the view
    /// asked for the difference.
    pub open(crate) spec fn with_fragment_rows(self, from: int, to: int, other: ModelView<I>) -> StateView<
        I,
    > {
        let first = self.model.fragment_start(from);
        let last = self.model.fragment_start(to);
        let source_delta = other.bytes.len() - (last - first);
        let display_delta = other.display().len() - (self.model.shown(last, Affinity::Before)
            - self.model.shown(first, Affinity::Before));
        self.with_rows(
            self.layout_edge(from),
            self.layout_edge(to),
            self.fragment_rows(from, to, other),
            source_delta,
            display_delta,
        )
    }

    /// Why a fragment cannot be replaced.
    pub open(crate) spec fn splice_fault(
        self,
        revision: DocumentRevision,
        first: Option<I>,
        end: Option<I>,
        snapshot: SnapshotView<I>,
    ) -> Option<HostTransactionError> {
        let m = self.model;
        match (m.fragment_edge(first), m.fragment_edge(end)) {
            (Some(from), Some(to)) => {
                let fresh = ModelView::initial(snapshot.text, snapshot.regions);
                let other = StateView::snapshot_model(snapshot);
                let last = m.fragment_start(to);
                let shown_fault = fresh.presentation_fault(
                    snapshot.projection,
                    snapshot.blocks,
                    snapshot.anchored,
                    snapshot.styles,
                );
                if revision != m.revision {
                    Some(HostTransactionError::StaleRevision)
                } else if !m.fragment_open(from, to) || (exists|i: int|
                    0 <= i < snapshot.regions.len() && (
                    #[trigger] snapshot.regions[i]).spec_policy() == EditPolicy::Editable)
                    || snapshot.selection is Some || !m.fragment_fits(m.fragment_start(from), last) {
                    Some(HostTransactionError::FragmentBoundary)
                } else if !self.renderer && (snapshot.blocks.len() > 0 || snapshot.anchored.len()
                    > 0) {
                    Some(HostTransactionError::InvalidBlocks(BlockError::MissingRenderer))
                } else if ModelView::new_fault(snapshot.text, snapshot.regions) is Some {
                    Some(
                        HostTransactionError::InvalidFragment(
                            PresentationError::Regions(
                                ModelView::new_fault(snapshot.text, snapshot.regions)->0,
                            ),
                        ),
                    )
                } else if shown_fault is Some {
                    Some(HostTransactionError::InvalidFragment(shown_fault->0))
                } else if m.ids_clash(from, to, other) {
                    Some(
                        HostTransactionError::InvalidFragment(
                            PresentationError::Regions(
                                RegionError::DuplicateId { index: from as usize },
                            ),
                        ),
                    )
                } else if last != m.bytes.len() && other.display().len() > 0 && !ends_in_line_feed(
                    other.display(),
                ) {
                    Some(HostTransactionError::FragmentBoundary)
                } else {
                    None
                }
            },
            _ => if revision != m.revision {
                Some(HostTransactionError::StaleRevision)
            } else {
                Some(HostTransactionError::FragmentBoundary)
            },
        }
    }

    /// After a fragment was replaced.
    pub open(crate) spec fn spliced(
        self,
        first: Option<I>,
        end: Option<I>,
        snapshot: SnapshotView<I>,
        top: Option<DocumentPosition<I>>,
    ) -> StateView<I> {
        let from = self.model.fragment_edge(first)->0;
        let to = self.model.fragment_edge(end)->0;
        let other = StateView::snapshot_model(snapshot);
        let kept = self.keeping_viewport(top);
        let rows = kept.with_fragment_rows(from, to, other);
        let model = kept.model.fragment_model(from, to, other).recaptured(
            self.model.captured(self.model.selection),
            self.model.captured_marked(),
        );
        rows.with_model(model).emitted(
            DocumentEvent::Changed { revision: model.revision, origin: EditOrigin::Host },
        ).notified()
    }
}

} // verus!
