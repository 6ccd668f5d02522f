//! Nothing that a projection or a block shows stands in the way of an edit.

use crate::document::block::{
    block_fault, blocks_carried, blocks_fault, covers_block, hides_block,
    law_blocks_are_hidden_atomic_regions,
};
use crate::document::model_lemmas::{
    lemma_carried, lemma_carried_projection, lemma_regions_grown,
};
use crate::document::model_view::{rows_fault, ModelView};
use crate::document::projection::entry_valid;
use crate::document::region::{lemma_regions_faultless, EditPolicy};
use crate::document::resolve::styles_fault;
use crate::document::transaction::{
    applicable, edited, edits_fit, edits_inside, edits_on_boundaries, lemma_edited_before,
    lemma_edited_behind, lemma_net_growth_within, net_growth, TextEdit,
};
use crate::document::validate::{
    law_projection_spares_editable_text, mapping_on_boundaries, projected_fault, projection_fault,
    touches_editable,
};
use crate::scan::{lemma_first_fault, lemma_first_where_is};
use crate::text::at_boundary;
use vstd::prelude::*;

verus! {

/// Edits of one editable region.
pub open spec fn edits_of<I>(m: ModelView<I>, target: int, edits: Seq<TextEdit>) -> bool {
    &&& m.wf()
    &&& 0 <= target < m.regions.len()
    &&& m.regions[target].spec_policy() == EditPolicy::Editable
    &&& applicable(edits)
    &&& edits_on_boundaries(edits, m.bytes)
    &&& edits_inside(edits, m.regions[target].start(), m.regions[target].end())
    &&& edits_fit(m.bytes.len() as int, edits)
}

/// An offset outside the edited region stays between characters.
proof fn lemma_offset_kept<I>(m: ModelView<I>, target: int, edits: Seq<TextEdit>, offset: int)
    requires
        edits_of(m, target, edits),
        at_boundary(m.bytes, offset),
    ensures
        offset <= m.regions[target].start() ==> at_boundary(edited(m.bytes, edits), offset),
        offset >= m.regions[target].end() ==> at_boundary(
            edited(m.bytes, edits),
            offset + net_growth(edits),
        ),
{
    let region = m.regions[target];
    if offset <= region.start() {
        lemma_edited_before(m.bytes, edits, offset);
    }
    if offset >= region.end() {
        assert(edits_inside(edits, 0, offset));
        lemma_edited_behind(m.bytes, edits, offset);
    }
}

/// The spans of a document lie on either side of an editable region, and move
/// with their side.
proof fn lemma_spans_moved<I>(m: ModelView<I>, target: int, edits: Seq<TextEdit>)
    requires
        edits_of(m, target, edits),
    ensures
        ({
            let q = m.projection.carried(edits, edited(m.bytes, edits).len() as int);
            &&& q.valid()
            &&& q.spans.len() == m.projection.spans.len()
            &&& forall|i: int|
                0 <= i < q.spans.len() ==> {
                    let span = m.projection.spans[i];
                    &&& span.end <= m.regions[target].start() || m.regions[target].end()
                        <= span.start
                    &&& (#[trigger] q.spans[i]) == (if span.end <= m.regions[target].start() {
                        span
                    } else {
                        span.shifted(net_growth(edits))
                    })
                }
        }),
{
    let region = m.regions[target];
    let p = m.projection;
    lemma_regions_grown(m, target, edits);
    assert forall|i: int| 0 <= i < p.spans.len() implies (#[trigger] p.spans[i]).end
        <= region.start() || p.spans[i].start >= region.end() by {
        law_projection_spares_editable_text(p, m.regions, m.bytes, i, target);
    }
    lemma_carried_projection(p, edits, region.start(), region.end());
    let q = p.carried(edits, edited(m.bytes, edits).len() as int);
    assert forall|i: int| 0 <= i < q.spans.len() implies {
        let span = p.spans[i];
        &&& span.end <= region.start() || region.end() <= span.start
        &&& (#[trigger] q.spans[i]) == (if span.end <= region.start() {
            span
        } else {
            span.shifted(net_growth(edits))
        })
    } by {
        assert(p.spans[i].end <= region.start() || p.spans[i].start >= region.end());
    }
}

/// A span that has moved with the text has no fault.
proof fn lemma_span_faultless<I>(m: ModelView<I>, target: int, edits: Seq<TextEdit>, i: int)
    requires
        edits_of(m, target, edits),
        0 <= i < m.projection.spans.len(),
    ensures
        ({
            let bytes = edited(m.bytes, edits);
            let grown = m.regions_grown(target, net_growth(edits));
            let q = m.projection.carried(edits, bytes.len() as int);
            projected_fault(q, grown, bytes)(i) is None
        }),
{
    let p = m.projection;
    let region = m.regions[target];
    let g = net_growth(edits);
    let bytes = edited(m.bytes, edits);
    let grown = m.regions_grown(target, g);
    let q = p.carried(edits, bytes.len() as int);
    lemma_regions_grown(m, target, edits);
    lemma_spans_moved(m, target, edits);
    lemma_net_growth_within(edits, region.start(), region.end());
    lemma_first_fault(projected_fault(p, m.regions, m.bytes), 0, p.spans.len() as int);
    assert(projected_fault(p, m.regions, m.bytes)(i) is None);
    let span = p.spans[i];
    let moved = q.spans[i];
    lemma_offset_kept(m, target, edits, span.start);
    lemma_offset_kept(m, target, edits, span.end);
    assert(mapping_on_boundaries(moved, bytes)) by {
        if let Some(entries) = span.mapping {
            let after = moved.mapping->0;
            assert forall|k: int| 0 <= k < after.len() implies at_boundary(
                bytes,
                (#[trigger] after[k]).spec_source().0,
            ) && at_boundary(bytes, after[k].spec_source().1) by {
                assert(entry_valid(entries, span, k));
                lemma_offset_kept(m, target, edits, entries[k].spec_source().0);
                lemma_offset_kept(m, target, edits, entries[k].spec_source().1);
            }
        }
    }
    assert(!touches_editable(moved, grown)) by {
        assert forall|r: int|
            0 <= r < grown.len() && (#[trigger] grown[r]).spec_policy()
                == EditPolicy::Editable implies !(moved.start < grown[r].end() && grown[r].start()
            < moved.end) by {
            let other = m.regions[r];
            assert(other.spec_policy() == EditPolicy::Editable);
            assert(!(span.start < other.end() && other.start() < span.end));
        }
    }
}

/// A block moves with its region and its span.
proof fn lemma_block_faultless<I>(m: ModelView<I>, target: int, edits: Seq<TextEdit>, i: int)
    requires
        edits_of(m, target, edits),
        0 <= i < m.blocks.len(),
    ensures
        ({
            let bytes = edited(m.bytes, edits);
            let grown = m.regions_grown(target, net_growth(edits));
            let q = m.projection.carried(edits, bytes.len() as int);
            block_fault(blocks_carried(m.blocks, edits), grown, q, bytes.len() as usize)(i) is None
        }),
{
    let g = net_growth(edits);
    let bytes = edited(m.bytes, edits);
    let grown = m.regions_grown(target, g);
    let q = m.projection.carried(edits, bytes.len() as int);
    let len = m.bytes.len() as usize;
    let region = m.regions[target];
    lemma_regions_grown(m, target, edits);
    lemma_spans_moved(m, target, edits);
    lemma_net_growth_within(edits, region.start(), region.end());
    law_blocks_are_hidden_atomic_regions(m.blocks, m.regions, m.projection, len, i);
    let block = m.blocks[i];
    let moved = blocks_carried(m.blocks, edits)[i];
    let r = choose|r: int|
        0 <= r < m.regions.len() && (#[trigger] m.regions[r]).start() == block.start()
            && m.regions[r].end() == block.end() && m.regions[r].spec_policy()
            == EditPolicy::Atomic && m.regions[r].spec_id() == block.spec_id();
    let k = choose|k: int|
        0 <= k < m.projection.spans.len() && hides_block(#[trigger] m.projection.spans[k], block);
    assert(m.regions[r].start() == block.start());
    lemma_carried((block.start(), block.end()), edits, region.start(), region.end(), len as int);
    assert(hides_block(m.projection.spans[k], block));
    assert(hides_block(q.spans[k], moved));
    assert(covers_block(moved)(grown[r]));
    assert forall|j: int| 0 <= j < r implies !(#[trigger] covers_block(moved)(grown[j])) by {
        assert(grown[j].end() <= grown[r].start());
    }
    lemma_first_where_is(grown, covers_block(moved), 0, r);
    if i > 0 {
        law_blocks_are_hidden_atomic_regions(m.blocks, m.regions, m.projection, len, i - 1);
        let before = m.blocks[i - 1];
        let s = choose|s: int|
            0 <= s < m.regions.len() && (#[trigger] m.regions[s]).start() == before.start()
                && m.regions[s].end() == before.end() && m.regions[s].spec_policy()
                == EditPolicy::Atomic && m.regions[s].spec_id() == before.spec_id();
        assert(m.regions[s].start() == before.start());
        lemma_carried(
            (before.start(), before.end()),
            edits,
            region.start(),
            region.end(),
            len as int,
        );
        assert(blocks_carried(m.blocks, edits)[i - 1].end() == grown[s].end());
    }
}

/// Projected text and blocks never stand in the way of an edit of editable
/// text: only anchored rows and styles do, when the edit would leave one
/// without its place.
pub proof fn law_only_rows_and_styles_refuse_edits<I>(
    m: ModelView<I>,
    target: int,
    edits: Seq<TextEdit>,
)
    requires
        edits_of(m, target, edits),
    ensures
        ({
            let next = m.edited_in(target, edits);
            &&& projection_fault(next.projection, next.regions, next.bytes) is None
            &&& blocks_fault(
                next.blocks,
                next.regions,
                next.projection,
                next.bytes.len() as usize,
            ) is None
            &&& m.edit_rejection(target, edits) is Some <==> rows_fault(
                next.bytes,
                next.regions,
                next.projection,
                next.anchored,
            ) is Some || styles_fault(
                next.styles,
                next.bytes,
                next.regions,
                next.projection,
                next.display(),
            ) is Some
        }),
{
    let bytes = edited(m.bytes, edits);
    let grown = m.regions_grown(target, net_growth(edits));
    let q = m.projection.carried(edits, bytes.len() as int);
    let blocks = blocks_carried(m.blocks, edits);
    lemma_regions_grown(m, target, edits);
    lemma_regions_faultless(grown, bytes.len() as usize);
    assert forall|i: int| 0 <= i < q.spans.len() implies (#[trigger] projected_fault(
        q,
        grown,
        bytes,
    )(i)) is None by {
        lemma_span_faultless(m, target, edits, i);
    }
    lemma_first_fault(projected_fault(q, grown, bytes), 0, q.spans.len() as int);
    let fault = block_fault(blocks, grown, q, bytes.len() as usize);
    assert forall|i: int| 0 <= i < blocks.len() implies (#[trigger] fault(i)) is None by {
        lemma_block_faultless(m, target, edits, i);
    }
    lemma_first_fault(fault, 0, blocks.len() as int);
}

} // verus!
