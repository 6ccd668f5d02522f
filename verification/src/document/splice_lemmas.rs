//! A replaced fragment leaves a valid document.

use crate::document::block::{
    block_fault, blocks_fault, covers_block, hides_block, law_blocks_are_hidden_atomic_regions,
    DocumentBlock,
};
use crate::document::mapping::{lemma_shift_none, lemma_spliced, splice_shape};
use crate::document::model_lemmas::lemma_anchors_reconciled;
use crate::document::model_view::ModelView;
use crate::document::position::{moved_offset, AnchorBias, DocumentAnchor};
use crate::document::projection::{
    entry_valid, lemma_span_behind, lemma_span_from, mapping_valid, shifted_mapping, SpanView,
};
use crate::document::region::{
    can_shift, lemma_region_index, lemma_splice_valid, regions_on_boundaries, regions_valid,
    shifted_regions, spliced_regions, DocumentRegion, EditPolicy,
};
use crate::document::splice_view::{
    block_behind, block_from, fragment_anchors, kept_end, kept_start, lemma_kept, lemma_least_edit,
    shifted_blocks, spliced_blocks,
};
use crate::document::state_host::region_kept;
use crate::document::validate::{
    lemma_projection_fits, mapping_on_boundaries, projected_fault, projection_fault,
    touches_editable,
};
use crate::scan::{first_where, lemma_first_fault, lemma_first_where};
use crate::text::{at_boundary, lemma_splice_boundaries, splice_bytes, starts_clean};
use vstd::prelude::*;

verus! {

/// A fragment of one document that another can replace.
#[verifier::opaque]
pub open(crate) spec fn splice_ready<I>(m: ModelView<I>, from: int, to: int, c: ModelView<I>) -> bool {
    &&& m.wf()
    &&& c.wf()
    &&& 0 <= from <= to <= m.regions.len()
    &&& m.fragment_open(from, to)
    &&& m.projection.outside(m.fragment_start(from))
    &&& m.projection.outside(m.fragment_start(to))
    &&& m.bytes.len() + c.bytes.len() <= isize::MAX
    &&& forall|i: int|
        0 <= i < c.regions.len() ==> (#[trigger] c.regions[i]).spec_policy() != EditPolicy::Editable
    &&& forall|i: int, j: int|
        #![trigger m.regions[i], c.regions[j]]
        (0 <= i < from || to <= i < m.regions.len()) && 0 <= j < c.regions.len()
            ==> m.regions[i].spec_id() != c.regions[j].spec_id()
}

/// Where the regions of a replaced fragment are.
#[verifier::opaque]
pub open(crate) spec fn regions_shape<I>(m: ModelView<I>, from: int, to: int, c: ModelView<I>) -> bool {
    let first = m.fragment_start(from);
    let last = m.fragment_start(to);
    let delta = c.bytes.len() - (last - first);
    let q = spliced_regions(m.regions, from, to, c.regions, first, delta);
    let k = c.regions.len() as int;
    &&& q.len() == from + k + (m.regions.len() - to)
    &&& forall|i: int|
        0 <= i < from ==> #[trigger] q[i] == m.regions[i] && 0 <= m.regions[i].start()
            <= m.regions[i].end() <= first
    &&& forall|i: int|
        from <= i < from + k ==> {
            let r = c.regions[i - from];
            &&& (#[trigger] q[i]).spec_id() == r.spec_id()
            &&& q[i].spec_policy() == r.spec_policy()
            &&& q[i].start() == r.start() + first
            &&& q[i].end() == r.end() + first
            &&& 0 <= r.start() <= r.end() <= c.bytes.len()
        }
    &&& forall|i: int|
        from + k <= i < q.len() ==> {
            let r = m.regions[to + (i - from - k)];
            &&& (#[trigger] q[i]).spec_id() == r.spec_id()
            &&& q[i].spec_policy() == r.spec_policy()
            &&& q[i].start() == r.start() + delta
            &&& q[i].end() == r.end() + delta
            &&& last <= r.start() <= r.end() <= m.bytes.len()
        }
}

/// The ends of a fragment.
pub(crate) proof fn lemma_fragment_ends<I>(m: ModelView<I>, from: int, to: int)
    requires
        m.wf(),
        0 <= from <= to <= m.regions.len(),
    ensures
        0 <= m.fragment_start(from) <= m.fragment_start(to) <= m.bytes.len(),
        at_boundary(m.bytes, m.fragment_start(from)),
        at_boundary(m.bytes, m.fragment_start(to)),
{
    let n = m.regions.len() as int;
    if from < n {
        assert(m.regions[from].start() <= m.regions[from].end() <= m.bytes.len());
        assert(at_boundary(m.bytes, m.regions[from].start()));
    }
    if to < n {
        assert(m.regions[to].start() <= m.regions[to].end() <= m.bytes.len());
        assert(at_boundary(m.bytes, m.regions[to].start()));
        if from < to {
            assert(m.regions[from].end() <= m.regions[to].start());
        }
    }
}

/// The parts of a replaced fragment fit together.
pub(crate) proof fn lemma_regions_shape<I>(m: ModelView<I>, from: int, to: int, c: ModelView<I>)
    requires
        splice_ready(m, from, to, c),
    ensures
        regions_shape(m, from, to, c),
        ({
            let first = m.fragment_start(from);
            let last = m.fragment_start(to);
            let delta = c.bytes.len() - (last - first);
            &&& 0 <= first <= last <= m.bytes.len()
            &&& at_boundary(m.bytes, first)
            &&& at_boundary(m.bytes, last)
            &&& can_shift(c.regions, first)
            &&& can_shift(m.regions.subrange(to, m.regions.len() as int), delta)
            &&& regions_valid(
                spliced_regions(m.regions, from, to, c.regions, first, delta),
                m.bytes.len() + delta,
            )
        }),
{
    reveal(splice_ready);
    reveal(regions_shape);
    let n = m.regions.len() as int;
    let k = c.regions.len() as int;
    lemma_fragment_ends(m, from, to);
    lemma_splice_valid(
        m.regions,
        m.bytes.len() as int,
        from,
        to,
        c.regions,
        c.bytes.len() as int,
    );
    let first = m.fragment_start(from);
    let last = m.fragment_start(to);
    let delta = c.bytes.len() - (last - first);
    let q = spliced_regions(m.regions, from, to, c.regions, first, delta);
    let behind = m.regions.subrange(to, n);
    assert forall|i: int| 0 <= i < from implies #[trigger] q[i] == m.regions[i] && 0
        <= m.regions[i].start() <= m.regions[i].end() <= first by {
        assert(m.regions[i].start() <= m.regions[i].end() <= m.bytes.len());
        if from < n {
            assert(m.regions[i].end() <= m.regions[from].start());
        }
    }
    assert forall|i: int| from <= i < from + k implies {
        let r = c.regions[i - from];
        &&& (#[trigger] q[i]).spec_id() == r.spec_id()
        &&& q[i].spec_policy() == r.spec_policy()
        &&& q[i].start() == r.start() + first
        &&& q[i].end() == r.end() + first
        &&& 0 <= r.start() <= r.end() <= c.bytes.len()
    } by {
        assert(q[i] == shifted_regions(c.regions, first)[i - from]);
        assert(c.regions[i - from].start() <= c.regions[i - from].end() <= c.bytes.len());
    }
    assert forall|i: int| from + k <= i < q.len() implies {
        let r = m.regions[to + (i - from - k)];
        &&& (#[trigger] q[i]).spec_id() == r.spec_id()
        &&& q[i].spec_policy() == r.spec_policy()
        &&& q[i].start() == r.start() + delta
        &&& q[i].end() == r.end() + delta
        &&& last <= r.start() <= r.end() <= m.bytes.len()
    } by {
        let x = i - from - k;
        assert(q[i] == shifted_regions(behind, delta)[x]);
        assert(behind[x] == m.regions[to + x]);
        assert(m.regions[to + x].start() <= m.regions[to + x].end() <= m.bytes.len());
        if x > 0 {
            assert(m.regions[to].end() <= m.regions[to + x].start());
            assert(m.regions[to].start() <= m.regions[to].end());
        }
    }
}

/// Boundaries of both texts are boundaries of the new text.
proof fn lemma_fragment_boundaries<I>(m: ModelView<I>, from: int, to: int, c: ModelView<I>)
    requires
        splice_ready(m, from, to, c),
    ensures
        ({
            let first = m.fragment_start(from);
            let last = m.fragment_start(to);
            let delta = c.bytes.len() - (last - first);
            let bytes = splice_bytes(m.bytes, first, last, c.bytes);
            &&& starts_clean(bytes)
            &&& bytes.len() == m.bytes.len() + delta
            &&& bytes.len() <= isize::MAX
            &&& forall|x: int|
                0 <= x <= first && #[trigger] at_boundary(m.bytes, x) ==> at_boundary(bytes, x)
            &&& forall|x: int|
                last <= x <= m.bytes.len() && #[trigger] at_boundary(m.bytes, x) ==> at_boundary(
                    bytes,
                    x + delta,
                )
            &&& forall|x: int|
                0 <= x <= c.bytes.len() && #[trigger] at_boundary(c.bytes, x) ==> at_boundary(
                    bytes,
                    x + first,
                )
        }),
{
    reveal(splice_ready);
    lemma_fragment_ends(m, from, to);
    let first = m.fragment_start(from);
    let last = m.fragment_start(to);
    let delta = c.bytes.len() - (last - first);
    let bytes = splice_bytes(m.bytes, first, last, c.bytes);
    lemma_splice_boundaries(m.bytes, first, last, c.bytes);
    assert forall|x: int| last <= x <= m.bytes.len() && #[trigger] at_boundary(
        m.bytes,
        x,
    ) implies at_boundary(bytes, x + delta) by {
        assert(at_boundary(bytes, x - (last - first) + c.bytes.len()));
    }
    assert forall|x: int| 0 <= x <= c.bytes.len() && #[trigger] at_boundary(
        c.bytes,
        x,
    ) implies at_boundary(bytes, x + first) by {
        assert(at_boundary(bytes, first + x));
    }
}

/// The regions lie between characters.
pub(crate) proof fn lemma_fragment_regions<I>(m: ModelView<I>, from: int, to: int, c: ModelView<I>)
    requires
        splice_ready(m, from, to, c),
    ensures
        ({
            let next = m.fragment_model(from, to, c);
            &&& regions_valid(next.regions, next.bytes.len() as int)
            &&& regions_on_boundaries(next.regions, next.bytes)
        }),
{
    lemma_regions_shape(m, from, to, c);
    lemma_fragment_boundaries(m, from, to, c);
    reveal(regions_shape);
    reveal(splice_ready);
    let next = m.fragment_model(from, to, c);
    let q = next.regions;
    let k = c.regions.len() as int;
    assert forall|i: int| 0 <= i < q.len() implies at_boundary(
        next.bytes,
        (#[trigger] q[i]).start(),
    ) && at_boundary(next.bytes, q[i].end()) by {
        if i < from {
            assert(at_boundary(m.bytes, m.regions[i].start()));
            assert(at_boundary(m.bytes, m.regions[i].end()));
        } else if i < from + k {
            let r = c.regions[i - from];
            assert(at_boundary(c.bytes, r.start()));
            assert(at_boundary(c.bytes, r.end()));
        } else {
            let r = m.regions[to + (i - from - k)];
            assert(at_boundary(m.bytes, r.start()));
            assert(at_boundary(m.bytes, r.end()));
        }
    }
}

/// The entries of a span that is moved with its text stay between characters.
proof fn lemma_moved_entries(span: SpanView, delta: int, old_bytes: Seq<u8>, bytes: Seq<u8>, len: int)
    requires
        0 <= span.start < span.end,
        mapping_valid(span),
        mapping_on_boundaries(span, old_bytes),
        0 <= span.start + delta,
        span.end + delta <= usize::MAX,
        forall|x: int|
            span.start <= x <= span.end && #[trigger] at_boundary(old_bytes, x) ==> at_boundary(
                bytes,
                x + delta,
            ),
    ensures
        mapping_on_boundaries(span.shifted(delta), bytes),
{
    if let Some(entries) = span.mapping {
        let moved = shifted_mapping(span.mapping, delta)->0;
        assert forall|k: int| 0 <= k < moved.len() implies at_boundary(
            bytes,
            (#[trigger] moved[k]).spec_source().0,
        ) && at_boundary(bytes, moved[k].spec_source().1) by {
            assert(entry_valid(entries, span, k));
            assert(at_boundary(old_bytes, entries[k].spec_source().0));
            assert(at_boundary(old_bytes, entries[k].spec_source().1));
        }
    }
}

/// The projection fits the new text and its regions.
pub(crate) proof fn lemma_fragment_projection<I>(
    m: ModelView<I>,
    from: int,
    to: int,
    c: ModelView<I>,
)
    requires
        splice_ready(m, from, to, c),
    ensures
        ({
            let next = m.fragment_model(from, to, c);
            let first = m.fragment_start(from);
            let last = m.fragment_start(to);
            &&& next.projection.valid()
            &&& projection_fault(next.projection, next.regions, next.bytes) is None
            &&& splice_shape(m.projection, first, last, c.projection)
        }),
{
    lemma_regions_shape(m, from, to, c);
    lemma_fragment_boundaries(m, from, to, c);
    let next = m.fragment_model(from, to, c);
    let first = m.fragment_start(from);
    let last = m.fragment_start(to);
    let delta = c.bytes.len() - (last - first);
    let p = m.projection;
    let r = c.projection;
    let q = next.projection;
    assert(p.valid() && r.valid() && p.outside(first) && p.outside(last) && projection_fault(p, m.regions, m.bytes) is None && projection_fault(
        r,
        c.regions,
        c.bytes,
    ) is None && p.source_len + r.source_len <= isize::MAX) by {
        reveal(splice_ready);
        lemma_projection_fits(p, m.regions, m.bytes);
        lemma_projection_fits(r, c.regions, c.bytes);
    }
    lemma_projection_fits(p, m.regions, m.bytes);
    lemma_projection_fits(r, c.regions, c.bytes);
    lemma_spliced(p, first, last, r);
    let fault = projected_fault(q, next.regions, next.bytes);
    assert forall|i: int| 0 <= i < q.spans.len() implies (#[trigger] fault(i)) is None by {
        lemma_fragment_span(m, from, to, c, i);
    }
    lemma_first_fault(fault, 0, q.spans.len() as int);
}

/// One span of the new projection fits.
proof fn lemma_fragment_span<I>(m: ModelView<I>, from: int, to: int, c: ModelView<I>, i: int)
    requires
        splice_ready(m, from, to, c),
        splice_shape(
            m.projection,
            m.fragment_start(from),
            m.fragment_start(to),
            c.projection,
        ),
        0 <= i < m.fragment_model(from, to, c).projection.spans.len(),
    ensures
        ({
            let next = m.fragment_model(from, to, c);
            let span = next.projection.spans[i];
            &&& span.start <= span.end <= next.bytes.len()
            &&& at_boundary(next.bytes, span.start)
            &&& at_boundary(next.bytes, span.end)
            &&& mapping_on_boundaries(span, next.bytes)
            &&& !touches_editable(span, next.regions)
        }),
{
    lemma_regions_shape(m, from, to, c);
    lemma_fragment_boundaries(m, from, to, c);
    let next = m.fragment_model(from, to, c);
    let first = m.fragment_start(from);
    let last = m.fragment_start(to);
    let delta = c.bytes.len() - (last - first);
    let p = m.projection;
    let r = c.projection;
    let q = next.projection;
    assert(p.valid() && r.valid() && projection_fault(p, m.regions, m.bytes) is None
        && projection_fault(r, c.regions, c.bytes) is None) by {
        reveal(splice_ready);
    }
    lemma_projection_fits(p, m.regions, m.bytes);
    lemma_projection_fits(r, c.regions, c.bytes);
    assert(m.bytes.len() + c.bytes.len() <= isize::MAX) by {
        reveal(splice_ready);
    }
    reveal(splice_shape);
    let head = p.span_behind(first);
    let tail = p.span_behind(last);
    let mid = r.spans.len() as int;
    let span = q.spans[i];
    lemma_fragment_spares(m, from, to, c, i);
    if i < head {
        assert(span == p.spans[i]);
        assert(0 <= p.spans[i].start < p.spans[i].end);
        lemma_shifted_by_nothing(span);
        lemma_moved_entries(span, 0, m.bytes, next.bytes, 0);
    } else if i < head + mid {
        let s = r.spans[i - head];
        assert(span == s.shifted(first));
        assert(mapping_on_boundaries(s, c.bytes));
        lemma_moved_entries(s, first, c.bytes, next.bytes, 0);
    } else {
        let s = p.spans[tail + (i - head - mid)];
        assert(span == s.shifted(delta));
        assert(mapping_on_boundaries(s, m.bytes));
        lemma_moved_entries(s, delta, m.bytes, next.bytes, 0);
    }
}

proof fn lemma_shifted_by_nothing(span: SpanView)
    requires
        0 <= span.start < span.end <= usize::MAX,
        mapping_valid(span),
    ensures
        span.shifted(0) == span,
{
    lemma_shift_none(span);
}

/// No span of the new projection reaches into editable text.
proof fn lemma_fragment_spares<I>(m: ModelView<I>, from: int, to: int, c: ModelView<I>, i: int)
    requires
        splice_ready(m, from, to, c),
        regions_shape(m, from, to, c),
        splice_shape(
            m.projection,
            m.fragment_start(from),
            m.fragment_start(to),
            c.projection,
        ),
        0 <= i < m.fragment_model(from, to, c).projection.spans.len(),
    ensures
        !touches_editable(
            m.fragment_model(from, to, c).projection.spans[i],
            m.fragment_model(from, to, c).regions,
        ),
{
    reveal(splice_ready);
    reveal(regions_shape);
    reveal(splice_shape);
    lemma_fragment_ends(m, from, to);
    let next = m.fragment_model(from, to, c);
    let regions = next.regions;
    let span = next.projection.spans[i];
    let first = m.fragment_start(from);
    let last = m.fragment_start(to);
    let p = m.projection;
    let r = c.projection;
    lemma_projection_fits(p, m.regions, m.bytes);
    lemma_projection_fits(r, c.regions, c.bytes);
    let head = p.span_behind(first);
    let tail = p.span_behind(last);
    let mid = r.spans.len() as int;
    let k = c.regions.len() as int;
    assert forall|j: int|
        0 <= j < regions.len() && (#[trigger] regions[j]).spec_policy() == EditPolicy::Editable
            && span.start < regions[j].end() && regions[j].start() < span.end implies false by {
        if from <= j < from + k {
            assert(c.regions[j - from].spec_policy() == EditPolicy::Editable);
        } else if j < from {
            assert(regions[j] == m.regions[j]);
            if i < head {
                assert(!touches_editable(p.spans[i], m.regions));
            }
        } else {
            let x = to + (j - from - k);
            if i >= head + mid {
                let s = p.spans[tail + (i - head - mid)];
                assert(!touches_editable(s, m.regions));
                assert(m.regions[x].spec_policy() == EditPolicy::Editable);
            }
        }
    }
}

/// A nonempty range is that of one region at most.
proof fn lemma_one_region<I>(regions: Seq<DocumentRegion<I>>, len: int, block: DocumentBlock<I>, at: int)
    requires
        regions_valid(regions, len),
        0 <= at < regions.len(),
        block.start() < block.end(),
        covers_block(block)(regions[at]),
    ensures
        first_where(regions, covers_block(block), 0) == at,
{
    lemma_first_where(regions, covers_block(block), 0);
    let found = first_where(regions, covers_block(block), 0);
    if found > at {
        assert(!covers_block(block)(regions[at]));
    } else if found < at {
        assert(regions[found].end() <= regions[at].start());
    }
}

/// Where the region and the span of a block are.
pub open(crate) spec fn block_at<I>(m: ModelView<I>, block: DocumentBlock<I>, region: int, span: int) -> bool {
    &&& 0 <= region < m.regions.len()
    &&& covers_block(block)(m.regions[region])
    &&& m.regions[region].spec_id() == block.spec_id()
    &&& 0 <= span < m.projection.spans.len()
    &&& hides_block(m.projection.spans[span], block)
    &&& block.start() < block.end() <= m.bytes.len()
}

pub(crate) proof fn lemma_block_at<I>(m: ModelView<I>, i: int) -> (at: (int, int))
    requires
        m.wf(),
        0 <= i < m.blocks.len(),
    ensures
        block_at(m, m.blocks[i], at.0, at.1),
        i > 0 ==> m.blocks[i - 1].end() <= m.blocks[i].start(),
{
    let len = m.bytes.len() as usize;
    law_blocks_are_hidden_atomic_regions(m.blocks, m.regions, m.projection, len, i);
    let r = choose|r: int|
        0 <= r < m.regions.len() && (#[trigger] m.regions[r]).start() == m.blocks[i].start()
            && m.regions[r].end() == m.blocks[i].end() && m.regions[r].spec_policy()
            == EditPolicy::Atomic && m.regions[r].spec_id() == m.blocks[i].spec_id();
    let k = choose|k: int|
        0 <= k < m.projection.spans.len() && hides_block(
            #[trigger] m.projection.spans[k],
            m.blocks[i],
        );
    (r, k)
}

/// Which blocks there are after a fragment was replaced.
#[verifier::opaque]
pub open(crate) spec fn blocks_shape<I>(m: ModelView<I>, first: int, last: int, c: ModelView<I>) -> bool {
    let delta = c.bytes.len() - (last - first);
    let q = spliced_blocks(m.blocks, first, last, c.blocks, delta);
    let head = block_behind(m.blocks, first);
    let tail = block_from(m.blocks, last);
    let k = c.blocks.len() as int;
    &&& 0 <= head <= tail <= m.blocks.len()
    &&& q.len() == head + k + (m.blocks.len() - tail)
    &&& forall|i: int| 0 <= i < head ==> #[trigger] q[i] == m.blocks[i] && m.blocks[i].end() <= first
    &&& forall|i: int|
        head <= i < head + k ==> {
            let b = c.blocks[i - head];
            &&& (#[trigger] q[i]).spec_id() == b.spec_id()
            &&& q[i].start() == b.start() + first
            &&& q[i].end() == b.end() + first
            &&& b.start() < b.end() <= c.bytes.len()
        }
    &&& forall|i: int|
        head + k <= i < q.len() ==> {
            let b = m.blocks[tail + (i - head - k)];
            &&& (#[trigger] q[i]).spec_id() == b.spec_id()
            &&& q[i].start() == b.start() + delta
            &&& q[i].end() == b.end() + delta
            &&& last <= b.start() < b.end() <= m.bytes.len()
        }
}

pub(crate) proof fn lemma_blocks_order<I>(m: ModelView<I>, i: int, j: int)
    requires
        m.wf(),
        0 <= i < j < m.blocks.len(),
    ensures
        m.blocks[i].end() <= m.blocks[j].start(),
        m.blocks[i].start() < m.blocks[i].end(),
    decreases j - i,
{
    let a = lemma_block_at(m, i);
    let b = lemma_block_at(m, j);
    if i < j - 1 {
        lemma_blocks_order(m, i, j - 1);
        let d = lemma_block_at(m, j - 1);
    }
}

pub(crate) proof fn lemma_blocks_shape<I>(m: ModelView<I>, from: int, to: int, c: ModelView<I>)
    requires
        splice_ready(m, from, to, c),
    ensures
        blocks_shape(m, m.fragment_start(from), m.fragment_start(to), c),
{
    reveal(splice_ready);
    reveal(blocks_shape);
    lemma_fragment_ends(m, from, to);
    let first = m.fragment_start(from);
    let last = m.fragment_start(to);
    let delta = c.bytes.len() - (last - first);
    let q = spliced_blocks(m.blocks, first, last, c.blocks, delta);
    let is_behind = |b: DocumentBlock<I>| b.end() > first;
    let is_from = |b: DocumentBlock<I>| b.start() >= last;
    let head = block_behind(m.blocks, first);
    let tail = block_from(m.blocks, last);
    let k = c.blocks.len() as int;
    lemma_first_where(m.blocks, is_behind, 0);
    lemma_first_where(m.blocks, is_from, 0);
    if tail < head {
        assert(!is_behind(m.blocks[tail]));
        assert(is_from(m.blocks[tail]));
        let at = lemma_block_at(m, tail);
    }
    assert forall|i: int| 0 <= i < head implies #[trigger] q[i] == m.blocks[i] && m.blocks[i].end()
        <= first by {
        assert(!is_behind(m.blocks[i]));
    }
    assert forall|i: int| head <= i < head + k implies {
        let b = c.blocks[i - head];
        &&& (#[trigger] q[i]).spec_id() == b.spec_id()
        &&& q[i].start() == b.start() + first
        &&& q[i].end() == b.end() + first
        &&& b.start() < b.end() <= c.bytes.len()
    } by {
        assert(q[i] == shifted_blocks(c.blocks, first)[i - head]);
        let at = lemma_block_at(c, i - head);
    }
    let behind = m.blocks.subrange(tail, m.blocks.len() as int);
    assert forall|i: int| head + k <= i < q.len() implies {
        let b = m.blocks[tail + (i - head - k)];
        &&& (#[trigger] q[i]).spec_id() == b.spec_id()
        &&& q[i].start() == b.start() + delta
        &&& q[i].end() == b.end() + delta
        &&& last <= b.start() < b.end() <= m.bytes.len()
    } by {
        let x = i - head - k;
        assert(q[i] == shifted_blocks(behind, delta)[x]);
        assert(behind[x] == m.blocks[tail + x]);
        let at = lemma_block_at(m, tail + x);
        if x > 0 {
            lemma_blocks_order(m, tail, tail + x);
        }
        assert(is_from(m.blocks[tail]));
    }
}

/// The region and the span of a block before a fragment stay.
proof fn lemma_block_before<I>(m: ModelView<I>, from: int, to: int, c: ModelView<I>, i: int) -> (at: (
    int,
    int,
))
    requires
        splice_ready(m, from, to, c),
        0 <= i < m.blocks.len(),
        m.blocks[i].end() <= m.fragment_start(from),
    ensures
        block_at(m.fragment_model(from, to, c), m.blocks[i], at.0, at.1),
{
    lemma_regions_shape(m, from, to, c);
    lemma_fragment_projection(m, from, to, c);
    lemma_fragment_boundaries(m, from, to, c);
    let next = m.fragment_model(from, to, c);
    let first = m.fragment_start(from);
    let last = m.fragment_start(to);
    assert(m.wf() && m.projection.valid() && 0 <= from <= to <= m.regions.len()) by {
        reveal(splice_ready);
    }
    let at = lemma_block_at(m, i);
    reveal(regions_shape);
    reveal(splice_shape);
    assert(at.0 < from) by {
        if at.0 >= from {
            if at.0 > from {
                assert(m.regions[from].end() <= m.regions[at.0].start());
                assert(m.regions[from].start() <= m.regions[from].end());
            }
        }
    }
    lemma_span_behind(m.projection, first);
    let head = m.projection.span_behind(first);
    assert(at.1 < head) by {
        if at.1 >= head {
            if at.1 > head {
                assert(m.projection.spans[head].end <= m.projection.spans[at.1].start);
            }
        }
    }
    assert(next.regions[at.0] == m.regions[at.0]);
    assert(next.projection.spans[at.1] == m.projection.spans[at.1]);
    at
}

/// The region and the span of a block of the replacement are moved with it.
proof fn lemma_block_inside<I>(
    m: ModelView<I>,
    from: int,
    to: int,
    c: ModelView<I>,
    i: int,
    block: DocumentBlock<I>,
) -> (at: (int, int))
    requires
        splice_ready(m, from, to, c),
        0 <= i < c.blocks.len(),
        block.spec_id() == c.blocks[i].spec_id(),
        block.start() == c.blocks[i].start() + m.fragment_start(from),
        block.end() == c.blocks[i].end() + m.fragment_start(from),
    ensures
        block_at(m.fragment_model(from, to, c), block, at.0, at.1),
{
    lemma_regions_shape(m, from, to, c);
    lemma_fragment_projection(m, from, to, c);
    lemma_fragment_boundaries(m, from, to, c);
    let next = m.fragment_model(from, to, c);
    let first = m.fragment_start(from);
    assert(c.wf() && 0 <= from <= to <= m.regions.len()) by {
        reveal(splice_ready);
    }
    let at = lemma_block_at(c, i);
    reveal(regions_shape);
    reveal(splice_shape);
    let head = m.projection.span_behind(first);
    assert(next.regions[from + at.0].spec_id() == c.regions[at.0].spec_id());
    assert(next.projection.spans[head + at.1] == c.projection.spans[at.1].shifted(first));
    (from + at.0, head + at.1)
}

/// The region and the span of a block behind a fragment are moved with it.
proof fn lemma_block_behind<I>(
    m: ModelView<I>,
    from: int,
    to: int,
    c: ModelView<I>,
    i: int,
    block: DocumentBlock<I>,
) -> (at: (int, int))
    requires
        splice_ready(m, from, to, c),
        0 <= i < m.blocks.len(),
        m.fragment_start(to) <= m.blocks[i].start(),
        ({
            let delta = c.bytes.len() - (m.fragment_start(to) - m.fragment_start(from));
            &&& block.spec_id() == m.blocks[i].spec_id()
            &&& block.start() == m.blocks[i].start() + delta
            &&& block.end() == m.blocks[i].end() + delta
        }),
    ensures
        block_at(m.fragment_model(from, to, c), block, at.0, at.1),
{
    lemma_regions_shape(m, from, to, c);
    lemma_fragment_projection(m, from, to, c);
    lemma_fragment_boundaries(m, from, to, c);
    let next = m.fragment_model(from, to, c);
    let first = m.fragment_start(from);
    let last = m.fragment_start(to);
    let delta = c.bytes.len() - (last - first);
    assert(m.wf() && m.projection.valid() && 0 <= from <= to <= m.regions.len()) by {
        reveal(splice_ready);
    }
    let at = lemma_block_at(m, i);
    reveal(regions_shape);
    reveal(splice_shape);
    let p = m.projection;
    let head = p.span_behind(first);
    let tail = p.span_from(last);
    let k = c.regions.len() as int;
    let mid = c.projection.spans.len() as int;
    assert(at.0 >= to) by {
        if at.0 < to && to < m.regions.len() {
            assert(m.regions[at.0].end() <= m.regions[to].start());
        }
    }
    lemma_span_from(p, last);
    assert(at.1 >= tail) by {
        if at.1 < tail {
            assert(p.spans[at.1].start < last);
        }
    }
    let x = from + k + (at.0 - to);
    let y = head + mid + (at.1 - tail);
    assert(to + (x - from - k) == at.0);
    assert(next.regions[x].spec_id() == m.regions[at.0].spec_id());
    assert(tail + (y - head - mid) == at.1);
    assert(next.projection.spans[y] == p.spans[at.1].shifted(delta));
    (x, y)
}

/// The blocks fit the new text, its regions and its projection.
pub(crate) proof fn lemma_fragment_blocks<I>(m: ModelView<I>, from: int, to: int, c: ModelView<I>)
    requires
        splice_ready(m, from, to, c),
    ensures
        ({
            let next = m.fragment_model(from, to, c);
            blocks_fault(next.blocks, next.regions, next.projection, next.bytes.len() as usize) is None
        }),
{
    lemma_blocks_shape(m, from, to, c);
    lemma_fragment_regions(m, from, to, c);
    lemma_fragment_boundaries(m, from, to, c);
    let next = m.fragment_model(from, to, c);
    let first = m.fragment_start(from);
    let last = m.fragment_start(to);
    let len = next.bytes.len() as usize;
    let fault = block_fault(next.blocks, next.regions, next.projection, len);
    assert forall|i: int| 0 <= i < next.blocks.len() implies (#[trigger] fault(i)) is None by {
        lemma_fragment_block(m, from, to, c, i);
    }
    lemma_first_fault(fault, 0, next.blocks.len() as int);
}

/// One block fits.
proof fn lemma_fragment_block<I>(m: ModelView<I>, from: int, to: int, c: ModelView<I>, i: int)
    requires
        splice_ready(m, from, to, c),
        blocks_shape(m, m.fragment_start(from), m.fragment_start(to), c),
        0 <= i < m.fragment_model(from, to, c).blocks.len(),
    ensures
        ({
            let next = m.fragment_model(from, to, c);
            block_fault(next.blocks, next.regions, next.projection, next.bytes.len() as usize)(
                i,
            ) is None
        }),
{
    let next = m.fragment_model(from, to, c);
    let first = m.fragment_start(from);
    let last = m.fragment_start(to);
    let block = next.blocks[i];
    lemma_fragment_regions(m, from, to, c);
    lemma_fragment_boundaries(m, from, to, c);
    let head = block_behind(m.blocks, first);
    let tail = block_from(m.blocks, last);
    let k = c.blocks.len() as int;
    assert(i > 0 ==> next.blocks[i - 1].end() <= block.start()) by {
        if i > 0 {
            lemma_fragment_block_order(m, from, to, c, i);
        }
    }
    let at = if i < head {
        assert(block == m.blocks[i] && m.blocks[i].end() <= first && 0 <= i < m.blocks.len()) by {
            reveal(blocks_shape);
        }
        lemma_block_before(m, from, to, c, i)
    } else if i < head + k {
        assert(block.spec_id() == c.blocks[i - head].spec_id() && block.start()
            == c.blocks[i - head].start() + first && block.end() == c.blocks[i - head].end()
            + first) by {
            reveal(blocks_shape);
        }
        lemma_block_inside(m, from, to, c, i - head, block)
    } else {
        let x = tail + (i - head - k);
        let delta = c.bytes.len() - (last - first);
        assert(0 <= x < m.blocks.len() && last <= m.blocks[x].start() && block.spec_id()
            == m.blocks[x].spec_id() && block.start() == m.blocks[x].start() + delta && block.end()
            == m.blocks[x].end() + delta) by {
            reveal(blocks_shape);
        }
        lemma_block_behind(m, from, to, c, x, block)
    };
    lemma_one_region(next.regions, next.bytes.len() as int, block, at.0);
    assert(hides_block(next.projection.spans[at.1], block));
}

/// Blocks are in order.
proof fn lemma_fragment_block_order<I>(m: ModelView<I>, from: int, to: int, c: ModelView<I>, i: int)
    requires
        splice_ready(m, from, to, c),
        blocks_shape(m, m.fragment_start(from), m.fragment_start(to), c),
        0 < i < m.fragment_model(from, to, c).blocks.len(),
    ensures
        m.fragment_model(from, to, c).blocks[i - 1].end() <= m.fragment_model(
            from,
            to,
            c,
        ).blocks[i].start(),
{
    reveal(blocks_shape);
    let next = m.fragment_model(from, to, c);
    let first = m.fragment_start(from);
    let last = m.fragment_start(to);
    let head = block_behind(m.blocks, first);
    let tail = block_from(m.blocks, last);
    let k = c.blocks.len() as int;
    assert(m.wf() && c.wf()) by {
        reveal(splice_ready);
    }
    let before = next.blocks[i - 1];
    let block = next.blocks[i];
    if i < head {
        assert(before == m.blocks[i - 1] && block == m.blocks[i]);
        let at = lemma_block_at(m, i);
    } else if i < head + k {
        assert(block.start() == c.blocks[i - head].start() + first);
        if i - 1 >= head {
            assert(before.end() == c.blocks[i - 1 - head].end() + first);
            let at = lemma_block_at(c, i - head);
        } else {
            assert(before == m.blocks[i - 1]);
        }
    } else {
        let delta = c.bytes.len() - (last - first);
        let x = tail + (i - head - k);
        assert(block.start() == m.blocks[x].start() + delta);
        if i - 1 >= head + k {
            assert(before.end() == m.blocks[x - 1].end() + delta);
            let at = lemma_block_at(m, x);
        } else if i - 1 >= head {
            assert(before.end() == c.blocks[i - 1 - head].end() + first);
        } else {
            assert(before == m.blocks[i - 1]);
        }
    }
}

/// The anchors stay, and stay between characters.
pub(crate) proof fn lemma_fragment_anchors<I>(
    m: ModelView<I>,
    from: int,
    to: int,
    c: ModelView<I>,
)
    requires
        splice_ready(m, from, to, c),
    ensures
        ({
            let next = m.fragment_model(from, to, c);
            &&& next.anchors.dom() == m.anchors.dom()
            &&& next.anchors_fit()
        }),
{
    lemma_fragment_regions(m, from, to, c);
    lemma_fragment_boundaries(m, from, to, c);
    lemma_regions_shape(m, from, to, c);
    let next = m.fragment_model(from, to, c);
    let first = m.fragment_start(from);
    let last = m.fragment_start(to);
    let old_text = m.bytes.subrange(first, last);
    assert(m.anchors_fit() && starts_clean(m.bytes) && m.bytes.len() + c.bytes.len() <= isize::MAX)
        by {
        reveal(splice_ready);
    }
    lemma_least_edit(m.bytes, first, last, c.bytes);
    lemma_kept(old_text, c.bytes);
    let moved = fragment_anchors(m.anchors, first, old_text, c.bytes);
    assert(moved.dom() =~= m.anchors.dom());
    assert forall|a: DocumentAnchor| #[trigger] moved.dom().contains(a) implies at_boundary(
        next.bytes,
        moved[a].spec_offset(),
    ) by {
        assert(m.anchors.dom().contains(a));
        let r = m.anchors[a];
        assert(at_boundary(m.bytes, r.spec_offset()));
        if old_text != c.bytes {
            let head = kept_start(old_text, c.bytes);
            let tail = kept_end(old_text, c.bytes);
            assert(starts_clean(c.bytes)) by {
                reveal(splice_ready);
            }
            lemma_moved_boundary(
                m.bytes,
                first + head,
                last - tail,
                c.bytes.subrange(head, c.bytes.len() - tail),
                r.spec_offset(),
                r.spec_bias(),
            );
        }
    }
    lemma_anchors_reconciled(next.bytes, moved, next.regions);
    assert forall|a: DocumentAnchor| #[trigger] next.anchors.dom().contains(a) implies a.spec_id()
        < next.next_id && at_boundary(next.bytes, next.anchors[a].spec_offset()) by {
        assert(moved.dom().contains(a));
        assert(m.anchors.dom().contains(a));
    }
}

/// An offset between characters is moved to one between characters.
proof fn lemma_moved_boundary(
    bytes: Seq<u8>,
    start: int,
    end: int,
    insert: Seq<u8>,
    offset: int,
    bias: AnchorBias,
)
    requires
        starts_clean(bytes),
        starts_clean(insert),
        0 <= start <= end <= bytes.len(),
        at_boundary(bytes, start),
        at_boundary(bytes, end),
        at_boundary(bytes, offset),
        bytes.len() + insert.len() <= usize::MAX,
    ensures
        at_boundary(
            splice_bytes(bytes, start, end, insert),
            moved_offset(offset, bias, start, end, insert.len() as int),
        ),
{
    lemma_splice_boundaries(bytes, start, end, insert);
    let n = insert.len() as int;
    let out = splice_bytes(bytes, start, end, insert);
    if offset < start {
        assert(at_boundary(out, offset));
    } else if offset >= end && (offset > start || start < end) {
        assert(at_boundary(out, offset - (end - start) + n));
    } else {
        assert(at_boundary(out, start));
        assert(at_boundary(out, start + n)) by {
            assert(at_boundary(insert, n));
        }
    }
}

/// A replaced fragment leaves a valid document.
pub(crate) proof fn lemma_fragment_model<I>(
    m: ModelView<I>,
    from: int,
    to: int,
    c: ModelView<I>,
)
    requires
        splice_ready(m, from, to, c),
    ensures
        m.fragment_model(from, to, c).wf(),
        m.fragment_model(from, to, c).anchors.dom() == m.anchors.dom(),
{
    lemma_fragment_regions(m, from, to, c);
    lemma_fragment_projection(m, from, to, c);
    lemma_fragment_blocks(m, from, to, c);
    lemma_fragment_anchors(m, from, to, c);
    lemma_fragment_boundaries(m, from, to, c);
    let next = m.fragment_model(from, to, c);
    assert(next.selections_fit()) by {
        reveal(splice_ready);
    }
}

/// Editable regions keep their ids and their text.
pub(crate) proof fn lemma_fragment_keeps<I>(
    m: ModelView<I>,
    from: int,
    to: int,
    c: ModelView<I>,
    i: int,
)
    requires
        splice_ready(m, from, to, c),
        0 <= i < m.regions.len(),
        m.regions[i].spec_policy() == EditPolicy::Editable,
    ensures
        region_kept(
            m.regions[i],
            m.bytes,
            m.fragment_model(from, to, c).regions,
            m.fragment_model(from, to, c).bytes,
        ),
{
    lemma_regions_shape(m, from, to, c);
    lemma_fragment_regions(m, from, to, c);
    reveal(splice_ready);
    reveal(regions_shape);
    let next = m.fragment_model(from, to, c);
    let first = m.fragment_start(from);
    let last = m.fragment_start(to);
    let k = c.regions.len() as int;
    let r = m.regions[i];
    let j = if i < from {
        i
    } else {
        from + k + (i - to)
    };
    assert(i < from || i >= to);
    let q = next.regions[j];
    if i >= to {
        assert(to + (j - from - k) == i);
    }
    assert(q.spec_id() == r.spec_id());
    lemma_region_index(next.regions, next.bytes.len() as int, j);
    assert(next.bytes.subrange(q.start(), q.end()) =~= m.bytes.subrange(r.start(), r.end()));
}

} // verus!
