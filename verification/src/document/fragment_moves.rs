//! The parts of a document around a replaced fragment, and the replacement,
//! are found in the document after it.

use crate::document::block::DocumentBlock;
use crate::document::fragment_parts::{
    fragment_ready, is_fragment, lemma_edges, lemma_fragment_facts, lemma_fragment_node,
    lemma_line_before, lemma_line_behind, lemma_line_within, part_before, part_behind, part_within,
};
use crate::document::model_view::ModelView;
use crate::document::region::lemma_region_index;
use crate::document::row_moves::{
    bytes_moved, line_of, lines_moved, nodes_moved, part_moved, places_moved, unstyled,
};
use crate::document::seam_lemmas::{lemma_place_before, lemma_place_behind, lemma_place_within};
use crate::document::splice_lemmas::{
    blocks_shape, lemma_block_at, lemma_blocks_order, lemma_blocks_shape,
};
use crate::document::splice_view::{block_behind, block_from};
use crate::scan::lemma_first_where;
use vstd::prelude::*;

verus! {

// ---------------------------------------------------------------------------
// Blocks
// ---------------------------------------------------------------------------

/// The region of a block is where the block is.
proof fn lemma_block_region<I>(m: ModelView<I>, region: int, block: int)
    requires
        m.wf(),
        0 <= region < m.regions.len(),
        0 <= block,
        m.region_is_block(region, block),
    ensures
        m.blocks[block].start() == m.regions[region].start(),
        m.blocks[block].end() == m.regions[region].end(),
        m.blocks[block].start() < m.blocks[block].end(),
{
    let at = lemma_block_at(m, block);
    lemma_region_index(m.regions, m.bytes.len() as int, at.0);
    lemma_region_index(m.regions, m.bytes.len() as int, region);
    assert(at.0 == region);
}

/// A block of the document after a replaced fragment.
proof fn lemma_fragment_block<I>(
    m: ModelView<I>,
    from: int,
    to: int,
    c: ModelView<I>,
    n: ModelView<I>,
    j: int,
)
    requires
        fragment_ready(m, from, to, c, n),
    ensures
        ({
            let first = m.fragment_start(from);
            let last = m.fragment_start(to);
            let delta = c.bytes.len() - (last - first);
            let head = block_behind(m.blocks, first);
            let tail = block_from(m.blocks, last);
            let k = c.blocks.len() as int;
            &&& 0 <= head <= tail <= m.blocks.len()
            &&& n.blocks.len() == head + k + (m.blocks.len() - tail)
            &&& 0 <= j < head ==> n.blocks[j] == m.blocks[j] && m.blocks[j].end() <= first
            &&& head <= j < head + k ==> {
                let b = c.blocks[j - head];
                &&& n.blocks[j].spec_id() == b.spec_id()
                &&& n.blocks[j].start() == b.start() + first
                &&& n.blocks[j].end() == b.end() + first
                &&& b.start() < b.end() <= c.bytes.len()
                &&& 0 <= b.start()
            }
            &&& head + k <= j < n.blocks.len() ==> {
                let b = m.blocks[j - (head + k - tail)];
                &&& n.blocks[j].spec_id() == b.spec_id()
                &&& n.blocks[j].start() == b.start() + delta
                &&& n.blocks[j].end() == b.end() + delta
                &&& last <= b.start() < b.end() <= m.bytes.len()
            }
        }),
{
    lemma_blocks_shape(m, from, to, c);
    let head = block_behind(m.blocks, m.fragment_start(from));
    let tail = block_from(m.blocks, m.fragment_start(to));
    let k = c.blocks.len() as int;
    let q = m.fragment_model(from, to, c).blocks;
    assert(n.blocks == q) by {
        reveal(is_fragment);
    }
    if 0 <= j < q.len() {
        let there = q[j];
        if j >= head + k {
            assert(tail + (j - head - k) == j - (head + k - tail));
        }
    }
    reveal(blocks_shape);
}

/// Which blocks of a document lie behind an offset that none reaches over.
proof fn lemma_blocks_behind<I>(m: ModelView<I>, from: int, to: int, c: ModelView<I>, n: ModelView<I>, j: int)
    requires
        fragment_ready(m, from, to, c, n),
        0 <= j < m.blocks.len(),
    ensures
        ({
            let first = m.fragment_start(from);
            let last = m.fragment_start(to);
            &&& j < block_behind(m.blocks, first) ==> m.blocks[j].end() <= first
            &&& j >= block_behind(m.blocks, first) ==> m.blocks[j].end() > first
            &&& j < block_from(m.blocks, last) ==> m.blocks[j].start() < last
            &&& j >= block_from(m.blocks, last) ==> m.blocks[j].start() >= last
        }),
{
    lemma_fragment_facts(m, from, to, c, n);
    let first = m.fragment_start(from);
    let last = m.fragment_start(to);
    let behind = |b: DocumentBlock<I>| b.end() > first;
    let beyond = |b: DocumentBlock<I>| b.start() >= last;
    lemma_first_where(m.blocks, behind, 0);
    lemma_first_where(m.blocks, beyond, 0);
    let head = block_behind(m.blocks, first);
    let tail = block_from(m.blocks, last);
    let at = lemma_block_at(m, j);
    if j < head {
        assert(!behind(m.blocks[j]));
    } else if head < j {
        assert(behind(m.blocks[head]));
        lemma_blocks_order(m, head, j);
    } else {
        assert(behind(m.blocks[head]));
    }
    if j < tail {
        assert(!beyond(m.blocks[j]));
    } else if tail < j {
        assert(beyond(m.blocks[tail]));
        lemma_blocks_order(m, tail, j);
    } else {
        assert(beyond(m.blocks[tail]));
    }
}

/// The blocks of the documents on both sides of the seams.
pub(crate) proof fn lemma_block_sides<I>(
    m: ModelView<I>,
    from: int,
    to: int,
    c: ModelView<I>,
    n: ModelView<I>,
)
    requires
        fragment_ready(m, from, to, c, n),
    ensures
        ({
            let first = m.fragment_start(from);
            let last = m.fragment_start(to);
            let head = block_behind(m.blocks, first);
            let tail = block_from(m.blocks, last);
            let k = c.blocks.len() as int;
            &&& 0 <= head <= tail <= m.blocks.len()
            &&& head + k <= n.blocks.len()
            &&& forall|j: int| 0 <= j < head ==> (#[trigger] m.blocks[j]).end() <= first
            &&& forall|j: int|
                head <= j < m.blocks.len() ==> (#[trigger] m.blocks[j]).end() > first
            &&& forall|j: int| 0 <= j < tail ==> (#[trigger] m.blocks[j]).end() <= last
            &&& forall|j: int| tail <= j < m.blocks.len() ==> (#[trigger] m.blocks[j]).end() > last
            &&& forall|j: int| 0 <= j < head ==> (#[trigger] n.blocks[j]).end() <= first
            &&& forall|j: int|
                head <= j < n.blocks.len() ==> (#[trigger] n.blocks[j]).end() > first
            &&& forall|j: int|
                0 <= j < head + k ==> (#[trigger] n.blocks[j]).end() <= first + c.bytes.len()
            &&& forall|j: int|
                head + k <= j < n.blocks.len() ==> (#[trigger] n.blocks[j]).end() > first
                    + c.bytes.len()
            &&& m.blocks.len() > 0 ==> m.blocks[0].start() >= m.regions[0].start()
            &&& n.blocks.len() > 0 ==> n.regions.len() > 0 && n.blocks[0].start()
                >= n.regions[0].start()
            &&& k > 0 ==> c.regions.len() > 0 && n.blocks[head].start() >= n.regions[from].start()
        }),
{
    let first = m.fragment_start(from);
    let last = m.fragment_start(to);
    let head = block_behind(m.blocks, first);
    let tail = block_from(m.blocks, last);
    let k = c.blocks.len() as int;
    lemma_fragment_facts(m, from, to, c, n);
    lemma_edges(m, from, to, c, n);
    lemma_fragment_block(m, from, to, c, n, head);
    lemma_fragment_node(m, from, to, c, n, from);
    assert forall|j: int| 0 <= j < m.blocks.len() implies (j < head ==> (
    #[trigger] m.blocks[j]).end() <= first) && (j >= head ==> m.blocks[j].end() > first) && (j < tail
        ==> m.blocks[j].end() <= last) && (j >= tail ==> m.blocks[j].end() > last) by {
        lemma_blocks_behind(m, from, to, c, n, j);
        let at = lemma_block_at(m, j);
        if at.0 >= to {
            assert(m.regions[at.0].start() >= last);
        } else {
            assert(m.regions[at.0].end() <= last);
        }
    }
    assert forall|j: int| 0 <= j < n.blocks.len() implies (j < head ==> (
    #[trigger] n.blocks[j]).end() <= first) && (j >= head ==> n.blocks[j].end() > first) && (j < head
        + k ==> n.blocks[j].end() <= first + c.bytes.len()) && (j >= head + k ==> n.blocks[j].end()
        > first + c.bytes.len()) by {
        lemma_fragment_block(m, from, to, c, n, j);
    }
    if m.blocks.len() > 0 {
        let at = lemma_block_at(m, 0);
        lemma_first_start(m, at.0);
    }
    if n.blocks.len() > 0 {
        let at = lemma_block_at(n, 0);
        lemma_first_start(n, at.0);
    }
    if k > 0 {
        let at = lemma_block_at(c, 0);
        lemma_first_start(c, at.0);
    }
}

/// The first region starts first.
proof fn lemma_first_start<I>(m: ModelView<I>, at: int)
    requires
        m.wf(),
        0 <= at < m.regions.len(),
    ensures
        m.regions[0].start() <= m.regions[at].start(),
{
    if at > 0 {
        assert(m.regions[0].end() <= m.regions[at].start());
        assert(m.regions[0].start() <= m.regions[0].end());
    }
}

// ---------------------------------------------------------------------------
// What comes before
// ---------------------------------------------------------------------------

proof fn lemma_block_before<I>(
    m: ModelView<I>,
    from: int,
    to: int,
    c: ModelView<I>,
    n: ModelView<I>,
    r: int,
    k: int,
)
    requires
        fragment_ready(m, from, to, c, n),
        0 <= r < from,
        0 <= k <= block_behind(m.blocks, m.fragment_start(from)),
    ensures
        m.region_is_block(r, k) <==> n.region_is_block(r, k),
        m.region_is_block(r, k) ==> k < block_behind(m.blocks, m.fragment_start(from)),
        m.region_is_gap(r) <==> n.region_is_gap(r),
{
    let first = m.fragment_start(from);
    lemma_fragment_facts(m, from, to, c, n);
    lemma_fragment_node(m, from, to, c, n, r);
    lemma_fragment_block(m, from, to, c, n, k);
    let head = block_behind(m.blocks, first);
    if k == head {
        if m.region_is_block(r, k) {
            lemma_block_region(m, r, k);
            lemma_blocks_behind(m, from, to, c, n, k);
        }
        if n.region_is_block(r, k) {
            lemma_block_region(n, r, k);
        }
    }
}

/// What comes before a fragment is found in the document after it.
pub(crate) proof fn lemma_part_before<I>(
    m: ModelView<I>,
    from: int,
    to: int,
    c: ModelView<I>,
    n: ModelView<I>,
)
    requires
        fragment_ready(m, from, to, c, n),
    ensures
        part_moved(m, n, part_before(m, from)),
{
    let v = part_before(m, from);
    let first = m.fragment_start(from);
    let last = m.fragment_start(to);
    lemma_fragment_facts(m, from, to, c, n);
    lemma_fragment_block(m, from, to, c, n, 0);
    assert(lines_moved(m, n, v)) by {
        reveal(lines_moved);
        assert forall|display: (int, int), segment: (int, int)|
            line_of(m, v, display, segment) implies unstyled(
            (#[trigger] m.text_item(display, segment)).shifted(v.delta, v.grown),
        ) == unstyled(
            n.text_item(
                (display.0 + v.grown, display.1 + v.grown),
                (segment.0 + v.delta, segment.1 + v.delta),
            ),
        ) by {
            lemma_line_before(m, from, to, c, n, display, segment);
        }
    }
    assert(bytes_moved(m, n, v)) by {
        reveal(bytes_moved);
    }
    assert(places_moved(m.projection, n.projection, v)) by {
        reveal(places_moved);
        assert forall|x: int| v.source.0 <= x <= v.source.1 && #[trigger] m.projection.outside(
            x,
        ) implies n.projection.outside(x + v.delta) && n.projection.shown_at(x + v.delta)
            == m.projection.shown_at(x) + v.grown by {
            lemma_place_before(m.projection, first, last, c.projection, n.projection, x);
        }
    }
    assert(nodes_moved(m, n, v)) by {
        reveal(nodes_moved);
        lemma_fragment_node(m, from, to, c, n, 0);
        assert forall|r: int| v.nodes.0 <= r < v.nodes.1 implies {
            &&& n.regions[r + v.node_shift].spec_id() == (#[trigger] m.regions[r]).spec_id()
            &&& n.regions[r + v.node_shift].start() == m.regions[r].start() + v.delta
            &&& n.regions[r + v.node_shift].end() == m.regions[r].end() + v.delta
            &&& v.source.0 <= m.regions[r].start() <= m.regions[r].end() <= v.source.1
        } by {
            lemma_fragment_node(m, from, to, c, n, r);
        }
        assert forall|r: int| v.nodes.0 <= r < v.nodes.1 implies (#[trigger] m.region_is_gap(r)
            <==> n.region_is_gap(r + v.node_shift)) by {
            lemma_block_before(m, from, to, c, n, r, 0);
        }
        assert forall|r: int, k: int|
            v.nodes.0 <= r < v.nodes.1 && v.blocks.0 <= k <= v.blocks.1 implies (
        #[trigger] m.region_is_block(r, k) <==> n.region_is_block(
            r + v.node_shift,
            k + v.block_shift,
        )) && (m.region_is_block(r, k) ==> k < v.blocks.1) by {
            lemma_block_before(m, from, to, c, n, r, k);
        }
    }
}

// ---------------------------------------------------------------------------
// The replacement
// ---------------------------------------------------------------------------

proof fn lemma_block_within<I>(
    m: ModelView<I>,
    from: int,
    to: int,
    c: ModelView<I>,
    n: ModelView<I>,
    r: int,
    k: int,
)
    requires
        fragment_ready(m, from, to, c, n),
        0 <= r < c.regions.len(),
        0 <= k <= c.blocks.len(),
    ensures
        ({
            let head = block_behind(m.blocks, m.fragment_start(from));
            &&& c.region_is_block(r, k) <==> n.region_is_block(r + from, k + head)
            &&& !c.region_is_gap(r)
            &&& !n.region_is_gap(r + from)
        }),
{
    let first = m.fragment_start(from);
    let head = block_behind(m.blocks, first);
    lemma_fragment_facts(m, from, to, c, n);
    lemma_fragment_node(m, from, to, c, n, r + from);
    lemma_fragment_block(m, from, to, c, n, k + head);
    if k == c.blocks.len() && n.region_is_block(r + from, k + head) {
        lemma_block_region(n, r + from, k + head);
    }
}

/// A replacement is found in the document after it.
pub(crate) proof fn lemma_part_within<I>(
    m: ModelView<I>,
    from: int,
    to: int,
    c: ModelView<I>,
    n: ModelView<I>,
)
    requires
        fragment_ready(m, from, to, c, n),
    ensures
        part_moved(c, n, part_within(m, from, to, c)),
{
    let v = part_within(m, from, to, c);
    let first = m.fragment_start(from);
    let last = m.fragment_start(to);
    lemma_fragment_facts(m, from, to, c, n);
    lemma_fragment_block(m, from, to, c, n, 0);
    assert(lines_moved(c, n, v)) by {
        reveal(lines_moved);
        assert forall|display: (int, int), segment: (int, int)|
            line_of(c, v, display, segment) implies unstyled(
            (#[trigger] c.text_item(display, segment)).shifted(v.delta, v.grown),
        ) == unstyled(
            n.text_item(
                (display.0 + v.grown, display.1 + v.grown),
                (segment.0 + v.delta, segment.1 + v.delta),
            ),
        ) by {
            lemma_line_within(m, from, to, c, n, display, segment);
        }
    }
    assert(bytes_moved(c, n, v)) by {
        reveal(bytes_moved);
    }
    assert(places_moved(c.projection, n.projection, v)) by {
        reveal(places_moved);
        assert forall|x: int| v.source.0 <= x <= v.source.1 && #[trigger] c.projection.outside(
            x,
        ) implies n.projection.outside(x + v.delta) && n.projection.shown_at(x + v.delta)
            == c.projection.shown_at(x) + v.grown by {
            lemma_place_within(m.projection, first, last, c.projection, n.projection, x);
            assert(first + x == x + v.delta);
        }
    }
    assert(nodes_moved(c, n, v)) by {
        reveal(nodes_moved);
        lemma_fragment_node(m, from, to, c, n, 0);
        assert forall|r: int| v.nodes.0 <= r < v.nodes.1 implies {
            &&& n.regions[r + v.node_shift].spec_id() == (#[trigger] c.regions[r]).spec_id()
            &&& n.regions[r + v.node_shift].start() == c.regions[r].start() + v.delta
            &&& n.regions[r + v.node_shift].end() == c.regions[r].end() + v.delta
            &&& v.source.0 <= c.regions[r].start() <= c.regions[r].end() <= v.source.1
        } by {
            lemma_fragment_node(m, from, to, c, n, r + from);
        }
        assert forall|r: int| v.nodes.0 <= r < v.nodes.1 implies (#[trigger] c.region_is_gap(r)
            <==> n.region_is_gap(r + v.node_shift)) by {
            lemma_block_within(m, from, to, c, n, r, 0);
        }
        assert forall|r: int, k: int|
            v.nodes.0 <= r < v.nodes.1 && v.blocks.0 <= k <= v.blocks.1 implies (
        #[trigger] c.region_is_block(r, k) <==> n.region_is_block(
            r + v.node_shift,
            k + v.block_shift,
        )) && (c.region_is_block(r, k) ==> k < v.blocks.1) by {
            lemma_block_within(m, from, to, c, n, r, k);
        }
    }
}

// ---------------------------------------------------------------------------
// What comes behind
// ---------------------------------------------------------------------------

proof fn lemma_block_beyond<I>(
    m: ModelView<I>,
    from: int,
    to: int,
    c: ModelView<I>,
    n: ModelView<I>,
    r: int,
    k: int,
)
    requires
        fragment_ready(m, from, to, c, n),
        to <= r < m.regions.len(),
        block_from(m.blocks, m.fragment_start(to)) <= k <= m.blocks.len(),
    ensures
        ({
            let v = part_behind(m, from, to, c);
            &&& m.region_is_block(r, k) <==> n.region_is_block(
                r + v.node_shift,
                k + v.block_shift,
            )
            &&& m.region_is_gap(r) <==> n.region_is_gap(r + v.node_shift)
        }),
{
    let v = part_behind(m, from, to, c);
    lemma_fragment_facts(m, from, to, c, n);
    lemma_fragment_node(m, from, to, c, n, r + v.node_shift);
    lemma_fragment_block(m, from, to, c, n, k + v.block_shift);
}

/// What comes behind a fragment is found in the document after it.
pub(crate) proof fn lemma_part_behind<I>(
    m: ModelView<I>,
    from: int,
    to: int,
    c: ModelView<I>,
    n: ModelView<I>,
)
    requires
        fragment_ready(m, from, to, c, n),
        to < m.regions.len(),
    ensures
        part_moved(m, n, part_behind(m, from, to, c)),
{
    let v = part_behind(m, from, to, c);
    let first = m.fragment_start(from);
    let last = m.fragment_start(to);
    lemma_fragment_facts(m, from, to, c, n);
    lemma_fragment_block(m, from, to, c, n, 0);
    assert(lines_moved(m, n, v)) by {
        reveal(lines_moved);
        assert forall|display: (int, int), segment: (int, int)|
            line_of(m, v, display, segment) implies unstyled(
            (#[trigger] m.text_item(display, segment)).shifted(v.delta, v.grown),
        ) == unstyled(
            n.text_item(
                (display.0 + v.grown, display.1 + v.grown),
                (segment.0 + v.delta, segment.1 + v.delta),
            ),
        ) by {
            lemma_line_behind(m, from, to, c, n, display, segment);
        }
    }
    assert(bytes_moved(m, n, v)) by {
        reveal(bytes_moved);
    }
    assert(places_moved(m.projection, n.projection, v)) by {
        reveal(places_moved);
        assert forall|x: int| v.source.0 <= x <= v.source.1 && #[trigger] m.projection.outside(
            x,
        ) implies n.projection.outside(x + v.delta) && n.projection.shown_at(x + v.delta)
            == m.projection.shown_at(x) + v.grown by {
            lemma_place_behind(m.projection, first, last, c.projection, n.projection, x);
            assert(x + c.projection.source_len - (last - first) == x + v.delta);
        }
    }
    assert(nodes_moved(m, n, v)) by {
        reveal(nodes_moved);
        lemma_fragment_node(m, from, to, c, n, 0);
        assert forall|r: int| v.nodes.0 <= r < v.nodes.1 implies {
            &&& n.regions[r + v.node_shift].spec_id() == (#[trigger] m.regions[r]).spec_id()
            &&& n.regions[r + v.node_shift].start() == m.regions[r].start() + v.delta
            &&& n.regions[r + v.node_shift].end() == m.regions[r].end() + v.delta
            &&& v.source.0 <= m.regions[r].start() <= m.regions[r].end() <= v.source.1
        } by {
            lemma_fragment_node(m, from, to, c, n, r + v.node_shift);
        }
        assert forall|r: int| v.nodes.0 <= r < v.nodes.1 implies (#[trigger] m.region_is_gap(r)
            <==> n.region_is_gap(r + v.node_shift)) by {
            lemma_block_beyond(m, from, to, c, n, r, v.blocks.0);
        }
        assert forall|r: int, k: int|
            v.nodes.0 <= r < v.nodes.1 && v.blocks.0 <= k <= v.blocks.1 implies (
        #[trigger] m.region_is_block(r, k) <==> n.region_is_block(
            r + v.node_shift,
            k + v.block_shift,
        )) && (m.region_is_block(r, k) ==> k < v.blocks.1) by {
            lemma_block_beyond(m, from, to, c, n, r, k);
        }
    }
}

// ---------------------------------------------------------------------------
// Which block comes next
// ---------------------------------------------------------------------------

/// The blocks in the nodes before an edge are those before it.
pub(crate) proof fn lemma_blocks_until<I>(
    m: ModelView<I>,
    stop: int,
    seam: int,
    region: int,
    block: int,
    target: int,
)
    requires
        m.wf(),
        0 <= region <= stop <= m.regions.len(),
        0 <= block <= target <= m.blocks.len(),
        forall|i: int| 0 <= i < stop ==> (#[trigger] m.regions[i]).end() <= seam,
        forall|i: int| stop <= i < m.regions.len() ==> (#[trigger] m.regions[i]).start() >= seam,
        block < target ==> m.blocks[block].start() >= (if region < m.regions.len() {
            m.regions[region].start()
        } else {
            m.bytes.len() as int
        }),
        forall|j: int| 0 <= j < target ==> (#[trigger] m.blocks[j]).end() <= seam,
        forall|j: int| target <= j < m.blocks.len() ==> (#[trigger] m.blocks[j]).end() > seam,
    ensures
        m.blocks_until(region, block, stop) == target,
    decreases stop - region,
{
    if block < target {
        let at = lemma_block_at(m, block);
        lemma_region_index(m.regions, m.bytes.len() as int, at.0);
        assert(m.blocks[block].end() <= seam);
        if at.0 < region {
            assert(m.regions[at.0].end() <= m.regions[region].start());
            assert(false);
        }
        if at.0 >= stop {
            assert(m.regions[at.0].start() >= seam);
            assert(false);
        }
        assert(region < stop);
        if m.region_is_block(region, block) {
            lemma_block_region(m, region, block);
            if block + 1 < target {
                lemma_blocks_order(m, block, block + 1);
                let next = lemma_block_at(m, block + 1);
                assert(m.regions[next.0].start() >= m.regions[region].end());
                if region + 1 < m.regions.len() && next.0 < region + 1 {
                    assert(m.regions[next.0].start() <= m.regions[next.0].end());
                    if next.0 < region {
                        assert(m.regions[next.0].end() <= m.regions[region].start());
                    }
                    assert(false);
                }
                if region + 1 < next.0 {
                    assert(m.regions[region + 1].end() <= m.regions[next.0].start());
                    assert(m.regions[region + 1].start() <= m.regions[region + 1].end());
                }
            }
            lemma_blocks_until(m, stop, seam, region + 1, block + 1, target);
        } else {
            lemma_region_index(m.regions, m.bytes.len() as int, region);
            assert(at.0 != region);
            if region + 1 < at.0 {
                assert(m.regions[region + 1].end() <= m.regions[at.0].start());
                assert(m.regions[region + 1].start() <= m.regions[region + 1].end());
            }
            lemma_blocks_until(m, stop, seam, region + 1, block, target);
        }
    } else if region < stop {
        if m.region_is_block(region, block) {
            lemma_block_region(m, region, block);
            assert(m.regions[region].end() <= seam);
            assert(m.blocks[block].end() > seam);
        }
        lemma_blocks_until(m, stop, seam, region + 1, block, target);
    }
}

} // verus!
