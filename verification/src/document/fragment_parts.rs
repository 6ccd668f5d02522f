//! What a replaced fragment leaves of the parts of a document, and where.

use crate::document::layout::lemma_shown_first;
use crate::document::mapping::{lemma_outside_shown, lemma_rendered_len, lemma_rendered_splice};
use crate::document::model_view::{owner_of, region_at, ModelView};
use crate::document::position::Affinity;
use crate::document::projection::ProjectionView;
use crate::document::region::EditPolicy;
use crate::document::row_moves::{lemma_item_moved, line_of, node_at, unstyled, Move};
use crate::document::row_parts::{is_edge, lemma_item_starts, lemma_shown_last, lines_begin_before};
use crate::document::seam_lemmas::{
    all_mapped, is_spliced, lemma_before_after, lemma_result, lemma_shown_before,
    lemma_shown_behind, lemma_source_before, lemma_source_behind, lemma_source_within, seams_of,
};
use crate::document::splice_lemmas::{
    lemma_fragment_ends, lemma_fragment_model, lemma_regions_shape, regions_shape, splice_ready,
};
use crate::document::splice_view::{begins_line, block_behind, block_from, ends_in_line_feed};
use crate::document::style_parts::{lemma_spliced_styles, styles_spare, styles_within};
use crate::document::validate::lemma_projection_fits;
use crate::scan::lemma_last_where;
use crate::text::{at_boundary, lemma_splice_boundaries, splice_bytes, starts_clean};
use vstd::prelude::*;

verus! {

/// The document after a fragment was replaced.
#[verifier::opaque]
pub open(crate) spec fn is_fragment<I>(
    m: ModelView<I>,
    from: int,
    to: int,
    c: ModelView<I>,
    n: ModelView<I>,
) -> bool {
    n == m.fragment_model(from, to, c)
}

/// A fragment whose rows can be told from the others.
pub open(crate) spec fn fragment_ready<I>(
    m: ModelView<I>,
    from: int,
    to: int,
    c: ModelView<I>,
    n: ModelView<I>,
) -> bool {
    let first = m.fragment_start(from);
    let last = m.fragment_start(to);
    &&& splice_ready(m, from, to, c)
    &&& is_fragment(m, from, to, c, n)
    &&& 0 <= from <= to <= m.regions.len()
    &&& from < m.regions.len()
    &&& all_mapped(m.projection)
    &&& all_mapped(c.projection)
    &&& m.display().len() + c.display().len() <= usize::MAX
    &&& begins_line(m.display(), m.projection.shown_at(first))
    &&& lines_begin_before(m, first)
    &&& to < m.regions.len() ==> {
        &&& begins_line(m.display(), m.projection.shown_at(last))
        &&& lines_begin_before(c, c.bytes.len() as int)
        &&& c.display().len() == 0 || ends_in_line_feed(c.display())
    }
    &&& to == m.regions.len() ==> c.regions.len() > 0
    &&& c.bytes.len() > 0 ==> c.regions.len() > 0 && c.regions[0].start() == 0
    &&& styles_spare(m.resolved, m.projection.shown_at(first))
    &&& styles_spare(m.resolved, m.projection.shown_at(last))
    &&& styles_within(m.resolved, m.display().len() as int)
    &&& styles_within(c.resolved, c.display().len() as int)
}

/// What the document after a replaced fragment is made of.
pub(crate) proof fn lemma_fragment_facts<I>(
    m: ModelView<I>,
    from: int,
    to: int,
    c: ModelView<I>,
    n: ModelView<I>,
)
    requires
        fragment_ready(m, from, to, c, n),
    ensures
        m.wf(),
        c.wf(),
        n.wf(),
        ({
            let first = m.fragment_start(from);
            let last = m.fragment_start(to);
            let p = m.projection;
            let r = c.projection;
            &&& 0 <= first <= last <= m.bytes.len()
            &&& at_boundary(m.bytes, first)
            &&& at_boundary(m.bytes, last)
            &&& p.source_len == m.bytes.len()
            &&& r.source_len == c.bytes.len()
            &&& n.projection.source_len == n.bytes.len()
            &&& seams_of(p, first, last, r)
            &&& is_spliced(p, first, last, r, n.projection)
            &&& n.bytes == splice_bytes(m.bytes, first, last, c.bytes)
            &&& n.display() == splice_bytes(
                m.display(),
                p.shown_at(first),
                p.shown_at(last),
                c.display(),
            )
            &&& m.display().len() == p.display_len()
            &&& c.display().len() == r.display_len()
            &&& n.display().len() == n.projection.display_len()
            &&& 0 <= p.shown_at(first) <= p.shown_at(last) <= m.display().len()
            &&& n.resolved == m.resolved.spliced(
                p.shown_at(first),
                p.shown_at(last),
                c.display().len() - (p.shown_at(last) - p.shown_at(first)),
                c.resolved,
            )
            &&& m.shown(first, Affinity::Before) == p.shown_at(first)
            &&& m.shown(last, Affinity::Before) == p.shown_at(last)
        }),
{
    reveal(is_fragment);
    lemma_fragment_model(m, from, to, c);
    let first = m.fragment_start(from);
    let last = m.fragment_start(to);
    let p = m.projection;
    let r = c.projection;
    assert(m.wf() && c.wf() && p.outside(first) && p.outside(last) && m.bytes.len() + c.bytes.len()
        <= isize::MAX) by {
        reveal(splice_ready);
    }
    lemma_fragment_ends(m, from, to);
    lemma_projection_fits(p, m.regions, m.bytes);
    lemma_projection_fits(r, c.regions, c.bytes);
    lemma_projection_fits(n.projection, n.regions, n.bytes);
    assert(is_spliced(p, first, last, r, n.projection)) by {
        reveal(is_spliced);
    }
    lemma_rendered_splice(m.bytes, p, first, last, c.bytes, r);
    lemma_rendered_len(c.bytes, r);
    lemma_rendered_len(n.bytes, n.projection);
    lemma_outside_shown(p, first, Affinity::Before);
    lemma_outside_shown(p, last, Affinity::Before);
}

/// A region of the document after a replaced fragment.
pub(crate) proof fn lemma_fragment_node<I>(
    m: ModelView<I>,
    from: int,
    to: int,
    c: ModelView<I>,
    n: ModelView<I>,
    j: int,
)
    requires
        fragment_ready(m, from, to, c, n),
    ensures
        ({
            let first = m.fragment_start(from);
            let last = m.fragment_start(to);
            let delta = c.bytes.len() - (last - first);
            let k = c.regions.len() as int;
            &&& n.regions.len() == from + k + (m.regions.len() - to)
            &&& 0 <= j < from ==> n.regions[j] == m.regions[j] && 0 <= m.regions[j].start()
                <= m.regions[j].end() <= first
            &&& from <= j < from + k ==> {
                let r = c.regions[j - from];
                &&& n.regions[j].spec_id() == r.spec_id()
                &&& n.regions[j].spec_policy() == r.spec_policy()
                &&& n.regions[j].start() == r.start() + first
                &&& n.regions[j].end() == r.end() + first
                &&& 0 <= r.start() <= r.end() <= c.bytes.len()
                &&& r.spec_policy() != EditPolicy::Editable
            }
            &&& from + k <= j < n.regions.len() ==> {
                let r = m.regions[j - (from + k - to)];
                &&& n.regions[j].spec_id() == r.spec_id()
                &&& n.regions[j].spec_policy() == r.spec_policy()
                &&& n.regions[j].start() == r.start() + delta
                &&& n.regions[j].end() == r.end() + delta
                &&& last <= r.start() <= r.end() <= m.bytes.len()
            }
        }),
{
    lemma_regions_shape(m, from, to, c);
    let k = c.regions.len() as int;
    let q = m.fragment_model(from, to, c).regions;
    assert(n.regions == q) by {
        reveal(is_fragment);
    }
    if 0 <= j < q.len() {
        let there = q[j];
        if j >= from + k {
            assert(to + (j - from - k) == j - (from + k - to));
        }
        if from <= j < from + k {
            assert(c.regions[j - from].spec_policy() != EditPolicy::Editable) by {
                reveal(splice_ready);
            }
        }
    }
    reveal(regions_shape);
}

/// The regions of a document before and behind the seams of a fragment.
pub(crate) proof fn lemma_fragment_sides<I>(m: ModelView<I>, from: int, to: int)
    requires
        m.wf(),
        0 <= from <= to <= m.regions.len(),
        from < m.regions.len(),
    ensures
        forall|i: int| 0 <= i < to ==> (#[trigger] m.regions[i]).end() <= m.fragment_start(to),
        forall|i: int| 0 <= i < from ==> (#[trigger] m.regions[i]).end() <= m.fragment_start(from),
        forall|i: int|
            from <= i < m.regions.len() ==> (#[trigger] m.regions[i]).start()
                >= m.fragment_start(from),
        forall|i: int|
            to <= i < m.regions.len() ==> (#[trigger] m.regions[i]).start() >= m.fragment_start(
                to,
            ),
        to < m.regions.len() ==> m.fragment_start(to) == m.regions[to].start(),
        m.fragment_start(from) == m.regions[from].start(),
{
    let first = m.fragment_start(from);
    let last = m.fragment_start(to);
    let len = m.regions.len() as int;
    assert forall|i: int| 0 <= i < to implies (#[trigger] m.regions[i]).end() <= last by {
        if to < len {
            assert(m.regions[i].end() <= m.regions[to].start());
        }
    }
    assert forall|i: int| 0 <= i < from implies (#[trigger] m.regions[i]).end() <= first by {
        assert(m.regions[i].end() <= m.regions[from].start());
    }
    assert forall|i: int| from <= i < len implies (#[trigger] m.regions[i]).start() >= first by {
        if from < i {
            assert(m.regions[from].end() <= m.regions[i].start());
            assert(m.regions[from].start() <= m.regions[from].end());
        }
    }
    assert forall|i: int| to <= i < len implies (#[trigger] m.regions[i]).start() >= last by {
        if to < i {
            assert(m.regions[to].end() <= m.regions[i].start());
            assert(m.regions[to].start() <= m.regions[to].end());
        }
    }
}

// ---------------------------------------------------------------------------
// The node of a row
// ---------------------------------------------------------------------------

/// The node of an offset: the last that holds it or touches it.
proof fn lemma_node_is<I>(m: ModelView<I>, x: int, at: int)
    requires
        0 <= x <= m.bytes.len(),
        -1 <= at < m.regions.len(),
        at >= 0 ==> m.regions[at].start() <= x <= m.regions[at].end(),
        forall|i: int|
            at < i < m.regions.len() ==> !((#[trigger] m.regions[i]).start() <= x
                <= m.regions[i].end()),
    ensures
        node_at(m, x) == (if at >= 0 && at_boundary(m.bytes, x) {
            Some(m.regions[at].spec_id())
        } else {
            None
        }),
{
    let test = region_at::<I>(x);
    lemma_last_where(m.regions, test, m.regions.len() as int);
    let found = owner_of(m.regions, x, Affinity::After);
    if found > at {
        assert(test(m.regions[found]));
    } else if found < at {
        assert(!test(m.regions[at]));
    }
}

/// The last node that holds or touches an offset.
proof fn lemma_last_node<I>(m: ModelView<I>, x: int) -> (at: int)
    ensures
        -1 <= at < m.regions.len() || (at == -1),
        at >= 0 ==> m.regions[at].start() <= x <= m.regions[at].end(),
        forall|i: int|
            at < i < m.regions.len() ==> !((#[trigger] m.regions[i]).start() <= x
                <= m.regions[i].end()),
{
    let test = region_at::<I>(x);
    lemma_last_where(m.regions, test, m.regions.len() as int);
    let found = owner_of(m.regions, x, Affinity::After);
    if found >= 0 {
        assert(test(m.regions[found]));
    }
    assert forall|i: int| found < i < m.regions.len() implies !((
    #[trigger] m.regions[i]).start() <= x <= m.regions[i].end()) by {
        assert(!test(m.regions[i]));
    }
    found
}

proof fn lemma_node_before<I>(
    m: ModelView<I>,
    from: int,
    to: int,
    c: ModelView<I>,
    n: ModelView<I>,
    x: int,
)
    requires
        fragment_ready(m, from, to, c, n),
        0 <= x < m.fragment_start(from),
    ensures
        node_at(n, x) == node_at(m, x),
{
    lemma_fragment_facts(m, from, to, c, n);
    lemma_fragment_sides(m, from, to);
    let first = m.fragment_start(from);
    let at = lemma_last_node(m, x);
    if at >= from {
        assert(m.regions[at].start() >= first);
    }
    lemma_node_is(m, x, at);
    lemma_fragment_node(m, from, to, c, n, at);
    assert forall|i: int| at < i < n.regions.len() implies !((
    #[trigger] n.regions[i]).start() <= x <= n.regions[i].end()) by {
        lemma_fragment_node(m, from, to, c, n, i);
        if i < from {
            assert(!(m.regions[i].start() <= x <= m.regions[i].end()));
        }
    }
    lemma_node_is(n, x, at);
    lemma_splice_boundaries(m.bytes, first, m.fragment_start(to), c.bytes);
    assert(at_boundary(n.bytes, x) <==> at_boundary(m.bytes, x));
}

proof fn lemma_node_within<I>(
    m: ModelView<I>,
    from: int,
    to: int,
    c: ModelView<I>,
    n: ModelView<I>,
    x: int,
)
    requires
        fragment_ready(m, from, to, c, n),
        0 <= x <= c.bytes.len(),
        x < c.bytes.len() || to == m.regions.len(),
    ensures
        node_at(n, x + m.fragment_start(from)) == node_at(c, x),
{
    lemma_fragment_facts(m, from, to, c, n);
    let first = m.fragment_start(from);
    let k = c.regions.len() as int;
    let at = lemma_last_node(c, x);
    lemma_node_is(c, x, at);
    let there = if at >= 0 {
        at + from
    } else {
        -1
    };
    lemma_fragment_node(m, from, to, c, n, there);
    if x == 0 && at < 0 {
        assert(k > 0);
        assert(c.regions[0].start() <= c.regions[0].end());
        if c.bytes.len() > 0 {
            assert(!(c.regions[0].start() <= x <= c.regions[0].end()));
        } else {
            assert(!(c.regions[0].start() <= x <= c.regions[0].end()));
            assert(c.regions[0].end() <= c.bytes.len());
        }
    }
    assert forall|i: int| there < i < n.regions.len() implies !((
    #[trigger] n.regions[i]).start() <= x + first <= n.regions[i].end()) by {
        lemma_fragment_node(m, from, to, c, n, i);
        if from <= i < from + k {
            assert(!(c.regions[i - from].start() <= x <= c.regions[i - from].end()));
        }
    }
    lemma_node_is(n, x + first, there);
    lemma_inner_boundary(m.bytes, first, m.fragment_start(to), c.bytes, x);
}

proof fn lemma_inner_boundary(bytes: Seq<u8>, start: int, end: int, insert: Seq<u8>, x: int)
    requires
        0 <= start <= end <= bytes.len(),
        at_boundary(bytes, start),
        at_boundary(bytes, end),
        starts_clean(insert),
        starts_clean(bytes),
        0 <= x <= insert.len(),
    ensures
        at_boundary(splice_bytes(bytes, start, end, insert), start + x) <==> at_boundary(insert, x),
{
    let out = splice_bytes(bytes, start, end, insert);
    lemma_splice_boundaries(bytes, start, end, insert);
    if 0 < x < insert.len() {
        assert(out[start + x] == insert[x]);
    } else {
        assert(at_boundary(insert, x));
        assert(at_boundary(out, start + x));
    }
}

proof fn lemma_node_behind<I>(
    m: ModelView<I>,
    from: int,
    to: int,
    c: ModelView<I>,
    n: ModelView<I>,
    x: int,
)
    requires
        fragment_ready(m, from, to, c, n),
        to < m.regions.len(),
        m.fragment_start(to) <= x <= m.bytes.len(),
    ensures
        node_at(n, x + (c.bytes.len() - (m.fragment_start(to) - m.fragment_start(from))))
            == node_at(m, x),
{
    lemma_fragment_facts(m, from, to, c, n);
    lemma_fragment_sides(m, from, to);
    let first = m.fragment_start(from);
    let last = m.fragment_start(to);
    let delta = c.bytes.len() - (last - first);
    let k = c.regions.len() as int;
    let at = lemma_last_node(m, x);
    lemma_node_is(m, x, at);
    let shift = from + k - to;
    assert(m.regions[to].start() == last && m.regions[to].start() <= m.regions[to].end());
    if 0 <= at < to {
        assert(m.regions[at].end() <= last);
        assert(x == last);
        assert(!(m.regions[to].start() <= x <= m.regions[to].end()));
    }
    let there = if at >= 0 {
        at + shift
    } else {
        -1
    };
    lemma_fragment_node(m, from, to, c, n, there);
    if x == last && at < to {
        assert(!(m.regions[to].start() <= x <= m.regions[to].end()));
    }
    assert forall|i: int| there < i < n.regions.len() implies !((
    #[trigger] n.regions[i]).start() <= x + delta <= n.regions[i].end()) by {
        lemma_fragment_node(m, from, to, c, n, i);
        if i >= from + k {
            assert(!(m.regions[i - shift].start() <= x <= m.regions[i - shift].end()));
        }
    }
    lemma_node_is(n, x + delta, there);
    lemma_splice_boundaries(m.bytes, first, last, c.bytes);
    assert(x + delta == x - (last - first) + c.bytes.len());
    assert(at_boundary(n.bytes, x - (last - first) + c.bytes.len()) <==> at_boundary(m.bytes, x));
}

// ---------------------------------------------------------------------------
// The parts
// ---------------------------------------------------------------------------

/// What comes before a fragment, in the document after it was replaced.
pub open(crate) spec fn part_before<I>(m: ModelView<I>, from: int) -> Move {
    let first = m.fragment_start(from);
    Move {
        shown: (0, m.projection.shown_at(first)),
        source: (0, first),
        nodes: (0, from),
        blocks: (0, block_behind(m.blocks, first)),
        delta: 0,
        grown: 0,
        node_shift: 0,
        block_shift: 0,
        to_end: false,
    }
}

/// The replacement, in the document after a fragment was replaced.
pub open(crate) spec fn part_within<I>(
    m: ModelView<I>,
    from: int,
    to: int,
    c: ModelView<I>,
) -> Move {
    let first = m.fragment_start(from);
    Move {
        shown: (0, c.display().len() as int),
        source: (0, c.bytes.len() as int),
        nodes: (0, c.regions.len() as int),
        blocks: (0, c.blocks.len() as int),
        delta: first,
        grown: m.projection.shown_at(first),
        node_shift: from,
        block_shift: block_behind(m.blocks, first),
        to_end: to == m.regions.len(),
    }
}

/// What comes behind a fragment, in the document after it was replaced.
pub open(crate) spec fn part_behind<I>(
    m: ModelView<I>,
    from: int,
    to: int,
    c: ModelView<I>,
) -> Move {
    let first = m.fragment_start(from);
    let last = m.fragment_start(to);
    let p = m.projection;
    Move {
        shown: (p.shown_at(last), m.display().len() as int),
        source: (last, m.bytes.len() as int),
        nodes: (to, m.regions.len() as int),
        blocks: (block_from(m.blocks, last), m.blocks.len() as int),
        delta: c.bytes.len() - (last - first),
        grown: c.display().len() - (p.shown_at(last) - p.shown_at(first)),
        node_shift: from + c.regions.len() - to,
        block_shift: block_behind(m.blocks, first) + c.blocks.len() - block_from(m.blocks, last),
        to_end: true,
    }
}

/// The seams of a fragment are edges of the document.
pub(crate) proof fn lemma_edges<I>(
    m: ModelView<I>,
    from: int,
    to: int,
    c: ModelView<I>,
    n: ModelView<I>,
)
    requires
        fragment_ready(m, from, to, c, n),
    ensures
        is_edge(m, from, m.fragment_start(from)),
        is_edge(m, to, m.fragment_start(to)),
        is_edge(c, c.regions.len() as int, c.bytes.len() as int),
        is_edge(n, from, m.fragment_start(from)),
        is_edge(n, from + c.regions.len(), m.fragment_start(from) + c.bytes.len()),
{
    lemma_fragment_facts(m, from, to, c, n);
    lemma_fragment_sides(m, from, to);
    let first = m.fragment_start(from);
    let last = m.fragment_start(to);
    lemma_result(m.projection, first, last, c.projection, n.projection);
    lemma_shown_last(c.projection);
    assert forall|i: int| 0 <= i < c.regions.len() implies (#[trigger] c.regions[i]).end()
        <= c.bytes.len() by {}
    let k = c.regions.len() as int;
    lemma_fragment_node(m, from, to, c, n, 0);
    assert forall|i: int| 0 <= i < from + k implies (#[trigger] n.regions[i]).end() <= first
        + c.bytes.len() by {
        lemma_fragment_node(m, from, to, c, n, i);
    }
    assert forall|i: int| 0 <= i < from implies (#[trigger] n.regions[i]).end() <= first by {
        lemma_fragment_node(m, from, to, c, n, i);
    }
    assert forall|i: int| from <= i < n.regions.len() implies (#[trigger] n.regions[i]).start()
        >= first by {
        lemma_fragment_node(m, from, to, c, n, i);
    }
    assert forall|i: int| from + k <= i < n.regions.len() implies (#[trigger] n.regions[i]).start()
        >= first + c.bytes.len() by {
        lemma_fragment_node(m, from, to, c, n, i);
    }
}

// ---------------------------------------------------------------------------
// Lines
// ---------------------------------------------------------------------------

/// A line without text at a place where a position before it is no further on
/// than one behind has an empty source.
proof fn lemma_empty_line<I>(m: ModelView<I>, d: int, segment: (int, int))
    requires
        segment.0 <= segment.1,
        m.projection.display_to_source(d, Affinity::Before) matches Some(x)
            && m.projection.display_to_source(d, Affinity::After) matches Some(y) && x <= y,
    ensures
        m.row_source((d, d), segment).1 == m.row_source((d, d), segment).0,
{
}

#[verifier::spinoff_prover]
pub(crate) proof fn lemma_line_before<I>(
    m: ModelView<I>,
    from: int,
    to: int,
    c: ModelView<I>,
    n: ModelView<I>,
    display: (int, int),
    segment: (int, int),
)
    requires
        fragment_ready(m, from, to, c, n),
        line_of(m, part_before(m, from), display, segment),
    ensures
        unstyled(n.text_item((display.0 + 0, display.1 + 0), (segment.0 + 0, segment.1 + 0)))
            == unstyled(m.text_item(display, segment).shifted(0, 0)),
{
    let first = m.fragment_start(from);
    let last = m.fragment_start(to);
    let p = m.projection;
    let cut = p.shown_at(first);
    lemma_fragment_facts(m, from, to, c, n);
    lemma_edges(m, from, to, c, n);
    assert(display.1 < cut) by {
        if display.1 == cut {
            assert(m.display()[cut - 1] == 0x0a);
        }
    }
    lemma_source_before(p, first, last, c.projection, n.projection, display.0, Affinity::After);
    lemma_source_before(p, first, last, c.projection, n.projection, display.1, Affinity::Before);
    assert(n.row_source(display, segment) == m.row_source(display, segment));
    lemma_item_starts(m, from, first, segment.0, display, segment);
    let x = m.row_source(display, segment).0;
    assert(segment.0 <= x <= segment.1);
    assert(m.text_item(display, segment).source_start() == x);
    lemma_node_before(m, from, to, c, n, x);
    lemma_spliced_styles(
        m.resolved,
        m.display().len() as int,
        cut,
        p.shown_at(last),
        c.resolved,
        c.display().len() as int,
        display,
    );
    assert(n.display().subrange(display.0, display.1) =~= m.display().subrange(
        display.0,
        display.1,
    ));
    lemma_item_moved(m, n, display, segment, 0, 0);
}

#[verifier::spinoff_prover]
#[verifier::rlimit(30)]
pub(crate) proof fn lemma_line_within<I>(
    m: ModelView<I>,
    from: int,
    to: int,
    c: ModelView<I>,
    n: ModelView<I>,
    display: (int, int),
    segment: (int, int),
)
    requires
        fragment_ready(m, from, to, c, n),
        line_of(c, part_within(m, from, to, c), display, segment),
    ensures
        ({
            let v = part_within(m, from, to, c);
            unstyled(
                n.text_item(
                    (display.0 + v.grown, display.1 + v.grown),
                    (segment.0 + v.delta, segment.1 + v.delta),
                ),
            ) == unstyled(c.text_item(display, segment).shifted(v.delta, v.grown))
        }),
{
    let first = m.fragment_start(from);
    let last = m.fragment_start(to);
    let p = m.projection;
    let q = n.projection;
    let r = c.projection;
    let cut = p.shown_at(first);
    let size = c.display().len() as int;
    lemma_fragment_facts(m, from, to, c, n);
    lemma_edges(m, from, to, c, n);
    lemma_source_of_line(m, from, to, c, n, display, segment);
    let x = c.row_source(display, segment).0;
    assert(segment.0 <= x <= segment.1);
    if to < m.regions.len() {
        let k = c.regions.len() as int;
        lemma_shown_last(r);
        assert(display.0 < size) by {
            if display.0 == size {
                assert(display.0 == display.1 && display.1 == part_within(m, from, to, c).shown.1);
            }
        }
        lemma_item_starts(c, k, c.bytes.len() as int, segment.0, display, segment);
        assert(c.text_item(display, segment).source_start() == x);
    }
    lemma_node_within(m, from, to, c, n, x);
    lemma_spliced_styles(
        m.resolved,
        m.display().len() as int,
        cut,
        p.shown_at(last),
        c.resolved,
        size,
        display,
    );
    assert(n.display().subrange(display.0 + cut, display.1 + cut) =~= c.display().subrange(
        display.0,
        display.1,
    ));
    lemma_item_moved(c, n, display, segment, first, cut);
}

/// The source of a line of a replacement is moved with it.
#[verifier::spinoff_prover]
#[verifier::rlimit(30)]
proof fn lemma_source_of_line<I>(
    m: ModelView<I>,
    from: int,
    to: int,
    c: ModelView<I>,
    n: ModelView<I>,
    display: (int, int),
    segment: (int, int),
)
    requires
        fragment_ready(m, from, to, c, n),
        line_of(c, part_within(m, from, to, c), display, segment),
    ensures
        ({
            let first = m.fragment_start(from);
            let cut = m.projection.shown_at(first);
            n.row_source(
                (display.0 + cut, display.1 + cut),
                (segment.0 + first, segment.1 + first),
            ) == (
                c.row_source(display, segment).0 + first,
                c.row_source(display, segment).1 + first,
            )
        }),
{
    let first = m.fragment_start(from);
    let last = m.fragment_start(to);
    let p = m.projection;
    let q = n.projection;
    let r = c.projection;
    let cut = p.shown_at(first);
    let size = c.display().len() as int;
    lemma_fragment_facts(m, from, to, c, n);
    lemma_result(p, first, last, r, q);
    lemma_seam_facts(r);
    if to == m.regions.len() {
        assert(last == m.bytes.len());
        lemma_shown_last(p);
        assert(q.display_len() == cut + size);
    }
    if display.1 == size && to < m.regions.len() {
        assert(display.0 < display.1) by {
            if display.0 == display.1 {
                assert(part_within(m, from, to, c).shown.1 == size);
            }
        }
        assert(c.display()[size - 1] == 0x0a);
        assert(false);
    }
    let there = (display.0 + cut, display.1 + cut);
    let part = (segment.0 + first, segment.1 + first);
    if display.0 < size {
        lemma_source_within(p, first, last, r, q, display.0, Affinity::After);
        lemma_shown_behind(r, 0, display.0);
    }
    if display.1 == 0 {
        assert(display.0 == 0);
        lemma_before_after(r, 0);
        lemma_before_after(q, first);
        lemma_empty_line(c, 0, segment);
        lemma_empty_line(n, cut, part);
    } else if display.1 < size {
        lemma_source_within(p, first, last, r, q, display.1, Affinity::Before);
        lemma_some_source(r, display.1);
    }
}

/// The start of a projection is a seam.
proof fn lemma_seam_facts(r: ProjectionView)
    requires
        r.valid(),
    ensures
        r.outside(0),
        r.shown_at(0) == 0,
{
    lemma_shown_first(r);
}

/// Every place of the display stands for some source.
proof fn lemma_some_source(r: ProjectionView, d: int)
    requires
        r.valid(),
        all_mapped(r),
        0 <= d < r.display_len(),
    ensures
        r.display_to_source(d, Affinity::Before) is Some,
{
    lemma_shown_last(r);
    lemma_shown_before(r, r.source_len, d, Affinity::Before);
}

#[verifier::spinoff_prover]
#[verifier::rlimit(30)]
pub(crate) proof fn lemma_line_behind<I>(
    m: ModelView<I>,
    from: int,
    to: int,
    c: ModelView<I>,
    n: ModelView<I>,
    display: (int, int),
    segment: (int, int),
)
    requires
        fragment_ready(m, from, to, c, n),
        to < m.regions.len(),
        line_of(m, part_behind(m, from, to, c), display, segment),
    ensures
        ({
            let v = part_behind(m, from, to, c);
            unstyled(
                n.text_item(
                    (display.0 + v.grown, display.1 + v.grown),
                    (segment.0 + v.delta, segment.1 + v.delta),
                ),
            ) == unstyled(m.text_item(display, segment).shifted(v.delta, v.grown))
        }),
{
    let v = part_behind(m, from, to, c);
    let first = m.fragment_start(from);
    let last = m.fragment_start(to);
    let p = m.projection;
    let q = n.projection;
    let r = c.projection;
    let cut = p.shown_at(last);
    lemma_fragment_facts(m, from, to, c, n);
    lemma_result(p, first, last, r, q);
    let there = (display.0 + v.grown, display.1 + v.grown);
    let part = (segment.0 + v.delta, segment.1 + v.delta);
    lemma_source_behind(p, first, last, r, q, display.0, Affinity::After);
    lemma_shown_behind(p, last, display.0);
    if display.1 > cut {
        lemma_source_behind(p, first, last, r, q, display.1, Affinity::Before);
        if display.1 < p.display_len() {
            lemma_some_source(p, display.1);
        }
    } else {
        lemma_before_after(p, last);
        lemma_before_after(q, first + c.bytes.len());
        lemma_empty_line(m, cut, segment);
        lemma_empty_line(n, cut + v.grown, part);
    }
    assert(n.row_source(there, part) == (
        m.row_source(display, segment).0 + v.delta,
        m.row_source(display, segment).1 + v.delta,
    ));
    let x = m.row_source(display, segment).0;
    assert(segment.0 <= x <= segment.1);
    lemma_node_behind(m, from, to, c, n, x);
    lemma_spliced_styles(
        m.resolved,
        m.display().len() as int,
        p.shown_at(first),
        cut,
        c.resolved,
        c.display().len() as int,
        display,
    );
    assert(n.display().subrange(there.0, there.1) =~= m.display().subrange(display.0, display.1));
    lemma_item_moved(m, n, display, segment, v.delta, v.grown);
}

} // verus!
