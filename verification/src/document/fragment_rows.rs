//! The rows of a document after a fragment was replaced.

use crate::document::fragment_moves::{
    lemma_block_sides, lemma_blocks_until, lemma_part_before, lemma_part_behind, lemma_part_within,
};
use crate::document::fragment_parts::{
    fragment_ready, lemma_edges, lemma_fragment_facts, lemma_fragment_node, lemma_fragment_sides,
    part_before, part_behind, part_within,
};
use crate::document::layout::{lemma_shown_first, LayoutView};
use crate::document::model_view::ModelView;
use crate::document::row_moves::{
    lemma_alike_together, lemma_rows_moved, lemma_shifted_together, rows_alike, unstyled,
};
use crate::document::row_parts::{
    is_edge, is_seam, lemma_all_rows, lemma_cut, lemma_first_behind, lemma_layout_edge,
    lemma_rows_before, lemma_shown_last, lines_begin_before,
};
use crate::document::seam_lemmas::{lemma_place_before, lemma_place_within};
use crate::document::splice_view::{block_behind, block_from, shifted_rows};
use crate::document::state_view::StateView;
use vstd::prelude::*;

verus! {

/// The rows before the edge of a node.
pub open(crate) spec fn front_of<I>(m: ModelView<I>, stop: int, seam: int) -> Seq<LayoutView<I>> {
    m.rows_until(0, 0, 0, 0, stop, (m.projection.shown_at(seam), seam), false)
}

/// The rows from the edge of a node on.
pub open(crate) spec fn back_of<I>(m: ModelView<I>, stop: int, block: int, seam: int) -> Seq<
    LayoutView<I>,
> {
    m.rows_until(
        stop,
        block,
        m.projection.shown_at(seam),
        seam,
        m.regions.len() as int,
        (m.display().len() as int, m.bytes.len() as int),
        true,
    )
}

/// The row that the view adds at the end.
pub open(crate) spec fn trailing<I>(s: StateView<I>) -> Seq<LayoutView<I>> {
    if s.trailer {
        seq![LayoutView::Trailer]
    } else {
        Seq::empty()
    }
}

/// Rows that are not moved stay as they are.
proof fn lemma_unmoved<I>(rows: Seq<LayoutView<I>>)
    ensures
        shifted_rows(rows, 0, 0) == rows,
{
    assert forall|i: int| 0 <= i < rows.len() implies shifted_rows(rows, 0, 0)[i] == rows[i] by {
        match rows[i] {
            LayoutView::Text { display, source, .. } => {},
            LayoutView::Block { source, .. } => {},
            LayoutView::AnchoredBlock { .. } => {},
            LayoutView::Trailer => {},
        }
    }
    assert(shifted_rows(rows, 0, 0) =~= rows);
}

proof fn lemma_trailing<I>(s: StateView<I>, delta: int, grown: int)
    ensures
        shifted_rows(trailing(s), delta, grown) == trailing(s),
        rows_alike(trailing(s), trailing(s)),
{
    assert(shifted_rows(trailing(s), delta, grown) =~= trailing(s));
}

/// The rows of a document are those before the edge of a node and those from
/// there on.
proof fn lemma_two_parts<I>(m: ModelView<I>, stop: int, seam: int, block: int)
    requires
        is_seam(m, stop, seam),
        m.anchored.len() == 0,
        block == m.blocks_until(0, 0, stop),
        0 <= block,
        0 <= m.projection.shown_at(seam) <= m.display().len(),
    ensures
        m.layout() == front_of(m, stop, seam) + back_of(m, stop, block, seam),
{
    lemma_shown_first(m.projection);
    lemma_all_rows(m, 0, 0, 0, 0);
    lemma_cut(
        m,
        stop,
        seam,
        0,
        0,
        0,
        m.regions.len() as int,
        (m.display().len() as int, m.bytes.len() as int),
        true,
    );
}

/// How many blocks come before the seams of a fragment.
proof fn lemma_block_counts<I>(
    m: ModelView<I>,
    from: int,
    to: int,
    c: ModelView<I>,
    n: ModelView<I>,
)
    requires
        fragment_ready(m, from, to, c, n),
    ensures
        ({
            let head = block_behind(m.blocks, m.fragment_start(from));
            let tail = block_from(m.blocks, m.fragment_start(to));
            &&& 0 <= head <= tail <= m.blocks.len()
            &&& m.blocks_until(0, 0, from) == head
            &&& m.blocks_until(0, 0, to) == tail
            &&& n.blocks_until(0, 0, from) == head
            &&& n.blocks_until(from, head, from + c.regions.len()) == head + c.blocks.len()
        }),
{
    let first = m.fragment_start(from);
    let last = m.fragment_start(to);
    let head = block_behind(m.blocks, first);
    let tail = block_from(m.blocks, last);
    lemma_fragment_facts(m, from, to, c, n);
    lemma_edges(m, from, to, c, n);
    lemma_block_sides(m, from, to, c, n);
    lemma_fragment_node(m, from, to, c, n, from);
    lemma_blocks_until(m, from, first, 0, 0, head);
    lemma_blocks_until(m, to, last, 0, 0, tail);
    lemma_blocks_until(n, from, first, 0, 0, head);
    lemma_blocks_until(
        n,
        from + c.regions.len(),
        first + c.bytes.len(),
        from,
        head,
        head + c.blocks.len(),
    );
}

/// The seams of a fragment begin lines of the document after it too.
proof fn lemma_new_seams<I>(
    m: ModelView<I>,
    from: int,
    to: int,
    c: ModelView<I>,
    n: ModelView<I>,
)
    requires
        fragment_ready(m, from, to, c, n),
    ensures
        ({
            let first = m.fragment_start(from);
            let cut = m.projection.shown_at(first);
            &&& is_seam(m, from, first)
            &&& is_seam(n, from, first)
            &&& n.projection.shown_at(first) == cut
            &&& n.projection.shown_at(first + c.bytes.len()) == cut + c.display().len()
            &&& to < m.regions.len() ==> is_seam(m, to, m.fragment_start(to))
            &&& to < m.regions.len() ==> is_seam(
                n,
                from + c.regions.len(),
                first + c.bytes.len(),
            )
            &&& to < m.regions.len() ==> is_seam(
                c,
                c.regions.len() as int,
                c.bytes.len() as int,
            )
        }),
{
    let first = m.fragment_start(from);
    let last = m.fragment_start(to);
    let p = m.projection;
    let cut = p.shown_at(first);
    lemma_fragment_facts(m, from, to, c, n);
    lemma_edges(m, from, to, c, n);
    lemma_place_before(p, first, last, c.projection, n.projection, first);
    lemma_shown_last(c.projection);
    lemma_place_within(p, first, last, c.projection, n.projection, c.bytes.len() as int);
    if cut > 0 {
        assert(n.display()[cut - 1] == m.display()[cut - 1]);
    }
    if c.display().len() > 0 {
        let size = c.display().len() as int;
        assert(n.display()[cut + size - 1] == c.display()[size - 1]);
    }
}

// ---------------------------------------------------------------------------
// The edges
// ---------------------------------------------------------------------------

/// The rows of a fragment begin behind those of the nodes before it.
proof fn lemma_edge_at<I>(s: StateView<I>, stop: int, block: int)
    requires
        ({
            let m = s.model;
            let seam = m.fragment_start(stop);
            &&& is_seam(m, stop, seam)
            &&& stop < m.regions.len()
            &&& seam == m.regions[stop].start()
            &&& lines_begin_before(m, seam)
            &&& m.anchored.len() == 0
            &&& s.items == s.next_items()
            &&& block == m.blocks_until(0, 0, stop)
            &&& 0 <= block
            &&& 0 <= m.projection.shown_at(seam) <= m.display().len()
            &&& m.bytes.len() <= usize::MAX
        }),
    ensures
        ({
            let m = s.model;
            let seam = m.fragment_start(stop);
            &&& s.layout_edge(stop) == front_of(m, stop, seam).len()
            &&& s.items == front_of(m, stop, seam) + (back_of(m, stop, block, seam) + trailing(s))
        }),
{
    let m = s.model;
    let seam = m.fragment_start(stop);
    let front = front_of(m, stop, seam);
    let back = back_of(m, stop, block, seam);
    lemma_shown_first(m.projection);
    lemma_two_parts(m, stop, seam, block);
    lemma_rows_before(m, stop, seam, 0, 0, 0, false);
    lemma_first_behind(m, stop, seam, stop, block);
    let rest = back + trailing(s);
    assert(rest[0] == back[0]);
    assert(s.items =~= front + rest);
    lemma_layout_edge(s, stop, front, rest);
}

/// A fragment up to the last node ends behind all rows of the document.
proof fn lemma_edge_at_end<I>(s: StateView<I>)
    requires
        ({
            let m = s.model;
            let stop = m.regions.len() as int;
            &&& is_edge(m, stop, m.bytes.len() as int)
            &&& stop > 0
            &&& m.regions.last().end() == m.bytes.len()
            &&& m.fragment_start(stop) == m.bytes.len()
            &&& lines_begin_before(m, m.bytes.len() as int)
            &&& m.anchored.len() == 0
            &&& s.items == s.next_items()
            &&& m.bytes.len() <= usize::MAX
            &&& m.display().len() == m.projection.display_len()
        }),
    ensures
        s.layout_edge(s.model.regions.len() as int) == s.model.layout().len(),
        s.items == s.model.layout() + trailing(s),
{
    let m = s.model;
    let stop = m.regions.len() as int;
    lemma_shown_first(m.projection);
    lemma_shown_last(m.projection);
    lemma_all_rows(m, 0, 0, 0, 0);
    lemma_rows_before(m, stop, m.bytes.len() as int, 0, 0, 0, true);
    assert(s.items =~= m.layout() + trailing(s));
    lemma_layout_edge(s, stop, m.layout(), trailing(s));
}

// ---------------------------------------------------------------------------
// The rows of the parts
// ---------------------------------------------------------------------------

/// The rows before a fragment are those before it in the document after it.
proof fn lemma_front_stays<I>(
    m: ModelView<I>,
    from: int,
    to: int,
    c: ModelView<I>,
    n: ModelView<I>,
)
    requires
        fragment_ready(m, from, to, c, n),
    ensures
        rows_alike(
            front_of(n, from, m.fragment_start(from)),
            front_of(m, from, m.fragment_start(from)),
        ),
{
    let first = m.fragment_start(from);
    let v = part_before(m, from);
    lemma_fragment_facts(m, from, to, c, n);
    lemma_edges(m, from, to, c, n);
    lemma_new_seams(m, from, to, c, n);
    lemma_block_counts(m, from, to, c, n);
    lemma_part_before(m, from, to, c, n);
    lemma_shown_first(m.projection);
    lemma_rows_moved(m, n, v, 0, 0, 0, (m.projection.shown_at(first), first), false);
    lemma_unmoved(front_of(m, from, first));
}

/// The rows behind a fragment are found behind it in the document after it.
proof fn lemma_back_moves<I>(
    m: ModelView<I>,
    from: int,
    to: int,
    c: ModelView<I>,
    n: ModelView<I>,
)
    requires
        fragment_ready(m, from, to, c, n),
        to < m.regions.len(),
    ensures
        ({
            let first = m.fragment_start(from);
            let last = m.fragment_start(to);
            let v = part_behind(m, from, to, c);
            let head = block_behind(m.blocks, first);
            let tail = block_from(m.blocks, last);
            rows_alike(
                back_of(
                    n,
                    from + c.regions.len(),
                    head + c.blocks.len(),
                    first + c.bytes.len(),
                ),
                shifted_rows(back_of(m, to, tail, last), v.delta, v.grown),
            )
        }),
{
    let first = m.fragment_start(from);
    let last = m.fragment_start(to);
    let v = part_behind(m, from, to, c);
    let tail = block_from(m.blocks, last);
    let len = m.bytes.len() as int;
    lemma_fragment_facts(m, from, to, c, n);
    lemma_edges(m, from, to, c, n);
    lemma_new_seams(m, from, to, c, n);
    lemma_block_counts(m, from, to, c, n);
    lemma_part_behind(m, from, to, c, n);
    lemma_fragment_node(m, from, to, c, n, 0);
    lemma_fragment_sides(m, from, to);
    lemma_shown_last(m.projection);
    lemma_rows_moved(m, n, v, to, tail, last, (m.display().len() as int, len), true);
}

/// The rows of a replacement are found in the document after it.
proof fn lemma_own_rows<I>(
    m: ModelView<I>,
    from: int,
    to: int,
    c: ModelView<I>,
    n: ModelView<I>,
    tail: bool,
)
    requires
        fragment_ready(m, from, to, c, n),
        tail ==> to == m.regions.len(),
    ensures
        ({
            let first = m.fragment_start(from);
            let cut = m.projection.shown_at(first);
            let size = c.display().len() as int;
            let len = c.bytes.len() as int;
            rows_alike(
                n.rows_until(
                    from,
                    block_behind(m.blocks, first),
                    cut,
                    first,
                    from + c.regions.len(),
                    (cut + size, first + len),
                    tail,
                ),
                shifted_rows(
                    c.rows_until(0, 0, 0, 0, c.regions.len() as int, (size, len), tail),
                    first,
                    cut,
                ),
            )
        }),
{
    let first = m.fragment_start(from);
    let v = part_within(m, from, to, c);
    lemma_fragment_facts(m, from, to, c, n);
    lemma_edges(m, from, to, c, n);
    lemma_part_within(m, from, to, c, n);
    lemma_shown_first(c.projection);
    lemma_shown_last(c.projection);
    lemma_rows_moved(
        c,
        n,
        v,
        0,
        0,
        0,
        (c.display().len() as int, c.bytes.len() as int),
        tail,
    );
}

/// Without the empty row at the end that the node behind a fragment owns.
proof fn lemma_without_last_row<I>(c: ModelView<I>)
    requires
        is_seam(c, c.regions.len() as int, c.bytes.len() as int),
        c.anchored.len() == 0,
        c.display().len() == c.projection.display_len(),
        c.display().len() <= usize::MAX,
    ensures
        ({
            let rows = c.layout();
            &&& rows.len() > 0
            &&& rows.last().is_empty_text()
            &&& rows.drop_last() == front_of(c, c.regions.len() as int, c.bytes.len() as int)
        }),
{
    let size = c.display().len() as int;
    let len = c.bytes.len() as int;
    let k = c.regions.len() as int;
    lemma_shown_last(c.projection);
    let block = c.blocks_until(0, 0, k);
    lemma_some_blocks(c, 0, 0, k);
    lemma_two_parts(c, k, len, block);
    let front = front_of(c, k, len);
    let back = back_of(c, k, block, len);
    assert(back == c.text_items((size, size), (len, len), true));
    assert(back =~= seq![c.text_item((size, size), (len, len))]);
    assert(c.layout().drop_last() =~= front);
}

proof fn lemma_some_blocks<I>(m: ModelView<I>, region: int, block: int, stop: int)
    requires
        0 <= block,
    ensures
        0 <= m.blocks_until(region, block, stop),
    decreases stop - region,
{
    if region < stop {
        lemma_some_blocks(m, region + 1, block, stop);
        lemma_some_blocks(m, region + 1, block + 1, stop);
    }
}

// ---------------------------------------------------------------------------
// All rows
// ---------------------------------------------------------------------------

/// The rows after a fragment before another node was replaced.
#[verifier::spinoff_prover]
#[verifier::rlimit(40)]
proof fn lemma_rows_between<I>(
    s: StateView<I>,
    from: int,
    to: int,
    c: ModelView<I>,
    n: ModelView<I>,
)
    requires
        fragment_ready(s.model, from, to, c, n),
        s.items == s.next_items(),
        s.model.anchored.len() == 0,
        c.anchored.len() == 0,
        n.anchored.len() == 0,
        lines_begin_before(s.model, s.model.fragment_start(to)),
        to < s.model.regions.len(),
    ensures
        rows_alike(s.with_fragment_rows(from, to, c).items, n.layout() + trailing(s)),
{
    let m = s.model;
    let first = m.fragment_start(from);
    let last = m.fragment_start(to);
    let cut = m.projection.shown_at(first);
    let v = part_behind(m, from, to, c);
    let head = block_behind(m.blocks, first);
    let tail = block_from(m.blocks, last);
    let size = c.display().len() as int;
    lemma_fragment_facts(m, from, to, c, n);
    lemma_edges(m, from, to, c, n);
    lemma_new_seams(m, from, to, c, n);
    lemma_block_counts(m, from, to, c, n);
    lemma_fragment_sides(m, from, to);
    lemma_fragment_node(m, from, to, c, n, 0);
    lemma_edge_at(s, from, head);
    lemma_edge_at(s, to, tail);
    let a = front_of(m, from, first);
    let front = front_of(m, to, last);
    let b = back_of(m, to, tail, last);
    let end = trailing(s);
    lemma_without_last_row(c);
    let own = front_of(c, c.regions.len() as int, c.bytes.len() as int);
    lemma_shown_last(c.projection);
    let rows = shifted_rows(own, first, cut);
    assert(s.fragment_rows(from, to, c) == rows);
    let after = s.with_fragment_rows(from, to, c).items;
    assert(s.items.subrange(0, a.len() as int) =~= a);
    assert(s.items.subrange(front.len() as int, s.items.len() as int) =~= b + end);
    lemma_shifted_together(b, end, v.delta, v.grown);
    lemma_trailing(s, v.delta, v.grown);
    assert(after == a + rows + (shifted_rows(b, v.delta, v.grown) + end));
    // The document after it.
    lemma_two_parts(n, from, first, head);
    let stop = from + c.regions.len();
    let seam = first + c.bytes.len();
    let ending = (n.display().len() as int, n.bytes.len() as int);
    lemma_cut(n, stop, seam, from, head, first, n.regions.len() as int, ending, true);
    let x = front_of(n, from, first);
    let y = n.rows_until(from, head, cut, first, stop, (cut + size, seam), false);
    let z = back_of(n, stop, head + c.blocks.len(), seam);
    assert(n.layout() == x + (y + z));
    lemma_front_stays(m, from, to, c, n);
    lemma_own_rows(m, from, to, c, n, false);
    lemma_back_moves(m, from, to, c, n);
    lemma_alike_together(x, a, y, rows);
    lemma_alike_together(z, shifted_rows(b, v.delta, v.grown), end, end);
    lemma_alike_together(x + y, a + rows, z + end, shifted_rows(b, v.delta, v.grown) + end);
    assert(n.layout() + end =~= (x + y) + (z + end));
    lemma_alike_back(n.layout() + end, after);
}

proof fn lemma_alike_back<I>(a: Seq<LayoutView<I>>, b: Seq<LayoutView<I>>)
    requires
        rows_alike(a, b),
    ensures
        rows_alike(b, a),
{
    assert forall|i: int| 0 <= i < b.len() implies unstyled(#[trigger] b[i]) == unstyled(a[i]) by {
        assert(unstyled(a[i]) == unstyled(b[i]));
    }
}

/// The rows after a fragment at the end was replaced.
#[verifier::spinoff_prover]
#[verifier::rlimit(40)]
proof fn lemma_rows_at_end<I>(
    s: StateView<I>,
    from: int,
    c: ModelView<I>,
    n: ModelView<I>,
)
    requires
        fragment_ready(s.model, from, s.model.regions.len() as int, c, n),
        s.items == s.next_items(),
        s.model.anchored.len() == 0,
        c.anchored.len() == 0,
        n.anchored.len() == 0,
        lines_begin_before(s.model, s.model.bytes.len() as int),
        s.model.regions.last().end() == s.model.bytes.len(),
    ensures
        rows_alike(
            s.with_fragment_rows(from, s.model.regions.len() as int, c).items,
            n.layout() + trailing(s),
        ),
{
    let m = s.model;
    let to = m.regions.len() as int;
    let first = m.fragment_start(from);
    let cut = m.projection.shown_at(first);
    let head = block_behind(m.blocks, first);
    let size = c.display().len() as int;
    lemma_fragment_facts(m, from, to, c, n);
    lemma_edges(m, from, to, c, n);
    lemma_new_seams(m, from, to, c, n);
    lemma_block_counts(m, from, to, c, n);
    lemma_fragment_sides(m, from, to);
    lemma_fragment_node(m, from, to, c, n, 0);
    lemma_edge_at(s, from, head);
    lemma_edge_at_end(s);
    lemma_shown_last(m.projection);
    let a = front_of(m, from, first);
    let end = trailing(s);
    lemma_all_rows(c, 0, 0, 0, 0);
    let rows = shifted_rows(c.layout(), first, cut);
    assert(s.fragment_rows(from, to, c) == rows);
    let after = s.with_fragment_rows(from, to, c).items;
    assert(s.items.subrange(0, a.len() as int) =~= a);
    assert(s.items.subrange(m.layout().len() as int, s.items.len() as int) =~= end);
    let v = part_behind(m, from, to, c);
    lemma_trailing(s, v.delta, v.grown);
    assert(after == a + rows + end);
    lemma_two_parts(n, from, first, head);
    let x = front_of(n, from, first);
    let y = back_of(n, from, head, first);
    lemma_front_stays(m, from, to, c, n);
    lemma_own_rows(m, from, to, c, n, true);
    assert(n.bytes.len() == first + c.bytes.len());
    assert(n.display().len() == cut + size);
    lemma_alike_together(x, a, y, rows);
    lemma_alike_together(x + y, a + rows, end, end);
    lemma_alike_back(n.layout() + end, after);
}

/// The rows after a fragment was replaced are those of the document then.
pub(crate) proof fn lemma_rows_after<I>(
    s: StateView<I>,
    from: int,
    to: int,
    c: ModelView<I>,
    n: ModelView<I>,
)
    requires
        fragment_ready(s.model, from, to, c, n),
        s.items == s.next_items(),
        s.model.anchored.len() == 0,
        c.anchored.len() == 0,
        n.anchored.len() == 0,
        lines_begin_before(s.model, s.model.fragment_start(to)),
        to == s.model.regions.len() ==> s.model.regions.last().end() == s.model.bytes.len(),
    ensures
        rows_alike(s.with_fragment_rows(from, to, c).items, n.layout() + trailing(s)),
{
    if to < s.model.regions.len() {
        lemma_rows_between(s, from, to, c, n);
    } else {
        lemma_rows_at_end(s, from, c, n);
    }
}

} // verus!
