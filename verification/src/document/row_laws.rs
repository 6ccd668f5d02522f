//! The rows of a document show all of its display, line by line.

use crate::document::block::{hides_block, law_blocks_are_hidden_atomic_regions};
use crate::document::layout::{
    lemma_row_edges, lemma_shown_first, line_end, row_behind, row_index, LayoutView,
};
use crate::document::mapping::lemma_rendered_len;
use crate::document::model_view::{owner_of, region_at, row_in, ModelView};
use crate::document::position::{Affinity, DocumentPosition};
use crate::document::presentation_laws::{law_rows_show_the_styles_over_them, row_is_styled};
use crate::document::projection::lemma_span_behind_is;
use crate::document::region::EditPolicy;
use crate::document::state_host::HostView;
use crate::document::state_view::StateView;
use crate::document::transaction::{EditDecision, EditTransaction};
use crate::document::undo::RecordView;
use crate::scan::{lemma_first_where, lemma_last_where};
use crate::text::at_boundary;
use vstd::prelude::*;

verus! {

/// A node holds an offset of the source, or touches it.
pub open spec fn node_holds<I>(m: ModelView<I>, id: I, offset: int) -> bool {
    exists|r: int|
        0 <= r < m.regions.len() && (#[trigger] m.regions[r]).spec_id() == id
            && m.regions[r].start() <= offset <= m.regions[r].end()
}

/// A row is a line of the display, with its text and its styles, a part of the
/// source and the node that this part starts in, or a block of a node or an
/// anchored block.
pub open(crate) spec fn row_is_line<I>(m: ModelView<I>, item: LayoutView<I>) -> bool {
    match item {
        LayoutView::Text { display, source, text, node_id, presentation } => {
            &&& row_is_styled(m, (display.start as int, display.end as int), presentation)
            &&& node_id matches Some(id) ==> node_holds(m, id, source.start as int)
            &&& node_id is None && at_boundary(m.bytes, source.start as int) ==> forall|r: int|
                0 <= r < m.regions.len() ==> !((#[trigger] m.regions[r]).start() <= source.start
                    <= m.regions[r].end())
            &&& display.start <= display.end <= m.display().len()
            &&& text == m.display().subrange(display.start as int, display.end as int)
            &&& forall|d: int| display.start <= d < display.end ==> #[trigger] m.display()[d] != 0x0a
            &&& source.start <= source.end <= m.bytes.len()
        },
        LayoutView::Block { id, source } => {
            &&& source.start <= source.end <= m.bytes.len()
            &&& exists|r: int|
                0 <= r < m.regions.len() && (#[trigger] m.regions[r]).spec_id() == id
                    && m.regions[r].start() == source.start && m.regions[r].end() == source.end
            &&& exists|b: int|
                0 <= b < m.blocks.len() && (#[trigger] m.blocks[b]).spec_id() == id
        },
        _ => true,
    }
}

/// Rows are lines of the display.
pub open(crate) spec fn rows_are_lines<I>(m: ModelView<I>, rows: Seq<LayoutView<I>>) -> bool {
    forall|i: int| 0 <= i < rows.len() ==> row_is_line(m, #[trigger] rows[i])
}

/// A row shows an offset of the display.
pub open spec fn row_shows_offset<I>(item: LayoutView<I>, d: int) -> bool {
    item matches LayoutView::Text { display, .. } && display.start <= d < display.end
}

/// Some row shows an offset of the display.
pub open spec fn is_shown<I>(rows: Seq<LayoutView<I>>, d: int) -> bool {
    exists|i: int| 0 <= i < rows.len() && row_shows_offset(#[trigger] rows[i], d)
}

/// Rows show everything of the display behind an offset but the line feeds.
pub open spec fn rows_show<I>(m: ModelView<I>, rows: Seq<LayoutView<I>>, from: int, to: int) -> bool {
    forall|d: int|
        from <= d < to && m.display()[d] != 0x0a ==> #[trigger] is_shown(rows, d)
}

proof fn lemma_line_found(bytes: Seq<u8>, from: int, to: int)
    requires
        from <= to,
    ensures
        from <= line_end(bytes, from, to) <= to,
        forall|i: int| from <= i < line_end(bytes, from, to) ==> #[trigger] bytes[i] != 0x0a,
        line_end(bytes, from, to) < to ==> bytes[line_end(bytes, from, to)] == 0x0a,
    decreases to - from,
{
    if from < to && bytes[from] != 0x0a {
        lemma_line_found(bytes, from + 1, to);
    }
}

/// What either part shows, both together show.
proof fn lemma_shown_together<I>(a: Seq<LayoutView<I>>, b: Seq<LayoutView<I>>, d: int)
    ensures
        is_shown(a, d) || is_shown(b, d) ==> is_shown(a + b, d),
{
    let both = a + b;
    if is_shown(a, d) {
        let i = choose|i: int| 0 <= i < a.len() && row_shows_offset(#[trigger] a[i], d);
        assert(row_shows_offset(both[i], d));
    }
    if is_shown(b, d) {
        let i = choose|i: int| 0 <= i < b.len() && row_shows_offset(#[trigger] b[i], d);
        assert(both[a.len() + i] == b[i]);
        assert(row_shows_offset(both[a.len() + i], d));
    }
}

proof fn lemma_lines_together<I>(m: ModelView<I>, a: Seq<LayoutView<I>>, b: Seq<LayoutView<I>>)
    requires
        rows_are_lines(m, a),
        rows_are_lines(m, b),
    ensures
        rows_are_lines(m, a + b),
{
    let both = a + b;
    assert forall|i: int| 0 <= i < both.len() implies row_is_line(m, #[trigger] both[i]) by {
        if i < a.len() {
            assert(both[i] == a[i]);
        } else {
            assert(both[i] == b[i - a.len()]);
        }
    }
}

/// One row of text is a line.
proof fn lemma_text_row<I>(m: ModelView<I>, display: (int, int), segment: (int, int))
    requires
        m.display().len() <= usize::MAX,
        m.bytes.len() <= usize::MAX,
        0 <= display.0 <= display.1 <= m.display().len(),
        0 <= segment.0 <= segment.1 <= m.bytes.len(),
        forall|d: int| display.0 <= d < display.1 ==> #[trigger] m.display()[d] != 0x0a,
    ensures
        row_is_line(m, m.text_item(display, segment)),
{
    let source = m.row_source(display, segment);
    law_rows_show_the_styles_over_them(m, display);
    let at = owner_of(m.regions, source.0, Affinity::After);
    let test = region_at::<I>(source.0);
    lemma_last_where(m.regions, test, m.regions.len() as int);
    if 0 <= at < m.regions.len() {
        assert(test(m.regions[at]));
        assert(m.regions[at].start() <= source.0 <= m.regions[at].end());
    } else {
        assert forall|r: int| 0 <= r < m.regions.len() implies !((
        #[trigger] m.regions[r]).start() <= source.0 <= m.regions[r].end()) by {
            assert(!test(m.regions[r]));
        }
    }
}

/// The rows of a part of the display are its lines.
proof fn lemma_text_rows<I>(m: ModelView<I>, display: (int, int), segment: (int, int), tail: bool)
    requires
        m.display().len() <= usize::MAX,
        m.bytes.len() <= usize::MAX,
        0 <= display.0,
        display.1 <= m.display().len(),
        0 <= segment.0 <= segment.1 <= m.bytes.len(),
    ensures
        rows_are_lines(m, m.text_items(display, segment, tail)),
        rows_show(m, m.text_items(display, segment, tail), display.0, display.1),
    decreases display.1 - display.0,
{
    let rows = m.text_items(display, segment, tail);
    if display.0 <= display.1 {
        lemma_line_found(m.display(), display.0, display.1);
        let end = line_end(m.display(), display.0, display.1);
        if end < display.1 {
            let first = seq![m.text_item((display.0, end), segment)];
            let rest = m.text_items((end + 1, display.1), segment, tail);
            lemma_text_rows(m, (end + 1, display.1), segment, tail);
            lemma_text_row(m, (display.0, end), segment);
            lemma_lines_together(m, first, rest);
            assert forall|d: int|
                display.0 <= d < display.1 && m.display()[d] != 0x0a implies #[trigger] is_shown(
                rows,
                d,
            ) by {
                if d < end {
                    assert(row_shows_offset(first[0], d));
                }
                lemma_shown_together(first, rest, d);
            }
        } else {
            lemma_text_row(m, display, segment);
            assert forall|d: int|
                display.0 <= d < display.1 && m.display()[d] != 0x0a implies #[trigger] is_shown(
                rows,
                d,
            ) by {
                assert(row_shows_offset(rows[0], d));
            }
        }
    }
}

/// A block and an empty region take no place in the display.
pub(crate) proof fn lemma_no_place<I>(m: ModelView<I>, region: int, block: int)
    requires
        m.wf(),
        0 <= region < m.regions.len(),
        0 <= block,
        m.region_is_block(region, block) || m.region_is_gap(region),
    ensures
        m.projection.shown_at(m.regions[region].start()) == m.projection.shown_at(
            m.regions[region].end(),
        ),
{
    let r = m.regions[region];
    let p = m.projection;
    if m.region_is_block(region, block) {
        law_blocks_are_hidden_atomic_regions(
            m.blocks,
            m.regions,
            p,
            m.bytes.len() as usize,
            block,
        );
        let b = m.blocks[block];
        let s = choose|s: int|
            0 <= s < m.regions.len() && (#[trigger] m.regions[s]).start() == b.start()
                && m.regions[s].end() == b.end() && m.regions[s].spec_policy()
                == EditPolicy::Atomic && m.regions[s].spec_id() == b.spec_id();
        assert(m.regions[s].spec_id() == b.spec_id());
        assert(s == region);
        let k = choose|k: int|
            0 <= k < p.spans.len() && hides_block(#[trigger] p.spans[k], b);
        assert(hides_block(p.spans[k], b));
        assert forall|i: int| 0 <= i < k implies (#[trigger] p.spans[i]).end <= r.start() by {
            assert(p.spans[i].end <= p.spans[k].start);
        }
        lemma_span_behind_is(p, r.start(), k);
        assert forall|i: int| 0 <= i < k + 1 implies (#[trigger] p.spans[i]).end <= r.end() by {
            if i < k {
                assert(p.spans[i].end <= p.spans[k].start);
            }
        }
        if k + 1 < p.spans.len() {
            assert(p.spans[k].end <= p.spans[k + 1].start);
        }
        lemma_span_behind_is(p, r.end(), k + 1);
    } else {
        assert(r.start() <= r.end());
    }
}

/// The rows from a region on are lines, and show the rest of the display.
proof fn lemma_rows_from<I>(m: ModelView<I>, region: int, block: int, display: int, source: int)
    requires
        m.wf(),
        m.display().len() <= usize::MAX,
        0 <= region <= m.regions.len(),
        0 <= block,
        0 <= source <= m.bytes.len(),
        m.projection.outside(source),
        display == m.projection.shown_at(source),
        0 <= display,
        region < m.regions.len() ==> source <= m.regions[region].start(),
    ensures
        rows_are_lines(m, m.rows_from(region, block, display, source)),
        rows_show(
            m,
            m.rows_from(region, block, display, source),
            display,
            m.display().len() as int,
        ),
    decreases m.regions.len() - region,
{
    let whole = m.display().len() as int;
    let rows = m.rows_from(region, block, display, source);
    if region >= m.regions.len() {
        lemma_text_rows(m, (display, whole), (source, m.bytes.len() as int), true);
    } else {
        let r = m.regions[region];
        assert(r.start() <= r.end() <= m.bytes.len());
        if region + 1 < m.regions.len() {
            assert(r.end() <= m.regions[region + 1].start());
        }
        if !m.region_is_block(region, block) && !m.region_is_gap(region) {
            lemma_rows_from(m, region + 1, block, display, source);
        } else {
            let here = m.region_is_block(region, block);
            let next = if here {
                block + 1
            } else {
                block
            };
            lemma_row_edges(m, region, block, source);
            lemma_no_place(m, region, block);
            let start = m.shown(r.start(), Affinity::Before);
            let after = m.shown(r.end(), Affinity::After);
            let text = m.text_items((display, start), (source, r.start()), false);
            let first = m.region_rows(region, here, display, source);
            let rest = m.rows_from(region + 1, next, after, r.end());
            lemma_text_rows(m, (display, start), (source, r.start()), false);
            lemma_rows_from(m, region + 1, next, after, r.end());
            let own = first.last();
            assert(first =~= text + seq![own]);
            assert(row_is_line(m, own)) by {
                if !here {
                    assert(m.display().subrange(start, start).len() == 0);
                    law_rows_show_the_styles_over_them(m, (start, start));
                    assert(node_holds(m, r.spec_id(), r.start()));
                } else {
                    assert(m.blocks[block].spec_id() == r.spec_id());
                }
            }
            lemma_lines_together(m, text, seq![own]);
            lemma_lines_together(m, first, rest);
            assert forall|d: int| display <= d < whole && m.display()[d] != 0x0a implies
                #[trigger] is_shown(rows, d) by {
                if d < start {
                    assert(is_shown(text, d));
                    lemma_shown_together(text, seq![own], d);
                } else {
                    assert(is_shown(rest, d));
                }
                lemma_shown_together(first, rest, d);
            }
        }
    }
}

/// Anchored blocks leave the other rows as they are.
proof fn lemma_with_anchored<I>(m: ModelView<I>, rows: Seq<LayoutView<I>>, count: int)
    requires
        rows_are_lines(m, rows),
    ensures
        rows_are_lines(m, m.with_anchored(rows, count)),
        forall|d: int| is_shown(rows, d) ==> #[trigger] is_shown(m.with_anchored(rows, count), d),
    decreases count,
{
    if count > 0 {
        lemma_with_anchored(m, rows, count - 1);
        let before = m.with_anchored(rows, count - 1);
        let after = m.with_anchored(rows, count);
        if let Ok((source, display)) = row_in(
            m.bytes,
            m.regions,
            m.projection,
            m.anchored[count - 1],
        ) {
            lemma_first_where(before, row_behind(source, display), 0);
            let at = row_index(before, source, display);
            assert forall|i: int| 0 <= i < after.len() implies row_is_line(m, #[trigger] after[i]) by {
                if i < at {
                    assert(after[i] == before[i]);
                } else if i > at {
                    assert(after[i] == before[i - 1]);
                }
            }
            assert forall|d: int| is_shown(rows, d) implies #[trigger] is_shown(after, d) by {
                assert(is_shown(before, d));
                let i = choose|i: int|
                    0 <= i < before.len() && row_shows_offset(#[trigger] before[i], d);
                if i < at {
                    assert(after[i] == before[i]);
                    assert(row_shows_offset(after[i], d));
                } else {
                    assert(after[i + 1] == before[i]);
                    assert(row_shows_offset(after[i + 1], d));
                }
            }
        }
    }
}

/// The rows of a document are the lines of its display: each text row has the
/// text between its display offsets, without a line feed, and a part of the
/// source. Every character of the display but the line feeds is in some row.
pub proof fn law_rows_show_the_display<I>(m: ModelView<I>)
    requires
        m.wf(),
        m.display().len() <= usize::MAX,
    ensures
        rows_are_lines(m, m.layout()),
        rows_show(m, m.layout(), 0, m.display().len() as int),
{
    lemma_shown_first(m.projection);
    lemma_rendered_len(m.bytes, m.projection);
    lemma_rows_from(m, 0, 0, 0, 0);
    let rows = m.rows_from(0, 0, 0, 0);
    lemma_with_anchored(m, rows, m.anchored.len() as int);
    assert forall|d: int|
        0 <= d < m.display().len() && m.display()[d] != 0x0a implies #[trigger] is_shown(
        m.layout(),
        d,
    ) by {
        assert(is_shown(rows, d));
    }
}

// ---------------------------------------------------------------------------
// Rows after changes
// ---------------------------------------------------------------------------

/// Two documents that differ at most in their anchors, their selection and
/// their revision.
pub open spec fn lays_out_alike<I>(a: ModelView<I>, b: ModelView<I>) -> bool {
    &&& a.bytes == b.bytes
    &&& a.regions == b.regions
    &&& a.projection == b.projection
    &&& a.blocks == b.blocks
    &&& a.anchored == b.anchored
    &&& a.resolved == b.resolved
}

proof fn lemma_text_alike<I>(
    a: ModelView<I>,
    b: ModelView<I>,
    display: (int, int),
    segment: (int, int),
    tail: bool,
)
    requires
        lays_out_alike(a, b),
    ensures
        a.text_items(display, segment, tail) == b.text_items(display, segment, tail),
    decreases display.1 - display.0,
{
    let end = line_end(a.display(), display.0, display.1);
    if display.0 <= end < display.1 {
        lemma_text_alike(a, b, (end + 1, display.1), segment, tail);
        assert(a.text_item((display.0, end), segment) == b.text_item((display.0, end), segment));
    } else {
        assert(a.text_item(display, segment) == b.text_item(display, segment));
    }
}

proof fn lemma_rows_alike<I>(
    a: ModelView<I>,
    b: ModelView<I>,
    region: int,
    block: int,
    display: int,
    source: int,
)
    requires
        lays_out_alike(a, b),
    ensures
        a.rows_from(region, block, display, source) == b.rows_from(region, block, display, source),
    decreases a.regions.len() - region,
{
    if region >= a.regions.len() {
        lemma_text_alike(
            a,
            b,
            (display, a.display().len() as int),
            (source, a.bytes.len() as int),
            true,
        );
    } else if !a.region_is_block(region, block) && !a.region_is_gap(region) {
        lemma_rows_alike(a, b, region + 1, block, display, source);
    } else {
        let r = a.regions[region];
        let here = a.region_is_block(region, block);
        let start = a.shown(r.start(), Affinity::Before);
        lemma_text_alike(a, b, (display, start), (source, r.start()), false);
        assert(a.gap_item(region) == b.gap_item(region));
        lemma_rows_alike(
            a,
            b,
            region + 1,
            if here {
                block + 1
            } else {
                block
            },
            a.shown(r.end(), Affinity::After),
            r.end(),
        );
    }
}

proof fn lemma_anchored_alike<I>(
    a: ModelView<I>,
    b: ModelView<I>,
    rows: Seq<LayoutView<I>>,
    count: int,
)
    requires
        lays_out_alike(a, b),
    ensures
        a.with_anchored(rows, count) == b.with_anchored(rows, count),
    decreases count,
{
    if count > 0 {
        lemma_anchored_alike(a, b, rows, count - 1);
    }
}

/// Anchors, the selection and the revision do not change the rows.
pub proof fn law_rows_depend_on_what_is_shown<I>(a: ModelView<I>, b: ModelView<I>)
    requires
        lays_out_alike(a, b),
    ensures
        a.layout() == b.layout(),
{
    lemma_rows_alike(a, b, 0, 0, 0, 0);
    lemma_anchored_alike(a, b, a.rows_from(0, 0, 0, 0), a.anchored.len() as int);
}

/// After an edit the rows are those of the document as it is then.
pub proof fn law_rows_follow_edits<I>(
    s: StateView<I>,
    transaction: EditTransaction,
    composition: Option<(int, int)>,
    after: StateView<I>,
)
    requires
        s.committed(transaction, composition, after),
        s.decision(transaction) == EditDecision::<I>::Apply,
    ensures
        after.items == after.next_items(),
{
    law_rows_depend_on_what_is_shown(s.edited_text(transaction), after.model);
}

/// After a change of the host the rows are those of the document as it is then.
pub proof fn law_rows_follow_host_updates<I>(
    s: StateView<I>,
    update: HostView<I>,
    top: Option<DocumentPosition<I>>,
)
    ensures
        s.host_updated(update, top).items == s.host_updated(update, top).next_items(),
{
    law_rows_depend_on_what_is_shown(
        s.keeping_viewport(top).model.host_model(update),
        s.host_updated(update, top).model,
    );
}

/// After an undo or a redo the rows are those of the document as it is then.
pub proof fn law_rows_follow_undo<I>(s: StateView<I>, record: RecordView<I>, undo: bool)
    ensures
        s.replayed(record, undo).items == s.replayed(record, undo).next_items(),
{
    let text = s.replayed_text(record, undo)->0;
    let model = ModelView {
        revision: s.model.revision.spec_next(),
        ..text.reselected(record.selection(undo)).with_marked(None)
    };
    law_rows_depend_on_what_is_shown(model, s.replayed(record, undo).model);
}

} // verus!
