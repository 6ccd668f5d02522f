//! The rows of a document follow the fragments that the host replaces.

use crate::document::event::SnapshotView;
use crate::document::fragment_parts::{fragment_ready, is_fragment, lemma_fragment_facts};
use crate::document::fragment_rows::{lemma_rows_after, trailing};
use crate::document::host_laws::{lemma_ready, lemma_recaptured_text, lemma_viewport_wf};
use crate::document::layout::LayoutView;
use crate::document::mapping::{lemma_outside_shown, lemma_rendered_len};
use crate::document::model_view::ModelView;
use crate::document::order_laws::{law_rows_are_whole_lines_in_order, rows_in_order};
use crate::document::position::{Affinity, DocumentPosition, DocumentRevision};
use crate::document::row_laws::{
    is_shown, law_rows_depend_on_what_is_shown, law_rows_show_the_display, lays_out_alike,
    row_is_line, row_shows_offset, rows_show,
};
use crate::document::row_moves::{rows_alike, unstyled};
use crate::document::row_parts::{lemma_shown_last, lines_begin_before};
use crate::document::seam_lemmas::all_mapped;
use crate::document::splice::lemma_layout_edges;
use crate::document::splice_lemmas::{lemma_fragment_ends, lemma_fragment_model, splice_ready};
use crate::document::splice_view::{begins_line, ends_in_line_feed};
use crate::document::state_view::StateView;
use crate::document::style_parts::{styles_spare, styles_within};
use crate::document::validate::lemma_projection_fits;
use crate::text::starts_clean;
use vstd::prelude::*;

verus! {

/// The rows of some nodes stand apart from those around them, and so do those
/// of their replacement: every line belongs to one side of each seam, and so
/// does every style of the display. At the end of the document the last node
/// reaches the end of the source, before the replacement and after it.
pub open spec fn rows_stand_apart<I>(
    m: ModelView<I>,
    from: int,
    to: int,
    c: ModelView<I>,
) -> bool {
    let first = m.fragment_start(from);
    let last = m.fragment_start(to);
    &&& from < m.regions.len()
    &&& m.anchored.len() == 0
    &&& c.anchored.len() == 0
    &&& all_mapped(m.projection)
    &&& all_mapped(c.projection)
    &&& lines_begin_before(m, first)
    &&& lines_begin_before(m, last)
    &&& to < m.regions.len() ==> lines_begin_before(c, c.bytes.len() as int)
    &&& to < m.regions.len() && last == m.bytes.len() ==> begins_line(
        m.display(),
        m.display().len() as int,
    ) && (c.display().len() == 0 || ends_in_line_feed(c.display()))
    &&& to == m.regions.len() ==> c.regions.len() > 0 && m.regions.last().end() == m.bytes.len()
    &&& c.bytes.len() > 0 ==> c.regions.len() > 0 && c.regions[0].start() == 0
    &&& styles_spare(m.resolved, m.projection.shown_at(first))
    &&& styles_spare(m.resolved, m.projection.shown_at(last))
    &&& styles_within(m.resolved, m.display().len() as int)
    &&& styles_within(c.resolved, c.display().len() as int)
}

/// Each row of text has the text between its display offsets, and each row of
/// a block is where the block is.
pub open spec fn rows_are_where_they_say<I>(m: ModelView<I>, rows: Seq<LayoutView<I>>) -> bool {
    forall|i: int|
        0 <= i < rows.len() ==> match #[trigger] rows[i] {
            LayoutView::Text { display, source, text, .. } => {
                &&& display.start <= display.end <= m.display().len()
                &&& text == m.display().subrange(display.start as int, display.end as int)
                &&& source.start <= source.end <= m.bytes.len()
            },
            LayoutView::Block { id, source } => exists|r: int|
                0 <= r < m.regions.len() && (#[trigger] m.regions[r]).spec_id() == id
                    && m.regions[r].start() == source.start && m.regions[r].end() == source.end,
            _ => true,
        }
}

/// The rows of documents that are shown alike stand apart alike.
proof fn lemma_kept_apart<I>(
    m: ModelView<I>,
    k: ModelView<I>,
    from: int,
    to: int,
    c: ModelView<I>,
)
    requires
        lays_out_alike(m, k),
        rows_stand_apart(m, from, to, c),
    ensures
        rows_stand_apart(k, from, to, c),
{
    assert(m.display() == k.display());
    assert(lines_begin_before(k, k.fragment_start(from)) && lines_begin_before(
        k,
        k.fragment_start(to),
    )) by {
        reveal(lines_begin_before);
    }
}

/// A replacement of nodes whose rows stand apart.
proof fn lemma_fragment_ready<I>(
    s: StateView<I>,
    revision: DocumentRevision,
    first: Option<I>,
    end: Option<I>,
    snapshot: SnapshotView<I>,
    k: ModelView<I>,
)
    requires
        s.wf(),
        starts_clean(snapshot.text),
        snapshot.projection.valid(),
        s.model.bytes.len() + snapshot.text.len() <= isize::MAX,
        s.splice_fault(revision, first, end, snapshot) is None,
        k.wf(),
        lays_out_alike(s.model, k),
        ({
            let c = StateView::snapshot_model(snapshot);
            &&& rows_stand_apart(
                s.model,
                s.model.fragment_edge(first)->0,
                s.model.fragment_edge(end)->0,
                c,
            )
            &&& s.model.display().len() + c.display().len() <= usize::MAX
        }),
    ensures
        ({
            let from = s.model.fragment_edge(first)->0;
            let to = s.model.fragment_edge(end)->0;
            let c = StateView::snapshot_model(snapshot);
            fragment_ready(k, from, to, c, k.fragment_model(from, to, c))
        }),
{
    let m = s.model;
    let from = m.fragment_edge(first)->0;
    let to = m.fragment_edge(end)->0;
    let c = StateView::snapshot_model(snapshot);
    lemma_ready(s, revision, first, end, snapshot);
    assert(0 <= from <= to <= m.regions.len() && m.projection.outside(m.fragment_start(from))
        && m.projection.outside(m.fragment_start(to))) by {
        reveal(splice_ready);
    }
    lemma_fragment_ends(m, from, to);
    lemma_projection_fits(m.projection, m.regions, m.bytes);
    lemma_outside_shown(m.projection, m.fragment_start(from), Affinity::Before);
    lemma_outside_shown(m.projection, m.fragment_start(to), Affinity::Before);
    lemma_kept_apart(m, k, from, to, c);
    assert(splice_ready(k, from, to, c)) by {
        reveal(splice_ready);
    }
    assert(is_fragment(k, from, to, c, k.fragment_model(from, to, c))) by {
        reveal(is_fragment);
    }
    if to < m.regions.len() && m.fragment_start(to) == m.bytes.len() {
        lemma_shown_last(m.projection);
        lemma_rendered_len(m.bytes, m.projection);
    }
}

/// Rows like the lines of a document are where they say they are.
proof fn lemma_alike_where_they_say<I>(
    m: ModelView<I>,
    rows: Seq<LayoutView<I>>,
    lines: Seq<LayoutView<I>>,
)
    requires
        rows_alike(rows, lines),
        forall|i: int| 0 <= i < lines.len() ==> row_is_line(m, #[trigger] lines[i]),
    ensures
        rows_are_where_they_say(m, rows),
{
    assert forall|i: int| 0 <= i < rows.len() implies match #[trigger] rows[i] {
        LayoutView::Text { display, source, text, .. } => {
            &&& display.start <= display.end <= m.display().len()
            &&& text == m.display().subrange(display.start as int, display.end as int)
            &&& source.start <= source.end <= m.bytes.len()
        },
        LayoutView::Block { id, source } => exists|r: int|
            0 <= r < m.regions.len() && (#[trigger] m.regions[r]).spec_id() == id
                && m.regions[r].start() == source.start && m.regions[r].end() == source.end,
        _ => true,
    } by {
        assert(unstyled(rows[i]) == unstyled(lines[i]));
        assert(row_is_line(m, lines[i]));
    }
}

/// Rows like the lines of a document stand in their order, and show what they
/// show.
proof fn lemma_alike_in_order<I>(
    m: ModelView<I>,
    rows: Seq<LayoutView<I>>,
    layout: Seq<LayoutView<I>>,
    lines: Seq<LayoutView<I>>,
)
    requires
        rows_alike(rows, lines),
        lines == layout || lines == layout.push(LayoutView::Trailer),
        rows_in_order(layout),
        rows_show(m, layout, 0, m.display().len() as int),
    ensures
        rows_in_order(rows),
        rows_show(m, rows, 0, m.display().len() as int),
{
    assert forall|i: int| 0 <= i < rows.len() && rows[i] is Text implies i < layout.len()
        && unstyled(#[trigger] rows[i]) == unstyled(layout[i]) by {
        assert(unstyled(rows[i]) == unstyled(lines[i]));
    }
    assert forall|i: int, j: int|
        #![trigger rows[i], rows[j]]
        0 <= i < j < rows.len() implies (rows[i] matches LayoutView::Text { display: a, .. } && (
    rows[j] matches LayoutView::Text { display: b, .. } ==> a.end <= b.start) || !(
    rows[i] is Text)) by {
        if rows[i] is Text && rows[j] is Text {
            assert(unstyled(rows[i]) == unstyled(layout[i]));
            assert(unstyled(rows[j]) == unstyled(layout[j]));
        }
    }
    assert forall|d: int|
        0 <= d < m.display().len() && m.display()[d] != 0x0a implies #[trigger] is_shown(
        rows,
        d,
    ) by {
        assert(is_shown(layout, d));
        let i = choose|i: int| 0 <= i < layout.len() && row_shows_offset(#[trigger] layout[i], d);
        assert(lines[i] == layout[i]);
        assert(unstyled(rows[i]) == unstyled(lines[i]));
        assert(row_shows_offset(rows[i], d));
    }
}

/// After the host has replaced nodes of a document whose rows were those of
/// its layout, the rows are again those of its layout: each row of text has
/// the text between its display offsets, and the rows show all of the display
/// in its order. Only a row without text at a seam may keep a text style that
/// its layout would not give it.
pub proof fn law_rows_follow_splices<I>(
    s: StateView<I>,
    revision: DocumentRevision,
    first: Option<I>,
    end: Option<I>,
    snapshot: SnapshotView<I>,
    top: Option<DocumentPosition<I>>,
)
    requires
        s.wf(),
        s.model.has_room(5),
        starts_clean(snapshot.text),
        snapshot.projection.valid(),
        s.model.bytes.len() + snapshot.text.len() <= isize::MAX,
        s.splice_fault(revision, first, end, snapshot) is None,
        s.items == s.next_items(),
        ({
            let c = StateView::snapshot_model(snapshot);
            &&& rows_stand_apart(
                s.model,
                s.model.fragment_edge(first)->0,
                s.model.fragment_edge(end)->0,
                c,
            )
            &&& s.model.display().len() + c.display().len() <= usize::MAX
        }),
    ensures
        ({
            let after = s.spliced(first, end, snapshot, top);
            &&& rows_alike(after.items, after.next_items())
            &&& rows_are_where_they_say(after.model, after.items)
            &&& rows_in_order(after.items)
            &&& rows_show(after.model, after.items, 0, after.model.display().len() as int)
        }),
{
    let m = s.model;
    let from = m.fragment_edge(first)->0;
    let to = m.fragment_edge(end)->0;
    let c = StateView::snapshot_model(snapshot);
    let kept = s.keeping_viewport(top);
    let k = kept.model;
    lemma_viewport_wf(s, top);
    assert(lays_out_alike(m, k));
    law_rows_depend_on_what_is_shown(m, k);
    lemma_fragment_ready(s, revision, first, end, snapshot, k);
    lemma_kept_apart(m, k, from, to, c);
    let n = k.fragment_model(from, to, c);
    assert(n.anchored =~= Seq::empty());
    lemma_rows_after(kept, from, to, c, n);
    let after = s.spliced(first, end, snapshot, top);
    lemma_recaptured_text(n, m.captured(m.selection), m.captured_marked());
    assert(lays_out_alike(n, after.model));
    law_rows_depend_on_what_is_shown(n, after.model);
    assert(after.next_items() =~= n.layout() + trailing(kept));
    assert(after.items == kept.with_fragment_rows(from, to, c).items);
    lemma_fragment_model(k, from, to, c);
    lemma_fragment_facts(k, from, to, c, n);
    law_rows_show_the_display(n);
    law_rows_are_whole_lines_in_order(n);
    let lines = after.next_items();
    assert forall|i: int| 0 <= i < lines.len() implies row_is_line(n, #[trigger] lines[i]) by {
        if i < n.layout().len() {
            assert(lines[i] == n.layout()[i]);
        }
    }
    lemma_alike_where_they_say(n, after.items, lines);
    lemma_alike_in_order(n, after.items, n.layout(), lines);
}

// ---------------------------------------------------------------------------
// Without paragraph styles
// ---------------------------------------------------------------------------

/// No row has a text style.
spec fn all_plain<I>(rows: Seq<LayoutView<I>>) -> bool {
    forall|i: int|
        0 <= i < rows.len() ==> (#[trigger] rows[i] matches LayoutView::Text {
            presentation,
            ..
        } ==> presentation.text_style is None)
}

/// Without paragraph styles no row has a text style.
proof fn lemma_plain_layout<I>(m: ModelView<I>)
    requires
        m.wf(),
        m.display().len() <= usize::MAX,
        m.resolved.paragraphs.len() == 0,
    ensures
        all_plain(m.layout()),
{
    law_rows_show_the_display(m);
    let rows = m.layout();
    assert forall|i: int| 0 <= i < rows.len() implies (#[trigger] rows[i] matches LayoutView::Text {
        presentation,
        ..
    } ==> presentation.text_style is None) by {
        assert(row_is_line(m, rows[i]));
    }
}

/// Rows without text styles that are alike are the same.
proof fn lemma_plain_alike<I>(a: Seq<LayoutView<I>>, b: Seq<LayoutView<I>>)
    requires
        rows_alike(a, b),
        all_plain(a),
        all_plain(b),
    ensures
        a == b,
{
    assert forall|i: int| 0 <= i < a.len() implies a[i] == b[i] by {
        assert(unstyled(a[i]) == unstyled(b[i]));
        assert(unstyled(a[i]) == a[i]);
        assert(unstyled(b[i]) == b[i]);
    }
    assert(a =~= b);
}

/// Where neither document has paragraph styles, the rows after the host has
/// replaced nodes are exactly those of the layout.
pub proof fn law_plain_rows_are_the_layout_after_splices<I>(
    s: StateView<I>,
    revision: DocumentRevision,
    first: Option<I>,
    end: Option<I>,
    snapshot: SnapshotView<I>,
    top: Option<DocumentPosition<I>>,
)
    requires
        s.wf(),
        s.model.has_room(5),
        starts_clean(snapshot.text),
        snapshot.projection.valid(),
        s.model.bytes.len() + snapshot.text.len() <= isize::MAX,
        s.splice_fault(revision, first, end, snapshot) is None,
        s.items == s.next_items(),
        ({
            let c = StateView::snapshot_model(snapshot);
            &&& rows_stand_apart(
                s.model,
                s.model.fragment_edge(first)->0,
                s.model.fragment_edge(end)->0,
                c,
            )
            &&& s.model.display().len() + c.display().len() <= usize::MAX
            &&& s.model.resolved.paragraphs.len() == 0
            &&& c.resolved.paragraphs.len() == 0
        }),
    ensures
        s.spliced(first, end, snapshot, top).items == s.spliced(
            first,
            end,
            snapshot,
            top,
        ).next_items(),
{
    law_rows_follow_splices(s, revision, first, end, snapshot, top);
    let m = s.model;
    let from = m.fragment_edge(first)->0;
    let to = m.fragment_edge(end)->0;
    let c = StateView::snapshot_model(snapshot);
    let kept = s.keeping_viewport(top);
    let k = kept.model;
    lemma_viewport_wf(s, top);
    assert(lays_out_alike(m, k));
    lemma_fragment_ready(s, revision, first, end, snapshot, k);
    let n = k.fragment_model(from, to, c);
    lemma_fragment_facts(k, from, to, c, n);
    let after = s.spliced(first, end, snapshot, top);
    lemma_recaptured_text(n, m.captured(m.selection), m.captured_marked());
    assert(lays_out_alike(n, after.model));
    law_rows_depend_on_what_is_shown(n, after.model);
    assert(n.resolved.paragraphs.len() == 0);
    lemma_plain_layout(m);
    lemma_plain_layout(c);
    lemma_plain_layout(n);
    let next = after.next_items();
    assert(all_plain(next)) by {
        assert forall|i: int| 0 <= i < next.len() implies (
        #[trigger] next[i] matches LayoutView::Text { presentation, .. }
            ==> presentation.text_style is None) by {
            if i < n.layout().len() {
                assert(next[i] == n.layout()[i]);
            }
        }
    }
    assert(all_plain(s.items)) by {
        assert forall|i: int| 0 <= i < s.items.len() implies (
        #[trigger] s.items[i] matches LayoutView::Text { presentation, .. }
            ==> presentation.text_style is None) by {
            if i < m.layout().len() {
                assert(s.items[i] == m.layout()[i]);
            }
        }
    }
    lemma_layout_edges(kept, from, to);
    lemma_plain_splice(kept, from, to, c);
    lemma_plain_alike(after.items, next);
}

/// Replacing rows without text styles by others gives none.
proof fn lemma_plain_splice<I>(s: StateView<I>, from: int, to: int, c: ModelView<I>)
    requires
        all_plain(s.items),
        all_plain(c.layout()),
        0 <= s.layout_edge(from) <= s.layout_edge(to) <= s.items.len(),
    ensures
        all_plain(s.with_fragment_rows(from, to, c).items),
{
    let start = s.layout_edge(from);
    let end = s.layout_edge(to);
    let rows = s.fragment_rows(from, to, c);
    let after = s.with_fragment_rows(from, to, c).items;
    let front = s.items.subrange(0, start);
    let rest = s.items.subrange(end, s.items.len() as int);
    let layout = c.layout();
    assert forall|i: int| 0 <= i < rows.len() implies (#[trigger] rows[i] matches LayoutView::Text {
        presentation,
        ..
    } ==> presentation.text_style is None) by {
        assert(layout[i] is Text == rows[i] is Text);
    }
    assert forall|i: int| 0 <= i < after.len() implies (
    #[trigger] after[i] matches LayoutView::Text { presentation, .. }
        ==> presentation.text_style is None) by {
        if i < start {
            assert(after[i] == s.items[i]);
        } else if i < start + rows.len() {
            assert(after[i] == rows[i - start]);
        } else {
            let j = i - start - rows.len();
            assert(rest[j] == s.items[end + j]);
            assert(s.items[end + j] is Text == after[i] is Text);
        }
    }
}

} // verus!
