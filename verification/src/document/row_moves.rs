//! Rows of one document that are rows of another, at another place.

use crate::document::layout::{
    covered_part, lemma_row_edges, line_end, range_of, row_families, row_highlights, LayoutView,
    TextPresentationView,
};
use crate::document::mapping::{lemma_outside_shown, lemma_rendered_len, lemma_shown_order};
use crate::document::model_view::ModelView;
use crate::document::position::Affinity;
use crate::document::projection::ProjectionView;
use crate::document::resolve::ResolvedInlineStyle;
use crate::document::row_parts::lemma_row_start;
use crate::document::seam_lemmas::lemma_seam;
use crate::document::splice_view::shifted_rows;
use crate::document::style_parts::{same_presentation, style_over};
use vstd::prelude::*;

verus! {

/// A row without the text style that it would have if there were text in it.
pub open spec fn unstyled<I>(item: LayoutView<I>) -> LayoutView<I> {
    match item {
        LayoutView::Text { display, source, node_id, text, presentation } => LayoutView::Text {
            display,
            source,
            node_id,
            text,
            presentation: TextPresentationView {
                text_style: if display.start < display.end {
                    presentation.text_style
                } else {
                    None
                },
                ..presentation
            },
        },
        _ => item,
    }
}

/// Rows that are the same, but for the text style of rows without text.
pub open spec fn rows_alike<I>(a: Seq<LayoutView<I>>, b: Seq<LayoutView<I>>) -> bool {
    &&& a.len() == b.len()
    &&& forall|i: int| 0 <= i < a.len() ==> unstyled(#[trigger] a[i]) == unstyled(b[i])
}

pub(crate) proof fn lemma_alike_together<I>(
    a: Seq<LayoutView<I>>,
    b: Seq<LayoutView<I>>,
    x: Seq<LayoutView<I>>,
    y: Seq<LayoutView<I>>,
)
    requires
        rows_alike(a, b),
        rows_alike(x, y),
    ensures
        rows_alike(a + x, b + y),
{
    let p = a + x;
    let q = b + y;
    assert forall|i: int| 0 <= i < p.len() implies unstyled(#[trigger] p[i]) == unstyled(q[i]) by {
        if i < a.len() {
            assert(p[i] == a[i] && q[i] == b[i]);
        } else {
            assert(p[i] == x[i - a.len()] && q[i] == y[i - a.len()]);
        }
    }
}

pub(crate) proof fn lemma_shifted_together<I>(
    a: Seq<LayoutView<I>>,
    b: Seq<LayoutView<I>>,
    delta: int,
    grown: int,
)
    ensures
        shifted_rows(a + b, delta, grown) == shifted_rows(a, delta, grown) + shifted_rows(
            b,
            delta,
            grown,
        ),
{
    assert(shifted_rows(a + b, delta, grown) =~= shifted_rows(a, delta, grown) + shifted_rows(
        b,
        delta,
        grown,
    ));
}

/// The node that a row with some source belongs to.
pub open(crate) spec fn node_at<I>(m: ModelView<I>, offset: int) -> Option<I> {
    ModelView::node_of(m.position_for_offset(offset, Affinity::After))
}

/// A row of text that looks the same in two documents, but for its place.
pub(crate) proof fn lemma_item_moved<I>(
    a: ModelView<I>,
    b: ModelView<I>,
    display: (int, int),
    segment: (int, int),
    delta: int,
    grown: int,
)
    requires
        0 <= display.0 <= display.1 <= usize::MAX,
        0 <= display.0 + grown,
        display.1 + grown <= usize::MAX,
        0 <= segment.0 <= segment.1 <= usize::MAX,
        0 <= segment.0 + delta,
        segment.1 + delta <= usize::MAX,
        b.row_source(
            (display.0 + grown, display.1 + grown),
            (segment.0 + delta, segment.1 + delta),
        ) == (
            a.row_source(display, segment).0 + delta,
            a.row_source(display, segment).1 + delta,
        ),
        node_at(b, a.row_source(display, segment).0 + delta) == node_at(
            a,
            a.row_source(display, segment).0,
        ),
        b.display().subrange(display.0 + grown, display.1 + grown) == a.display().subrange(
            display.0,
            display.1,
        ),
        same_presentation(
            b.resolved,
            (display.0 + grown, display.1 + grown),
            a.resolved,
            display,
        ),
    ensures
        unstyled(
            b.text_item(
                (display.0 + grown, display.1 + grown),
                (segment.0 + delta, segment.1 + delta),
            ),
        ) == unstyled(a.text_item(display, segment).shifted(delta, grown)),
{
    let source = a.row_source(display, segment);
    assert(segment.0 <= source.0 <= source.1 <= segment.1);
    let there = (display.0 + grown, display.1 + grown);
    let x = b.row_presentation(there);
    let y = a.row_presentation(display);
    assert(x.text_style == style_over(b.resolved.paragraphs, there));
    assert(y.text_style == style_over(a.resolved.paragraphs, display));
    assert(x.highlights == y.highlights);
    assert(x.font_family_overrides == y.font_family_overrides);
}

// ---------------------------------------------------------------------------
// Text
// ---------------------------------------------------------------------------

/// A part of a document that is found in another, and where.
pub struct Move {
    /// The display of the part.
    pub shown: (int, int),
    /// The source of the part.
    pub source: (int, int),
    /// The nodes of the part.
    pub nodes: (int, int),
    /// The blocks of the part.
    pub blocks: (int, int),
    /// How far the source is moved.
    pub delta: int,
    /// How far the display is moved.
    pub grown: int,
    /// How far the nodes are moved.
    pub node_shift: int,
    /// How far the blocks are moved.
    pub block_shift: int,
    /// The part goes to the end of both documents.
    pub to_end: bool,
}

/// A line of text of a part.
pub open(crate) spec fn line_of<I>(
    a: ModelView<I>,
    v: Move,
    display: (int, int),
    segment: (int, int),
) -> bool {
    &&& v.shown.0 <= display.0 <= display.1 <= v.shown.1
    &&& v.source.0 <= segment.0 <= segment.1 <= v.source.1
    &&& a.projection.outside(segment.0)
    &&& a.projection.shown_at(segment.0) <= display.0
    &&& display.0 == a.projection.shown_at(segment.0) || (display.0 > 0 && a.display()[display.0
        - 1] == 0x0a)
    &&& forall|i: int| display.0 <= i < display.1 ==> #[trigger] a.display()[i] != 0x0a
    &&& display.0 == display.1 && display.1 == v.shown.1 ==> v.to_end
}

/// The lines of a part are lines of the other document.
#[verifier::opaque]
pub open(crate) spec fn lines_moved<I>(a: ModelView<I>, b: ModelView<I>, v: Move) -> bool {
    forall|display: (int, int), segment: (int, int)|
        line_of(a, v, display, segment) ==> unstyled(
            (#[trigger] a.text_item(display, segment)).shifted(v.delta, v.grown),
        ) == unstyled(
            b.text_item(
                (display.0 + v.grown, display.1 + v.grown),
                (segment.0 + v.delta, segment.1 + v.delta),
            ),
        )
}

/// The display of a part is found in the other document.
#[verifier::opaque]
pub open(crate) spec fn bytes_moved<I>(a: ModelView<I>, b: ModelView<I>, v: Move) -> bool {
    &&& 0 <= v.shown.0 <= v.shown.1 <= a.display().len()
    &&& 0 <= v.shown.0 + v.grown
    &&& v.shown.1 + v.grown <= b.display().len()
    &&& forall|i: int|
        v.shown.0 <= i < v.shown.1 ==> #[trigger] a.display()[i] == b.display()[i + v.grown]
}

proof fn lemma_line_end_moved<I>(a: ModelView<I>, b: ModelView<I>, v: Move, from: int, to: int)
    requires
        bytes_moved(a, b, v),
        v.shown.0 <= from,
        to <= v.shown.1,
    ensures
        line_end(b.display(), from + v.grown, to + v.grown) == line_end(a.display(), from, to)
            + v.grown,
        from <= to ==> from <= line_end(a.display(), from, to) <= to,
        from <= to && line_end(a.display(), from, to) < to ==> a.display()[line_end(
            a.display(),
            from,
            to,
        )] == 0x0a,
        forall|i: int|
            from <= i < line_end(a.display(), from, to) && i < to ==> #[trigger] a.display()[i]
                != 0x0a,
    decreases to - from,
{
    if from < to {
        assert(a.display()[from] == b.display()[from + v.grown]) by {
            reveal(bytes_moved);
        }
        if a.display()[from] != 0x0a {
            lemma_line_end_moved(a, b, v, from + 1, to);
        }
    }
}

proof fn lemma_one_line<I>(
    a: ModelView<I>,
    b: ModelView<I>,
    v: Move,
    display: (int, int),
    segment: (int, int),
)
    requires
        lines_moved(a, b, v),
        line_of(a, v, display, segment),
    ensures
        rows_alike(
            seq![
                b.text_item(
                    (display.0 + v.grown, display.1 + v.grown),
                    (segment.0 + v.delta, segment.1 + v.delta),
                ),
            ],
            shifted_rows(seq![a.text_item(display, segment)], v.delta, v.grown),
        ),
{
    reveal(lines_moved);
    assert(line_of(a, v, display, segment));
    let item = a.text_item(display, segment);
    assert(shifted_rows(seq![item], v.delta, v.grown) =~= seq![item.shifted(v.delta, v.grown)]);
}

/// The lines of text between two places are found in the other document.
#[verifier::spinoff_prover]
pub(crate) proof fn lemma_text_moved<I>(
    a: ModelView<I>,
    b: ModelView<I>,
    v: Move,
    display: (int, int),
    segment: (int, int),
    tail: bool,
)
    requires
        lines_moved(a, b, v),
        bytes_moved(a, b, v),
        0 <= v.shown.0 <= display.0,
        display.1 <= v.shown.1,
        v.source.0 <= segment.0 <= segment.1 <= v.source.1,
        a.projection.outside(segment.0),
        a.projection.shown_at(segment.0) <= display.0,
        display.0 == a.projection.shown_at(segment.0) || (display.0 > 0 && a.display()[display.0
            - 1] == 0x0a),
        tail ==> v.to_end,
    ensures
        rows_alike(
            b.text_items(
                (display.0 + v.grown, display.1 + v.grown),
                (segment.0 + v.delta, segment.1 + v.delta),
                tail,
            ),
            shifted_rows(a.text_items(display, segment, tail), v.delta, v.grown),
        ),
    decreases display.1 - display.0,
{
    let there = (display.0 + v.grown, display.1 + v.grown);
    let part = (segment.0 + v.delta, segment.1 + v.delta);
    let end = line_end(a.display(), display.0, display.1);
    lemma_line_end_moved(a, b, v, display.0, display.1);
    if display.0 <= end < display.1 {
        lemma_one_line(a, b, v, (display.0, end), segment);
        lemma_text_moved(a, b, v, (end + 1, display.1), segment, tail);
        let first = seq![a.text_item((display.0, end), segment)];
        let rest = a.text_items((end + 1, display.1), segment, tail);
        let first_there = seq![b.text_item((there.0, end + v.grown), part)];
        let rest_there = b.text_items((end + 1 + v.grown, there.1), part, tail);
        lemma_shifted_together(first, rest, v.delta, v.grown);
        lemma_alike_together(
            first_there,
            shifted_rows(first, v.delta, v.grown),
            rest_there,
            shifted_rows(rest, v.delta, v.grown),
        );
    } else if display.0 < display.1 || (tail && display.0 == display.1) {
        lemma_one_line(a, b, v, display, segment);
    } else {
        assert(a.text_items(display, segment, tail) =~= Seq::empty());
        assert(b.text_items(there, part, tail) =~= Seq::empty());
    }
}

// ---------------------------------------------------------------------------
// Nodes
// ---------------------------------------------------------------------------

/// Offsets outside the spans of a part are shown in the other document at the
/// place that they are moved to.
#[verifier::opaque]
pub open spec fn places_moved(p: ProjectionView, q: ProjectionView, v: Move) -> bool {
    forall|x: int|
        v.source.0 <= x <= v.source.1 && #[trigger] p.outside(x) ==> q.outside(x + v.delta)
            && q.shown_at(x + v.delta) == p.shown_at(x) + v.grown
}

/// The nodes and the blocks of a part are found in the other document.
#[verifier::opaque]
pub open(crate) spec fn nodes_moved<I>(a: ModelView<I>, b: ModelView<I>, v: Move) -> bool {
    &&& 0 <= v.nodes.0 <= v.nodes.1 <= a.regions.len()
    &&& 0 <= v.nodes.0 + v.node_shift
    &&& v.nodes.1 + v.node_shift <= b.regions.len()
    &&& forall|r: int|
        v.nodes.0 <= r < v.nodes.1 ==> {
            &&& b.regions[r + v.node_shift].spec_id() == (#[trigger] a.regions[r]).spec_id()
            &&& b.regions[r + v.node_shift].start() == a.regions[r].start() + v.delta
            &&& b.regions[r + v.node_shift].end() == a.regions[r].end() + v.delta
            &&& v.source.0 <= a.regions[r].start() <= a.regions[r].end() <= v.source.1
        }
    &&& forall|r: int|
        v.nodes.0 <= r < v.nodes.1 ==> (#[trigger] a.region_is_gap(r) <==> b.region_is_gap(
            r + v.node_shift,
        ))
    &&& forall|r: int, k: int|
        v.nodes.0 <= r < v.nodes.1 && v.blocks.0 <= k <= v.blocks.1 ==> (
        #[trigger] a.region_is_block(r, k) <==> b.region_is_block(
            r + v.node_shift,
            k + v.block_shift,
        )) && (a.region_is_block(r, k) ==> k < v.blocks.1)
}

proof fn lemma_node_moved<I>(a: ModelView<I>, b: ModelView<I>, v: Move, r: int, k: int)
    requires
        nodes_moved(a, b, v),
        v.nodes.0 <= r < v.nodes.1,
        v.blocks.0 <= k <= v.blocks.1,
    ensures
        0 <= r < a.regions.len(),
        0 <= r + v.node_shift < b.regions.len(),
        b.regions[r + v.node_shift].spec_id() == a.regions[r].spec_id(),
        b.regions[r + v.node_shift].start() == a.regions[r].start() + v.delta,
        b.regions[r + v.node_shift].end() == a.regions[r].end() + v.delta,
        v.source.0 <= a.regions[r].start() <= a.regions[r].end() <= v.source.1,
        a.region_is_gap(r) <==> b.region_is_gap(r + v.node_shift),
        a.region_is_block(r, k) <==> b.region_is_block(r + v.node_shift, k + v.block_shift),
        a.region_is_block(r, k) ==> k < v.blocks.1,
{
    reveal(nodes_moved);
    assert(b.regions[r + v.node_shift].spec_id() == a.regions[r].spec_id());
    assert(a.region_is_gap(r) <==> b.region_is_gap(r + v.node_shift));
    assert(a.region_is_block(r, k) <==> b.region_is_block(r + v.node_shift, k + v.block_shift));
}

proof fn lemma_empty_presentation(inline: Seq<ResolvedInlineStyle>, at: int)
    ensures
        row_highlights(inline, (at, at)).len() == 0,
        row_families(inline, (at, at)).len() == 0,
    decreases inline.len(),
{
    if inline.len() > 0 {
        lemma_empty_presentation(inline.drop_last(), at);
        assert(covered_part(inline.last().spec_display(), (at, at)) is None);
    }
}

/// The row of an empty region is found in the other document.
proof fn lemma_gap_moved<I>(a: ModelView<I>, b: ModelView<I>, v: Move, r: int, k: int)
    requires
        a.wf(),
        b.wf(),
        nodes_moved(a, b, v),
        places_moved(a.projection, b.projection, v),
        v.nodes.0 <= r < v.nodes.1,
        v.blocks.0 <= k <= v.blocks.1,
        0 <= k,
        a.region_is_gap(r),
        a.display().len() <= usize::MAX,
        b.display().len() <= usize::MAX,
        a.projection.source_len == a.bytes.len(),
        b.projection.source_len == b.bytes.len(),
    ensures
        unstyled(b.gap_item(r + v.node_shift)) == unstyled(
            a.gap_item(r).shifted(v.delta, v.grown),
        ),
{
    lemma_node_moved(a, b, v, r, k);
    let x = a.regions[r].start();
    let y = b.regions[r + v.node_shift].start();
    assert(x == a.regions[r].end() && 0 <= x <= a.bytes.len());
    assert(b.regions[r + v.node_shift].start() <= b.regions[r + v.node_shift].end()
        <= b.bytes.len());
    lemma_row_start(a, r, k);
    assert(b.projection.outside(y) && b.projection.shown_at(y) == a.projection.shown_at(x)
        + v.grown) by {
        reveal(places_moved);
    }
    lemma_outside_shown(a.projection, x, Affinity::Before);
    lemma_outside_shown(b.projection, y, Affinity::Before);
    lemma_seam(a.projection, x);
    lemma_seam(b.projection, y);
    lemma_rendered_len(a.bytes, a.projection);
    lemma_rendered_len(b.bytes, b.projection);
    let at = a.projection.shown_at(x);
    let there = b.projection.shown_at(y);
    lemma_empty_presentation(a.resolved.inline, at);
    lemma_empty_presentation(b.resolved.inline, there);
    assert(a.row_source((at, at), (x, x)) == (x, x));
    assert(b.row_source((there, there), (y, y)) == (y, y));
    assert(row_highlights(b.resolved.inline, (there, there)) =~= row_highlights(
        a.resolved.inline,
        (at, at),
    ));
    assert(row_families(b.resolved.inline, (there, there)) =~= row_families(
        a.resolved.inline,
        (at, at),
    ));
    assert(a.display().subrange(at, at) =~= b.display().subrange(there, there));
}

/// The rows up to a block or an empty region, and its own, are found in the
/// other document.
#[verifier::spinoff_prover]
#[verifier::rlimit(30)]
proof fn lemma_region_moved<I>(
    a: ModelView<I>,
    b: ModelView<I>,
    v: Move,
    region: int,
    block: int,
    source: int,
)
    requires
        part_moved(a, b, v),
        v.nodes.0 <= region < v.nodes.1,
        v.blocks.0 <= block <= v.blocks.1,
        0 <= block,
        a.region_is_block(region, block) || a.region_is_gap(region),
        0 <= source <= a.regions[region].start(),
        v.source.0 <= source,
        a.projection.outside(source),
        v.shown.0 <= a.projection.shown_at(source),
        a.projection.shown_at(a.regions[region].start()) <= v.shown.1,
    ensures
        ({
            let here = a.region_is_block(region, block);
            rows_alike(
                b.region_rows(
                    region + v.node_shift,
                    here,
                    a.projection.shown_at(source) + v.grown,
                    source + v.delta,
                ),
                shifted_rows(
                    a.region_rows(region, here, a.projection.shown_at(source), source),
                    v.delta,
                    v.grown,
                ),
            )
        }),
{
    let here = a.region_is_block(region, block);
    let r = a.regions[region];
    let t = b.regions[region + v.node_shift];
    let display = a.projection.shown_at(source);
    lemma_node_moved(a, b, v, region, block);
    lemma_row_edges(a, region, block, source);
    lemma_row_start(a, region, block);
    let start = a.projection.shown_at(r.start());
    assert(b.projection.outside(t.start()) && b.projection.shown_at(t.start()) == start + v.grown)
        by {
        reveal(places_moved);
    }
    assert(t.start() <= t.end() <= b.bytes.len());
    lemma_outside_shown(b.projection, t.start(), Affinity::Before);
    assert(b.shown(t.start(), Affinity::Before) == start + v.grown);
    lemma_text_moved(a, b, v, (display, start), (source, r.start()), false);
    let text = a.text_items((display, start), (source, r.start()), false);
    let text_there = b.text_items(
        (display + v.grown, start + v.grown),
        (source + v.delta, r.start() + v.delta),
        false,
    );
    let own = if here {
        LayoutView::Block { id: r.spec_id(), source: range_of(r.start(), r.end()) }
    } else {
        a.gap_item(region)
    };
    let own_there = if here {
        LayoutView::Block { id: t.spec_id(), source: range_of(t.start(), t.end()) }
    } else {
        b.gap_item(region + v.node_shift)
    };
    if !here {
        lemma_gap_moved(a, b, v, region, block);
    }
    assert(unstyled(own_there) == unstyled(own.shifted(v.delta, v.grown)));
    assert(shifted_rows(seq![own], v.delta, v.grown) =~= seq![own.shifted(v.delta, v.grown)]);
    lemma_shifted_together(text, seq![own], v.delta, v.grown);
    lemma_alike_together(
        text_there,
        shifted_rows(text, v.delta, v.grown),
        seq![own_there],
        shifted_rows(seq![own], v.delta, v.grown),
    );
    assert(a.region_rows(region, here, display, source) =~= text + seq![own]);
    assert(b.region_rows(
        region + v.node_shift,
        here,
        display + v.grown,
        source + v.delta,
    ) =~= text_there + seq![own_there]);
}

/// A part of a document is found in another.
pub open(crate) spec fn part_moved<I>(a: ModelView<I>, b: ModelView<I>, v: Move) -> bool {
    &&& a.wf()
    &&& b.wf()
    &&& a.display().len() <= usize::MAX
    &&& b.display().len() <= usize::MAX
    &&& a.projection.source_len == a.bytes.len()
    &&& b.projection.source_len == b.bytes.len()
    &&& 0 <= v.shown.0
    &&& 0 <= v.blocks.0
    &&& v.source.1 <= a.bytes.len()
    &&& lines_moved(a, b, v)
    &&& bytes_moved(a, b, v)
    &&& places_moved(a.projection, b.projection, v)
    &&& nodes_moved(a, b, v)
}

/// The rows of a part are found in the other document.
#[verifier::spinoff_prover]
#[verifier::rlimit(30)]
pub(crate) proof fn lemma_rows_moved<I>(
    a: ModelView<I>,
    b: ModelView<I>,
    v: Move,
    region: int,
    block: int,
    source: int,
    end: (int, int),
    tail: bool,
)
    requires
        part_moved(a, b, v),
        v.nodes.0 <= region <= v.nodes.1,
        v.blocks.0 <= block <= v.blocks.1,
        0 <= source,
        v.source.0 <= source <= end.1 <= v.source.1,
        a.projection.outside(source),
        a.projection.outside(end.1),
        region < v.nodes.1 ==> source <= a.regions[region].start(),
        forall|i: int| 0 <= i < v.nodes.1 ==> (#[trigger] a.regions[i]).end() <= end.1,
        v.shown.0 <= a.projection.shown_at(source),
        end.0 == a.projection.shown_at(end.1),
        end.0 <= v.shown.1,
        tail ==> v.to_end,
    ensures
        rows_alike(
            b.rows_until(
                region + v.node_shift,
                block + v.block_shift,
                a.projection.shown_at(source) + v.grown,
                source + v.delta,
                v.nodes.1 + v.node_shift,
                (end.0 + v.grown, end.1 + v.delta),
                tail,
            ),
            shifted_rows(
                a.rows_until(
                    region,
                    block,
                    a.projection.shown_at(source),
                    source,
                    v.nodes.1,
                    end,
                    tail,
                ),
                v.delta,
                v.grown,
            ),
        ),
    decreases v.nodes.1 - region,
{
    let display = a.projection.shown_at(source);
    if region == v.nodes.1 {
        lemma_text_moved(a, b, v, (display, end.0), (source, end.1), tail);
    } else {
        lemma_node_moved(a, b, v, region, block);
        let r = a.regions[region];
        let t = b.regions[region + v.node_shift];
        assert(r.end() <= end.1);
        if region + 1 < v.nodes.1 {
            assert(r.end() <= a.regions[region + 1].start()) by {
                lemma_node_moved(a, b, v, region + 1, block);
            }
        }
        if !a.region_is_block(region, block) && !a.region_is_gap(region) {
            lemma_rows_moved(a, b, v, region + 1, block, source, end, tail);
        } else {
            let here = a.region_is_block(region, block);
            let next = if here {
                block + 1
            } else {
                block
            };
            lemma_row_edges(a, region, block, source);
            lemma_row_start(a, region, block);
            assert(a.projection.shown_at(r.end()) <= end.0) by {
                lemma_shown_order(a.projection, r.end(), end.1);
            }
            assert(a.projection.shown_at(r.start()) <= end.0) by {
                lemma_shown_order(a.projection, r.start(), end.1);
            }
            lemma_region_moved(a, b, v, region, block, source);
            lemma_rows_moved(a, b, v, region + 1, next, r.end(), end, tail);
            let after = a.projection.shown_at(r.end());
            assert(b.projection.outside(t.end()) && b.projection.shown_at(t.end()) == after
                + v.grown) by {
                reveal(places_moved);
            }
            assert(t.start() <= t.end() <= b.bytes.len());
            lemma_outside_shown(b.projection, t.end(), Affinity::After);
            let first = a.region_rows(region, here, display, source);
            let rest = a.rows_until(region + 1, next, after, r.end(), v.nodes.1, end, tail);
            let first_there = b.region_rows(
                region + v.node_shift,
                here,
                display + v.grown,
                source + v.delta,
            );
            let rest_there = b.rows_until(
                region + 1 + v.node_shift,
                next + v.block_shift,
                after + v.grown,
                r.end() + v.delta,
                v.nodes.1 + v.node_shift,
                (end.0 + v.grown, end.1 + v.delta),
                tail,
            );
            lemma_shifted_together(first, rest, v.delta, v.grown);
            lemma_alike_together(
                first_there,
                shifted_rows(first, v.delta, v.grown),
                rest_there,
                shifted_rows(rest, v.delta, v.grown),
            );
        }
    }
}

} // verus!
