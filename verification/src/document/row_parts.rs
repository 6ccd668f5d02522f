//! The rows of a document before and behind a seam between its nodes.

use crate::document::layout::{lemma_row_edges, lemma_shown_first, line_end, LayoutView};
use crate::document::mapping::{lemma_rendered_len, lemma_shown_order};
use crate::document::model_view::{owner_of, region_at, ModelView};
use crate::document::position::Affinity;
use crate::document::projection::{lemma_span_behind_is, ProjectionView};
use crate::document::region::{lemma_region_index, region_index_of};
use crate::document::seam_lemmas::{
    all_mapped, lemma_seam, lemma_shown_at_seam, lemma_shown_before, lemma_shown_behind,
};
use crate::document::splice_lemmas::lemma_block_at;
use crate::document::splice_view::{begins_line, row_from, row_node};
use crate::document::state_view::StateView;
use crate::scan::{lemma_first_where_is, lemma_last_where};
use vstd::prelude::*;

verus! {

impl<I> ModelView<I> {
    /// The rows from a region up to another, and those of the text behind the
    /// last block or empty region among them up to an end.
    pub open(crate) spec fn rows_until(
        self,
        region: int,
        block: int,
        display: int,
        source: int,
        stop: int,
        end: (int, int),
        tail: bool,
    ) -> Seq<LayoutView<I>>
        decreases stop - region,
    {
        if region >= stop {
            self.text_items((display, end.0), (source, end.1), tail)
        } else if !self.region_is_block(region, block) && !self.region_is_gap(region) {
            self.rows_until(region + 1, block, display, source, stop, end, tail)
        } else {
            let r = self.regions[region];
            let here = self.region_is_block(region, block);
            self.region_rows(region, here, display, source) + self.rows_until(
                region + 1,
                if here {
                    block + 1
                } else {
                    block
                },
                self.shown(r.end(), Affinity::After),
                r.end(),
                stop,
                end,
                tail,
            )
        }
    }

    /// How many blocks there are before a region.
    pub open(crate) spec fn blocks_until(self, region: int, block: int, stop: int) -> int
        decreases stop - region,
    {
        if region >= stop {
            block
        } else if self.region_is_block(region, block) {
            self.blocks_until(region + 1, block + 1, stop)
        } else {
            self.blocks_until(region + 1, block, stop)
        }
    }
}

/// All rows are those up to the end.
pub(crate) proof fn lemma_all_rows<I>(
    m: ModelView<I>,
    region: int,
    block: int,
    display: int,
    source: int,
)
    requires
        region <= m.regions.len(),
    ensures
        m.rows_from(region, block, display, source) == m.rows_until(
            region,
            block,
            display,
            source,
            m.regions.len() as int,
            (m.display().len() as int, m.bytes.len() as int),
            true,
        ),
    decreases m.regions.len() - region,
{
    if region < m.regions.len() {
        if !m.region_is_block(region, block) && !m.region_is_gap(region) {
            lemma_all_rows(m, region + 1, block, display, source);
        } else {
            let r = m.regions[region];
            lemma_all_rows(
                m,
                region + 1,
                if m.region_is_block(region, block) {
                    block + 1
                } else {
                    block
                },
                m.shown(r.end(), Affinity::After),
                r.end(),
            );
        }
    }
}

// ---------------------------------------------------------------------------
// A seam
// ---------------------------------------------------------------------------

/// A place between nodes where a line of the display begins and that nothing
/// of the projection reaches over.
pub open(crate) spec fn is_seam<I>(m: ModelView<I>, stop: int, seam: int) -> bool {
    is_edge(m, stop, seam) && begins_line(m.display(), m.projection.shown_at(seam))
}

/// A place between nodes that nothing of the projection reaches over.
pub open(crate) spec fn is_edge<I>(m: ModelView<I>, stop: int, seam: int) -> bool {
    &&& m.wf()
    &&& all_mapped(m.projection)
    &&& 0 <= stop <= m.regions.len()
    &&& 0 <= seam <= m.bytes.len()
    &&& m.projection.outside(seam)
    &&& m.projection.source_len == m.bytes.len()
    &&& forall|i: int| 0 <= i < stop ==> (#[trigger] m.regions[i]).end() <= seam
    &&& forall|i: int| stop <= i < m.regions.len() ==> (#[trigger] m.regions[i]).start() >= seam
}

proof fn lemma_line_end_at(bytes: Seq<u8>, from: int, to: int, cut: int)
    requires
        0 <= from < cut <= to <= bytes.len(),
        bytes[cut - 1] == 0x0a,
    ensures
        from <= line_end(bytes, from, to) < cut,
        line_end(bytes, from, to) == line_end(bytes, from, cut),
        bytes[line_end(bytes, from, to)] == 0x0a,
    decreases cut - from,
{
    if bytes[from] != 0x0a {
        lemma_line_end_at(bytes, from + 1, to, cut);
    }
}

/// A row behind a seam does not look at the source before it.
proof fn lemma_item_behind<I>(
    m: ModelView<I>,
    stop: int,
    seam: int,
    display: (int, int),
    segment: (int, int),
)
    requires
        is_edge(m, stop, seam),
        m.projection.shown_at(seam) <= display.0 <= m.display().len(),
        segment.0 <= seam <= segment.1,
    ensures
        m.text_item(display, segment) == m.text_item(display, (seam, segment.1)),
{
    lemma_rendered_len(m.bytes, m.projection);
    lemma_shown_behind(m.projection, seam, display.0);
}

/// A row before a seam does not look at the source behind it.
proof fn lemma_item_before<I>(
    m: ModelView<I>,
    stop: int,
    seam: int,
    display: (int, int),
    segment: (int, int),
)
    requires
        is_edge(m, stop, seam),
        0 <= display.0 <= display.1 < m.projection.shown_at(seam),
        segment.0 <= seam <= segment.1,
    ensures
        m.text_item(display, segment) == m.text_item(display, (segment.0, seam)),
{
    lemma_shown_before(m.projection, seam, display.0, Affinity::After);
    lemma_shown_before(m.projection, seam, display.1, Affinity::Before);
}

proof fn lemma_text_behind<I>(
    m: ModelView<I>,
    stop: int,
    seam: int,
    display: (int, int),
    segment: (int, int),
    tail: bool,
)
    requires
        is_edge(m, stop, seam),
        m.projection.shown_at(seam) <= display.0,
        display.1 <= m.display().len(),
        segment.0 <= seam <= segment.1,
    ensures
        m.text_items(display, segment, tail) == m.text_items(display, (seam, segment.1), tail),
    decreases display.1 - display.0,
{
    let end = line_end(m.display(), display.0, display.1);
    if display.0 <= end < display.1 {
        lemma_item_behind(m, stop, seam, (display.0, end), segment);
        lemma_text_behind(m, stop, seam, (end + 1, display.1), segment, tail);
    } else if display.0 <= display.1 {
        lemma_item_behind(m, stop, seam, display, segment);
    }
}

/// The rows of text across a seam are those before it and those behind it.
proof fn lemma_text_cut<I>(
    m: ModelView<I>,
    stop: int,
    seam: int,
    display: (int, int),
    segment: (int, int),
    tail: bool,
)
    requires
        is_seam(m, stop, seam),
        0 <= display.0 <= m.projection.shown_at(seam) <= display.1 <= m.display().len(),
        segment.0 <= seam <= segment.1,
    ensures
        m.text_items(display, segment, tail) == m.text_items(
            (display.0, m.projection.shown_at(seam)),
            (segment.0, seam),
            false,
        ) + m.text_items((m.projection.shown_at(seam), display.1), (seam, segment.1), tail),
    decreases display.1 - display.0,
{
    let cut = m.projection.shown_at(seam);
    let behind = m.text_items((cut, display.1), (seam, segment.1), tail);
    if display.0 == cut {
        lemma_text_behind(m, stop, seam, display, segment, tail);
        assert(m.text_items((cut, cut), (segment.0, seam), false) =~= Seq::empty());
        assert(Seq::<LayoutView<I>>::empty() + behind =~= behind);
    } else {
        lemma_line_end_at(m.display(), display.0, display.1, cut);
        let end = line_end(m.display(), display.0, display.1);
        lemma_item_before(m, stop, seam, (display.0, end), segment);
        lemma_text_cut(m, stop, seam, (end + 1, display.1), segment, tail);
        let first = seq![m.text_item((display.0, end), segment)];
        let rest = m.text_items((end + 1, cut), (segment.0, seam), false);
        assert(m.text_items((display.0, cut), (segment.0, seam), false) =~= first + rest);
        assert(first + (rest + behind) =~= (first + rest) + behind);
    }
}

/// Text that is still to be laid out when a seam is reached.
proof fn lemma_pending<I>(
    m: ModelView<I>,
    stop: int,
    seam: int,
    region: int,
    block: int,
    display: int,
    source: int,
    last: int,
    end: (int, int),
    tail: bool,
)
    requires
        is_seam(m, stop, seam),
        stop <= region <= m.regions.len(),
        0 <= block,
        last <= m.regions.len(),
        0 <= display <= m.projection.shown_at(seam) <= end.0 <= m.display().len(),
        source <= seam <= end.1,
    ensures
        m.rows_until(region, block, display, source, last, end, tail) == m.text_items(
            (display, m.projection.shown_at(seam)),
            (source, seam),
            false,
        ) + m.rows_until(
            region,
            block,
            m.projection.shown_at(seam),
            seam,
            last,
            end,
            tail,
        ),
    decreases last - region,
{
    let cut = m.projection.shown_at(seam);
    let front = m.text_items((display, cut), (source, seam), false);
    if region >= last {
        lemma_text_cut(m, stop, seam, (display, end.0), (source, end.1), tail);
    } else if !m.region_is_block(region, block) && !m.region_is_gap(region) {
        lemma_pending(m, stop, seam, region + 1, block, display, source, last, end, tail);
    } else {
        let r = m.regions[region];
        let here = m.region_is_block(region, block);
        lemma_row_edges(m, region, block, seam);
        let start = m.shown(r.start(), Affinity::Before);
        lemma_text_cut(m, stop, seam, (display, start), (source, r.start()), false);
        let own = m.region_rows(region, here, cut, seam);
        let rest = m.rows_until(
            region + 1,
            if here {
                block + 1
            } else {
                block
            },
            m.shown(r.end(), Affinity::After),
            r.end(),
            last,
            end,
            tail,
        );
        assert(m.region_rows(region, here, display, source) =~= front + own);
        assert(front + own + rest =~= front + (own + rest));
    }
}

/// The rows of a document are those before a seam and those behind it.
#[verifier::spinoff_prover]
#[verifier::rlimit(60)]
pub(crate) proof fn lemma_cut<I>(
    m: ModelView<I>,
    stop: int,
    seam: int,
    region: int,
    block: int,
    source: int,
    last: int,
    end: (int, int),
    tail: bool,
)
    requires
        is_seam(m, stop, seam),
        0 <= region <= stop <= last <= m.regions.len(),
        0 <= block,
        0 <= source <= seam,
        m.projection.outside(source),
        region < m.regions.len() ==> source <= m.regions[region].start(),
        m.projection.shown_at(seam) <= end.0 <= m.display().len(),
        seam <= end.1,
    ensures
        ({
            let cut = m.projection.shown_at(seam);
            let display = m.projection.shown_at(source);
            m.rows_until(region, block, display, source, last, end, tail) == m.rows_until(
                region,
                block,
                display,
                source,
                stop,
                (cut, seam),
                false,
            ) + m.rows_until(
                stop,
                m.blocks_until(region, block, stop),
                cut,
                seam,
                last,
                end,
                tail,
            )
        }),
    decreases stop - region,
{
    let cut = m.projection.shown_at(seam);
    let display = m.projection.shown_at(source);
    lemma_shown_order(m.projection, source, seam);
    lemma_seam(m.projection, source);
    if region == stop {
        lemma_pending(m, stop, seam, region, block, display, source, last, end, tail);
    } else {
        let r = m.regions[region];
        assert(r.start() <= r.end() <= seam);
        if region + 1 < m.regions.len() {
            assert(r.end() <= m.regions[region + 1].start());
        }
        if !m.region_is_block(region, block) && !m.region_is_gap(region) {
            lemma_cut(m, stop, seam, region + 1, block, source, last, end, tail);
        } else {
            let here = m.region_is_block(region, block);
            let next = if here {
                block + 1
            } else {
                block
            };
            lemma_row_edges(m, region, block, source);
            lemma_cut(m, stop, seam, region + 1, next, r.end(), last, end, tail);
            let own = m.region_rows(region, here, display, source);
            let front = m.rows_until(
                region + 1,
                next,
                m.projection.shown_at(r.end()),
                r.end(),
                stop,
                (cut, seam),
                false,
            );
            let rest = m.rows_until(
                stop,
                m.blocks_until(region, block, stop),
                cut,
                seam,
                last,
                end,
                tail,
            );
            assert(own + (front + rest) =~= own + front + rest);
        }
    }
}

// ---------------------------------------------------------------------------
// Rows before a seam
// ---------------------------------------------------------------------------

/// Lines of the display before a seam begin with source before it.
#[verifier::opaque]
pub open(crate) spec fn lines_begin_before<I>(m: ModelView<I>, seam: int) -> bool {
    forall|d: int|
        0 < d < m.projection.shown_at(seam) && m.display()[d - 1] == 0x0a ==> (
        #[trigger] m.projection.display_to_source(d, Affinity::After) matches Some(x) && x < seam)
}

/// A row at a seam that belongs to a node before it.
pub open(crate) spec fn row_at_seam<I>(
    m: ModelView<I>,
    stop: int,
    seam: int,
    item: LayoutView<I>,
) -> bool {
    &&& item.source_start() == seam
    &&& item matches LayoutView::Text { node_id: Some(id), .. } && exists|j: int|
        0 <= j < stop && (#[trigger] m.regions[j]).spec_id() == id
}

/// Rows of which the first start before a seam and the last at it.
#[verifier::opaque]
pub open(crate) spec fn rows_before<I>(
    m: ModelView<I>,
    stop: int,
    seam: int,
    rows: Seq<LayoutView<I>>,
) -> bool {
    &&& forall|i: int|
        0 <= i < rows.len() ==> (#[trigger] rows[i]).source_start() < seam || row_at_seam(
            m,
            stop,
            seam,
            rows[i],
        )
    &&& forall|i: int, j: int|
        #![trigger rows[i], rows[j]]
        0 <= i < j < rows.len() && rows[i].source_start() >= seam ==> rows[j].source_start()
            >= seam
}

/// Rows that all start before an offset.
#[verifier::opaque]
pub open(crate) spec fn all_before<I>(rows: Seq<LayoutView<I>>, seam: int) -> bool {
    forall|i: int| 0 <= i < rows.len() ==> (#[trigger] rows[i]).source_start() < seam
}

/// Rows that all start at an offset or behind it.
#[verifier::opaque]
pub open(crate) spec fn all_from<I>(rows: Seq<LayoutView<I>>, seam: int) -> bool {
    forall|i: int| 0 <= i < rows.len() ==> (#[trigger] rows[i]).source_start() >= seam
}

proof fn lemma_no_rows<I>(m: ModelView<I>, stop: int, seam: int)
    ensures
        rows_before(m, stop, seam, Seq::empty()),
        all_before(Seq::<LayoutView<I>>::empty(), seam),
        all_from(Seq::<LayoutView<I>>::empty(), seam),
{
    reveal(rows_before);
    reveal(all_before);
    reveal(all_from);
}

proof fn lemma_one_row<I>(m: ModelView<I>, stop: int, seam: int, item: LayoutView<I>)
    requires
        item.source_start() < seam || row_at_seam(m, stop, seam, item),
    ensures
        rows_before(m, stop, seam, seq![item]),
        item.source_start() < seam ==> all_before(seq![item], seam),
        item.source_start() >= seam ==> all_from(seq![item], seam),
{
    reveal(rows_before);
    reveal(all_before);
    reveal(all_from);
}

proof fn lemma_before_together<I>(
    m: ModelView<I>,
    stop: int,
    seam: int,
    a: Seq<LayoutView<I>>,
    b: Seq<LayoutView<I>>,
)
    requires
        rows_before(m, stop, seam, a),
        rows_before(m, stop, seam, b),
        all_before(a, seam) || all_from(b, seam),
    ensures
        rows_before(m, stop, seam, a + b),
        all_before(a, seam) && all_before(b, seam) ==> all_before(a + b, seam),
        all_from(a, seam) && all_from(b, seam) ==> all_from(a + b, seam),
{
    reveal(rows_before);
    reveal(all_before);
    reveal(all_from);
    let both = a + b;
    assert forall|i: int| 0 <= i < both.len() implies (#[trigger] both[i]).source_start() < seam
        || row_at_seam(m, stop, seam, both[i]) by {
        if i < a.len() {
            assert(both[i] == a[i]);
        } else {
            assert(both[i] == b[i - a.len()]);
        }
    }
    assert forall|i: int, j: int|
        #![trigger both[i], both[j]]
        0 <= i < j < both.len() && both[i].source_start() >= seam implies both[j].source_start()
        >= seam by {
        if j < a.len() {
            assert(both[i] == a[i] && both[j] == a[j]);
        } else if i < a.len() {
            assert(both[i] == a[i] && both[j] == b[j - a.len()]);
        } else {
            assert(both[i] == b[i - a.len()] && both[j] == b[j - a.len()]);
        }
    }
}

/// A line of text before a seam starts with source before it.
pub(crate) proof fn lemma_item_starts<I>(
    m: ModelView<I>,
    stop: int,
    seam: int,
    origin: int,
    display: (int, int),
    segment: (int, int),
)
    requires
        is_edge(m, stop, seam),
        lines_begin_before(m, seam),
        0 <= origin <= seam,
        m.projection.outside(origin),
        segment.0 == origin,
        segment.0 <= segment.1 <= seam,
        m.projection.shown_at(origin) <= display.0 < m.projection.shown_at(seam),
        display.0 == m.projection.shown_at(origin) || m.display()[display.0 - 1] == 0x0a,
    ensures
        m.text_item(display, segment).source_start() < seam,
{
    let p = m.projection;
    lemma_seam(p, origin);
    lemma_seam(p, seam);
    lemma_rendered_len(m.bytes, p);
    lemma_shown_behind(p, origin, display.0);
    if display.0 == p.shown_at(origin) {
        lemma_shown_at_seam(p, origin, seam);
    } else {
        reveal(lines_begin_before);
        assert(p.display_to_source(display.0, Affinity::After) is Some);
    }
}

/// The row at the end of the text belongs to the last node.
proof fn lemma_tail_row<I>(m: ModelView<I>, source: int)
    requires
        m.wf(),
        m.projection.source_len == m.bytes.len(),
        m.regions.len() > 0,
        m.regions.last().end() == m.bytes.len(),
        0 <= source <= m.bytes.len(),
    ensures
        row_at_seam(
            m,
            m.regions.len() as int,
            m.bytes.len() as int,
            m.text_item(
                (m.display().len() as int, m.display().len() as int),
                (source, m.bytes.len() as int),
            ),
        ),
{
    let n = m.regions.len() as int;
    let seam = m.bytes.len() as int;
    let whole = m.display().len() as int;
    let test = region_at::<I>(seam);
    lemma_rendered_len(m.bytes, m.projection);
    lemma_last_where(m.regions, test, n);
    let at = owner_of(m.regions, seam, Affinity::After);
    assert(m.regions[n - 1].start() <= m.regions[n - 1].end());
    assert(test(m.regions[n - 1]));
    assert(at == n - 1);
    assert(m.projection.display_to_source(whole, Affinity::After) == Some(seam));
    assert(m.row_source((whole, whole), (source, seam)).0 == seam);
    assert(m.regions[n - 1].spec_id() == m.regions[at].spec_id());
}

/// Lines of text before a seam start with source before it.
#[verifier::spinoff_prover]
proof fn lemma_text_starts<I>(
    m: ModelView<I>,
    stop: int,
    seam: int,
    display: (int, int),
    segment: (int, int),
    tail: bool,
)
    requires
        is_edge(m, stop, seam),
        lines_begin_before(m, seam),
        0 <= segment.0 <= segment.1 <= seam,
        m.projection.outside(segment.0),
        0 <= m.projection.shown_at(segment.0) <= display.0,
        m.projection.shown_at(seam) <= m.display().len(),
        display.0 == m.projection.shown_at(segment.0) || m.display()[display.0 - 1] == 0x0a,
        display.1 <= m.projection.shown_at(seam),
        tail ==> seam == m.bytes.len() && display.1 == m.display().len() && segment.1 == seam
            && stop == m.regions.len() && stop > 0 && m.regions.last().end() == seam,
    ensures
        rows_before(m, stop, seam, m.text_items(display, segment, tail)),
        !tail ==> all_before(m.text_items(display, segment, tail), seam),
    decreases display.1 - display.0,
{
    let end = line_end(m.display(), display.0, display.1);
    lemma_line_end_here(m.display(), display.0, display.1);
    if display.0 <= end < display.1 {
        let item = m.text_item((display.0, end), segment);
        let rest = m.text_items((end + 1, display.1), segment, tail);
        lemma_item_starts(m, stop, seam, segment.0, (display.0, end), segment);
        lemma_text_starts(m, stop, seam, (end + 1, display.1), segment, tail);
        lemma_one_row(m, stop, seam, item);
        lemma_before_together(m, stop, seam, seq![item], rest);
    } else if display.0 < display.1 {
        lemma_item_starts(m, stop, seam, segment.0, display, segment);
        lemma_one_row(m, stop, seam, m.text_item(display, segment));
    } else if tail && display.0 == display.1 {
        lemma_tail_row(m, segment.0);
        lemma_one_row(m, stop, seam, m.text_item(display, segment));
    } else {
        lemma_no_rows(m, stop, seam);
        assert(m.text_items(display, segment, tail) =~= Seq::empty());
    }
}

proof fn lemma_line_end_here(bytes: Seq<u8>, from: int, to: int)
    requires
        0 <= from,
        to <= bytes.len(),
    ensures
        from <= to ==> from <= line_end(bytes, from, to) <= to,
        line_end(bytes, from, to) < to ==> bytes[line_end(bytes, from, to)] == 0x0a,
        forall|i: int| from <= i < line_end(bytes, from, to) && i < to ==> #[trigger] bytes[i] != 0x0a,
    decreases to - from,
{
    if from < to && bytes[from] != 0x0a {
        lemma_line_end_here(bytes, from + 1, to);
    }
}

/// Rows before a seam start with source before it, but for those of empty
/// regions at it.
#[verifier::spinoff_prover]
#[verifier::rlimit(40)]
pub(crate) proof fn lemma_rows_before<I>(
    m: ModelView<I>,
    stop: int,
    seam: int,
    region: int,
    block: int,
    source: int,
    tail: bool,
)
    requires
        is_edge(m, stop, seam),
        lines_begin_before(m, seam),
        0 <= region <= stop,
        0 <= block,
        0 <= source <= seam,
        m.projection.outside(source),
        region < m.regions.len() ==> source <= m.regions[region].start(),
        tail ==> seam == m.bytes.len() && stop == m.regions.len() && stop > 0
            && m.regions.last().end() == seam,
    ensures
        ({
            let rows = m.rows_until(
                region,
                block,
                m.projection.shown_at(source),
                source,
                stop,
                (m.projection.shown_at(seam), seam),
                tail,
            );
            &&& rows_before(m, stop, seam, rows)
            &&& source == seam ==> all_from(rows, seam)
        }),
    decreases stop - region,
{
    let p = m.projection;
    let cut = p.shown_at(seam);
    let display = p.shown_at(source);
    let end = (cut, seam);
    assert(0 <= display <= cut <= m.display().len() && (tail ==> cut == m.display().len())) by {
        lemma_seam(p, source);
        lemma_seam(p, seam);
        lemma_rendered_len(m.bytes, p);
        lemma_shown_order(p, source, seam);
        if tail {
            lemma_shown_last(p);
        }
    }
    if region == stop {
        lemma_text_starts(m, stop, seam, (display, cut), (source, seam), tail);
        if source == seam {
            if tail {
                lemma_tail_row(m, source);
                lemma_one_row(m, stop, seam, m.text_item((cut, cut), (seam, seam)));
            } else {
                lemma_no_rows(m, stop, seam);
                assert(m.text_items((cut, cut), (seam, seam), false) =~= Seq::empty());
            }
        }
    } else {
        let r = m.regions[region];
        assert(r.start() <= r.end() <= seam);
        if region + 1 < m.regions.len() {
            assert(r.end() <= m.regions[region + 1].start());
        }
        if !m.region_is_block(region, block) && !m.region_is_gap(region) {
            lemma_rows_before(m, stop, seam, region + 1, block, source, tail);
        } else {
            let here = m.region_is_block(region, block);
            let next = if here {
                block + 1
            } else {
                block
            };
            lemma_row_edges(m, region, block, source);
            lemma_rows_before(m, stop, seam, region + 1, next, r.end(), tail);
            lemma_region_before(m, stop, seam, region, block, source);
            let first = m.region_rows(region, here, display, source);
            let rest = m.rows_until(
                region + 1,
                next,
                p.shown_at(r.end()),
                r.end(),
                stop,
                end,
                tail,
            );
            lemma_before_together(m, stop, seam, first, rest);
        }
    }
}

/// The rows up to a block or an empty region before a seam, and its own.
proof fn lemma_region_before<I>(
    m: ModelView<I>,
    stop: int,
    seam: int,
    region: int,
    block: int,
    source: int,
)
    requires
        is_edge(m, stop, seam),
        lines_begin_before(m, seam),
        0 <= region < stop,
        0 <= block,
        m.region_is_block(region, block) || m.region_is_gap(region),
        0 <= source <= m.regions[region].start(),
        m.projection.outside(source),
    ensures
        ({
            let rows = m.region_rows(
                region,
                m.region_is_block(region, block),
                m.projection.shown_at(source),
                source,
            );
            &&& rows_before(m, stop, seam, rows)
            &&& m.regions[region].end() < seam ==> all_before(rows, seam)
            &&& m.regions[region].start() < seam ==> all_before(rows, seam)
            &&& source == seam ==> all_from(rows, seam)
        }),
{
    let p = m.projection;
    let cut = p.shown_at(seam);
    let r = m.regions[region];
    let here = m.region_is_block(region, block);
    let display = p.shown_at(source);
    let start = m.shown(r.start(), Affinity::Before);
    assert(r.start() <= r.end() <= seam);
    lemma_row_edges(m, region, block, source);
    assert(0 <= display <= start <= cut <= m.display().len()) by {
        lemma_seam(p, source);
        lemma_seam(p, seam);
        lemma_rendered_len(m.bytes, p);
        lemma_row_start(m, region, block);
        lemma_shown_order(p, r.start(), seam);
    }
    let text = m.text_items((display, start), (source, r.start()), false);
    lemma_text_starts(m, stop, seam, (display, start), (source, r.start()), false);
    let rows = m.region_rows(region, here, display, source);
    let own = rows.last();
    assert(own.source_start() == r.start());
    if here {
        lemma_block_is_wide(m, region, block);
    } else if r.start() == seam {
        assert(row_at_seam(m, stop, seam, own)) by {
            assert(m.regions[region].spec_id() == r.spec_id());
        }
    }
    lemma_one_row(m, stop, seam, own);
    if source == seam {
        assert(text =~= Seq::empty());
        lemma_no_rows(m, stop, seam);
    }
    lemma_before_together(m, stop, seam, text, seq![own]);
    assert(rows =~= text + seq![own]);
}

/// A block or an empty region starts outside the spans.
pub(crate) proof fn lemma_row_start<I>(m: ModelView<I>, region: int, block: int)
    requires
        m.wf(),
        0 <= region < m.regions.len(),
        0 <= block,
        m.region_is_block(region, block) || m.region_is_gap(region),
    ensures
        m.projection.outside(m.regions[region].start()),
{
    let p = m.projection;
    let r = m.regions[region];
    if m.region_is_block(region, block) {
        let at = lemma_block_at(m, block);
        lemma_region_index(m.regions, m.bytes.len() as int, at.0);
        lemma_region_index(m.regions, m.bytes.len() as int, region);
        let k = at.1;
        assert(p.spans[k].start < p.spans[k].end);
        assert forall|i: int| 0 <= i < p.spans.len() implies !(#[trigger] p.spans[i]).inside(
            r.start(),
        ) by {
            if i < k {
                assert(p.spans[i].end <= p.spans[k].start);
            } else if i > k {
                assert(p.spans[k].end <= p.spans[i].start);
            }
        }
    } else {
        lemma_shown_first(p);
        lemma_row_edges(m, region, block, 0);
    }
}

/// The end of the source is shown at the end.
pub(crate) proof fn lemma_shown_last(p: ProjectionView)
    requires
        p.valid(),
    ensures
        p.outside(p.source_len),
        p.shown_at(p.source_len) == p.display_len(),
{
    let n = p.spans.len() as int;
    assert forall|i: int| 0 <= i < n implies (#[trigger] p.spans[i]).end <= p.source_len by {}
    lemma_span_behind_is(p, p.source_len, n);
}

/// A block has a source.
proof fn lemma_block_is_wide<I>(m: ModelView<I>, region: int, block: int)
    requires
        m.wf(),
        0 <= region < m.regions.len(),
        0 <= block,
        m.region_is_block(region, block),
    ensures
        m.regions[region].start() < m.regions[region].end(),
{
    let at = lemma_block_at(m, block);
    lemma_region_index(m.regions, m.bytes.len() as int, at.0);
    lemma_region_index(m.regions, m.bytes.len() as int, region);
    assert(at.0 == region);
}

// ---------------------------------------------------------------------------
// The first row behind a seam
// ---------------------------------------------------------------------------

/// A row at or behind a seam that belongs to no node before it.
pub open(crate) spec fn row_is_behind<I>(
    m: ModelView<I>,
    stop: int,
    seam: int,
    item: LayoutView<I>,
) -> bool {
    &&& item.source_start() >= seam
    &&& !(item is AnchoredBlock)
    &&& row_node(item, Seq::empty()) matches Some(id) ==> region_index_of(
        m.regions,
        id,
    ) matches Some(j) && j >= stop
}

proof fn lemma_item_is_behind<I>(
    m: ModelView<I>,
    stop: int,
    seam: int,
    display: (int, int),
    segment: (int, int),
)
    requires
        is_edge(m, stop, seam),
        stop < m.regions.len(),
        seam == m.regions[stop].start(),
        segment.0 == seam,
        seam <= segment.1 <= m.bytes.len(),
        m.projection.shown_at(seam) <= display.0 <= m.display().len(),
    ensures
        row_is_behind(m, stop, seam, m.text_item(display, segment)),
{
    let source = m.row_source(display, segment);
    let at = owner_of(m.regions, source.0, Affinity::After);
    let test = region_at::<I>(source.0);
    lemma_rendered_len(m.bytes, m.projection);
    lemma_shown_behind(m.projection, seam, display.0);
    lemma_last_where(m.regions, test, m.regions.len() as int);
    if 0 <= at < m.regions.len() {
        assert(test(m.regions[at]));
        lemma_region_index(m.regions, m.bytes.len() as int, at);
        if at < stop {
            assert(m.regions[at].end() <= seam);
            assert(m.regions[stop].start() <= m.regions[stop].end());
            assert(test(m.regions[stop]));
        }
    }
}

/// The first row behind a seam starts there or behind, and belongs to a node
/// there.
#[verifier::spinoff_prover]
#[verifier::rlimit(60)]
pub(crate) proof fn lemma_first_behind<I>(
    m: ModelView<I>,
    stop: int,
    seam: int,
    region: int,
    block: int,
)
    requires
        is_edge(m, stop, seam),
        stop < m.regions.len(),
        seam == m.regions[stop].start(),
        stop <= region <= m.regions.len(),
        0 <= block,
    ensures
        ({
            let rows = m.rows_until(
                region,
                block,
                m.projection.shown_at(seam),
                seam,
                m.regions.len() as int,
                (m.display().len() as int, m.bytes.len() as int),
                true,
            );
            rows.len() > 0 && row_is_behind(m, stop, seam, rows[0])
        }),
    decreases m.regions.len() - region,
{
    let p = m.projection;
    let cut = p.shown_at(seam);
    let n = m.regions.len() as int;
    let whole = m.display().len() as int;
    lemma_seam(p, seam);
    lemma_rendered_len(m.bytes, p);
    if region == n {
        lemma_line_end_here(m.display(), cut, whole);
        let e = line_end(m.display(), cut, whole);
        lemma_item_is_behind(m, stop, seam, (cut, e), (seam, m.bytes.len() as int));
    } else if !m.region_is_block(region, block) && !m.region_is_gap(region) {
        lemma_first_behind(m, stop, seam, region + 1, block);
    } else {
        let r = m.regions[region];
        let here = m.region_is_block(region, block);
        lemma_row_edges(m, region, block, seam);
        let start = m.shown(r.start(), Affinity::Before);
        let text = m.text_items((cut, start), (seam, r.start()), false);
        let first = m.region_rows(region, here, cut, seam);
        lemma_line_end_here(m.display(), cut, start);
        lemma_region_index(m.regions, m.bytes.len() as int, region);
        if cut < start {
            let e = line_end(m.display(), cut, start);
            lemma_item_is_behind(m, stop, seam, (cut, e), (seam, r.start()));
            assert(text.len() > 0);
            assert(first[0] == text[0]);
        } else {
            assert(text =~= Seq::empty());
            assert(first[0] == first.last());
        }
    }
}

// ---------------------------------------------------------------------------
// Where a node starts among the rows
// ---------------------------------------------------------------------------

proof fn lemma_skip<I>(s: StateView<I>, from: int, region: int, to: int)
    requires
        0 <= from <= to <= s.items.len(),
        forall|i: int| from <= i < to ==> #[trigger] s.row_before(i, region),
        to < s.items.len() ==> !s.row_before(to, region),
    ensures
        s.skip_rows(from, region) == to,
    decreases to - from,
{
    if from < to {
        assert(s.row_before(from, region));
        lemma_skip(s, from + 1, region, to);
    }
}

/// The first row of the nodes behind a seam is the one behind the rows before
/// it.
pub(crate) proof fn lemma_layout_edge<I>(
    s: StateView<I>,
    stop: int,
    front: Seq<LayoutView<I>>,
    rest: Seq<LayoutView<I>>,
)
    requires
        s.model.wf(),
        0 <= stop <= s.model.regions.len(),
        s.items == front + rest,
        rows_before(s.model, stop, s.model.fragment_start(stop), front),
        rest.len() > 0 ==> rest[0] is Trailer || row_is_behind(
            s.model,
            stop,
            s.model.fragment_start(stop),
            rest[0],
        ),
        s.model.fragment_start(stop) <= usize::MAX,
    ensures
        s.layout_edge(stop) == front.len(),
{
    reveal(rows_before);
    let m = s.model;
    let seam = m.fragment_start(stop);
    let n = front.len() as int;
    let g = lemma_first_at(m, stop, seam, front, 0);
    let test = |item: LayoutView<I>| item.source_start() >= seam;
    assert forall|i: int| 0 <= i < g implies !(#[trigger] test(s.items[i])) by {
        assert(s.items[i] == front[i]);
    }
    if g < n {
        assert(s.items[g] == front[g]);
        assert(test(s.items[g]));
    } else if rest.len() > 0 {
        assert(s.items[n] == rest[0]);
        assert(test(s.items[n]));
    }
    lemma_first_where_is(s.items, test, 0, g);
    assert(row_from(s.items, seam) == g);
    assert forall|i: int| g <= i < n implies #[trigger] s.row_before(i, stop) by {
        assert(s.items[i] == front[i]);
        if i > g {
            assert(front[g].source_start() >= seam);
        }
        assert(row_at_seam(m, stop, seam, front[i]));
        let id = row_node(front[i], m.anchored)->0;
        let j = choose|j: int| 0 <= j < stop && (#[trigger] m.regions[j]).spec_id() == id;
        lemma_region_index(m.regions, m.bytes.len() as int, j);
    }
    if rest.len() > 0 {
        assert(s.items[n] == rest[0]);
        assert(!s.row_before(n, stop)) by {
            assert(row_node(rest[0], m.anchored) == row_node(rest[0], Seq::empty()));
        }
    }
    lemma_skip(s, g, stop, n);
}

/// The first of rows that starts at a seam, or their number.
proof fn lemma_first_at<I>(
    m: ModelView<I>,
    stop: int,
    seam: int,
    rows: Seq<LayoutView<I>>,
    from: int,
) -> (g: int)
    requires
        0 <= from <= rows.len(),
        forall|i: int| 0 <= i < from ==> (#[trigger] rows[i]).source_start() < seam,
    ensures
        from <= g <= rows.len(),
        forall|i: int| 0 <= i < g ==> (#[trigger] rows[i]).source_start() < seam,
        g < rows.len() ==> rows[g].source_start() >= seam,
    decreases rows.len() - from,
{
    if from < rows.len() && rows[from].source_start() < seam {
        lemma_first_at(m, stop, seam, rows, from + 1)
    } else {
        from
    }
}

} // verus!
