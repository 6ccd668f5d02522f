//! The order of the rows of a document, and what has a row.

use crate::document::anchored_block::follows_line;
use crate::document::fragment_moves::lemma_blocks_until;
use crate::document::layout::{
    lemma_row_edges, lemma_shown_first, line_end, row_behind, row_index, LayoutView,
};
use crate::document::mapping::lemma_rendered_len;
use crate::document::model_view::{row_in, ModelView};
use crate::document::position::{Affinity, PositionError};
use crate::document::row_laws::lemma_no_place;
use crate::document::splice_lemmas::lemma_block_at;
use crate::scan::lemma_first_where;
use vstd::prelude::*;

verus! {

/// The text is broken at a place of the display: a block or an empty region
/// stands there.
pub open spec fn is_broken_at<I>(m: ModelView<I>, d: int) -> bool {
    exists|r: int|
        0 <= r < m.regions.len() && (m.region_is_gap(r) || exists|b: int|
            0 <= b && m.region_is_block(r, b)) && m.projection.shown_at(
            (#[trigger] m.regions[r]).start(),
        ) == d
}

/// A line of text begins at a place of the display.
pub open spec fn line_begins<I>(m: ModelView<I>, d: int) -> bool {
    d == 0 || (0 < d <= m.display().len() && m.display()[d - 1] == 0x0a) || is_broken_at(m, d)
}

/// A line of text ends at a place of the display.
pub open spec fn line_stops<I>(m: ModelView<I>, d: int) -> bool {
    d == m.display().len() || (0 <= d < m.display().len() && m.display()[d] == 0x0a)
        || is_broken_at(m, d)
}

/// Every row of text is a whole line.
pub open spec fn rows_are_whole<I>(m: ModelView<I>, rows: Seq<LayoutView<I>>) -> bool {
    forall|i: int|
        0 <= i < rows.len() ==> (#[trigger] rows[i] matches LayoutView::Text { display, .. }
            ==> line_begins(m, display.start as int) && line_stops(m, display.end as int))
}

/// Rows of text stand in the order of the display.
pub open spec fn rows_in_order<I>(rows: Seq<LayoutView<I>>) -> bool {
    forall|i: int, j: int|
        #![trigger rows[i], rows[j]]
        0 <= i < j < rows.len() ==> (rows[i] matches LayoutView::Text { display: a, .. } && (
        rows[j] matches LayoutView::Text { display: b, .. } ==> a.end <= b.start) || !(
        rows[i] is Text))
}

/// The rows of text lie between two places of the display.
pub open spec fn rows_between<I>(rows: Seq<LayoutView<I>>, low: int, high: int) -> bool {
    forall|i: int|
        0 <= i < rows.len() ==> (#[trigger] rows[i] matches LayoutView::Text { display, .. } ==> low
            <= display.start <= display.end <= high)
}

/// Whole lines in the order of the display, between two places.
spec fn is_run<I>(m: ModelView<I>, rows: Seq<LayoutView<I>>, low: int, high: int) -> bool {
    rows_are_whole(m, rows) && rows_in_order(rows) && rows_between(rows, low, high)
}

proof fn lemma_run_together<I>(
    m: ModelView<I>,
    a: Seq<LayoutView<I>>,
    b: Seq<LayoutView<I>>,
    low: int,
    cut: int,
    from: int,
    high: int,
)
    requires
        is_run(m, a, low, cut),
        is_run(m, b, from, high),
        low <= cut <= from <= high,
    ensures
        is_run(m, a + b, low, high),
{
    let both = a + b;
    assert forall|i: int| 0 <= i < both.len() implies both[i] == (if i < a.len() {
        a[i]
    } else {
        b[i - a.len()]
    }) by {}
    assert forall|i: int| 0 <= i < both.len() implies (#[trigger] both[i] matches LayoutView::Text {
        display,
        ..
    } ==> low <= display.start <= display.end <= high && line_begins(m, display.start as int)
        && line_stops(m, display.end as int)) by {
        if i < a.len() {
            assert(both[i] == a[i]);
        } else {
            assert(both[i] == b[i - a.len()]);
        }
    }
    assert forall|i: int, j: int|
        #![trigger both[i], both[j]]
        0 <= i < j < both.len() implies (both[i] matches LayoutView::Text { display: x, .. } && (
    both[j] matches LayoutView::Text { display: y, .. } ==> x.end <= y.start) || !(
    both[i] is Text)) by {
        if j < a.len() {
            assert(both[i] == a[i] && both[j] == a[j]);
        } else if i >= a.len() {
            assert(both[i] == b[i - a.len()] && both[j] == b[j - a.len()]);
        } else {
            assert(both[i] == a[i] && both[j] == b[j - a.len()]);
        }
    }
}

proof fn lemma_line_found(bytes: Seq<u8>, from: int, to: int)
    requires
        from <= to,
    ensures
        from <= line_end(bytes, from, to) <= to,
        line_end(bytes, from, to) < to ==> bytes[line_end(bytes, from, to)] == 0x0a,
    decreases to - from,
{
    if from < to && bytes[from] != 0x0a {
        lemma_line_found(bytes, from + 1, to);
    }
}

proof fn lemma_text_run<I>(m: ModelView<I>, display: (int, int), segment: (int, int), tail: bool)
    requires
        m.display().len() <= usize::MAX,
        0 <= display.0 <= display.1 <= m.display().len(),
        line_begins(m, display.0),
        line_stops(m, display.1),
    ensures
        is_run(m, m.text_items(display, segment, tail), display.0, display.1),
    decreases display.1 - display.0,
{
    let rows = m.text_items(display, segment, tail);
    lemma_line_found(m.display(), display.0, display.1);
    let end = line_end(m.display(), display.0, display.1);
    if end < display.1 {
        let first = seq![m.text_item((display.0, end), segment)];
        let rest = m.text_items((end + 1, display.1), segment, tail);
        lemma_text_run(m, (end + 1, display.1), segment, tail);
        assert(is_run(m, first, display.0, end));
        lemma_run_together(m, first, rest, display.0, end, end + 1, display.1);
    }
}

proof fn lemma_rows_run<I>(m: ModelView<I>, region: int, block: int, display: int, source: int)
    requires
        m.wf(),
        m.display().len() <= usize::MAX,
        0 <= region <= m.regions.len(),
        0 <= block,
        0 <= source <= m.bytes.len(),
        m.projection.outside(source),
        display == m.projection.shown_at(source),
        0 <= display <= m.display().len(),
        line_begins(m, display),
        region < m.regions.len() ==> source <= m.regions[region].start(),
    ensures
        is_run(
            m,
            m.rows_from(region, block, display, source),
            display,
            m.display().len() as int,
        ),
    decreases m.regions.len() - region,
{
    let whole = m.display().len() as int;
    if region >= m.regions.len() {
        lemma_text_run(m, (display, whole), (source, m.bytes.len() as int), true);
    } else {
        let r = m.regions[region];
        assert(r.start() <= r.end() <= m.bytes.len());
        if region + 1 < m.regions.len() {
            assert(r.end() <= m.regions[region + 1].start());
        }
        if !m.region_is_block(region, block) && !m.region_is_gap(region) {
            lemma_rows_run(m, region + 1, block, display, source);
        } else {
            let here = m.region_is_block(region, block);
            let next = if here {
                block + 1
            } else {
                block
            };
            lemma_row_edges(m, region, block, source);
            lemma_no_place(m, region, block);
            let start = m.shown(r.start(), Affinity::Before);
            let after = m.shown(r.end(), Affinity::After);
            assert(is_broken_at(m, start)) by {
                assert(m.projection.shown_at(m.regions[region].start()) == start);
            }
            let text = m.text_items((display, start), (source, r.start()), false);
            let first = m.region_rows(region, here, display, source);
            let rest = m.rows_from(region + 1, next, after, r.end());
            lemma_text_run(m, (display, start), (source, r.start()), false);
            lemma_rows_run(m, region + 1, next, after, r.end());
            let own = seq![first.last()];
            assert(first =~= text + own);
            assert(is_run(m, own, start, start));
            lemma_run_together(m, text, own, display, start, start, start);
            lemma_run_together(m, first, rest, display, start, after, whole);
        }
    }
}

proof fn lemma_run_with_anchored<I>(
    m: ModelView<I>,
    rows: Seq<LayoutView<I>>,
    count: int,
    low: int,
    high: int,
)
    requires
        is_run(m, rows, low, high),
    ensures
        is_run(m, m.with_anchored(rows, count), low, high),
    decreases count,
{
    if count > 0 {
        lemma_run_with_anchored(m, rows, count - 1, low, high);
        let before = m.with_anchored(rows, count - 1);
        let after = m.with_anchored(rows, count);
        if let Ok((source, display)) = row_in(
            m.bytes,
            m.regions,
            m.projection,
            m.anchored[count - 1],
        ) {
            lemma_first_where(before, row_behind(source, display), 0);
            let at = row_index(before, source, display);
            assert forall|i: int| 0 <= i < after.len() implies (
            #[trigger] after[i] matches LayoutView::Text { display, .. } ==> low <= display.start
                <= display.end <= high && line_begins(m, display.start as int) && line_stops(
                m,
                display.end as int,
            )) by {
                if i < at {
                    assert(after[i] == before[i]);
                } else if i > at {
                    assert(after[i] == before[i - 1]);
                }
            }
            assert forall|i: int, j: int|
                #![trigger after[i], after[j]]
                0 <= i < j < after.len() implies (after[i] matches LayoutView::Text {
                display: x,
                ..
            } && (after[j] matches LayoutView::Text { display: y, .. } ==> x.end <= y.start) || !(
            after[i] is Text)) by {
                let x = if i < at {
                    i
                } else {
                    i - 1
                };
                let y = if j < at {
                    j
                } else {
                    j - 1
                };
                if i != at && j != at {
                    assert(after[i] == before[x] && after[j] == before[y]);
                }
            }
        }
    }
}

/// The rows of text of a document are whole lines of its display, one behind
/// the other: each begins and ends where a line does, or where a block or an
/// empty region breaks the text.
pub proof fn law_rows_are_whole_lines_in_order<I>(m: ModelView<I>)
    requires
        m.wf(),
        m.display().len() <= usize::MAX,
    ensures
        rows_are_whole(m, m.layout()),
        rows_in_order(m.layout()),
{
    lemma_shown_first(m.projection);
    lemma_rendered_len(m.bytes, m.projection);
    lemma_rows_run(m, 0, 0, 0, 0);
    lemma_run_with_anchored(
        m,
        m.rows_from(0, 0, 0, 0),
        m.anchored.len() as int,
        0,
        m.display().len() as int,
    );
}

// ---------------------------------------------------------------------------
// What has a row
// ---------------------------------------------------------------------------

/// A block has a row.
pub open spec fn has_block_row<I>(rows: Seq<LayoutView<I>>, id: I) -> bool {
    exists|i: int|
        0 <= i < rows.len() && (#[trigger] rows[i] matches LayoutView::Block { id: shown, .. }
            && shown == id)
}

/// An anchored block has a row.
pub open spec fn has_anchored_row<I>(rows: Seq<LayoutView<I>>, id: I, at: int) -> bool {
    exists|i: int|
        0 <= i < rows.len() && (#[trigger] rows[i] matches LayoutView::AnchoredBlock {
            id: shown,
            source,
        } && shown == id && source == at)
}

proof fn lemma_block_rows<I>(
    m: ModelView<I>,
    region: int,
    block: int,
    display: int,
    source: int,
    b: int,
)
    requires
        0 <= region <= m.regions.len(),
        0 <= block <= b < m.blocks_until(region, block, m.regions.len() as int),
    ensures
        has_block_row(m.rows_from(region, block, display, source), m.blocks[b].spec_id()),
    decreases m.regions.len() - region,
{
    let id = m.blocks[b].spec_id();
    if region < m.regions.len() {
        let r = m.regions[region];
        if !m.region_is_block(region, block) && !m.region_is_gap(region) {
            lemma_block_rows(m, region + 1, block, display, source, b);
        } else {
            let here = m.region_is_block(region, block);
            let next = if here {
                block + 1
            } else {
                block
            };
            let first = m.region_rows(region, here, display, source);
            let after = m.shown(r.end(), Affinity::After);
            let rest = m.rows_from(region + 1, next, after, r.end());
            let rows = first + rest;
            if here && b == block {
                assert(rows[first.len() - 1] == first.last());
            } else {
                lemma_block_rows(m, region + 1, next, after, r.end(), b);
                let i = choose|i: int|
                    0 <= i < rest.len() && (#[trigger] rest[i] matches LayoutView::Block {
                        id: shown,
                        ..
                    } && shown == id);
                assert(rows[first.len() + i] == rest[i]);
            }
        }
    }
}

proof fn lemma_rows_kept<I>(m: ModelView<I>, rows: Seq<LayoutView<I>>, count: int)
    requires
        0 <= count <= m.anchored.len(),
    ensures
        forall|id: I| has_block_row(rows, id) ==> #[trigger] has_block_row(
            m.with_anchored(rows, count),
            id,
        ),
        forall|k: int|
            0 <= k < count ==> (row_in(
                m.bytes,
                m.regions,
                m.projection,
                #[trigger] m.anchored[k],
            ) matches Ok((source, _)) ==> has_anchored_row(
                m.with_anchored(rows, count),
                m.anchored[k].spec_id(),
                source as usize as int,
            )),
    decreases count,
{
    if count > 0 {
        lemma_rows_kept(m, rows, count - 1);
        let before = m.with_anchored(rows, count - 1);
        let after = m.with_anchored(rows, count);
        let block = m.anchored[count - 1];
        if let Ok((source, display)) = row_in(m.bytes, m.regions, m.projection, block) {
            lemma_first_where(before, row_behind(source, display), 0);
            let at = row_index(before, source, display);
            assert(after[at] == LayoutView::AnchoredBlock {
                id: block.spec_id(),
                source: source as usize,
            });
            assert(has_anchored_row(after, block.spec_id(), source as usize as int));
            assert forall|id: I| has_block_row(rows, id) implies #[trigger] has_block_row(
                after,
                id,
            ) by {
                assert(has_block_row(before, id));
                let i = choose|i: int|
                    0 <= i < before.len() && (#[trigger] before[i] matches LayoutView::Block {
                        id: shown,
                        ..
                    } && shown == id);
                assert(after[if i < at {
                    i
                } else {
                    i + 1
                }] == before[i]);
            }
            assert forall|k: int| 0 <= k < count implies (row_in(
                m.bytes,
                m.regions,
                m.projection,
                #[trigger] m.anchored[k],
            ) matches Ok((source, _)) ==> has_anchored_row(
                after,
                m.anchored[k].spec_id(),
                source as usize as int,
            )) by {
                if k < count - 1 {
                    if let Ok((there, _)) = row_in(
                        m.bytes,
                        m.regions,
                        m.projection,
                        m.anchored[k],
                    ) {
                        let id = m.anchored[k].spec_id();
                        assert(has_anchored_row(before, id, there as usize as int));
                        let i = choose|i: int|
                            0 <= i < before.len() && (
                            #[trigger] before[i] matches LayoutView::AnchoredBlock {
                                id: shown,
                                source,
                            } && shown == id && source == there as usize as int);
                        assert(after[if i < at {
                            i
                        } else {
                            i + 1
                        }] == before[i]);
                    }
                }
            }
        }
    }
}

/// Every block has a row, and so has every anchored block whose place can be
/// found: it tells the offset that its position resolves to.
pub proof fn law_blocks_have_rows<I>(m: ModelView<I>)
    requires
        m.wf(),
    ensures
        forall|b: int|
            0 <= b < m.blocks.len() ==> has_block_row(
                m.layout(),
                (#[trigger] m.blocks[b]).spec_id(),
            ),
        forall|k: int|
            0 <= k < m.anchored.len() ==> (row_in(
                m.bytes,
                m.regions,
                m.projection,
                #[trigger] m.anchored[k],
            ) matches Ok((source, _)) ==> has_anchored_row(
                m.layout(),
                m.anchored[k].spec_id(),
                source as usize as int,
            )),
{
    let rows = m.rows_from(0, 0, 0, 0);
    let len = m.bytes.len() as int;
    lemma_rows_kept(m, rows, m.anchored.len() as int);
    assert forall|b: int| 0 <= b < m.blocks.len() implies has_block_row(
        m.layout(),
        (#[trigger] m.blocks[b]).spec_id(),
    ) by {
        assert forall|j: int| 0 <= j < m.blocks.len() implies (#[trigger] m.blocks[j]).end()
            <= len by {
            let at = lemma_block_at(m, j);
        }
        let at = lemma_block_at(m, 0);
        if at.0 > 0 {
            assert(m.regions[0].end() <= m.regions[at.0].start());
            assert(m.regions[0].start() <= m.regions[0].end());
        }
        lemma_blocks_until(m, m.regions.len() as int, len, 0, 0, m.blocks.len() as int);
        lemma_block_rows(m, 0, 0, 0, 0, b);
        assert(has_block_row(rows, m.blocks[b].spec_id()));
    }
}

// ---------------------------------------------------------------------------
// Where anchored blocks stand
// ---------------------------------------------------------------------------

/// A row of text or of a block that is at a place or behind it.
pub open spec fn is_at_or_behind<I>(item: LayoutView<I>, source: int, display: int) -> bool {
    match item {
        LayoutView::Text { display: shown, source: part, .. } => shown.start >= display && part.end
            >= source,
        LayoutView::Block { source: part, .. } => part.start >= source,
        _ => false,
    }
}

/// The next row of text or of a block behind a row.
pub open spec fn is_next_row<I>(rows: Seq<LayoutView<I>>, i: int, j: int) -> bool {
    &&& 0 <= i < j < rows.len()
    &&& rows[j] is Text || rows[j] is Block
    &&& forall|l: int| i < l < j ==> #[trigger] rows[l] is AnchoredBlock
}

/// A row stands at a place: no row before it is at the place or behind it, but
/// the next row is.
pub open spec fn stands_at<I>(
    rows: Seq<LayoutView<I>>,
    i: int,
    source: int,
    display: int,
) -> bool {
    &&& 0 <= i < rows.len()
    &&& forall|j: int| 0 <= j < i ==> !is_at_or_behind(#[trigger] rows[j], source, display)
    &&& forall|j: int| #[trigger]
        is_next_row(rows, i, j) ==> is_at_or_behind(rows[j], source, display)
}

/// An anchored block stands at its place.
pub open spec fn anchored_stands<I>(
    rows: Seq<LayoutView<I>>,
    id: I,
    source: int,
    display: int,
) -> bool {
    exists|i: int|
        #![trigger rows[i]]
        stands_at(rows, i, source, display) && rows[i] == (LayoutView::AnchoredBlock {
            id,
            source: source as usize,
        })
}

/// Another anchored block among rows leaves them where they stand.
proof fn lemma_still_stands<I>(
    rows: Seq<LayoutView<I>>,
    at: int,
    item: LayoutView<I>,
    i: int,
    source: int,
    display: int,
)
    requires
        stands_at(rows, i, source, display),
        0 <= at <= rows.len(),
        item is AnchoredBlock,
    ensures
        ({
            let there = if i < at {
                i
            } else {
                i + 1
            };
            stands_at(rows.insert(at, item), there, source, display) && rows.insert(
                at,
                item,
            )[there] == rows[i]
        }),
{
    let more = rows.insert(at, item);
    let there = if i < at {
        i
    } else {
        i + 1
    };
    assert forall|j: int| 0 <= j < there implies !is_at_or_behind(
        #[trigger] more[j],
        source,
        display,
    ) by {
        if j < at {
            assert(more[j] == rows[j]);
        } else if j > at {
            assert(more[j] == rows[j - 1]);
        }
    }
    assert forall|j: int| #[trigger] is_next_row(more, there, j) implies is_at_or_behind(
        more[j],
        source,
        display,
    ) by {
        assert(j != at);
        let k = if j < at {
            j
        } else {
            j - 1
        };
        assert(more[j] == rows[k]);
        assert forall|l: int| i < l < k implies #[trigger] rows[l] is AnchoredBlock by {
            let x = if l < at {
                l
            } else {
                l + 1
            };
            assert(more[x] == rows[l]);
        }
        assert(is_next_row(rows, i, k));
    }
}

proof fn lemma_anchored_stand<I>(m: ModelView<I>, rows: Seq<LayoutView<I>>, count: int, k: int)
    requires
        0 <= k < count <= m.anchored.len(),
        row_in(m.bytes, m.regions, m.projection, m.anchored[k]) is Ok,
    ensures
        ({
            let (source, display) = row_in(
                m.bytes,
                m.regions,
                m.projection,
                m.anchored[k],
            )->Ok_0;
            anchored_stands(
                m.with_anchored(rows, count),
                m.anchored[k].spec_id(),
                source,
                display,
            )
        }),
    decreases count,
{
    let before = m.with_anchored(rows, count - 1);
    let after = m.with_anchored(rows, count);
    let block = m.anchored[count - 1];
    let id = m.anchored[k].spec_id();
    let (source, display) = row_in(m.bytes, m.regions, m.projection, m.anchored[k])->Ok_0;
    if k < count - 1 {
        lemma_anchored_stand(m, rows, count - 1, k);
        let own = LayoutView::AnchoredBlock { id, source: source as usize };
        let i = choose|i: int|
            #![trigger before[i]]
            stands_at(before, i, source, display) && before[i] == own;
        if let Ok((there, shown)) = row_in(m.bytes, m.regions, m.projection, block) {
            lemma_first_where(before, row_behind(there, shown), 0);
            let at = row_index(before, there, shown);
            let item = LayoutView::AnchoredBlock { id: block.spec_id(), source: there as usize };
            lemma_still_stands(before, at, item, i, source, display);
            assert(after[if i < at {
                i
            } else {
                i + 1
            }] == own);
        } else {
            assert(after == before);
            assert(after[i] == own);
        }
    } else {
        let test = row_behind::<I>(source, display);
        lemma_first_where(before, test, 0);
        let at = row_index(before, source, display);
        assert forall|j: int| 0 <= j < at implies !is_at_or_behind(
            #[trigger] after[j],
            source,
            display,
        ) by {
            assert(after[j] == before[j]);
            assert(!test(before[j]));
        }
        assert forall|j: int| #[trigger] is_next_row(after, at, j) implies is_at_or_behind(
            after[j],
            source,
            display,
        ) by {
            if at < before.len() {
                assert(test(before[at]));
                assert(after[at + 1] == before[at]);
                if j > at + 1 {
                    assert(after[at + 1] is AnchoredBlock);
                }
            }
        }
        assert(after[at] == (LayoutView::AnchoredBlock { id, source: source as usize }));
    }
}

/// An anchored block stands before the first row of text or of a block at its
/// place or behind it: no row before it is there yet, and the next row is.
pub proof fn law_anchored_blocks_stand_at_their_place<I>(
    m: ModelView<I>,
    k: int,
    source: int,
    display: int,
)
    requires
        0 <= k < m.anchored.len(),
        m.resolve_position(m.anchored[k].spec_position()) == Ok::<usize, PositionError>(
            source as usize,
        ),
        0 <= source <= usize::MAX,
        m.projection.source_to_display(source, m.anchored[k].spec_position().spec_affinity())
            == Some(display),
        follows_line(m.display(), display),
    ensures
        anchored_stands(m.layout(), m.anchored[k].spec_id(), source, display),
{
    lemma_anchored_stand(m, m.rows_from(0, 0, 0, 0), m.anchored.len() as int, k);
}

} // verus!
