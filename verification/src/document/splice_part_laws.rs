//! What a replaced fragment leaves of the styles and the anchored blocks of a
//! document.

use crate::document::anchored_block::AnchoredBlock;
use crate::document::event::SnapshotView;
use crate::document::host_laws::{lemma_ready, lemma_recaptured_text};
use crate::document::position::{DocumentPosition, DocumentRevision};
use crate::document::region::DocumentRegion;
use crate::document::resolve::{inline_sources, paragraph_sources};
use crate::document::resolve_laws::ranges_in_order;
use crate::document::splice_lemmas::{lemma_fragment_ends, splice_ready};
use crate::document::splice_view::{node_within, retained_rows};
use crate::document::state_view::StateView;
use crate::document::style::{
    larger, shifted_inline, shifted_paragraphs, DocumentInlineStyle, DocumentParagraphStyle,
    StylesView,
};
use crate::scan::lemma_first_where;
use crate::text::starts_clean;
use std::ops::Range;
use vstd::prelude::*;

verus! {

/// How far a style is moved when `start..stop` is replaced by `length` bytes:
/// not at all before that, and with the text behind it. A style in between
/// goes.
pub open spec fn style_moves(
    source: Range<usize>,
    start: int,
    stop: int,
    length: int,
) -> Option<int> {
    if source.end <= start {
        Some(0)
    } else if source.start >= stop {
        Some(length - (stop - start))
    } else {
        None
    }
}

/// A paragraph style is another, moved.
pub open spec fn paragraph_is_moved(
    a: DocumentParagraphStyle,
    b: DocumentParagraphStyle,
    delta: int,
) -> bool {
    &&& b.spec_source().start == a.spec_source().start + delta
    &&& b.spec_source().end == a.spec_source().end + delta
    &&& b.spec_text_style() == a.spec_text_style()
}

/// An inline style is another, moved.
pub open spec fn inline_is_moved(
    a: DocumentInlineStyle,
    b: DocumentInlineStyle,
    delta: int,
) -> bool {
    &&& b.spec_source().start == a.spec_source().start + delta
    &&& b.spec_source().end == a.spec_source().end + delta
    &&& b.spec_highlight() == a.spec_highlight()
    &&& b.spec_font_family() == a.spec_font_family()
}

/// A paragraph style is found among others, moved.
pub open spec fn has_paragraph(
    styles: Seq<DocumentParagraphStyle>,
    style: DocumentParagraphStyle,
    delta: int,
) -> bool {
    exists|j: int| 0 <= j < styles.len() && paragraph_is_moved(style, #[trigger] styles[j], delta)
}

/// An inline style is found among others, moved.
pub open spec fn has_inline(
    styles: Seq<DocumentInlineStyle>,
    style: DocumentInlineStyle,
    delta: int,
) -> bool {
    exists|j: int| 0 <= j < styles.len() && inline_is_moved(style, #[trigger] styles[j], delta)
}

/// Styles outside the part that is replaced are kept with their text, and
/// those of the replacement come to it.
pub open spec fn styles_follow(
    before: StylesView,
    fresh: StylesView,
    after: StylesView,
    start: int,
    stop: int,
    length: int,
) -> bool {
    &&& forall|i: int|
        0 <= i < before.paragraphs.len() ==> (style_moves(
            (#[trigger] before.paragraphs[i]).spec_source(),
            start,
            stop,
            length,
        ) matches Some(delta) ==> has_paragraph(after.paragraphs, before.paragraphs[i], delta))
    &&& forall|i: int|
        0 <= i < fresh.paragraphs.len() ==> has_paragraph(
            after.paragraphs,
            #[trigger] fresh.paragraphs[i],
            start,
        )
    &&& forall|i: int|
        0 <= i < before.inline.len() ==> (style_moves(
            (#[trigger] before.inline[i]).spec_source(),
            start,
            stop,
            length,
        ) matches Some(delta) ==> has_inline(after.inline, before.inline[i], delta))
    &&& forall|i: int|
        0 <= i < fresh.inline.len() ==> has_inline(
            after.inline,
            #[trigger] fresh.inline[i],
            start,
        )
}

/// There are no more styles than those that are kept and those that come.
pub open spec fn styles_are_few(before: StylesView, fresh: StylesView, after: StylesView) -> bool {
    &&& after.paragraphs.len() <= before.paragraphs.len() + fresh.paragraphs.len()
    &&& after.inline.len() <= before.inline.len() + fresh.inline.len()
}

/// Where ranges in order begin to lie behind `start`, and behind `stop`.
proof fn lemma_cuts(
    ranges: Seq<Range<usize>>,
    len: int,
    head: int,
    tail: int,
    start: int,
    stop: int,
)
    requires
        ranges_in_order(ranges, len),
        start <= stop,
        0 <= head <= ranges.len(),
        0 <= tail <= ranges.len(),
        forall|i: int| 0 <= i < head ==> (#[trigger] ranges[i]).end <= start,
        head < ranges.len() ==> ranges[head].end > start,
        forall|i: int| 0 <= i < tail ==> (#[trigger] ranges[i]).start < stop,
        tail < ranges.len() ==> ranges[tail].start >= stop,
    ensures
        forall|i: int| head <= i < ranges.len() ==> (#[trigger] ranges[i]).end > start,
        forall|i: int| tail <= i < ranges.len() ==> (#[trigger] ranges[i]).start >= stop,
{
    assert forall|i: int| head <= i < ranges.len() implies (#[trigger] ranges[i]).end > start by {
        if head < i {
            assert(ranges[head].end <= ranges[i].start);
        }
    }
    assert forall|i: int| tail <= i < ranges.len() implies (#[trigger] ranges[i]).start
        >= stop by {
        if tail < i {
            assert(ranges[tail].end <= ranges[i].start);
            assert(ranges[tail].start <= ranges[tail].end);
        }
    }
}

proof fn lemma_paragraphs_follow(
    before: StylesView,
    fresh: StylesView,
    start: int,
    stop: int,
    length: int,
    len: int,
)
    requires
        0 <= start <= stop <= len,
        0 <= length,
        len + length <= isize::MAX,
        ranges_in_order(paragraph_sources(before.paragraphs), len),
        forall|i: int|
            0 <= i < fresh.paragraphs.len() ==> (
            #[trigger] fresh.paragraphs[i]).spec_source().start
                <= fresh.paragraphs[i].spec_source().end <= length,
    ensures
        ({
            let after = before.spliced(start, stop, length, fresh);
            &&& forall|i: int|
                0 <= i < before.paragraphs.len() ==> (style_moves(
                    (#[trigger] before.paragraphs[i]).spec_source(),
                    start,
                    stop,
                    length,
                ) matches Some(delta) ==> has_paragraph(
                    after.paragraphs,
                    before.paragraphs[i],
                    delta,
                ))
            &&& forall|i: int|
                0 <= i < fresh.paragraphs.len() ==> has_paragraph(
                    after.paragraphs,
                    #[trigger] fresh.paragraphs[i],
                    start,
                )
            &&& after.paragraphs.len() <= before.paragraphs.len() + fresh.paragraphs.len()
        }),
{
    let all = before.paragraphs;
    let sources = paragraph_sources(all);
    let ends = |s: DocumentParagraphStyle| s.spec_source().end > start;
    let starts = |s: DocumentParagraphStyle| s.spec_source().start >= stop;
    lemma_first_where(all, ends, 0);
    lemma_first_where(all, starts, 0);
    let head = before.paragraph_from(start);
    let tail = before.paragraph_to(stop);
    assert forall|i: int| 0 <= i < all.len() implies #[trigger] sources[i]
        == all[i].spec_source() by {}
    assert forall|i: int| 0 <= i < head implies (#[trigger] sources[i]).end <= start by {
        assert(!ends(all[i]));
    }
    assert forall|i: int| 0 <= i < tail implies (#[trigger] sources[i]).start < stop by {
        assert(!starts(all[i]));
    }
    lemma_cuts(sources, len, head, tail, start, stop);
    let from = larger(head, tail);
    let delta = length - (stop - start);
    let front = all.subrange(0, head);
    let middle = shifted_paragraphs(fresh.paragraphs, start);
    let rest = all.subrange(from, all.len() as int);
    let behind = shifted_paragraphs(rest, delta);
    let after = front + middle + behind;
    assert(before.spliced(start, stop, length, fresh).paragraphs == after);
    assert forall|i: int| 0 <= i < all.len() implies (style_moves(
        (#[trigger] all[i]).spec_source(),
        start,
        stop,
        length,
    ) matches Some(moved) ==> has_paragraph(after, all[i], moved)) by {
        assert(sources[i] == all[i].spec_source());
        if i < head {
            assert(after[i] == all[i]);
            assert(paragraph_is_moved(all[i], after[i], 0));
        } else if i >= from {
            let j = head + fresh.paragraphs.len() + (i - from);
            assert(after[j] == behind[i - from]);
            assert(rest[i - from] == all[i]);
            assert(paragraph_is_moved(all[i], after[j], delta));
        }
    }
    assert forall|i: int| 0 <= i < fresh.paragraphs.len() implies has_paragraph(
        after,
        #[trigger] fresh.paragraphs[i],
        start,
    ) by {
        assert(after[head + i] == middle[i]);
        assert(paragraph_is_moved(fresh.paragraphs[i], after[head + i], start));
    }
}

proof fn lemma_inline_follow(
    before: StylesView,
    fresh: StylesView,
    start: int,
    stop: int,
    length: int,
    len: int,
)
    requires
        0 <= start <= stop <= len,
        0 <= length,
        len + length <= isize::MAX,
        ranges_in_order(inline_sources(before.inline), len),
        forall|i: int|
            0 <= i < fresh.inline.len() ==> (#[trigger] fresh.inline[i]).spec_source().start
                <= fresh.inline[i].spec_source().end <= length,
    ensures
        ({
            let after = before.spliced(start, stop, length, fresh);
            &&& forall|i: int|
                0 <= i < before.inline.len() ==> (style_moves(
                    (#[trigger] before.inline[i]).spec_source(),
                    start,
                    stop,
                    length,
                ) matches Some(delta) ==> has_inline(after.inline, before.inline[i], delta))
            &&& forall|i: int|
                0 <= i < fresh.inline.len() ==> has_inline(
                    after.inline,
                    #[trigger] fresh.inline[i],
                    start,
                )
            &&& after.inline.len() <= before.inline.len() + fresh.inline.len()
        }),
{
    let all = before.inline;
    let sources = inline_sources(all);
    let ends = |s: DocumentInlineStyle| s.spec_source().end > start;
    let starts = |s: DocumentInlineStyle| s.spec_source().start >= stop;
    lemma_first_where(all, ends, 0);
    lemma_first_where(all, starts, 0);
    let head = before.inline_from(start);
    let tail = before.inline_to(stop);
    assert forall|i: int| 0 <= i < all.len() implies #[trigger] sources[i]
        == all[i].spec_source() by {}
    assert forall|i: int| 0 <= i < head implies (#[trigger] sources[i]).end <= start by {
        assert(!ends(all[i]));
    }
    assert forall|i: int| 0 <= i < tail implies (#[trigger] sources[i]).start < stop by {
        assert(!starts(all[i]));
    }
    lemma_cuts(sources, len, head, tail, start, stop);
    let from = larger(head, tail);
    let delta = length - (stop - start);
    let front = all.subrange(0, head);
    let middle = shifted_inline(fresh.inline, start);
    let rest = all.subrange(from, all.len() as int);
    let behind = shifted_inline(rest, delta);
    let after = front + middle + behind;
    assert(before.spliced(start, stop, length, fresh).inline == after);
    assert forall|i: int| 0 <= i < all.len() implies (style_moves(
        (#[trigger] all[i]).spec_source(),
        start,
        stop,
        length,
    ) matches Some(moved) ==> has_inline(after, all[i], moved)) by {
        assert(sources[i] == all[i].spec_source());
        if i < head {
            assert(after[i] == all[i]);
            assert(inline_is_moved(all[i], after[i], 0));
        } else if i >= from {
            let j = head + fresh.inline.len() + (i - from);
            assert(after[j] == behind[i - from]);
            assert(rest[i - from] == all[i]);
            assert(inline_is_moved(all[i], after[j], delta));
        }
    }
    assert forall|i: int| 0 <= i < fresh.inline.len() implies has_inline(
        after,
        #[trigger] fresh.inline[i],
        start,
    ) by {
        assert(after[head + i] == middle[i]);
        assert(inline_is_moved(fresh.inline[i], after[head + i], start));
    }
}

/// A row of an anchored block is retained just if its node is.
proof fn lemma_retained<I>(
    anchored: Seq<AnchoredBlock<I>>,
    regions: Seq<DocumentRegion<I>>,
    from: int,
    to: int,
)
    ensures
        forall|b: AnchoredBlock<I>| #[trigger]
            retained_rows(anchored, regions, from, to).contains(b) <==> anchored.contains(b)
                && !node_within(regions, from, to, b.spec_position().spec_node_id()),
    decreases anchored.len(),
{
    let kept = retained_rows(anchored, regions, from, to);
    if anchored.len() > 0 {
        let front = anchored.drop_last();
        let last = anchored.last();
        let before = retained_rows(front, regions, from, to);
        lemma_retained(front, regions, from, to);
        assert(anchored =~= front.push(last));
        assert forall|b: AnchoredBlock<I>| #[trigger] kept.contains(b) <==> anchored.contains(b)
            && !node_within(regions, from, to, b.spec_position().spec_node_id()) by {
            assert(anchored.contains(b) <==> front.contains(b) || b == last) by {
                if front.contains(b) {
                    let i = choose|i: int| 0 <= i < front.len() && front[i] == b;
                    assert(anchored[i] == b);
                }
                if b == last {
                    assert(anchored[anchored.len() - 1] == b);
                }
                if anchored.contains(b) {
                    let i = choose|i: int| 0 <= i < anchored.len() && anchored[i] == b;
                    if i < front.len() {
                        assert(front[i] == b);
                    }
                }
            }
            assert(before.push(last).contains(b) <==> before.contains(b) || b == last) by {
                let more = before.push(last);
                if before.contains(b) {
                    let i = choose|i: int| 0 <= i < before.len() && before[i] == b;
                    assert(more[i] == b);
                }
                if b == last {
                    assert(more[before.len() as int] == b);
                }
                if more.contains(b) {
                    let i = choose|i: int| 0 <= i < more.len() && more[i] == b;
                    if i < before.len() {
                        assert(before[i] == b);
                    }
                }
            }
        }
    } else {
        assert(kept.len() == 0);
    }
}

/// A splice keeps the styles of the text around its nodes, with their text,
/// and brings those of the replacement. It keeps the anchored blocks of other
/// nodes and brings those of the replacement.
pub proof fn law_splices_keep_what_is_around<I>(
    s: StateView<I>,
    revision: DocumentRevision,
    first: Option<I>,
    end: Option<I>,
    snapshot: SnapshotView<I>,
    top: Option<DocumentPosition<I>>,
)
    requires
        s.wf(),
        starts_clean(snapshot.text),
        snapshot.projection.valid(),
        s.model.bytes.len() + snapshot.text.len() <= isize::MAX,
        s.splice_fault(revision, first, end, snapshot) is None,
        ranges_in_order(
            paragraph_sources(s.model.styles.paragraphs),
            s.model.bytes.len() as int,
        ),
        ranges_in_order(inline_sources(s.model.styles.inline), s.model.bytes.len() as int),
        ranges_in_order(
            paragraph_sources(snapshot.styles.paragraphs),
            snapshot.text.len() as int,
        ),
        ranges_in_order(inline_sources(snapshot.styles.inline), snapshot.text.len() as int),
    ensures
        ({
            let from = s.model.fragment_edge(first)->0;
            let to = s.model.fragment_edge(end)->0;
            let after = s.spliced(first, end, snapshot, top).model;
            &&& styles_follow(
                s.model.styles,
                snapshot.styles,
                after.styles,
                s.model.fragment_start(from),
                s.model.fragment_start(to),
                snapshot.text.len() as int,
            )
            &&& styles_are_few(s.model.styles, snapshot.styles, after.styles)
            &&& forall|b: AnchoredBlock<I>| #[trigger]
                after.anchored.contains(b) <==> snapshot.anchored.contains(b) || (
                s.model.anchored.contains(b) && !node_within(
                    s.model.regions,
                    from,
                    to,
                    b.spec_position().spec_node_id(),
                ))
        }),
{
    let m = s.model;
    let from = m.fragment_edge(first)->0;
    let to = m.fragment_edge(end)->0;
    let c = StateView::snapshot_model(snapshot);
    let kept = s.keeping_viewport(top).model;
    lemma_ready(s, revision, first, end, snapshot);
    assert(0 <= from <= to <= m.regions.len() && m.wf()) by {
        reveal(splice_ready);
    }
    lemma_fragment_ends(m, from, to);
    let start = m.fragment_start(from);
    let stop = m.fragment_start(to);
    let length = snapshot.text.len() as int;
    let paragraphs = paragraph_sources(snapshot.styles.paragraphs);
    let inline = inline_sources(snapshot.styles.inline);
    assert forall|i: int| 0 <= i < snapshot.styles.paragraphs.len() implies (
    #[trigger] snapshot.styles.paragraphs[i]).spec_source().start
        <= snapshot.styles.paragraphs[i].spec_source().end <= length by {
        assert(paragraphs[i] == snapshot.styles.paragraphs[i].spec_source());
    }
    assert forall|i: int| 0 <= i < snapshot.styles.inline.len() implies (
    #[trigger] snapshot.styles.inline[i]).spec_source().start
        <= snapshot.styles.inline[i].spec_source().end <= length by {
        assert(inline[i] == snapshot.styles.inline[i].spec_source());
    }
    lemma_paragraphs_follow(m.styles, snapshot.styles, start, stop, length, m.bytes.len() as int);
    lemma_inline_follow(m.styles, snapshot.styles, start, stop, length, m.bytes.len() as int);
    lemma_retained(m.anchored, m.regions, from, to);
    let next = kept.fragment_model(from, to, c);
    lemma_recaptured_text(next, m.captured(m.selection), m.captured_marked());
    let after = s.spliced(first, end, snapshot, top).model;
    let retained = retained_rows(m.anchored, m.regions, from, to);
    assert(after.anchored == retained + snapshot.anchored);
    assert(after.styles == m.styles.spliced(start, stop, length, snapshot.styles));
    assert forall|b: AnchoredBlock<I>| #[trigger] after.anchored.contains(b) <==> retained.contains(
        b,
    ) || snapshot.anchored.contains(b) by {
        let all = after.anchored;
        if all.contains(b) {
            let i = choose|i: int| 0 <= i < all.len() && all[i] == b;
            if i < retained.len() {
                assert(retained[i] == b);
            } else {
                assert(snapshot.anchored[i - retained.len()] == b);
            }
        }
        if retained.contains(b) {
            let i = choose|i: int| 0 <= i < retained.len() && retained[i] == b;
            assert(all[i] == b);
        }
        if snapshot.anchored.contains(b) {
            let i = choose|i: int| 0 <= i < snapshot.anchored.len() && snapshot.anchored[i] == b;
            assert(all[retained.len() + i] == b);
        }
    }
}

} // verus!
