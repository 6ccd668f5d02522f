//! Where styles of the source are shown.

use crate::document::layout::lemma_shown_first;
use crate::document::mapping::{lemma_outside_shown, lemma_rendered_len};
use crate::document::model_view::ModelView;
use crate::document::place_laws::law_the_display_keeps_the_order;
use crate::document::position::Affinity;
use crate::document::projection::ProjectionView;
use crate::document::resolve::{
    inline_sources, paragraph_sources, resolved_inline, resolved_styles, ResolvedInlineStyle,
};
use crate::document::row_parts::lemma_shown_last;
use crate::document::seam_lemmas::{all_mapped, lemma_sides};
use crate::document::splice_view::reaches_over;
use crate::document::style::{DocumentInlineStyle, StylesView};
use crate::document::style_parts::{styles_spare, styles_within};
use crate::document::validate::lemma_projection_fits;
use std::ops::Range;
use vstd::prelude::*;

verus! {

/// A range of the display is where a range of the source is shown.
pub open spec fn shows_source(p: ProjectionView, source: Range<usize>, display: Range<usize>) -> bool {
    &&& display.start == p.place(source.start as int, Affinity::Before) as usize
    &&& display.end == p.place(source.end as int, Affinity::After) as usize
}

/// An inline style of the display is one of the source.
pub open spec fn shows_style(
    p: ProjectionView,
    style: DocumentInlineStyle,
    shown: ResolvedInlineStyle,
) -> bool {
    &&& shows_source(p, style.spec_source(), shown.spec_display())
    &&& shown.spec_highlight() == style.spec_highlight()
    &&& shown.spec_font_family() == style.spec_font_family()
}

/// Nothing of an inline style is shown.
pub open spec fn hides_style(p: ProjectionView, style: DocumentInlineStyle) -> bool {
    p.place(style.spec_source().start as int, Affinity::Before) as usize >= p.place(
        style.spec_source().end as int,
        Affinity::After,
    ) as usize
}

/// An inline style of the display is one of these of the source.
pub open spec fn comes_from(
    p: ProjectionView,
    styles: Seq<DocumentInlineStyle>,
    shown: ResolvedInlineStyle,
) -> bool {
    exists|i: int| 0 <= i < styles.len() && shows_style(p, #[trigger] styles[i], shown)
}

/// An inline style of the source is among these of the display.
pub open spec fn is_among(
    p: ProjectionView,
    style: DocumentInlineStyle,
    shown: Seq<ResolvedInlineStyle>,
) -> bool {
    exists|j: int| 0 <= j < shown.len() && shows_style(p, style, #[trigger] shown[j])
}

proof fn lemma_resolved_inline(styles: Seq<DocumentInlineStyle>, p: ProjectionView)
    ensures
        ({
            let shown = resolved_inline(styles, p);
            &&& forall|j: int|
                0 <= j < shown.len() ==> comes_from(p, styles, #[trigger] shown[j])
            &&& forall|i: int|
                0 <= i < styles.len() && !hides_style(p, #[trigger] styles[i]) ==> is_among(
                    p,
                    styles[i],
                    shown,
                )
        }),
    decreases styles.len(),
{
    if styles.len() > 0 {
        let n = styles.len() - 1;
        let front = styles.drop_last();
        let before = resolved_inline(front, p);
        let shown = resolved_inline(styles, p);
        lemma_resolved_inline(front, p);
        assert forall|j: int| 0 <= j < shown.len() implies comes_from(
            p,
            styles,
            #[trigger] shown[j],
        ) by {
            if j < before.len() {
                assert(shown[j] == before[j]);
                assert(comes_from(p, front, before[j]));
                let i = choose|i: int|
                    0 <= i < front.len() && shows_style(p, #[trigger] front[i], before[j]);
                assert(front[i] == styles[i]);
                assert(shows_style(p, styles[i], shown[j]));
            } else {
                assert(shows_style(p, styles[n], shown[j]));
            }
        }
        assert forall|i: int|
            0 <= i < styles.len() && !hides_style(p, #[trigger] styles[i]) implies is_among(
            p,
            styles[i],
            shown,
        ) by {
            if i < n {
                assert(front[i] == styles[i]);
                assert(is_among(p, front[i], before));
                let j = choose|j: int|
                    0 <= j < before.len() && shows_style(p, front[i], #[trigger] before[j]);
                assert(shown[j] == before[j]);
                assert(shows_style(p, styles[i], shown[j]));
            } else {
                assert(shows_style(p, styles[n], shown[before.len() as int]));
            }
        }
    }
}

/// Every paragraph style is shown where its source is. So is every inline
/// style of which something is shown, and there is no other.
pub proof fn law_styles_are_shown_where_their_source_is(styles: StylesView, p: ProjectionView)
    ensures
        ({
            let shown = resolved_styles(styles, p);
            &&& shown.paragraphs.len() == styles.paragraphs.len()
            &&& forall|i: int|
                0 <= i < styles.paragraphs.len() ==> {
                    &&& shows_source(
                        p,
                        styles.paragraphs[i].spec_source(),
                        (#[trigger] shown.paragraphs[i]).spec_display(),
                    )
                    &&& shown.paragraphs[i].spec_text_style()
                        == styles.paragraphs[i].spec_text_style()
                }
            &&& forall|j: int|
                0 <= j < shown.inline.len() ==> comes_from(
                    p,
                    styles.inline,
                    #[trigger] shown.inline[j],
                )
            &&& forall|i: int|
                0 <= i < styles.inline.len() && !hides_style(p, #[trigger] styles.inline[i])
                    ==> is_among(p, styles.inline[i], shown.inline)
        }),
{
    lemma_resolved_inline(styles.inline, p);
}

// ---------------------------------------------------------------------------
// Styles in the order of the source
// ---------------------------------------------------------------------------

/// Ranges of a source of some length in its order, none over another.
pub open spec fn ranges_in_order(ranges: Seq<Range<usize>>, len: int) -> bool {
    &&& forall|i: int|
        0 <= i < ranges.len() ==> (#[trigger] ranges[i]).start <= ranges[i].end <= len
    &&& forall|i: int, j: int|
        #![trigger ranges[i], ranges[j]]
        0 <= i < j < ranges.len() ==> ranges[i].end <= ranges[j].start
}

/// No range reaches over an offset.
pub open spec fn ranges_spare(ranges: Seq<Range<usize>>, seam: int) -> bool {
    forall|i: int| 0 <= i < ranges.len() ==> !reaches_over(#[trigger] ranges[i], seam)
}

proof fn lemma_place_order(p: ProjectionView, a: int, b: int, affinity: Affinity)
    requires
        p.valid(),
        0 <= a <= b <= p.source_len,
    ensures
        p.place(a, affinity) <= p.place(b, affinity),
{
    if a < b {
        law_the_display_keeps_the_order(p, a, affinity, b, affinity);
    }
}

proof fn lemma_place_within(p: ProjectionView, a: int, affinity: Affinity)
    requires
        p.valid(),
        0 <= a <= p.source_len,
    ensures
        0 <= p.place(a, affinity) <= p.display_len(),
{
    lemma_shown_first(p);
    lemma_shown_last(p);
    lemma_outside_shown(p, 0, affinity);
    lemma_outside_shown(p, p.source_len, affinity);
    lemma_place_order(p, 0, a, affinity);
    lemma_place_order(p, a, p.source_len, affinity);
}

/// Where one range of the source is shown.
proof fn lemma_shown_range(p: ProjectionView, source: Range<usize>, display: Range<usize>, seam: int)
    requires
        p.valid(),
        all_mapped(p),
        p.display_len() <= usize::MAX,
        0 <= seam <= p.source_len,
        p.outside(seam),
        source.start <= source.end <= p.source_len,
        !reaches_over(source, seam),
        shows_source(p, source, display),
    ensures
        display.start <= display.end <= p.display_len(),
        display.start == p.place(source.start as int, Affinity::Before),
        display.end == p.place(source.end as int, Affinity::After),
        display.end <= p.shown_at(seam) || display.start >= p.shown_at(seam),
{
    let a = source.start as int;
    let b = source.end as int;
    lemma_place_within(p, a, Affinity::Before);
    lemma_place_within(p, b, Affinity::After);
    lemma_sides(p, a);
    lemma_place_order(p, a, b, Affinity::After);
    lemma_outside_shown(p, seam, Affinity::Before);
    lemma_outside_shown(p, seam, Affinity::After);
    if b <= seam {
        lemma_place_order(p, b, seam, Affinity::After);
    } else {
        lemma_place_order(p, seam, a, Affinity::Before);
    }
}

proof fn lemma_shown_ranges(
    p: ProjectionView,
    a: Range<usize>,
    b: Range<usize>,
    x: Range<usize>,
    y: Range<usize>,
)
    requires
        p.valid(),
        p.display_len() <= usize::MAX,
        a.start <= a.end <= b.start <= b.end <= p.source_len,
        shows_source(p, a, x),
        shows_source(p, b, y),
    ensures
        x.start <= y.start,
        x.end <= y.end,
{
    lemma_place_within(p, a.start as int, Affinity::Before);
    lemma_place_within(p, b.start as int, Affinity::Before);
    lemma_place_within(p, a.end as int, Affinity::After);
    lemma_place_within(p, b.end as int, Affinity::After);
    lemma_place_order(p, a.start as int, b.start as int, Affinity::Before);
    lemma_place_order(p, a.end as int, b.end as int, Affinity::After);
}

proof fn lemma_inline_in_order(styles: Seq<DocumentInlineStyle>, p: ProjectionView)
    requires
        p.valid(),
        p.display_len() <= usize::MAX,
        ranges_in_order(inline_sources(styles), p.source_len),
    ensures
        ({
            let shown = resolved_inline(styles, p);
            forall|i: int, j: int|
                #![trigger shown[i], shown[j]]
                0 <= i < j < shown.len() ==> shown[i].spec_display().start
                    <= shown[j].spec_display().start && shown[i].spec_display().end
                    <= shown[j].spec_display().end
        }),
    decreases styles.len(),
{
    if styles.len() > 0 {
        let n = styles.len() - 1;
        let front = styles.drop_last();
        let before = resolved_inline(front, p);
        let shown = resolved_inline(styles, p);
        let sources = inline_sources(styles);
        let fewer = inline_sources(front);
        assert(fewer =~= sources.drop_last());
        assert forall|i: int| 0 <= i < fewer.len() implies (#[trigger] fewer[i]).start
            <= fewer[i].end <= p.source_len by {
            assert(fewer[i] == sources[i]);
        }
        assert forall|i: int, j: int|
            #![trigger fewer[i], fewer[j]]
            0 <= i < j < fewer.len() implies fewer[i].end <= fewer[j].start by {
            assert(fewer[i] == sources[i] && fewer[j] == sources[j]);
        }
        lemma_inline_in_order(front, p);
        lemma_resolved_inline(front, p);
        assert forall|i: int, j: int|
            #![trigger shown[i], shown[j]]
            0 <= i < j < shown.len() implies shown[i].spec_display().start
            <= shown[j].spec_display().start && shown[i].spec_display().end
            <= shown[j].spec_display().end by {
            assert(shown[i] == before[i]);
            if j < before.len() {
                assert(shown[j] == before[j]);
            } else {
                assert(comes_from(p, front, before[i]));
                let k = choose|k: int|
                    0 <= k < front.len() && shows_style(p, #[trigger] front[k], before[i]);
                assert(front[k] == styles[k]);
                assert(sources[k].end <= sources[n].start);
                lemma_shown_ranges(
                    p,
                    sources[k],
                    sources[n],
                    shown[i].spec_display(),
                    shown[j].spec_display(),
                );
            }
        }
    }
}

/// Styles that the host gives in the order of the source stand in the order
/// of the display, within it, and none reaches over a place that none of them
/// reaches over in the source.
pub proof fn law_styles_in_order_stand_apart<I>(m: ModelView<I>, seam: int)
    requires
        m.wf(),
        all_mapped(m.projection),
        m.display().len() <= usize::MAX,
        m.resolved == resolved_styles(m.styles, m.projection),
        ranges_in_order(paragraph_sources(m.styles.paragraphs), m.bytes.len() as int),
        ranges_in_order(inline_sources(m.styles.inline), m.bytes.len() as int),
        m.seam(seam),
        0 <= seam <= m.bytes.len(),
    ensures
        styles_spare(m.resolved, m.projection.shown_at(seam)),
        styles_within(m.resolved, m.display().len() as int),
{
    let p = m.projection;
    let shown = m.resolved;
    lemma_projection_fits(p, m.regions, m.bytes);
    lemma_rendered_len(m.bytes, p);
    law_styles_are_shown_where_their_source_is(m.styles, p);
    lemma_inline_in_order(m.styles.inline, p);
    let above = paragraph_sources(m.styles.paragraphs);
    let inner = inline_sources(m.styles.inline);
    assert forall|i: int| 0 <= i < shown.paragraphs.len() implies {
        let display = (#[trigger] shown.paragraphs[i]).spec_display();
        &&& display.start <= display.end <= m.display().len()
        &&& display.end <= p.shown_at(seam) || display.start >= p.shown_at(seam)
        &&& shows_source(p, above[i], display)
    } by {
        assert(above[i] == m.styles.paragraphs[i].spec_source());
        lemma_shown_range(p, above[i], shown.paragraphs[i].spec_display(), seam);
    }
    assert forall|i: int, j: int|
        #![trigger shown.paragraphs[i], shown.paragraphs[j]]
        0 <= i < j < shown.paragraphs.len() implies shown.paragraphs[i].spec_display().start
        <= shown.paragraphs[j].spec_display().start && shown.paragraphs[i].spec_display().end
        <= shown.paragraphs[j].spec_display().end by {
        assert(above[i].end <= above[j].start);
        lemma_shown_ranges(
            p,
            above[i],
            above[j],
            shown.paragraphs[i].spec_display(),
            shown.paragraphs[j].spec_display(),
        );
    }
    assert forall|j: int| 0 <= j < shown.inline.len() implies {
        let display = (#[trigger] shown.inline[j]).spec_display();
        &&& display.start <= display.end <= m.display().len()
        &&& display.end <= p.shown_at(seam) || display.start >= p.shown_at(seam)
    } by {
        assert(comes_from(p, m.styles.inline, shown.inline[j]));
        let i = choose|i: int|
            0 <= i < m.styles.inline.len() && shows_style(
                p,
                #[trigger] m.styles.inline[i],
                shown.inline[j],
            );
        assert(inner[i] == m.styles.inline[i].spec_source());
        lemma_shown_range(p, inner[i], shown.inline[j].spec_display(), seam);
    }
}

} // verus!
