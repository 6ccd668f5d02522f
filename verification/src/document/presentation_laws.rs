//! How rows show the styles of the display.

use crate::document::layout::{
    covered_part, paragraph_around, row_families, row_highlights, TextPresentationView,
};
use crate::document::model_view::ModelView;
use crate::document::resolve::{ResolvedInlineStyle, ResolvedParagraphStyle};
use crate::document::style::{FontFamily, HighlightStyle};
use crate::scan::{first_where, lemma_first_where};
use std::ops::Range;
use vstd::prelude::*;

verus! {

/// A style covers an offset of the display.
pub open(crate) spec fn covers_offset(style: ResolvedInlineStyle, offset: int) -> bool {
    style.spec_display().start <= offset < style.spec_display().end
}

/// A style covers something of a row.
pub open(crate) spec fn meets_row(style: ResolvedInlineStyle, display: (int, int)) -> bool {
    exists|i: int| display.0 <= i < display.1 && #[trigger] covers_offset(style, i)
}

/// A part of a row is exactly what a style covers of it.
pub open(crate) spec fn shows_part(
    part: Range<usize>,
    style: ResolvedInlineStyle,
    display: (int, int),
) -> bool {
    &&& part.start < part.end <= display.1 - display.0
    &&& forall|i: int|
        display.0 <= i < display.1 ==> (#[trigger] covers_offset(style, i) <==> part.start <= i
            - display.0 < part.end)
}

/// The highlights of a row, one for each of some styles: each is where its
/// style is, and no style that meets the row is left out.
pub open(crate) spec fn highlights_of(
    highlights: Seq<(Range<usize>, HighlightStyle)>,
    inline: Seq<ResolvedInlineStyle>,
    display: (int, int),
    from: Seq<int>,
) -> bool {
    &&& from.len() == highlights.len()
    &&& forall|k: int|
        0 <= k < from.len() ==> 0 <= #[trigger] from[k] < inline.len() && shows_part(
            highlights[k].0,
            inline[from[k]],
            display,
        ) && highlights[k].1 == inline[from[k]].spec_highlight()
    &&& forall|k: int, l: int| 0 <= k < l < from.len() ==> #[trigger] from[k] < #[trigger] from[l]
    &&& forall|j: int|
        0 <= j < inline.len() && meets_row(#[trigger] inline[j], display) ==> from.contains(j)
}

/// The font families of a row, one for each of some styles that name one: each
/// is where its style is, and no such style that meets the row is left out.
pub open(crate) spec fn families_of(
    families: Seq<(Range<usize>, FontFamily)>,
    inline: Seq<ResolvedInlineStyle>,
    display: (int, int),
    from: Seq<int>,
) -> bool {
    &&& from.len() == families.len()
    &&& forall|k: int|
        0 <= k < from.len() ==> 0 <= #[trigger] from[k] < inline.len() && shows_part(
            families[k].0,
            inline[from[k]],
            display,
        ) && inline[from[k]].spec_font_family() == Some(families[k].1)
    &&& forall|k: int, l: int| 0 <= k < l < from.len() ==> #[trigger] from[k] < #[trigger] from[l]
    &&& forall|j: int|
        0 <= j < inline.len() && meets_row(#[trigger] inline[j], display)
            && inline[j].spec_font_family() is Some ==> from.contains(j)
}

/// A paragraph holds a row.
pub open(crate) spec fn holds_row(paragraph: ResolvedParagraphStyle, display: (int, int)) -> bool {
    paragraph.spec_display().start <= display.0 && display.1 <= paragraph.spec_display().end
}

/// A row shows the styles of the display: of inline styles it has what lies in
/// it, and it has the text style of the first paragraph that it lies in.
pub open(crate) spec fn row_is_styled<I>(
    m: ModelView<I>,
    display: (int, int),
    presentation: TextPresentationView,
) -> bool {
    &&& exists|from: Seq<int>| #[trigger]
        highlights_of(presentation.highlights, m.resolved.inline, display, from)
    &&& exists|from: Seq<int>| #[trigger]
        families_of(presentation.font_family_overrides, m.resolved.inline, display, from)
    &&& presentation.text_style is None <==> forall|j: int|
        0 <= j < m.resolved.paragraphs.len() ==> !holds_row(
            #[trigger] m.resolved.paragraphs[j],
            display,
        )
    &&& presentation.text_style matches Some(style) ==> exists|j: int|
        0 <= j < m.resolved.paragraphs.len() && holds_row(
            #[trigger] m.resolved.paragraphs[j],
            display,
        ) && m.resolved.paragraphs[j].spec_text_style() == style && forall|k: int|
            0 <= k < j ==> !holds_row(#[trigger] m.resolved.paragraphs[k], display)
}

proof fn lemma_part(style: ResolvedInlineStyle, display: (int, int))
    requires
        0 <= display.0 <= display.1 <= usize::MAX,
    ensures
        match covered_part(style.spec_display(), display) {
            Some(part) => shows_part(part, style, display),
            None => !meets_row(style, display),
        },
{
    if covered_part(style.spec_display(), display) is None {
        assert forall|i: int| display.0 <= i < display.1 implies !#[trigger] covers_offset(
            style,
            i,
        ) by {}
    }
}

proof fn lemma_highlights(inline: Seq<ResolvedInlineStyle>, display: (int, int)) -> (from: Seq<int>)
    requires
        0 <= display.0 <= display.1 <= usize::MAX,
    ensures
        highlights_of(row_highlights(inline, display), inline, display, from),
    decreases inline.len(),
{
    if inline.len() == 0 {
        Seq::empty()
    } else {
        let front = inline.drop_last();
        let last = inline.last();
        let n = inline.len() - 1;
        let before = lemma_highlights(front, display);
        lemma_part(last, display);
        assert forall|k: int| 0 <= k < before.len() implies front[before[k]]
            == inline[#[trigger] before[k]] by {}
        let from = if covered_part(last.spec_display(), display) is Some {
            before.push(n)
        } else {
            before
        };
        let all = row_highlights(inline, display);
        assert forall|k: int| 0 <= k < from.len() implies 0 <= #[trigger] from[k] < inline.len()
            && shows_part(all[k].0, inline[from[k]], display) && all[k].1
            == inline[from[k]].spec_highlight() by {
            if k < before.len() {
                assert(from[k] == before[k]);
            }
        }
        assert forall|j: int| 0 <= j < inline.len() && meets_row(#[trigger] inline[j], display)
            implies from.contains(j) by {
            if j < n {
                assert(front[j] == inline[j]);
                let k = choose|k: int| 0 <= k < before.len() && before[k] == j;
                assert(from[k] == j);
            } else {
                assert(from[before.len() as int] == n);
            }
        }
        from
    }
}

proof fn lemma_families(inline: Seq<ResolvedInlineStyle>, display: (int, int)) -> (from: Seq<int>)
    requires
        0 <= display.0 <= display.1 <= usize::MAX,
    ensures
        families_of(row_families(inline, display), inline, display, from),
    decreases inline.len(),
{
    if inline.len() == 0 {
        Seq::empty()
    } else {
        let front = inline.drop_last();
        let last = inline.last();
        let n = inline.len() - 1;
        let before = lemma_families(front, display);
        lemma_part(last, display);
        assert forall|k: int| 0 <= k < before.len() implies front[before[k]]
            == inline[#[trigger] before[k]] by {}
        let from = if covered_part(last.spec_display(), display) is Some
            && last.spec_font_family() is Some {
            before.push(n)
        } else {
            before
        };
        let all = row_families(inline, display);
        assert forall|k: int| 0 <= k < from.len() implies 0 <= #[trigger] from[k] < inline.len()
            && shows_part(all[k].0, inline[from[k]], display) && inline[from[k]].spec_font_family()
            == Some(all[k].1) by {
            if k < before.len() {
                assert(from[k] == before[k]);
            }
        }
        assert forall|j: int|
            0 <= j < inline.len() && meets_row(#[trigger] inline[j], display)
                && inline[j].spec_font_family() is Some implies from.contains(j) by {
            if j < n {
                assert(front[j] == inline[j]);
                let k = choose|k: int| 0 <= k < before.len() && before[k] == j;
                assert(from[k] == j);
            } else {
                assert(from[before.len() as int] == n);
            }
        }
        from
    }
}

/// A row is highlighted, and has another font family, exactly where an inline
/// style covers it, and its text style is that of the paragraph around it.
pub proof fn law_rows_show_the_styles_over_them<I>(m: ModelView<I>, display: (int, int))
    requires
        0 <= display.0 <= display.1 <= usize::MAX,
    ensures
        row_is_styled(m, display, m.row_presentation(display)),
{
    let shown = m.row_presentation(display);
    let inline = m.resolved.inline;
    let paragraphs = m.resolved.paragraphs;
    let a = lemma_highlights(inline, display);
    assert(highlights_of(shown.highlights, inline, display, a));
    let b = lemma_families(inline, display);
    assert(families_of(shown.font_family_overrides, inline, display, b));
    let test = paragraph_around(display);
    lemma_first_where(paragraphs, test, 0);
    assert forall|j: int| 0 <= j < paragraphs.len() implies (#[trigger] test(paragraphs[j])
        <==> holds_row(paragraphs[j], display)) by {}
    let at = first_where(paragraphs, test, 0);
    assert forall|k: int| 0 <= k < at implies !holds_row(#[trigger] paragraphs[k], display) by {
        assert(!test(paragraphs[k]));
    }
    if at < paragraphs.len() {
        assert(test(paragraphs[at]));
        assert(holds_row(paragraphs[at], display));
    }
}

} // verus!
