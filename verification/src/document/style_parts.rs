//! The styles of rows before, in and behind a part of the display that is
//! replaced.

use crate::document::layout::{covered_part, paragraph_around, row_families, row_highlights};
use crate::document::resolve::{
    shifted_resolved_inline, shifted_resolved_paragraphs, ResolvedInlineStyle,
    ResolvedParagraphStyle, ResolvedView,
};
use crate::document::style::{larger, shifted_range, TextStyleRefinement};
use crate::scan::{first_where, lemma_first_where, lemma_first_where_is};
use vstd::prelude::*;

verus! {

/// The text style of a row: that of the first paragraph that it lies in.
pub open(crate) spec fn style_over(
    paragraphs: Seq<ResolvedParagraphStyle>,
    display: (int, int),
) -> Option<TextStyleRefinement> {
    let at = first_where(paragraphs, paragraph_around(display), 0);
    if at < paragraphs.len() {
        Some(paragraphs[at].spec_text_style())
    } else {
        None
    }
}

// ---------------------------------------------------------------------------
// Styles one after another
// ---------------------------------------------------------------------------

proof fn lemma_highlights_together(
    a: Seq<ResolvedInlineStyle>,
    b: Seq<ResolvedInlineStyle>,
    display: (int, int),
)
    ensures
        row_highlights(a + b, display) == row_highlights(a, display) + row_highlights(b, display),
        row_families(a + b, display) == row_families(a, display) + row_families(b, display),
    decreases b.len(),
{
    if b.len() == 0 {
        assert(a + b =~= a);
        assert(row_highlights(a + b, display) =~= row_highlights(a, display) + row_highlights(
            b,
            display,
        ));
        assert(row_families(a + b, display) =~= row_families(a, display) + row_families(
            b,
            display,
        ));
    } else {
        lemma_highlights_together(a, b.drop_last(), display);
        assert((a + b).drop_last() =~= a + b.drop_last());
        assert((a + b).last() == b.last());
        assert(row_highlights(a + b, display) =~= row_highlights(a, display) + row_highlights(
            b,
            display,
        ));
        assert(row_families(a + b, display) =~= row_families(a, display) + row_families(
            b,
            display,
        ));
    }
}

/// Styles that lie before a row or behind it.
pub open(crate) spec fn inline_misses(
    inline: Seq<ResolvedInlineStyle>,
    display: (int, int),
) -> bool {
    forall|i: int|
        0 <= i < inline.len() ==> (#[trigger] inline[i]).spec_display().end <= display.0
            || inline[i].spec_display().start >= display.1
}

proof fn lemma_misses(inline: Seq<ResolvedInlineStyle>, display: (int, int))
    requires
        inline_misses(inline, display),
    ensures
        row_highlights(inline, display).len() == 0,
        row_families(inline, display).len() == 0,
    decreases inline.len(),
{
    if inline.len() > 0 {
        let front = inline.drop_last();
        assert forall|i: int| 0 <= i < front.len() implies (
        #[trigger] front[i]).spec_display().end <= display.0 || front[i].spec_display().start
            >= display.1 by {
            assert(front[i] == inline[i]);
        }
        lemma_misses(front, display);
        let last = inline[inline.len() - 1];
        assert(last.spec_display().end <= display.0 || last.spec_display().start >= display.1);
    }
}

/// Styles that can be moved.
pub open(crate) spec fn inline_fits(inline: Seq<ResolvedInlineStyle>, delta: int) -> bool {
    forall|i: int|
        0 <= i < inline.len() ==> 0 <= (#[trigger] inline[i]).spec_display().start + delta
            <= usize::MAX && 0 <= inline[i].spec_display().end + delta <= usize::MAX
}

proof fn lemma_highlights_moved(inline: Seq<ResolvedInlineStyle>, delta: int, display: (int, int))
    requires
        inline_fits(inline, delta),
    ensures
        row_highlights(
            shifted_resolved_inline(inline, delta),
            (display.0 + delta, display.1 + delta),
        ) == row_highlights(inline, display),
        row_families(
            shifted_resolved_inline(inline, delta),
            (display.0 + delta, display.1 + delta),
        ) == row_families(inline, display),
    decreases inline.len(),
{
    let moved = shifted_resolved_inline(inline, delta);
    let there = (display.0 + delta, display.1 + delta);
    if inline.len() > 0 {
        let front = inline.drop_last();
        assert forall|i: int| 0 <= i < front.len() implies 0 <= (
        #[trigger] front[i]).spec_display().start + delta <= usize::MAX && 0
            <= front[i].spec_display().end + delta <= usize::MAX by {
            assert(front[i] == inline[i]);
        }
        lemma_highlights_moved(front, delta, display);
        assert(moved.drop_last() =~= shifted_resolved_inline(front, delta));
        let last = inline[inline.len() - 1];
        assert(moved.last() == last.with_display(shifted_range(last.spec_display(), delta)));
        assert(covered_part(moved.last().spec_display(), there) == covered_part(
            last.spec_display(),
            display,
        ));
    }
}

/// Paragraphs that do not hold a row.
pub open(crate) spec fn paragraphs_miss(
    paragraphs: Seq<ResolvedParagraphStyle>,
    display: (int, int),
) -> bool {
    forall|i: int|
        0 <= i < paragraphs.len() ==> (#[trigger] paragraphs[i]).spec_display().end <= display.0
            || paragraphs[i].spec_display().start >= display.1
}

proof fn lemma_style_together(
    a: Seq<ResolvedParagraphStyle>,
    b: Seq<ResolvedParagraphStyle>,
    display: (int, int),
)
    ensures
        style_over(a + b, display) == (if style_over(a, display) is Some {
            style_over(a, display)
        } else {
            style_over(b, display)
        }),
{
    let both = a + b;
    let test = paragraph_around(display);
    lemma_first_where(a, test, 0);
    lemma_first_where(b, test, 0);
    let i = first_where(a, test, 0);
    let j = first_where(b, test, 0);
    if i < a.len() {
        assert forall|k: int| 0 <= k < i implies !(#[trigger] test(both[k])) by {
            assert(both[k] == a[k]);
        }
        assert(both[i] == a[i]);
        lemma_first_where_is(both, test, 0, i);
    } else {
        let n = a.len() as int;
        assert forall|k: int| 0 <= k < n + j implies !(#[trigger] test(both[k])) by {
            if k < n {
                assert(both[k] == a[k]);
            } else {
                assert(both[k] == b[k - n]);
            }
        }
        if j < b.len() {
            assert(both[n + j] == b[j]);
        }
        lemma_first_where_is(both, test, 0, n + j);
    }
}

proof fn lemma_style_missed(paragraphs: Seq<ResolvedParagraphStyle>, display: (int, int))
    requires
        paragraphs_miss(paragraphs, display),
        display.0 < display.1,
    ensures
        style_over(paragraphs, display) is None,
{
    let test = paragraph_around(display);
    lemma_first_where(paragraphs, test, 0);
    let at = first_where(paragraphs, test, 0);
    if at < paragraphs.len() {
        assert(test(paragraphs[at]));
        assert(paragraphs[at].spec_display().end <= display.0
            || paragraphs[at].spec_display().start >= display.1);
    }
}

/// Paragraphs that can be moved.
pub open(crate) spec fn paragraphs_fit(paragraphs: Seq<ResolvedParagraphStyle>, delta: int) -> bool {
    forall|i: int|
        0 <= i < paragraphs.len() ==> 0 <= (#[trigger] paragraphs[i]).spec_display().start + delta
            <= usize::MAX && 0 <= paragraphs[i].spec_display().end + delta <= usize::MAX
}

proof fn lemma_style_moved(
    paragraphs: Seq<ResolvedParagraphStyle>,
    delta: int,
    display: (int, int),
)
    requires
        paragraphs_fit(paragraphs, delta),
    ensures
        style_over(
            shifted_resolved_paragraphs(paragraphs, delta),
            (display.0 + delta, display.1 + delta),
        ) == style_over(paragraphs, display),
{
    let moved = shifted_resolved_paragraphs(paragraphs, delta);
    let there = (display.0 + delta, display.1 + delta);
    let test = paragraph_around(display);
    lemma_first_where(paragraphs, test, 0);
    let at = first_where(paragraphs, test, 0);
    assert forall|i: int| 0 <= i < paragraphs.len() implies (#[trigger] paragraph_around(there)(
        moved[i],
    ) <==> test(paragraphs[i])) by {
        let p = paragraphs[i];
        assert(moved[i] == p.with_display(shifted_range(p.spec_display(), delta)));
        assert(0 <= p.spec_display().start + delta <= usize::MAX && 0 <= p.spec_display().end
            + delta <= usize::MAX);
    }
    assert forall|i: int| 0 <= i < at implies !(#[trigger] paragraph_around(there)(moved[i])) by {
        assert(!test(paragraphs[i]));
    }
    if at < paragraphs.len() {
        assert(paragraph_around(there)(moved[at]));
    }
    lemma_first_where_is(moved, paragraph_around(there), 0, at);
}

// ---------------------------------------------------------------------------
// Styles around cuts of the display
// ---------------------------------------------------------------------------

/// Styles in the order of their display, none of which reaches over a cut.
pub open(crate) spec fn styles_spare(styles: ResolvedView, cut: int) -> bool {
    &&& forall|i: int, j: int|
        #![trigger styles.paragraphs[i], styles.paragraphs[j]]
        0 <= i < j < styles.paragraphs.len() ==> styles.paragraphs[i].spec_display().start
            <= styles.paragraphs[j].spec_display().start
            && styles.paragraphs[i].spec_display().end <= styles.paragraphs[j].spec_display().end
    &&& forall|i: int, j: int|
        #![trigger styles.inline[i], styles.inline[j]]
        0 <= i < j < styles.inline.len() ==> styles.inline[i].spec_display().start
            <= styles.inline[j].spec_display().start && styles.inline[i].spec_display().end
            <= styles.inline[j].spec_display().end
    &&& forall|i: int|
        0 <= i < styles.paragraphs.len() ==> (#[trigger] styles.paragraphs[i]).spec_display().end
            <= cut || styles.paragraphs[i].spec_display().start >= cut
    &&& forall|i: int|
        0 <= i < styles.inline.len() ==> (#[trigger] styles.inline[i]).spec_display().end <= cut
            || styles.inline[i].spec_display().start >= cut
}

/// Styles of a display of some length.
pub open(crate) spec fn styles_within(styles: ResolvedView, len: int) -> bool {
    &&& forall|i: int|
        0 <= i < styles.paragraphs.len() ==> (#[trigger] styles.paragraphs[i]).spec_display().start
            <= styles.paragraphs[i].spec_display().end <= len
    &&& forall|i: int|
        0 <= i < styles.inline.len() ==> (#[trigger] styles.inline[i]).spec_display().start
            <= styles.inline[i].spec_display().end <= len
}

/// What a row has of styles, but for the text style of a row without text.
pub open(crate) spec fn same_presentation(
    a: ResolvedView,
    there: (int, int),
    b: ResolvedView,
    display: (int, int),
) -> bool {
    &&& row_highlights(a.inline, there) == row_highlights(b.inline, display)
    &&& row_families(a.inline, there) == row_families(b.inline, display)
    &&& display.0 < display.1 ==> style_over(a.paragraphs, there) == style_over(
        b.paragraphs,
        display,
    )
}

/// The parts of styles around two cuts.
pub open(crate) spec fn style_parts(
    m: ResolvedView,
    first: int,
    last: int,
    front: ResolvedView,
    middle: ResolvedView,
    back: ResolvedView,
) -> bool {
    &&& m.paragraphs == front.paragraphs + middle.paragraphs + back.paragraphs
    &&& m.inline == front.inline + middle.inline + back.inline
    &&& forall|i: int|
        0 <= i < front.paragraphs.len() ==> (#[trigger] front.paragraphs[i]).spec_display().end
            <= first
    &&& forall|i: int|
        0 <= i < front.inline.len() ==> (#[trigger] front.inline[i]).spec_display().end <= first
    &&& forall|i: int|
        0 <= i < middle.paragraphs.len() ==> (
        #[trigger] middle.paragraphs[i]).spec_display().start >= first
            && middle.paragraphs[i].spec_display().end <= last
    &&& forall|i: int|
        0 <= i < middle.inline.len() ==> (#[trigger] middle.inline[i]).spec_display().start >= first
            && middle.inline[i].spec_display().end <= last
    &&& forall|i: int|
        0 <= i < back.paragraphs.len() ==> (#[trigger] back.paragraphs[i]).spec_display().start
            >= last
    &&& forall|i: int|
        0 <= i < back.inline.len() ==> (#[trigger] back.inline[i]).spec_display().start >= last
}

/// A row takes its styles from the part that it lies in.
proof fn lemma_part_presentation(
    m: ResolvedView,
    first: int,
    last: int,
    front: ResolvedView,
    middle: ResolvedView,
    back: ResolvedView,
    display: (int, int),
)
    requires
        style_parts(m, first, last, front, middle, back),
        first <= last,
        display.0 <= display.1,
    ensures
        display.1 <= first ==> same_presentation(m, display, front, display),
        first <= display.0 && display.1 <= last ==> same_presentation(m, display, middle, display),
        last <= display.0 ==> same_presentation(m, display, back, display),
{
    let a = front.inline;
    let b = middle.inline;
    let c = back.inline;
    lemma_highlights_together(a + b, c, display);
    lemma_highlights_together(a, b, display);
    let x = front.paragraphs;
    let y = middle.paragraphs;
    let z = back.paragraphs;
    lemma_style_together(x + y, z, display);
    lemma_style_together(x, y, display);
    let h = row_highlights(a, display) + row_highlights(b, display) + row_highlights(c, display);
    let f = row_families(a, display) + row_families(b, display) + row_families(c, display);
    if first <= display.0 {
        lemma_misses(a, display);
        assert(h =~= row_highlights(b, display) + row_highlights(c, display));
        assert(f =~= row_families(b, display) + row_families(c, display));
        if display.0 < display.1 {
            lemma_style_missed(x, display);
        }
    }
    if display.1 <= last {
        lemma_misses(c, display);
        assert(h =~= row_highlights(a, display) + row_highlights(b, display));
        assert(f =~= row_families(a, display) + row_families(b, display));
        if display.0 < display.1 {
            lemma_style_missed(z, display);
        }
    }
    if display.1 <= first || last <= display.0 {
        lemma_misses(b, display);
        if display.0 < display.1 {
            lemma_style_missed(y, display);
        }
    }
    if display.1 <= first {
        assert(h =~= row_highlights(a, display));
        assert(f =~= row_families(a, display));
    }
    if first <= display.0 && display.1 <= last {
        assert(h =~= row_highlights(b, display));
        assert(f =~= row_families(b, display));
    }
    if last <= display.0 {
        assert(h =~= row_highlights(c, display));
        assert(f =~= row_families(c, display));
    }
}

/// The styles of a display in three parts.
proof fn lemma_parts_of(m: ResolvedView, first: int, last: int) -> (parts: (
    ResolvedView,
    ResolvedView,
    ResolvedView,
))
    requires
        styles_spare(m, first),
        styles_spare(m, last),
        first <= last,
    ensures
        style_parts(m, first, last, parts.0, parts.1, parts.2),
        parts.0.paragraphs == m.paragraphs.subrange(0, m.paragraph_from(first)),
        parts.0.inline == m.inline.subrange(0, m.inline_from(first)),
        parts.2.paragraphs == m.paragraphs.subrange(
            larger(m.paragraph_from(first), m.paragraph_to(last)),
            m.paragraphs.len() as int,
        ),
        parts.2.inline == m.inline.subrange(
            larger(m.inline_from(first), m.inline_to(last)),
            m.inline.len() as int,
        ),
{
    let ends = |s: ResolvedParagraphStyle| s.spec_display().end > first;
    let starts = |s: ResolvedParagraphStyle| s.spec_display().start >= last;
    let ends_inline = |s: ResolvedInlineStyle| s.spec_display().end > first;
    let starts_inline = |s: ResolvedInlineStyle| s.spec_display().start >= last;
    lemma_first_where(m.paragraphs, ends, 0);
    lemma_first_where(m.paragraphs, starts, 0);
    lemma_first_where(m.inline, ends_inline, 0);
    lemma_first_where(m.inline, starts_inline, 0);
    let n = m.paragraphs.len() as int;
    let k = m.inline.len() as int;
    let a = m.paragraph_from(first);
    let b = larger(a, m.paragraph_to(last));
    let c = m.inline_from(first);
    let d = larger(c, m.inline_to(last));
    let front = ResolvedView {
        paragraphs: m.paragraphs.subrange(0, a),
        inline: m.inline.subrange(0, c),
    };
    let middle = ResolvedView {
        paragraphs: m.paragraphs.subrange(a, b),
        inline: m.inline.subrange(c, d),
    };
    let back = ResolvedView {
        paragraphs: m.paragraphs.subrange(b, n),
        inline: m.inline.subrange(d, k),
    };
    assert(m.paragraphs =~= front.paragraphs + middle.paragraphs + back.paragraphs);
    assert(m.inline =~= front.inline + middle.inline + back.inline);
    assert forall|i: int| 0 <= i < front.paragraphs.len() implies (
    #[trigger] front.paragraphs[i]).spec_display().end <= first by {
        assert(!ends(m.paragraphs[i]));
    }
    assert forall|i: int| 0 <= i < front.inline.len() implies (
    #[trigger] front.inline[i]).spec_display().end <= first by {
        assert(!ends_inline(m.inline[i]));
    }
    assert forall|i: int| 0 <= i < middle.paragraphs.len() implies (
    #[trigger] middle.paragraphs[i]).spec_display().start >= first
        && middle.paragraphs[i].spec_display().end <= last by {
        let style = m.paragraphs[a + i];
        assert(ends(m.paragraphs[a]));
        assert(m.paragraphs[a].spec_display().end <= style.spec_display().end);
        assert(!starts(m.paragraphs[a + i]));
    }
    assert forall|i: int| 0 <= i < middle.inline.len() implies (
    #[trigger] middle.inline[i]).spec_display().start >= first
        && middle.inline[i].spec_display().end <= last by {
        let style = m.inline[c + i];
        assert(ends_inline(m.inline[c]));
        assert(m.inline[c].spec_display().end <= style.spec_display().end);
        assert(!starts_inline(m.inline[c + i]));
    }
    assert forall|i: int| 0 <= i < back.paragraphs.len() implies (
    #[trigger] back.paragraphs[i]).spec_display().start >= last by {
        let at = m.paragraph_to(last);
        assert(starts(m.paragraphs[at]));
        assert(m.paragraphs[at].spec_display().start <= m.paragraphs[b + i].spec_display().start);
    }
    assert forall|i: int| 0 <= i < back.inline.len() implies (
    #[trigger] back.inline[i]).spec_display().start >= last by {
        let at = m.inline_to(last);
        assert(starts_inline(m.inline[at]));
        assert(m.inline[at].spec_display().start <= m.inline[d + i].spec_display().start);
    }
    (front, middle, back)
}

proof fn lemma_moved_presentation(styles: ResolvedView, delta: int, display: (int, int))
    requires
        inline_fits(styles.inline, delta),
        paragraphs_fit(styles.paragraphs, delta),
    ensures
        same_presentation(
            ResolvedView {
                paragraphs: shifted_resolved_paragraphs(styles.paragraphs, delta),
                inline: shifted_resolved_inline(styles.inline, delta),
            },
            (display.0 + delta, display.1 + delta),
            styles,
            display,
        ),
{
    lemma_highlights_moved(styles.inline, delta, display);
    lemma_style_moved(styles.paragraphs, delta, display);
}

/// After a part of the display was replaced, rows before it and behind it have
/// the styles that they had, and those in it have those of the replacement.
#[verifier::spinoff_prover]
#[verifier::rlimit(40)]
pub(crate) proof fn lemma_spliced_styles(
    m: ResolvedView,
    len: int,
    first: int,
    last: int,
    r: ResolvedView,
    size: int,
    display: (int, int),
)
    requires
        styles_spare(m, first),
        styles_spare(m, last),
        styles_within(m, len),
        styles_within(r, size),
        0 <= first <= last <= len,
        0 <= size,
        len + size <= usize::MAX,
        0 <= display.0 <= display.1,
    ensures
        ({
            let delta = size - (last - first);
            let n = m.spliced(first, last, delta, r);
            &&& display.1 <= first ==> same_presentation(n, display, m, display)
            &&& display.1 <= size ==> same_presentation(
                n,
                (display.0 + first, display.1 + first),
                r,
                display,
            )
            &&& last <= display.0 ==> same_presentation(
                n,
                (display.0 + delta, display.1 + delta),
                m,
                display,
            )
        }),
{
    let delta = size - (last - first);
    let n = m.spliced(first, last, delta, r);
    let (front, middle, back) = lemma_parts_of(m, first, last);
    let put = ResolvedView {
        paragraphs: shifted_resolved_paragraphs(r.paragraphs, first),
        inline: shifted_resolved_inline(r.inline, first),
    };
    let moved = ResolvedView {
        paragraphs: shifted_resolved_paragraphs(back.paragraphs, delta),
        inline: shifted_resolved_inline(back.inline, delta),
    };
    assert(inline_fits(r.inline, first) && paragraphs_fit(r.paragraphs, first));
    assert(inline_fits(back.inline, delta)) by {
        assert forall|i: int| 0 <= i < back.inline.len() implies 0 <= (
        #[trigger] back.inline[i]).spec_display().start + delta <= usize::MAX && 0
            <= back.inline[i].spec_display().end + delta <= usize::MAX by {
            lemma_back_inline(m, first, last, back, i, len);
        }
    }
    assert(paragraphs_fit(back.paragraphs, delta)) by {
        assert forall|i: int| 0 <= i < back.paragraphs.len() implies 0 <= (
        #[trigger] back.paragraphs[i]).spec_display().start + delta <= usize::MAX && 0
            <= back.paragraphs[i].spec_display().end + delta <= usize::MAX by {
            lemma_back_paragraph(m, first, last, back, i, len);
        }
    }
    assert(style_parts(n, first, first + size, front, put, moved)) by {
        assert forall|i: int| 0 <= i < put.paragraphs.len() implies (
        #[trigger] put.paragraphs[i]).spec_display().start >= first
            && put.paragraphs[i].spec_display().end <= first + size by {
            assert(r.paragraphs[i].spec_display().end <= size);
        }
        assert forall|i: int| 0 <= i < put.inline.len() implies (
        #[trigger] put.inline[i]).spec_display().start >= first
            && put.inline[i].spec_display().end <= first + size by {
            assert(r.inline[i].spec_display().end <= size);
        }
        assert forall|i: int| 0 <= i < moved.paragraphs.len() implies (
        #[trigger] moved.paragraphs[i]).spec_display().start >= first + size by {
            assert(back.paragraphs[i].spec_display().start >= last);
        }
        assert forall|i: int| 0 <= i < moved.inline.len() implies (
        #[trigger] moved.inline[i]).spec_display().start >= first + size by {
            assert(back.inline[i].spec_display().start >= last);
        }
    }
    lemma_part_presentation(m, first, last, front, middle, back, display);
    lemma_part_presentation(n, first, first + size, front, put, moved, display);
    lemma_part_presentation(
        n,
        first,
        first + size,
        front,
        put,
        moved,
        (display.0 + first, display.1 + first),
    );
    if last <= display.0 {
        lemma_part_presentation(
            n,
            first,
            first + size,
            front,
            put,
            moved,
            (display.0 + delta, display.1 + delta),
        );
        lemma_moved_presentation(back, delta, display);
    }
    lemma_moved_presentation(r, first, display);
}

proof fn lemma_back_inline(
    m: ResolvedView,
    first: int,
    last: int,
    back: ResolvedView,
    i: int,
    len: int,
)
    requires
        styles_within(m, len),
        back.inline == m.inline.subrange(
            larger(m.inline_from(first), m.inline_to(last)),
            m.inline.len() as int,
        ),
        0 <= i < back.inline.len(),
    ensures
        back.inline[i].spec_display().start <= back.inline[i].spec_display().end <= len,
{
    let ends_inline = |s: ResolvedInlineStyle| s.spec_display().end > first;
    let starts_inline = |s: ResolvedInlineStyle| s.spec_display().start >= last;
    lemma_first_where(m.inline, ends_inline, 0);
    lemma_first_where(m.inline, starts_inline, 0);
    let d = larger(m.inline_from(first), m.inline_to(last));
    assert(back.inline[i] == m.inline[d + i]);
}

proof fn lemma_back_paragraph(
    m: ResolvedView,
    first: int,
    last: int,
    back: ResolvedView,
    i: int,
    len: int,
)
    requires
        styles_within(m, len),
        back.paragraphs == m.paragraphs.subrange(
            larger(m.paragraph_from(first), m.paragraph_to(last)),
            m.paragraphs.len() as int,
        ),
        0 <= i < back.paragraphs.len(),
    ensures
        back.paragraphs[i].spec_display().start <= back.paragraphs[i].spec_display().end <= len,
{
    let ends = |s: ResolvedParagraphStyle| s.spec_display().end > first;
    let starts = |s: ResolvedParagraphStyle| s.spec_display().start >= last;
    lemma_first_where(m.paragraphs, ends, 0);
    lemma_first_where(m.paragraphs, starts, 0);
    let d = larger(m.paragraph_from(first), m.paragraph_to(last));
    assert(back.paragraphs[i] == m.paragraphs[d + i]);
}

} // verus!
