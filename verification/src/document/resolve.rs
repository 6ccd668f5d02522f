//! Styles resolved to display ranges.

use crate::document::position::Affinity;
use crate::document::projection::ProjectionView;
use crate::document::projection_map::ProjectionMap;
use crate::document::region::{DocumentRegion, DocumentRegions, EditPolicy};
use crate::document::style::{
    larger, shift, shifted_range, DocumentInlineStyle, DocumentParagraphStyle, DocumentStyleError,
    DocumentStyles, FontFamily, HighlightStyle, StylesView, TextStyleRefinement,
};
use crate::document::transaction::ends;
use crate::order::{lemma_sort_members, lemma_stable_sort, sort_stable, stable_sort, Ranked};
use crate::scan::{first_fault, first_where, lemma_first_fault, lemma_first_where_is};
use crate::text::{at_boundary, byte_len, SourceText};
use std::ops::Range;
use vstd::prelude::*;
use vstd::string::*;

verus! {

impl Ranked for Range<usize> {
    open spec fn rank(&self) -> (int, int) {
        ends(*self)
    }

    fn ranks_after(&self, other: &Self) -> (after: bool) {
        self.start > other.start || (self.start == other.start && self.end > other.end)
    }
}

/// A paragraph style and the display that it covers.
#[derive(Debug, PartialEq, Eq)]
pub struct ResolvedParagraphStyle {
    pub(crate) display: Range<usize>,
    pub(crate) text_style: TextStyleRefinement,
}

impl ResolvedParagraphStyle {
    pub open(crate) spec fn spec_display(self) -> Range<usize> {
        self.display
    }

    pub open(crate) spec fn spec_text_style(self) -> TextStyleRefinement {
        self.text_style
    }

    /// The style on another display range.
    pub open(crate) spec fn with_display(self, display: Range<usize>) -> ResolvedParagraphStyle {
        ResolvedParagraphStyle { display, text_style: self.text_style }
    }
}

/// An inline style and the display that it covers.
#[derive(Debug, PartialEq, Eq)]
pub struct ResolvedInlineStyle {
    pub(crate) display: Range<usize>,
    pub(crate) highlight: HighlightStyle,
    pub(crate) font_family: Option<FontFamily>,
}

impl ResolvedInlineStyle {
    pub open(crate) spec fn spec_display(self) -> Range<usize> {
        self.display
    }

    pub open(crate) spec fn spec_highlight(self) -> HighlightStyle {
        self.highlight
    }

    pub open(crate) spec fn spec_font_family(self) -> Option<FontFamily> {
        self.font_family
    }

    /// The style on another display range.
    pub open(crate) spec fn with_display(self, display: Range<usize>) -> ResolvedInlineStyle {
        ResolvedInlineStyle { display, highlight: self.highlight, font_family: self.font_family }
    }
}

/// Styles and the display that they cover.
#[derive(Debug, PartialEq, Eq)]
pub struct ResolvedDocumentStyles {
    pub(crate) paragraphs: Vec<ResolvedParagraphStyle>,
    pub(crate) inline: Vec<ResolvedInlineStyle>,
}

impl ResolvedParagraphStyle {
    pub fn display(&self) -> (display: Range<usize>)
        ensures
            display == self.spec_display(),
    {
        self.display.start..self.display.end
    }
}

impl ResolvedInlineStyle {
    pub fn display(&self) -> (display: Range<usize>)
        ensures
            display == self.spec_display(),
    {
        self.display.start..self.display.end
    }
}

impl ResolvedDocumentStyles {
    pub fn paragraphs(&self) -> (styles: &[ResolvedParagraphStyle])
        ensures
            styles@ == self@.paragraphs,
    {
        self.paragraphs.as_slice()
    }

    pub fn inline(&self) -> (styles: &[ResolvedInlineStyle])
        ensures
            styles@ == self@.inline,
    {
        self.inline.as_slice()
    }
}

/// What resolved styles say.
#[verifier::ext_equal]
pub struct ResolvedView {
    pub paragraphs: Seq<ResolvedParagraphStyle>,
    pub inline: Seq<ResolvedInlineStyle>,
}

impl View for ResolvedDocumentStyles {
    type V = ResolvedView;

    open(crate) spec fn view(&self) -> ResolvedView {
        ResolvedView { paragraphs: self.paragraphs@, inline: self.inline@ }
    }
}

pub open spec fn nothing_resolved() -> ResolvedView {
    ResolvedView { paragraphs: Seq::empty(), inline: Seq::empty() }
}

// ---------------------------------------------------------------------------
// Style ranges
// ---------------------------------------------------------------------------

/// Two ranges share a byte.
pub open spec fn ranges_meet<I>(range: Range<usize>, region: DocumentRegion<I>) -> bool {
    range.start < region.end() && region.start() < range.end
}

/// What a style may not touch in a region.
pub open spec fn region_forbids<I>(range: Range<usize>, regions: Seq<DocumentRegion<I>>) -> spec_fn(
    int,
) -> Option<DocumentStyleError> {
    |r: int|
        if !ranges_meet(range, regions[r]) {
            None
        } else if regions[r].spec_policy() == EditPolicy::Editable {
            Some(DocumentStyleError::EditableRange(range))
        } else if regions[r].spec_policy() == EditPolicy::Atomic {
            Some(DocumentStyleError::AtomicRange(range))
        } else {
            None
        }
}

/// What is wrong with a style range among ranges in source order: it is out
/// of bounds, not between characters, overlaps the one before, or touches
/// editable or atomic source.
pub open spec fn style_range_fault<I>(
    sorted: Seq<Range<usize>>,
    bytes: Seq<u8>,
    regions: Seq<DocumentRegion<I>>,
) -> spec_fn(int) -> Option<DocumentStyleError> {
    |i: int|
        {
            let range = sorted[i];
            if range.end > bytes.len() || range.start > range.end {
                Some(DocumentStyleError::OutOfBounds { range, source_len: bytes.len() as usize })
            } else if !at_boundary(bytes, range.start as int) || !at_boundary(
                bytes,
                range.end as int,
            ) {
                Some(DocumentStyleError::InvalidBoundary(range))
            } else if i > 0 && range.start < sorted[i - 1].end {
                Some(DocumentStyleError::Overlap(range))
            } else {
                first_fault(region_forbids(range, regions), 0, regions.len() as int)
            }
        }
}

/// What is wrong with style ranges: in source order, the first fault.
pub open spec fn style_ranges_fault<I>(
    ranges: Seq<Range<usize>>,
    bytes: Seq<u8>,
    regions: Seq<DocumentRegion<I>>,
) -> Option<DocumentStyleError> {
    first_fault(style_range_fault(stable_sort(ranges), bytes, regions), 0, ranges.len() as int)
}

fn check_region_forbids<I>(range: &Range<usize>, regions: &DocumentRegions<I>) -> (result: Result<
    (),
    DocumentStyleError,
>)
    ensures
        match result {
            Ok(()) => first_fault(
                region_forbids(*range, regions.items()),
                0,
                regions.items().len() as int,
            ) is None,
            Err(error) => first_fault(
                region_forbids(*range, regions.items()),
                0,
                regions.items().len() as int,
            ) == Some(error),
        },
{
    let ghost forbids = region_forbids(*range, regions.items());
    let mut i: usize = 0;
    while i < regions.regions.len()
        invariant
            i <= regions.regions.len(),
            forbids == region_forbids(*range, regions.items()),
            first_fault(forbids, 0, regions.items().len() as int) == first_fault(
                forbids,
                i as int,
                regions.items().len() as int,
            ),
        decreases regions.regions.len() - i,
    {
        let region = &regions.regions[i];
        if range.start < region.range.end && region.range.start < range.end {
            match region.policy {
                EditPolicy::Editable => {
                    assert(forbids(i as int) == Some(DocumentStyleError::EditableRange(*range)));
                    return Err(DocumentStyleError::EditableRange(range.start..range.end));
                },
                EditPolicy::Atomic => {
                    assert(forbids(i as int) == Some(DocumentStyleError::AtomicRange(*range)));
                    return Err(DocumentStyleError::AtomicRange(range.start..range.end));
                },
                EditPolicy::Readonly => {},
                EditPolicy::Routed => {},
            }
        }
        assert(forbids(i as int) is None);
        i += 1;
    }
    Ok(())
}

/// Whether style ranges fit a text and its regions.
pub fn validate_style_ranges<I>(
    text: &SourceText,
    regions: &DocumentRegions<I>,
    ranges: Vec<Range<usize>>,
) -> (result: Result<(), DocumentStyleError>)
    ensures
        match result {
            Ok(()) => style_ranges_fault(ranges@, text.bytes(), regions.items()) is None,
            Err(error) => style_ranges_fault(ranges@, text.bytes(), regions.items()) == Some(error),
        },
{
    let ghost given = ranges@;
    let len = text.len();
    let mut sorted = ranges;
    proof {
        lemma_stable_sort(given);
    }
    sort_stable(&mut sorted);
    let ghost fault = style_range_fault(sorted@, text.bytes(), regions.items());
    let mut i: usize = 0;
    while i < sorted.len()
        invariant
            i <= sorted.len(),
            sorted.len() == given.len(),
            sorted@ == stable_sort(given),
            ranges@ == given,
            len == text.bytes().len(),
            fault == style_range_fault(sorted@, text.bytes(), regions.items()),
            style_ranges_fault(given, text.bytes(), regions.items()) == first_fault(
                fault,
                i as int,
                given.len() as int,
            ),
        decreases sorted.len() - i,
    {
        let range = sorted[i].start..sorted[i].end;
        assert(range == sorted@[i as int]);
        if range.end > len || range.start > range.end {
            assert(fault(i as int) == Some(
                DocumentStyleError::OutOfBounds { range, source_len: len },
            ));
            return Err(DocumentStyleError::OutOfBounds { range, source_len: len });
        }
        if !text.is_boundary(range.start) || !text.is_boundary(range.end) {
            assert(fault(i as int) == Some(DocumentStyleError::InvalidBoundary(range)));
            return Err(DocumentStyleError::InvalidBoundary(range));
        }
        if i > 0 && range.start < sorted[i - 1].end {
            assert(fault(i as int) == Some(DocumentStyleError::Overlap(range)));
            return Err(DocumentStyleError::Overlap(range));
        }
        match check_region_forbids(&range, regions) {
            Ok(()) => {},
            Err(error) => {
                assert(fault(i as int) == Some(error));
                return Err(error);
            },
        }
        assert(fault(i as int) is None);
        i += 1;
    }
    Ok(())
}

// ---------------------------------------------------------------------------
// Display ranges
// ---------------------------------------------------------------------------

/// Where a source range is shown.
pub open spec fn shown_range(p: ProjectionView, source: Range<usize>) -> Range<usize> {
    (p.place(source.start as int, Affinity::Before) as usize)..(p.place(
        source.end as int,
        Affinity::After,
    ) as usize)
}

/// A display offset at the start of a line.
pub open spec fn starts_line(display: Seq<u8>, offset: int) -> bool {
    offset == 0 || (0 < offset <= display.len() && display[offset - 1] == 0x0a)
}

/// A display offset at the end of a line, behind its line feed.
pub open spec fn ends_line(display: Seq<u8>, offset: int) -> bool {
    offset == display.len() || (0 < offset <= display.len() && display[offset - 1] == 0x0a)
}

/// A paragraph style that does not cover whole display lines.
pub open spec fn paragraph_fault(
    styles: Seq<DocumentParagraphStyle>,
    p: ProjectionView,
    display: Seq<u8>,
) -> spec_fn(int) -> Option<DocumentStyleError> {
    |i: int|
        {
            let shown = shown_range(p, styles[i].spec_source());
            if starts_line(display, shown.start as int) && ends_line(display, shown.end as int) {
                None
            } else {
                Some(DocumentStyleError::ParagraphBoundary(styles[i].spec_source()))
            }
        }
}

/// Paragraph styles on the display.
pub open(crate) spec fn resolved_paragraphs(
    styles: Seq<DocumentParagraphStyle>,
    p: ProjectionView,
) -> Seq<ResolvedParagraphStyle> {
    styles.map_values(
        |s: DocumentParagraphStyle|
            ResolvedParagraphStyle {
                display: shown_range(p, s.source),
                text_style: s.text_style,
            },
    )
}

/// Inline styles on the display, without those of which nothing is shown.
pub open(crate) spec fn resolved_inline(styles: Seq<DocumentInlineStyle>, p: ProjectionView) -> Seq<
    ResolvedInlineStyle,
>
    decreases styles.len(),
{
    if styles.len() == 0 {
        Seq::empty()
    } else {
        let front = resolved_inline(styles.drop_last(), p);
        let style = styles.last();
        let shown = shown_range(p, style.source);
        if shown.start >= shown.end {
            front
        } else {
            front.push(
                ResolvedInlineStyle {
                    display: shown,
                    highlight: style.highlight,
                    font_family: style.font_family,
                },
            )
        }
    }
}

/// The sources of paragraph styles.
pub open spec fn paragraph_sources(styles: Seq<DocumentParagraphStyle>) -> Seq<Range<usize>> {
    styles.map_values(|s: DocumentParagraphStyle| s.spec_source())
}

/// The sources of inline styles.
pub open spec fn inline_sources(styles: Seq<DocumentInlineStyle>) -> Seq<Range<usize>> {
    styles.map_values(|s: DocumentInlineStyle| s.spec_source())
}

/// Why styles cannot be resolved: a paragraph range has a fault, an inline
/// range has one, or a paragraph does not cover whole lines.
pub open spec fn styles_fault<I>(
    styles: StylesView,
    bytes: Seq<u8>,
    regions: Seq<DocumentRegion<I>>,
    p: ProjectionView,
    display: Seq<u8>,
) -> Option<DocumentStyleError> {
    if style_ranges_fault(paragraph_sources(styles.paragraphs), bytes, regions) is Some {
        style_ranges_fault(paragraph_sources(styles.paragraphs), bytes, regions)
    } else if style_ranges_fault(inline_sources(styles.inline), bytes, regions) is Some {
        style_ranges_fault(inline_sources(styles.inline), bytes, regions)
    } else {
        first_fault(
            paragraph_fault(styles.paragraphs, p, display),
            0,
            styles.paragraphs.len() as int,
        )
    }
}

/// Styles on the display.
pub open(crate) spec fn resolved_styles(styles: StylesView, p: ProjectionView) -> ResolvedView {
    ResolvedView {
        paragraphs: resolved_paragraphs(styles.paragraphs, p),
        inline: resolved_inline(styles.inline, p),
    }
}

/// Where a source range is shown.
pub(crate) fn show_range(map: &ProjectionMap, source: &Range<usize>) -> (shown: Range<usize>)
    requires
        map.wf(),
        source.start <= map.projection().source_len,
        source.end <= map.projection().source_len,
    ensures
        shown == shown_range(map.projection(), *source),
        shown.start <= map.display_bytes().len(),
        shown.end <= map.display_bytes().len(),
{
    map.place(source.start, Affinity::Before)..map.place(source.end, Affinity::After)
}

/// In ranges without a fault every range is in bounds.
proof fn lemma_style_ranges_in_bounds<I>(
    ranges: Seq<Range<usize>>,
    bytes: Seq<u8>,
    regions: Seq<DocumentRegion<I>>,
)
    requires
        style_ranges_fault(ranges, bytes, regions) is None,
    ensures
        forall|i: int|
            0 <= i < ranges.len() ==> (#[trigger] ranges[i]).start <= ranges[i].end <= bytes.len(),
{
    let sorted = stable_sort(ranges);
    let fault = style_range_fault(sorted, bytes, regions);
    lemma_stable_sort(ranges);
    lemma_first_fault(fault, 0, ranges.len() as int);
    lemma_sort_members(ranges);
    assert forall|i: int| 0 <= i < ranges.len() implies (#[trigger] ranges[i]).start
        <= ranges[i].end <= bytes.len() by {
        assert(ranges.contains(ranges[i]));
        assert(sorted.contains(ranges[i]));
        let k = choose|k: int| 0 <= k < sorted.len() && sorted[k] == ranges[i];
        assert(fault(k) is None);
    }
}

/// The styles of a text on its display.
pub fn resolve_document_styles<I>(
    text: &SourceText,
    regions: &DocumentRegions<I>,
    projection: &ProjectionMap,
    styles: &DocumentStyles,
) -> (result: Result<ResolvedDocumentStyles, DocumentStyleError>)
    requires
        projection.wf(),
        projection.source() == text.bytes(),
    ensures
        match result {
            Ok(resolved) => {
                &&& styles_fault(
                    styles@,
                    text.bytes(),
                    regions.items(),
                    projection.projection(),
                    projection.display_bytes(),
                ) is None
                &&& resolved@ == resolved_styles(styles@, projection.projection())
            },
            Err(error) => styles_fault(
                styles@,
                text.bytes(),
                regions.items(),
                projection.projection(),
                projection.display_bytes(),
            ) == Some(error),
        },
{
    let ghost p = projection.projection();
    let ghost bytes = text.bytes();
    let ghost items = regions.items();
    let ghost shown = projection.display_bytes();
    let mut ranges: Vec<Range<usize>> = Vec::new();
    let mut i: usize = 0;
    while i < styles.paragraphs.len()
        invariant
            i <= styles.paragraphs.len(),
            ranges@ == paragraph_sources(styles@.paragraphs).subrange(0, i as int),
        decreases styles.paragraphs.len() - i,
    {
        ranges.push(styles.paragraphs[i].source());
        assert(ranges@ =~= paragraph_sources(styles@.paragraphs).subrange(0, i + 1));
        i += 1;
    }
    assert(ranges@ =~= paragraph_sources(styles@.paragraphs));
    match validate_style_ranges(text, regions, ranges) {
        Ok(()) => {},
        Err(error) => {
            return Err(error);
        },
    }
    let mut ranges: Vec<Range<usize>> = Vec::new();
    let mut i: usize = 0;
    while i < styles.inline.len()
        invariant
            i <= styles.inline.len(),
            ranges@ == inline_sources(styles@.inline).subrange(0, i as int),
        decreases styles.inline.len() - i,
    {
        ranges.push(styles.inline[i].source());
        assert(ranges@ =~= inline_sources(styles@.inline).subrange(0, i + 1));
        i += 1;
    }
    assert(ranges@ =~= inline_sources(styles@.inline));
    match validate_style_ranges(text, regions, ranges) {
        Ok(()) => {},
        Err(error) => {
            return Err(error);
        },
    }
    proof {
        lemma_style_ranges_in_bounds(paragraph_sources(styles@.paragraphs), bytes, items);
        lemma_style_ranges_in_bounds(inline_sources(styles@.inline), bytes, items);
    }
    let display_text = projection.display_text();
    let display_len = byte_len(display_text);
    let display_bytes = display_text.as_bytes();
    let ghost fault = paragraph_fault(styles@.paragraphs, p, shown);
    let mut paragraphs: Vec<ResolvedParagraphStyle> = Vec::new();
    let mut i: usize = 0;
    while i < styles.paragraphs.len()
        invariant
            i <= styles.paragraphs.len(),
            projection.wf(),
            p == projection.projection(),
            bytes == text.bytes(),
            projection.source() == bytes,
            shown == projection.display_bytes(),
            display_bytes@ == shown,
            display_len == shown.len(),
            fault == paragraph_fault(styles@.paragraphs, p, shown),
            forall|k: int|
                0 <= k < styles@.paragraphs.len() ==> (#[trigger] paragraph_sources(
                    styles@.paragraphs,
                )[k]).start <= paragraph_sources(styles@.paragraphs)[k].end <= bytes.len(),
            styles_fault(styles@, bytes, items, p, shown) == first_fault(
                fault,
                i as int,
                styles@.paragraphs.len() as int,
            ),
            paragraphs@ == resolved_paragraphs(styles@.paragraphs, p).subrange(0, i as int),
            items == regions.items(),
        decreases styles.paragraphs.len() - i,
    {
        let style = &styles.paragraphs[i];
        let source = style.source();
        assert(paragraph_sources(styles@.paragraphs)[i as int] == source);
        let display = show_range(projection, &source);
        let starts = display.start == 0 || display_bytes[display.start - 1] == 0x0a;
        let ends = display.end == display_len || (display.end > 0 && display_bytes[display.end - 1]
            == 0x0a);
        if !starts || !ends {
            assert(fault(i as int) == Some(DocumentStyleError::ParagraphBoundary(source)));
            return Err(DocumentStyleError::ParagraphBoundary(source));
        }
        assert(fault(i as int) is None);
        paragraphs.push(ResolvedParagraphStyle { display, text_style: style.text_style });
        assert(paragraphs@ =~= resolved_paragraphs(styles@.paragraphs, p).subrange(0, i + 1));
        i += 1;
    }
    let mut inline: Vec<ResolvedInlineStyle> = Vec::new();
    let mut i: usize = 0;
    assert(styles@.inline.subrange(0, 0) =~= Seq::empty());
    while i < styles.inline.len()
        invariant
            i <= styles.inline.len(),
            projection.wf(),
            p == projection.projection(),
            bytes == text.bytes(),
            projection.source() == bytes,
            forall|k: int|
                0 <= k < styles@.inline.len() ==> (#[trigger] inline_sources(
                    styles@.inline,
                )[k]).start <= inline_sources(styles@.inline)[k].end <= bytes.len(),
            inline@ == resolved_inline(styles@.inline.subrange(0, i as int), p),
        decreases styles.inline.len() - i,
    {
        let style = &styles.inline[i];
        let source = style.source();
        assert(inline_sources(styles@.inline)[i as int] == source);
        let display = show_range(projection, &source);
        proof {
            let part = styles@.inline.subrange(0, i + 1);
            assert(part.drop_last() =~= styles@.inline.subrange(0, i as int));
            assert(part.last() == *style);
        }
        if display.start < display.end {
            inline.push(
                ResolvedInlineStyle {
                    display,
                    highlight: style.highlight,
                    font_family: style.font_family,
                },
            );
        }
        i += 1;
    }
    assert(styles@.inline.subrange(0, styles@.inline.len() as int) =~= styles@.inline);
    assert(paragraphs@ =~= resolved_paragraphs(styles@.paragraphs, p));
    Ok(ResolvedDocumentStyles { paragraphs, inline })
}

// ---------------------------------------------------------------------------
// Replacing a part
// ---------------------------------------------------------------------------

/// Resolved paragraph styles, all moved by `delta`.
pub open(crate) spec fn shifted_resolved_paragraphs(
    styles: Seq<ResolvedParagraphStyle>,
    delta: int,
) -> Seq<ResolvedParagraphStyle> {
    styles.map_values(
        |s: ResolvedParagraphStyle| s.with_display(shifted_range(s.display, delta)),
    )
}

/// Resolved inline styles, all moved by `delta`.
pub open(crate) spec fn shifted_resolved_inline(styles: Seq<ResolvedInlineStyle>, delta: int) -> Seq<
    ResolvedInlineStyle,
> {
    styles.map_values(|s: ResolvedInlineStyle| s.with_display(shifted_range(s.display, delta)))
}

impl ResolvedView {
    pub open spec fn paragraph_from(self, start: int) -> int {
        first_where(
            self.paragraphs,
            |s: ResolvedParagraphStyle| s.spec_display().end > start,
            0,
        )
    }

    pub open spec fn paragraph_to(self, end: int) -> int {
        first_where(
            self.paragraphs,
            |s: ResolvedParagraphStyle| s.spec_display().start >= end,
            0,
        )
    }

    pub open spec fn inline_from(self, start: int) -> int {
        first_where(self.inline, |s: ResolvedInlineStyle| s.spec_display().end > start, 0)
    }

    pub open spec fn inline_to(self, end: int) -> int {
        first_where(self.inline, |s: ResolvedInlineStyle| s.spec_display().start >= end, 0)
    }

    /// The styles with those of the display `start..end` replaced by others
    /// that are moved there, and those behind moved by `delta`.
    pub open(crate) spec fn spliced(
        self,
        start: int,
        end: int,
        delta: int,
        replacement: ResolvedView,
    ) -> ResolvedView {
        ResolvedView {
            paragraphs: self.paragraphs.subrange(0, self.paragraph_from(start))
                + shifted_resolved_paragraphs(replacement.paragraphs, start)
                + shifted_resolved_paragraphs(
                self.paragraphs.subrange(
                    larger(self.paragraph_from(start), self.paragraph_to(end)),
                    self.paragraphs.len() as int,
                ),
                delta,
            ),
            inline: self.inline.subrange(0, self.inline_from(start)) + shifted_resolved_inline(
                replacement.inline,
                start,
            ) + shifted_resolved_inline(
                self.inline.subrange(
                    larger(self.inline_from(start), self.inline_to(end)),
                    self.inline.len() as int,
                ),
                delta,
            ),
        }
    }
}

fn shift_resolved_paragraphs(styles: &mut Vec<ResolvedParagraphStyle>, delta: isize)
    ensures
        final(styles)@ == shifted_resolved_paragraphs(old(styles)@, delta as int),
{
    let ghost before = styles@;
    let mut i: usize = 0;
    while i < styles.len()
        invariant
            i <= styles.len(),
            styles.len() == before.len(),
            forall|k: int|
                0 <= k < i ==> #[trigger] styles@[k] == shifted_resolved_paragraphs(
                    before,
                    delta as int,
                )[k],
            forall|k: int| i <= k < before.len() ==> #[trigger] styles@[k] == before[k],
        decreases styles.len() - i,
    {
        assert(styles@[i as int] == before[i as int]);
        let display = shift(&styles[i].display, delta);
        styles[i].display = display;
        i += 1;
    }
    assert(styles@ =~= shifted_resolved_paragraphs(before, delta as int));
}

fn shift_resolved_inline(styles: &mut Vec<ResolvedInlineStyle>, delta: isize)
    ensures
        final(styles)@ == shifted_resolved_inline(old(styles)@, delta as int),
{
    let ghost before = styles@;
    let mut i: usize = 0;
    while i < styles.len()
        invariant
            i <= styles.len(),
            styles.len() == before.len(),
            forall|k: int|
                0 <= k < i ==> #[trigger] styles@[k] == shifted_resolved_inline(
                    before,
                    delta as int,
                )[k],
            forall|k: int| i <= k < before.len() ==> #[trigger] styles@[k] == before[k],
        decreases styles.len() - i,
    {
        assert(styles@[i as int] == before[i as int]);
        let display = shift(&styles[i].display, delta);
        styles[i].display = display;
        i += 1;
    }
    assert(styles@ =~= shifted_resolved_inline(before, delta as int));
}

/// The first style that ends behind an offset or, with `starts`, that starts
/// at or behind it.
fn paragraph_index(styles: &Vec<ResolvedParagraphStyle>, offset: usize, starts: bool) -> (index:
    usize)
    ensures
        index <= styles.len(),
        !starts ==> index == first_where(
            styles@,
            |s: ResolvedParagraphStyle| s.spec_display().end > offset as int,
            0,
        ),
        starts ==> index == first_where(
            styles@,
            |s: ResolvedParagraphStyle| s.spec_display().start >= offset as int,
            0,
        ),
{
    let ghost ends_behind = |s: ResolvedParagraphStyle| s.spec_display().end > offset as int;
    let ghost starts_from = |s: ResolvedParagraphStyle| s.spec_display().start >= offset as int;
    let mut i: usize = 0;
    while i < styles.len() && ((starts && styles[i].display.start < offset) || (!starts
        && styles[i].display.end <= offset))
        invariant
            i <= styles.len(),
            ends_behind == (|s: ResolvedParagraphStyle| s.spec_display().end > offset as int),
            starts_from == (|s: ResolvedParagraphStyle| s.spec_display().start >= offset as int),
            !starts ==> forall|k: int| 0 <= k < i ==> !(#[trigger] ends_behind(styles@[k])),
            starts ==> forall|k: int| 0 <= k < i ==> !(#[trigger] starts_from(styles@[k])),
        decreases styles.len() - i,
    {
        i += 1;
    }
    proof {
        if starts {
            lemma_first_where_is(styles@, starts_from, 0, i as int);
        } else {
            lemma_first_where_is(styles@, ends_behind, 0, i as int);
        }
    }
    i
}

/// The first style that ends behind an offset or, with `starts`, that starts
/// at or behind it.
fn inline_index(styles: &Vec<ResolvedInlineStyle>, offset: usize, starts: bool) -> (index: usize)
    ensures
        index <= styles.len(),
        !starts ==> index == first_where(
            styles@,
            |s: ResolvedInlineStyle| s.spec_display().end > offset as int,
            0,
        ),
        starts ==> index == first_where(
            styles@,
            |s: ResolvedInlineStyle| s.spec_display().start >= offset as int,
            0,
        ),
{
    let ghost ends_behind = |s: ResolvedInlineStyle| s.spec_display().end > offset as int;
    let ghost starts_from = |s: ResolvedInlineStyle| s.spec_display().start >= offset as int;
    let mut i: usize = 0;
    while i < styles.len() && ((starts && styles[i].display.start < offset) || (!starts
        && styles[i].display.end <= offset))
        invariant
            i <= styles.len(),
            ends_behind == (|s: ResolvedInlineStyle| s.spec_display().end > offset as int),
            starts_from == (|s: ResolvedInlineStyle| s.spec_display().start >= offset as int),
            !starts ==> forall|k: int| 0 <= k < i ==> !(#[trigger] ends_behind(styles@[k])),
            starts ==> forall|k: int| 0 <= k < i ==> !(#[trigger] starts_from(styles@[k])),
        decreases styles.len() - i,
    {
        i += 1;
    }
    proof {
        if starts {
            lemma_first_where_is(styles@, starts_from, 0, i as int);
        } else {
            lemma_first_where_is(styles@, ends_behind, 0, i as int);
        }
    }
    i
}

impl ResolvedDocumentStyles {
    /// No styles.
    pub fn none() -> (styles: Self)
        ensures
            styles@ == nothing_resolved(),
    {
        ResolvedDocumentStyles { paragraphs: Vec::new(), inline: Vec::new() }
    }

    /// Replaces the styles of a display range by others, and moves those
    /// behind by `delta`.
    pub(crate) fn splice(&mut self, range: &Range<usize>, delta: isize, replacement: Self)
        requires
            range.start <= isize::MAX,
        ensures
            final(self)@ == old(self)@.spliced(
                range.start as int,
                range.end as int,
                delta as int,
                replacement@,
            ),
    {
        let ghost before = self@;
        let from = paragraph_index(&self.paragraphs, range.start, false);
        let to = paragraph_index(&self.paragraphs, range.end, true);
        let to = if to < from {
            from
        } else {
            to
        };
        let mut tail = self.paragraphs.split_off(to);
        shift_resolved_paragraphs(&mut tail, delta);
        self.paragraphs.truncate(from);
        let mut middle = replacement.paragraphs;
        shift_resolved_paragraphs(&mut middle, range.start as isize);
        self.paragraphs.append(&mut middle);
        self.paragraphs.append(&mut tail);
        let from = inline_index(&self.inline, range.start, false);
        let to = inline_index(&self.inline, range.end, true);
        let to = if to < from {
            from
        } else {
            to
        };
        let mut tail = self.inline.split_off(to);
        shift_resolved_inline(&mut tail, delta);
        self.inline.truncate(from);
        let mut middle = replacement.inline;
        shift_resolved_inline(&mut middle, range.start as isize);
        self.inline.append(&mut middle);
        self.inline.append(&mut tail);
        assert(self@ =~= before.spliced(
            range.start as int,
            range.end as int,
            delta as int,
            replacement@,
        ));
    }

    /// A copy of the styles.
    pub fn copy(&self) -> (copy: Self)
        ensures
            copy@ == self@,
    {
        let mut paragraphs: Vec<ResolvedParagraphStyle> = Vec::new();
        let mut i: usize = 0;
        while i < self.paragraphs.len()
            invariant
                i <= self.paragraphs.len(),
                paragraphs@ == self.paragraphs@.subrange(0, i as int),
            decreases self.paragraphs.len() - i,
        {
            let style = &self.paragraphs[i];
            paragraphs.push(
                ResolvedParagraphStyle {
                    display: style.display.start..style.display.end,
                    text_style: style.text_style,
                },
            );
            assert(paragraphs@ =~= self.paragraphs@.subrange(0, i + 1));
            i += 1;
        }
        let mut inline: Vec<ResolvedInlineStyle> = Vec::new();
        let mut i: usize = 0;
        while i < self.inline.len()
            invariant
                i <= self.inline.len(),
                inline@ == self.inline@.subrange(0, i as int),
            decreases self.inline.len() - i,
        {
            let style = &self.inline[i];
            inline.push(
                ResolvedInlineStyle {
                    display: style.display.start..style.display.end,
                    highlight: style.highlight,
                    font_family: style.font_family,
                },
            );
            assert(inline@ =~= self.inline@.subrange(0, i + 1));
            i += 1;
        }
        assert(paragraphs@ =~= self.paragraphs@);
        assert(inline@ =~= self.inline@);
        ResolvedDocumentStyles { paragraphs, inline }
    }
}

} // verus!
