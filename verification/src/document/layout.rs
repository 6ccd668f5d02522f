//! The rows that a document is laid out in.

use crate::document::anchored_block::AnchoredBlock;
use crate::document::block::{hides_block, law_blocks_are_hidden_atomic_regions};
use crate::document::mapping::{
    lemma_outside_shown, lemma_rendered_len, lemma_shown_boundary, lemma_shown_order,
};
use crate::document::model::DocumentModel;
use crate::document::model_edit::place_row;
use crate::document::model_view::{row_in, ModelView};
use crate::document::position::{saturated, shift_offset, Affinity};
use crate::document::projection::{lemma_span_behind, ProjectionView};
use crate::document::region::{lemma_region_index, EditPolicy};
use crate::document::resolve::{ResolvedInlineStyle, ResolvedParagraphStyle};
use crate::document::style::{shift, shifted_range, FontFamily, HighlightStyle, TextStyleRefinement};
use crate::document::validate::{lemma_projection_fits, touches_editable};
use crate::identity::{copy_id, lawful_eq, same_id};
use crate::scan::{first_where, lemma_first_where_is};
use crate::text::{at_boundary, byte_len, lemma_behind_ascii, same_text, sub_string};
use std::ops::Range;
use vstd::prelude::*;
use vstd::string::*;
use vstd::utf8::*;

verus! {

/// How one row of text is shown. Ranges count from the start of the row.
pub struct DocumentTextPresentation {
    pub text_style: Option<TextStyleRefinement>,
    pub highlights: Vec<(Range<usize>, HighlightStyle)>,
    pub font_family_overrides: Vec<(Range<usize>, FontFamily)>,
}

#[verifier::ext_equal]
pub struct TextPresentationView {
    pub text_style: Option<TextStyleRefinement>,
    pub highlights: Seq<(Range<usize>, HighlightStyle)>,
    pub font_family_overrides: Seq<(Range<usize>, FontFamily)>,
}

impl View for DocumentTextPresentation {
    type V = TextPresentationView;

    open spec fn view(&self) -> TextPresentationView {
        TextPresentationView {
            text_style: self.text_style,
            highlights: self.highlights@,
            font_family_overrides: self.font_family_overrides@,
        }
    }
}

/// A row of a document: a line of displayed text, an inline block, a block
/// anchored between lines, or the space behind the last line.
#[allow(inconsistent_fields)]
pub enum DocumentLayoutItem<I> {
    Text {
        display: Range<usize>,
        source: Range<usize>,
        node_id: Option<I>,
        text: String,
        presentation: DocumentTextPresentation,
    },
    Block { id: I, source: Range<usize> },
    AnchoredBlock { id: I, source: usize },
    Trailer,
}

#[verifier::ext_equal]
#[allow(inconsistent_fields)]
pub enum LayoutView<I> {
    Text {
        display: Range<usize>,
        source: Range<usize>,
        node_id: Option<I>,
        text: Seq<u8>,
        presentation: TextPresentationView,
    },
    Block { id: I, source: Range<usize> },
    AnchoredBlock { id: I, source: usize },
    Trailer,
}

impl<I> View for DocumentLayoutItem<I> {
    type V = LayoutView<I>;

    open spec fn view(&self) -> LayoutView<I> {
        match *self {
            DocumentLayoutItem::Text { display, source, node_id, text, presentation } => {
                LayoutView::Text {
                    display,
                    source,
                    node_id,
                    text: encode_utf8(text@),
                    presentation: presentation@,
                }
            },
            DocumentLayoutItem::Block { id, source } => LayoutView::Block { id, source },
            DocumentLayoutItem::AnchoredBlock { id, source } => LayoutView::AnchoredBlock {
                id,
                source,
            },
            DocumentLayoutItem::Trailer => LayoutView::Trailer,
        }
    }
}

/// What rows say.
pub open spec fn layout_views<I>(items: Seq<DocumentLayoutItem<I>>) -> Seq<LayoutView<I>> {
    items.map_values(|item: DocumentLayoutItem<I>| item@)
}

/// Bytes in a row as a range.
pub open spec fn range_of(start: int, end: int) -> Range<usize> {
    Range { start: start as usize, end: end as usize }
}

impl<I> LayoutView<I> {
    /// Both rows look the same and have the same measurements.
    pub open spec fn same_identity(self, other: LayoutView<I>) -> bool {
        match (self, other) {
            (
                LayoutView::Text { text, node_id, presentation, .. },
                LayoutView::Text {
                    text: other_text,
                    node_id: other_node,
                    presentation: other_presentation,
                    ..
                },
            ) => node_id == other_node && text == other_text && presentation == other_presentation,
            (LayoutView::Block { id, .. }, LayoutView::Block { id: other_id, .. }) => id
                == other_id,
            (
                LayoutView::AnchoredBlock { id, .. },
                LayoutView::AnchoredBlock { id: other_id, .. },
            ) => id == other_id,
            (LayoutView::Trailer, LayoutView::Trailer) => true,
            _ => false,
        }
    }

    /// Where the source of a row starts.
    pub open spec fn source_start(self) -> int {
        match self {
            LayoutView::Text { source, .. } => source.start as int,
            LayoutView::Block { source, .. } => source.start as int,
            LayoutView::AnchoredBlock { source, .. } => source as int,
            LayoutView::Trailer => usize::MAX as int,
        }
    }

    /// The row after text before it has grown.
    pub open spec fn shifted(self, source_delta: int, display_delta: int) -> LayoutView<I> {
        match self {
            LayoutView::Text { display, source, node_id, text, presentation } => {
                LayoutView::Text {
                    display: shifted_range(display, display_delta),
                    source: shifted_range(source, source_delta),
                    node_id,
                    text,
                    presentation,
                }
            },
            LayoutView::Block { id, source } => LayoutView::Block {
                id,
                source: shifted_range(source, source_delta),
            },
            LayoutView::AnchoredBlock { id, source } => LayoutView::AnchoredBlock {
                id,
                source: saturated(source + source_delta) as usize,
            },
            LayoutView::Trailer => LayoutView::Trailer,
        }
    }

    /// A row of text without text.
    pub open spec fn is_empty_text(self) -> bool {
        self matches LayoutView::Text { display, .. } && display.start >= display.end
    }
}

// ---------------------------------------------------------------------------
// One row of text
// ---------------------------------------------------------------------------

pub open spec fn clamped(value: int, low: int, high: int) -> int {
    if value < low {
        low
    } else if value > high {
        high
    } else {
        value
    }
}

/// The part of a row that an inline style covers, counted from the start of
/// the row.
pub open spec fn covered_part(style: Range<usize>, display: (int, int)) -> Option<Range<usize>> {
    let start = if display.0 >= style.start {
        display.0
    } else {
        style.start as int
    };
    let end = if display.1 <= style.end {
        display.1
    } else {
        style.end as int
    };
    if start >= end {
        None
    } else {
        Some(range_of(start - display.0, end - display.0))
    }
}

/// The highlights of a row.
pub open spec fn row_highlights(inline: Seq<ResolvedInlineStyle>, display: (int, int)) -> Seq<
    (Range<usize>, HighlightStyle),
>
    decreases inline.len(),
{
    if inline.len() == 0 {
        Seq::empty()
    } else {
        let before = row_highlights(inline.drop_last(), display);
        match covered_part(inline.last().spec_display(), display) {
            Some(part) => before.push((part, inline.last().spec_highlight())),
            None => before,
        }
    }
}

/// The font families of a row.
pub open spec fn row_families(inline: Seq<ResolvedInlineStyle>, display: (int, int)) -> Seq<
    (Range<usize>, FontFamily),
>
    decreases inline.len(),
{
    if inline.len() == 0 {
        Seq::empty()
    } else {
        let before = row_families(inline.drop_last(), display);
        match (
            covered_part(inline.last().spec_display(), display),
            inline.last().spec_font_family(),
        ) {
            (Some(part), Some(family)) => before.push((part, family)),
            _ => before,
        }
    }
}

/// A paragraph that a row lies in.
pub open spec fn paragraph_around(display: (int, int)) -> spec_fn(ResolvedParagraphStyle) -> bool {
    |p: ResolvedParagraphStyle|
        p.spec_display().start <= display.0 && display.1 <= p.spec_display().end
}

impl<I> ModelView<I> {
    /// The source of a row: what is shown between its ends, cut to a part of
    /// the source. A hidden object shares display offsets with the text on
    /// both its sides; the part keeps it out.
    pub open spec fn row_source(self, display: (int, int), segment: (int, int)) -> (int, int) {
        let first = match self.projection.display_to_source(display.0, Affinity::After) {
            Some(offset) => offset,
            None => segment.1,
        };
        let last = match self.projection.display_to_source(display.1, Affinity::Before) {
            Some(offset) => offset,
            None => segment.1,
        };
        let start = clamped(first, segment.0, segment.1);
        (start, clamped(last, start, segment.1))
    }

    /// How a row is shown.
    pub open spec fn row_presentation(self, display: (int, int)) -> TextPresentationView {
        let paragraphs = self.resolved.paragraphs;
        let at = first_where(paragraphs, paragraph_around(display), 0);
        TextPresentationView {
            text_style: if at < paragraphs.len() {
                Some(paragraphs[at].spec_text_style())
            } else {
                None
            },
            highlights: row_highlights(self.resolved.inline, display),
            font_family_overrides: row_families(self.resolved.inline, display),
        }
    }

    /// The row of one line of displayed text.
    pub open(crate) spec fn text_item(self, display: (int, int), segment: (int, int)) -> LayoutView<I> {
        let source = self.row_source(display, segment);
        LayoutView::Text {
            display: range_of(display.0, display.1),
            source: range_of(source.0, source.1),
            node_id: Self::node_of(self.position_for_offset(source.0, Affinity::After)),
            text: self.display().subrange(display.0, display.1),
            presentation: self.row_presentation(display),
        }
    }

    /// The rows of a part of the displayed text: one for each line. Line
    /// feeds stand between rows. Without `tail` nothing behind the last line
    /// feed is no row.
    pub open(crate) spec fn text_items(self, display: (int, int), segment: (int, int), tail: bool) -> Seq<
        LayoutView<I>,
    >
        decreases display.1 - display.0,
    {
        let end = line_end(self.display(), display.0, display.1);
        if display.0 <= end < display.1 {
            seq![self.text_item((display.0, end), segment)] + self.text_items(
                (end + 1, display.1),
                segment,
                tail,
            )
        } else if display.0 < display.1 || (tail && display.0 == display.1) {
            seq![self.text_item(display, segment)]
        } else {
            Seq::empty()
        }
    }

    /// A region that is shown as a block.
    pub open spec fn region_is_block(self, region: int, block: int) -> bool {
        block < self.blocks.len() && self.blocks[block].spec_id() == self.regions[region].spec_id()
    }

    /// An empty region before the last, in which text can be typed.
    pub open spec fn region_is_gap(self, region: int) -> bool {
        &&& self.regions[region].spec_policy() == EditPolicy::Editable
        &&& self.regions[region].start() >= self.regions[region].end()
        &&& region + 1 != self.regions.len()
    }

    /// Where a source offset stands in the display.
    pub open spec fn shown(self, offset: int, affinity: Affinity) -> int {
        self.projection.place(offset, affinity)
    }

    /// The row of an empty region.
    pub open(crate) spec fn gap_item(self, region: int) -> LayoutView<I> {
        let r = self.regions[region];
        let at = self.shown(r.start(), Affinity::Before);
        match self.text_item((at, at), (r.start(), r.end())) {
            LayoutView::Text { display, source, text, presentation, .. } => LayoutView::Text {
                display,
                source,
                node_id: Some(r.spec_id()),
                text,
                presentation,
            },
            other => other,
        }
    }

    /// The rows of the text before a block or an empty region, and its own.
    pub open(crate) spec fn region_rows(self, region: int, is_block: bool, display: int, source: int) -> Seq<
        LayoutView<I>,
    > {
        let r = self.regions[region];
        let start = self.shown(r.start(), Affinity::Before);
        self.text_items((display, start), (source, r.start()), false).push(
            if is_block {
                LayoutView::Block { id: r.spec_id(), source: range_of(r.start(), r.end()) }
            } else {
                self.gap_item(region)
            },
        )
    }

    /// The rows from a region on: text rows up to the next block or empty
    /// region, then that, and so on. Behind the last of them comes the rest
    /// of the text.
    pub open(crate) spec fn rows_from(self, region: int, block: int, display: int, source: int) -> Seq<
        LayoutView<I>,
    >
        decreases self.regions.len() - region,
    {
        if region >= self.regions.len() {
            self.text_items(
                (display, self.display().len() as int),
                (source, self.bytes.len() as int),
                true,
            )
        } else if !self.region_is_block(region, block) && !self.region_is_gap(region) {
            self.rows_from(region + 1, block, display, source)
        } else {
            let r = self.regions[region];
            let block_here = self.region_is_block(region, block);
            self.region_rows(region, block_here, display, source) + self.rows_from(
                region + 1,
                if block_here {
                    block + 1
                } else {
                    block
                },
                self.shown(r.end(), Affinity::After),
                r.end(),
            )
        }
    }

    /// The rows with the first `count` anchored blocks. Each stands before
    /// the first row that is shown at or behind its place.
    pub open(crate) spec fn with_anchored(self, items: Seq<LayoutView<I>>, count: int) -> Seq<
        LayoutView<I>,
    >
        decreases count,
    {
        if count <= 0 {
            items
        } else {
            let before = self.with_anchored(items, count - 1);
            let block = self.anchored[count - 1];
            match row_in(self.bytes, self.regions, self.projection, block) {
                Ok((source, display)) => before.insert(
                    row_index(before, source, display),
                    LayoutView::AnchoredBlock { id: block.spec_id(), source: source as usize },
                ),
                Err(_) => before,
            }
        }
    }

    /// The rows of the document.
    pub open(crate) spec fn layout(self) -> Seq<LayoutView<I>> {
        self.with_anchored(self.rows_from(0, 0, 0, 0), self.anchored.len() as int)
    }
}

/// The end of a line: the first line feed between two offsets, or the second
/// of them.
pub open spec fn line_end(bytes: Seq<u8>, from: int, to: int) -> int
    decreases to - from,
{
    if from >= to {
        to
    } else if bytes[from] == 0x0a {
        from
    } else {
        line_end(bytes, from + 1, to)
    }
}

/// A row at or behind a place of the source and the display.
pub open spec fn row_behind<I>(source: int, display: int) -> spec_fn(LayoutView<I>) -> bool {
    |item: LayoutView<I>|
        match item {
            LayoutView::Text { display: shown, source: part, .. } => shown.start >= display
                && part.end >= source,
            LayoutView::Block { source: part, .. } => part.start >= source,
            _ => false,
        }
}

/// Where an anchored block stands among rows.
pub open spec fn row_index<I>(items: Seq<LayoutView<I>>, source: int, display: int) -> int {
    first_where(items, row_behind(source, display), 0)
}

// ---------------------------------------------------------------------------
// Rows are in order
// ---------------------------------------------------------------------------

/// The edges of a block or of an empty region are shown at one place, and in
/// order behind an offset before it.
pub(crate) proof fn lemma_row_edges<I>(m: ModelView<I>, region: int, block: int, source: int)
    requires
        m.wf(),
        0 <= region < m.regions.len(),
        0 <= block,
        m.region_is_block(region, block) || m.region_is_gap(region),
        0 <= source <= m.regions[region].start(),
        m.projection.outside(source),
    ensures
        ({
            let r = m.regions[region];
            &&& m.shown(r.start(), Affinity::Before) == m.projection.shown_at(r.start())
            &&& m.shown(r.end(), Affinity::After) == m.projection.shown_at(r.end())
            &&& m.projection.outside(r.end())
            &&& r.start() <= r.end() <= m.bytes.len()
            &&& m.projection.shown_at(source) <= m.projection.shown_at(r.start())
                <= m.projection.shown_at(r.end()) <= m.display().len()
            &&& at_boundary(m.display(), m.projection.shown_at(r.start()))
            &&& at_boundary(m.display(), m.projection.shown_at(r.end()))
            &&& at_boundary(m.bytes, r.end())
        }),
{
    let p = m.projection;
    let r = m.regions[region];
    let len = m.bytes.len() as int;
    lemma_projection_fits(p, m.regions, m.bytes);
    assert(r.start() <= r.end() <= len);
    assert(at_boundary(m.bytes, r.start()) && at_boundary(m.bytes, r.end()));
    if m.region_is_block(region, block) {
        law_blocks_are_hidden_atomic_regions(m.blocks, m.regions, p, len as usize, block);
        let q = choose|q: int|
            0 <= q < m.regions.len() && (#[trigger] m.regions[q]).start() == m.blocks[block].start()
                && m.regions[q].end() == m.blocks[block].end() && m.regions[q].spec_policy()
                == EditPolicy::Atomic && m.regions[q].spec_id() == m.blocks[block].spec_id();
        lemma_region_index(m.regions, len, q);
        lemma_region_index(m.regions, len, region);
        assert(q == region);
        let k = choose|k: int|
            0 <= k < p.spans.len() && hides_block(
                #[trigger] p.spans[k],
                m.blocks[block],
            );
        assert forall|i: int| 0 <= i < p.spans.len() implies !(#[trigger] p.spans[i]).inside(
            r.start(),
        ) && !p.spans[i].inside(r.end()) by {
            assert(p.spans[k].start < p.spans[k].end);
            if i < k {
                assert(p.spans[i].end <= p.spans[k].start);
            } else if i > k {
                assert(p.spans[k].end <= p.spans[i].start);
            }
        }
    } else {
        assert forall|i: int| 0 <= i < p.spans.len() implies !(#[trigger] p.spans[i]).inside(
            r.start(),
        ) && !p.spans[i].inside(r.end()) by {
            assert(!touches_editable(p.spans[i], m.regions));
        }
    }
    assert(p.outside(r.start()));
    assert(p.outside(r.end()));
    lemma_outside_shown(p, r.start(), Affinity::Before);
    lemma_outside_shown(p, r.end(), Affinity::After);
    lemma_shown_order(p, source, r.start());
    lemma_shown_order(p, r.start(), r.end());
    lemma_shown_boundary(m.bytes, p, r.start());
    lemma_shown_boundary(m.bytes, p, r.end());
}

/// The start of the text is shown at the start.
pub(crate) proof fn lemma_shown_first(p: ProjectionView)
    requires
        p.valid(),
    ensures
        p.outside(0),
        p.shown_at(0) == 0,
{
    lemma_span_behind(p, 0);
    if p.span_behind(0) > 0 {
        assert(p.spans[0].end <= 0);
    }
}

/// The first line feed of a part.
proof fn lemma_line_end(bytes: Seq<u8>, from: int, to: int, at: int)
    requires
        from <= at <= to,
        forall|i: int| from <= i < at ==> (#[trigger] bytes[i]) != 0x0a,
        at < to ==> bytes[at] == 0x0a,
    ensures
        line_end(bytes, from, to) == at,
    decreases at - from,
{
    if from < at {
        assert(bytes[from] != 0x0a);
        lemma_line_end(bytes, from + 1, to, at);
    }
}

// ---------------------------------------------------------------------------
// Layout
// ---------------------------------------------------------------------------

fn clamp(value: usize, low: usize, high: usize) -> (cut: usize)
    requires
        low <= high,
    ensures
        cut == clamped(value as int, low as int, high as int),
{
    if value < low {
        low
    } else if value > high {
        high
    } else {
        value
    }
}

impl DocumentTextPresentation {
    /// Whether two rows are shown alike.
    pub fn same(&self, other: &Self) -> (same: bool)
        ensures
            same == (self@ == other@),
    {
        if self.text_style != other.text_style || self.highlights.len() != other.highlights.len()
            || self.font_family_overrides.len() != other.font_family_overrides.len() {
            return false;
        }
        let mut i: usize = 0;
        while i < self.highlights.len()
            invariant
                i <= self.highlights.len(),
                self.highlights.len() == other.highlights.len(),
                forall|k: int| 0 <= k < i ==> self.highlights@[k] == other.highlights@[k],
            decreases self.highlights.len() - i,
        {
            let left = &self.highlights[i];
            let right = &other.highlights[i];
            if left.0.start != right.0.start || left.0.end != right.0.end || left.1 != right.1 {
                assert(self.highlights@[i as int] != other.highlights@[i as int]);
                return false;
            }
            assert(self.highlights@[i as int] == other.highlights@[i as int]);
            i += 1;
        }
        let mut i: usize = 0;
        while i < self.font_family_overrides.len()
            invariant
                i <= self.font_family_overrides.len(),
                self.font_family_overrides.len() == other.font_family_overrides.len(),
                forall|k: int|
                    0 <= k < i ==> self.font_family_overrides@[k]
                        == other.font_family_overrides@[k],
            decreases self.font_family_overrides.len() - i,
        {
            let left = &self.font_family_overrides[i];
            let right = &other.font_family_overrides[i];
            if left.0.start != right.0.start || left.0.end != right.0.end || left.1 != right.1 {
                assert(self.font_family_overrides@[i as int]
                    != other.font_family_overrides@[i as int]);
                return false;
            }
            assert(self.font_family_overrides@[i as int] == other.font_family_overrides@[i as int]);
            i += 1;
        }
        assert(self@ =~= other@);
        true
    }
}

impl<I: Eq> DocumentLayoutItem<I> {
    /// Whether the measurements of one row hold for the other.
    pub fn same_layout_identity(&self, other: &Self) -> (same: bool)
        requires
            lawful_eq::<I>(),
        ensures
            same == self@.same_identity(other@),
    {
        match (self, other) {
            (
                DocumentLayoutItem::Text { text, node_id, presentation, .. },
                DocumentLayoutItem::Text {
                    text: other_text,
                    node_id: other_node,
                    presentation: other_presentation,
                    ..
                },
            ) => {
                let same_node = match (node_id, other_node) {
                    (Some(left), Some(right)) => same_id(left, right),
                    (None, None) => true,
                    _ => false,
                };
                same_node && same_text(text, other_text) && presentation.same(other_presentation)
            },
            (
                DocumentLayoutItem::Block { id, .. },
                DocumentLayoutItem::Block { id: other_id, .. },
            ) => same_id(id, other_id),
            (
                DocumentLayoutItem::AnchoredBlock { id, .. },
                DocumentLayoutItem::AnchoredBlock { id: other_id, .. },
            ) => same_id(id, other_id),
            (DocumentLayoutItem::Trailer, DocumentLayoutItem::Trailer) => true,
            _ => false,
        }
    }

    /// Where the source of the row starts.
    pub fn source_start(&self) -> (start: usize)
        ensures
            start == self@.source_start(),
    {
        match self {
            DocumentLayoutItem::Text { source, .. } => source.start,
            DocumentLayoutItem::Block { source, .. } => source.start,
            DocumentLayoutItem::AnchoredBlock { source, .. } => *source,
            DocumentLayoutItem::Trailer => usize::MAX,
        }
    }

    /// Moves the row with text before it that grows.
    pub fn shift(&mut self, source_delta: isize, display_delta: isize)
        ensures
            final(self)@ == old(self)@.shifted(source_delta as int, display_delta as int),
    {
        match self {
            DocumentLayoutItem::Text { display, source, .. } => {
                *display = shift(display, display_delta);
                *source = shift(source, source_delta);
            },
            DocumentLayoutItem::Block { source, .. } => {
                *source = shift(source, source_delta);
            },
            DocumentLayoutItem::AnchoredBlock { source, .. } => {
                *source = shift_offset(*source, source_delta);
            },
            DocumentLayoutItem::Trailer => {},
        }
    }
}

impl<I: Clone + Eq> DocumentModel<I> {
    /// How a row is shown.
    fn row_presentation(&self, display: &Range<usize>) -> (presentation: DocumentTextPresentation)
        requires
            self.wf(),
        ensures
            presentation@ == self@.row_presentation((display.start as int, display.end as int)),
    {
        let ghost part = (display.start as int, display.end as int);
        let paragraphs = &self.resolved_styles.paragraphs;
        let ghost test = paragraph_around(part);
        let mut at: usize = 0;
        while at < paragraphs.len() && !(paragraphs[at].display.start <= display.start
            && display.end <= paragraphs[at].display.end)
            invariant
                at <= paragraphs@.len(),
                part == (display.start as int, display.end as int),
                test == paragraph_around(part),
                forall|k: int| 0 <= k < at ==> !(#[trigger] test(paragraphs@[k])),
            decreases paragraphs@.len() - at,
        {
            assert(!test(paragraphs@[at as int]));
            at += 1;
        }
        proof {
            if at < paragraphs@.len() {
                assert(test(paragraphs@[at as int]));
            }
            lemma_first_where_is(paragraphs@, test, 0, at as int);
        }
        let text_style = if at < paragraphs.len() {
            Some(paragraphs[at].text_style)
        } else {
            None
        };
        let inline = &self.resolved_styles.inline;
        let mut highlights: Vec<(Range<usize>, HighlightStyle)> = Vec::new();
        let mut font_family_overrides: Vec<(Range<usize>, FontFamily)> = Vec::new();
        let mut i: usize = 0;
        while i < inline.len()
            invariant
                i <= inline@.len(),
                part == (display.start as int, display.end as int),
                highlights@ == row_highlights(inline@.subrange(0, i as int), part),
                font_family_overrides@ == row_families(inline@.subrange(0, i as int), part),
            decreases inline@.len() - i,
        {
            let style = &inline[i];
            proof {
                assert(inline@.subrange(0, i + 1).drop_last() =~= inline@.subrange(0, i as int));
            }
            let start = if display.start >= style.display.start {
                display.start
            } else {
                style.display.start
            };
            let end = if display.end <= style.display.end {
                display.end
            } else {
                style.display.end
            };
            if start < end {
                highlights.push((start - display.start..end - display.start, style.highlight));
                if let Some(font_family) = style.font_family {
                    font_family_overrides.push(
                        (start - display.start..end - display.start, font_family),
                    );
                }
            }
            i += 1;
        }
        assert(inline@.subrange(0, inline@.len() as int) =~= inline@);
        DocumentTextPresentation { text_style, highlights, font_family_overrides }
    }

    /// The row of one line of displayed text.
    pub fn text_layout_item(&self, display: Range<usize>, segment: Range<usize>) -> (item:
        DocumentLayoutItem<I>)
        requires
            self.wf(),
            display.start <= display.end <= self@.display().len(),
            at_boundary(self@.display(), display.start as int),
            at_boundary(self@.display(), display.end as int),
            segment.start <= segment.end,
        ensures
            item@ == self@.text_item(
                (display.start as int, display.end as int),
                (segment.start as int, segment.end as int),
            ),
    {
        let first = match self.display_to_source(display.start, Affinity::After) {
            Some(offset) => offset,
            None => segment.end,
        };
        let last = match self.display_to_source(display.end, Affinity::Before) {
            Some(offset) => offset,
            None => segment.end,
        };
        let start = clamp(first, segment.start, segment.end);
        let end = clamp(last, start, segment.end);
        let node_id = match self.position_for_offset(start, Affinity::After) {
            Ok(position) => Some(position.node_id),
            Err(_) => None,
        };
        let presentation = self.row_presentation(&display);
        let text = sub_string(self.display_text(), display.start, display.end);
        DocumentLayoutItem::Text { display, source: start..end, node_id, text, presentation }
    }

    /// Adds the rows of a part of the displayed text.
    fn push_text_layout_items(
        &self,
        items: &mut Vec<DocumentLayoutItem<I>>,
        range: Range<usize>,
        source: Range<usize>,
        include_empty_tail: bool,
    )
        requires
            self.wf(),
            range.start <= range.end <= self@.display().len(),
            at_boundary(self@.display(), range.start as int),
            at_boundary(self@.display(), range.end as int),
            source.start <= source.end,
        ensures
            layout_views(final(items)@) == layout_views(old(items)@) + self@.text_items(
                (range.start as int, range.end as int),
                (source.start as int, source.end as int),
                include_empty_tail,
            ),
    {
        let ghost m = self@;
        let ghost segment = (source.start as int, source.end as int);
        let ghost before = layout_views(items@);
        let ghost all = m.text_items(
            (range.start as int, range.end as int),
            segment,
            include_empty_tail,
        );
        let text = self.display_text();
        let bytes = text.as_bytes();
        let mut start = range.start;
        let mut at = range.start;
        while at < range.end
            invariant
                self.wf(),
                m == self@,
                segment == (source.start as int, source.end as int),
                source.start <= source.end,
                bytes@ == m.display(),
                text.spec_bytes() == m.display(),
                range.start <= start <= at <= range.end <= m.display().len(),
                at_boundary(m.display(), start as int),
                at_boundary(m.display(), range.end as int),
                forall|i: int| start <= i < at ==> (#[trigger] m.display()[i]) != 0x0a,
                before + all == layout_views(items@) + m.text_items(
                    (start as int, range.end as int),
                    segment,
                    include_empty_tail,
                ),
            decreases range.end - at,
        {
            if bytes[at] == 0x0a {
                proof {
                    lemma_line_end(m.display(), start as int, range.end as int, at as int);
                    lemma_behind_ascii(text@, at as int);
                }
                let ghost held = layout_views(items@);
                let item = self.text_layout_item(start..at, source.start..source.end);
                items.push(item);
                proof {
                    assert(layout_views(items@) =~= held.push(item@));
                    let rest = m.text_items(
                        (at + 1, range.end as int),
                        segment,
                        include_empty_tail,
                    );
                    assert(held + (seq![item@] + rest) =~= layout_views(items@) + rest);
                }
                start = at + 1;
            }
            at += 1;
        }
        proof {
            lemma_line_end(m.display(), start as int, range.end as int, range.end as int);
        }
        let ghost held = layout_views(items@);
        if start < range.end || (include_empty_tail && start == range.end) {
            let item = self.text_layout_item(start..range.end, source);
            items.push(item);
            assert(layout_views(items@) =~= held + seq![item@]);
        } else {
            assert(held + Seq::<LayoutView<I>>::empty() =~= held);
        }
    }

    /// Adds the rows of the text before a block or an empty region, and its
    /// own. Returns where the region ends in the display.
    fn push_region_rows(
        &self,
        items: &mut Vec<DocumentLayoutItem<I>>,
        index: usize,
        Ghost(block): Ghost<int>,
        is_block: bool,
        display_cursor: usize,
        source_cursor: usize,
    ) -> (end: usize)
        requires
            self.wf(),
            index < self@.regions.len(),
            0 <= block,
            is_block == self@.region_is_block(index as int, block),
            is_block || self@.region_is_gap(index as int),
            source_cursor <= self@.regions[index as int].start(),
            self@.projection.outside(source_cursor as int),
            display_cursor == self@.projection.shown_at(source_cursor as int),
            at_boundary(self@.display(), display_cursor as int),
        ensures
            layout_views(final(items)@) == layout_views(old(items)@) + self@.region_rows(
                index as int,
                is_block,
                display_cursor as int,
                source_cursor as int,
            ),
            end == self@.shown(self@.regions[index as int].end(), Affinity::After),
    {
        let ghost m = self@;
        let ghost held = layout_views(items@);
        proof {
            lemma_row_edges(m, index as int, block, source_cursor as int);
        }
        let region = &self.regions.regions[index];
        let range = region.range();
        let start = self.projection_map.place(range.start, Affinity::Before);
        let end = self.projection_map.place(range.end, Affinity::After);
        self.push_text_layout_items(
            items,
            display_cursor..start,
            source_cursor..range.start,
            false,
        );
        let ghost texted = layout_views(items@);
        let item = if is_block {
            DocumentLayoutItem::Block { id: copy_id(&region.id), source: range.start..range.end }
        } else {
            match self.text_layout_item(start..start, range.start..range.end) {
                DocumentLayoutItem::Text { display, source, text, presentation, .. } => {
                    DocumentLayoutItem::Text {
                        display,
                        source,
                        node_id: Some(copy_id(&region.id)),
                        text,
                        presentation,
                    }
                },
                other => other,
            }
        };
        items.push(item);
        assert(layout_views(items@) =~= texted.push(item@));
        assert(layout_views(items@) =~= held + m.region_rows(
            index as int,
            is_block,
            display_cursor as int,
            source_cursor as int,
        ));
        end
    }

    /// The rows of text, inline blocks and empty regions.
    fn base_layout_items(&self) -> (items: Vec<DocumentLayoutItem<I>>)
        requires
            self.wf(),
        ensures
            layout_views(items@) == self@.rows_from(0, 0, 0, 0),
    {
        let ghost m = self@;
        let mut items: Vec<DocumentLayoutItem<I>> = Vec::new();
        let mut display_cursor: usize = 0;
        let mut source_cursor: usize = 0;
        let mut block: usize = 0;
        let count = self.regions.regions.len();
        proof {
            lemma_shown_first(m.projection);
            lemma_rendered_len(m.bytes, m.projection);
            assert(layout_views(items@) + m.rows_from(0, 0, 0, 0) =~= m.rows_from(0, 0, 0, 0));
        }
        let mut i: usize = 0;
        while i < count
            invariant
                self.wf(),
                m == self@,
                count == m.regions.len(),
                i <= count,
                block <= m.blocks.len(),
                source_cursor <= m.bytes.len(),
                m.projection.outside(source_cursor as int),
                display_cursor == m.projection.shown_at(source_cursor as int),
                display_cursor <= m.display().len(),
                at_boundary(m.display(), display_cursor as int),
                forall|j: int|
                    i <= j < count ==> source_cursor <= (#[trigger] m.regions[j]).start(),
                m.rows_from(0, 0, 0, 0) == layout_views(items@) + m.rows_from(
                    i as int,
                    block as int,
                    display_cursor as int,
                    source_cursor as int,
                ),
            decreases count - i,
        {
            let region = &self.regions.regions[i];
            let is_block = block < self.blocks.len() && same_id(&self.blocks[block].id, &region.id);
            let range = region.range();
            let is_gap = region.policy == EditPolicy::Editable && range.start >= range.end && i + 1
                != count;
            if !is_block && !is_gap {
                i += 1;
                continue ;
            }
            let ghost held = layout_views(items@);
            proof {
                lemma_row_edges(m, i as int, block as int, source_cursor as int);
            }
            let end = self.push_region_rows(
                &mut items,
                i,
                Ghost(block as int),
                is_block,
                display_cursor,
                source_cursor,
            );
            proof {
                let rest = if is_block {
                    m.rows_from(i + 1, block + 1, end as int, range.end as int)
                } else {
                    m.rows_from(i + 1, block as int, end as int, range.end as int)
                };
                let added = m.region_rows(
                    i as int,
                    is_block,
                    display_cursor as int,
                    source_cursor as int,
                );
                assert(held + (added + rest) =~= layout_views(items@) + rest);
            }
            if is_block {
                block += 1;
            }
            display_cursor = end;
            source_cursor = range.end;
            i += 1;
            proof {
                assert forall|j: int| i <= j < count implies source_cursor <= (
                #[trigger] m.regions[j]).start() by {
                    assert(m.regions[i - 1].end() <= m.regions[j].start());
                }
            }
        }
        let display_len = byte_len(self.display_text());
        let ghost held = layout_views(items@);
        self.push_text_layout_items(
            &mut items,
            display_cursor..display_len,
            source_cursor..self.text.len(),
            true,
        );
        items
    }

    /// The rows of the document.
    pub fn layout_items(&self) -> (items: Vec<DocumentLayoutItem<I>>)
        requires
            self.wf(),
        ensures
            layout_views(items@) == self@.layout(),
    {
        let ghost m = self@;
        let mut items = self.base_layout_items();
        let ghost base = layout_views(items@);
        proof {
            lemma_projection_fits(m.projection, m.regions, m.bytes);
        }
        let mut i: usize = 0;
        while i < self.anchored_blocks.len()
            invariant
                self.wf(),
                m == self@,
                i <= m.anchored.len(),
                layout_views(items@) == m.with_anchored(base, i as int),
            decreases m.anchored.len() - i,
        {
            let block = &self.anchored_blocks[i];
            if let Ok((source, display)) = place_row(
                &self.text,
                &self.regions,
                &self.projection_map,
                block,
            ) {
                let ghost before = layout_views(items@);
                let at = find_row(&items, source, display);
                let item = DocumentLayoutItem::AnchoredBlock { id: copy_id(&block.id), source };
                items.insert(at, item);
                assert(layout_views(items@) =~= before.insert(at as int, item@));
            }
            i += 1;
        }
        items
    }
}

/// Where an anchored block stands among rows.
fn find_row<I>(items: &Vec<DocumentLayoutItem<I>>, source: usize, display: usize) -> (index: usize)
    ensures
        index == row_index(layout_views(items@), source as int, display as int),
        index <= items@.len(),
{
    let ghost views = layout_views(items@);
    let ghost test = row_behind::<I>(source as int, display as int);
    let mut i: usize = 0;
    while i < items.len()
        invariant
            i <= items@.len(),
            views == layout_views(items@),
            test == row_behind::<I>(source as int, display as int),
            forall|k: int| 0 <= k < i ==> !(#[trigger] test(views[k])),
        decreases items@.len() - i,
    {
        let behind = match &items[i] {
            DocumentLayoutItem::Text { display: shown, source: part, .. } => shown.start >= display
                && part.end >= source,
            DocumentLayoutItem::Block { source: part, .. } => part.start >= source,
            _ => false,
        };
        assert(behind == test(views[i as int]));
        if behind {
            proof {
                lemma_first_where_is(views, test, 0, i as int);
            }
            return i;
        }
        i += 1;
    }
    proof {
        lemma_first_where_is(views, test, 0, views.len() as int);
    }
    items.len()
}

} // verus!
