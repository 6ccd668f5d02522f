//! Styles of source ranges, and where the display shows them.

use crate::document::position::{saturated, shift_offset};
use crate::document::transaction::{
    carried, edits_addressable, ends, transform_source_range, TextEdit,
};
use crate::order::{sort_stable, stable_sort, Ranked};
use crate::scan::{first_where, lemma_first_where_is};
use std::ops::Range;
use vstd::prelude::*;

verus! {

/// A handle for a paragraph style that the host defines.
#[derive(Clone, Copy, Debug, PartialEq, Eq, Structural, Hash)]
pub struct TextStyleRefinement {
    pub handle: u64,
}

/// A handle for a highlight that the host defines.
#[derive(Clone, Copy, Debug, PartialEq, Eq, Structural, Hash)]
pub struct HighlightStyle {
    pub handle: u64,
}

/// A handle for a font family that the host names.
#[derive(Clone, Copy, Debug, PartialEq, Eq, Structural, Hash)]
pub struct FontFamily {
    pub handle: u64,
}

/// A range at another place.
pub open spec fn moved_range(range: (int, int)) -> Range<usize> {
    (range.0 as usize)..(range.1 as usize)
}

/// A range moved by `delta`, its ends cut to what a `usize` can hold.
pub open spec fn shifted_range(range: Range<usize>, delta: int) -> Range<usize> {
    (saturated(range.start + delta) as usize)..(saturated(range.end + delta) as usize)
}

pub(crate) fn shift(range: &Range<usize>, delta: isize) -> (moved: Range<usize>)
    ensures
        moved == shifted_range(*range, delta as int),
{
    shift_offset(range.start, delta)..shift_offset(range.end, delta)
}

#[derive(Debug, PartialEq, Eq)]
pub struct DocumentParagraphStyle {
    pub(crate) source: Range<usize>,
    pub(crate) text_style: TextStyleRefinement,
}

impl DocumentParagraphStyle {
    pub open(crate) spec fn spec_source(self) -> Range<usize> {
        self.source
    }

    pub open(crate) spec fn spec_text_style(self) -> TextStyleRefinement {
        self.text_style
    }

    /// The style for another source.
    pub open(crate) spec fn with_source(self, source: Range<usize>) -> DocumentParagraphStyle {
        DocumentParagraphStyle { source, text_style: self.text_style }
    }

    pub fn new(source: Range<usize>, text_style: TextStyleRefinement) -> (style: Self)
        ensures
            style.spec_source() == source,
            style.spec_text_style() == text_style,
    {
        DocumentParagraphStyle { source, text_style }
    }

    pub fn source(&self) -> (source: Range<usize>)
        ensures
            source == self.spec_source(),
    {
        self.source.start..self.source.end
    }

    pub fn text_style(&self) -> (style: &TextStyleRefinement)
        ensures
            *style == self.spec_text_style(),
    {
        &self.text_style
    }
}

impl Clone for DocumentParagraphStyle {
    fn clone(&self) -> (copy: Self)
        ensures
            copy == *self,
    {
        DocumentParagraphStyle { source: self.source(), text_style: self.text_style }
    }
}

impl Ranked for DocumentParagraphStyle {
    open(crate) spec fn rank(&self) -> (int, int) {
        ends(self.source)
    }

    fn ranks_after(&self, other: &Self) -> (after: bool) {
        self.source.start > other.source.start || (self.source.start == other.source.start
            && self.source.end > other.source.end)
    }
}

#[derive(Debug, PartialEq, Eq)]
pub struct DocumentInlineStyle {
    pub(crate) source: Range<usize>,
    pub(crate) highlight: HighlightStyle,
    pub(crate) font_family: Option<FontFamily>,
}

impl DocumentInlineStyle {
    pub open(crate) spec fn spec_source(self) -> Range<usize> {
        self.source
    }

    pub open(crate) spec fn spec_highlight(self) -> HighlightStyle {
        self.highlight
    }

    pub open(crate) spec fn spec_font_family(self) -> Option<FontFamily> {
        self.font_family
    }

    /// The style for another source.
    pub open(crate) spec fn with_source(self, source: Range<usize>) -> DocumentInlineStyle {
        DocumentInlineStyle { source, highlight: self.highlight, font_family: self.font_family }
    }

    pub fn new(source: Range<usize>, highlight: HighlightStyle) -> (style: Self)
        ensures
            style.spec_source() == source,
            style.spec_highlight() == highlight,
            style.spec_font_family() is None,
    {
        DocumentInlineStyle { source, highlight, font_family: None }
    }

    pub fn font_family(self, font_family: FontFamily) -> (style: Self)
        ensures
            style.spec_source() == self.spec_source(),
            style.spec_highlight() == self.spec_highlight(),
            style.spec_font_family() == Some(font_family),
    {
        DocumentInlineStyle {
            source: self.source,
            highlight: self.highlight,
            font_family: Some(font_family),
        }
    }

    pub fn source(&self) -> (source: Range<usize>)
        ensures
            source == self.spec_source(),
    {
        self.source.start..self.source.end
    }

    pub fn highlight(&self) -> (highlight: HighlightStyle)
        ensures
            highlight == self.spec_highlight(),
    {
        self.highlight
    }

    pub fn font_family_override(&self) -> (font_family: Option<&FontFamily>)
        ensures
            match font_family {
                Some(family) => self.spec_font_family() == Some(*family),
                None => self.spec_font_family() is None,
            },
    {
        match &self.font_family {
            Some(family) => Some(family),
            None => None,
        }
    }
}

impl Clone for DocumentInlineStyle {
    fn clone(&self) -> (copy: Self)
        ensures
            copy == *self,
    {
        DocumentInlineStyle {
            source: self.source(),
            highlight: self.highlight,
            font_family: self.font_family,
        }
    }
}

impl Ranked for DocumentInlineStyle {
    open(crate) spec fn rank(&self) -> (int, int) {
        ends(self.source)
    }

    fn ranks_after(&self, other: &Self) -> (after: bool) {
        self.source.start > other.source.start || (self.source.start == other.source.start
            && self.source.end > other.source.end)
    }
}

#[derive(Debug, PartialEq, Eq)]
pub enum DocumentStyleError {
    OutOfBounds { range: Range<usize>, source_len: usize },
    InvalidBoundary(Range<usize>),
    Overlap(Range<usize>),
    EditableRange(Range<usize>),
    AtomicRange(Range<usize>),
    ParagraphBoundary(Range<usize>),
}

impl Clone for DocumentStyleError {
    fn clone(&self) -> (copy: Self)
        ensures
            copy == *self,
    {
        match self {
            DocumentStyleError::OutOfBounds { range, source_len } => DocumentStyleError::OutOfBounds {
                range: range.start..range.end,
                source_len: *source_len,
            },
            DocumentStyleError::InvalidBoundary(range) => DocumentStyleError::InvalidBoundary(range.start..range.end),
            DocumentStyleError::Overlap(range) => DocumentStyleError::Overlap(range.start..range.end),
            DocumentStyleError::EditableRange(range) => DocumentStyleError::EditableRange(range.start..range.end),
            DocumentStyleError::AtomicRange(range) => DocumentStyleError::AtomicRange(range.start..range.end),
            DocumentStyleError::ParagraphBoundary(range) => DocumentStyleError::ParagraphBoundary(range.start..range.end),
        }
    }
}

/// Paragraph and inline styles, each in source order.
#[derive(Debug, PartialEq, Eq)]
pub struct DocumentStyles {
    pub(crate) paragraphs: Vec<DocumentParagraphStyle>,
    pub(crate) inline: Vec<DocumentInlineStyle>,
}

/// What styles say.
#[verifier::ext_equal]
pub struct StylesView {
    pub paragraphs: Seq<DocumentParagraphStyle>,
    pub inline: Seq<DocumentInlineStyle>,
}

impl View for DocumentStyles {
    type V = StylesView;

    open(crate) spec fn view(&self) -> StylesView {
        StylesView { paragraphs: self.paragraphs@, inline: self.inline@ }
    }
}

/// The larger of two numbers.
pub open spec fn larger(a: int, b: int) -> int {
    if a >= b {
        a
    } else {
        b
    }
}

pub open spec fn no_styles() -> StylesView {
    StylesView { paragraphs: Seq::empty(), inline: Seq::empty() }
}

/// Paragraph styles, all moved by `delta`.
pub open spec fn shifted_paragraphs(styles: Seq<DocumentParagraphStyle>, delta: int) -> Seq<
    DocumentParagraphStyle,
> {
    styles.map_values(
        |s: DocumentParagraphStyle| s.with_source(shifted_range(s.spec_source(), delta)),
    )
}

/// Inline styles, all moved by `delta`.
pub open spec fn shifted_inline(styles: Seq<DocumentInlineStyle>, delta: int) -> Seq<
    DocumentInlineStyle,
> {
    styles.map_values(
        |s: DocumentInlineStyle| s.with_source(shifted_range(s.spec_source(), delta)),
    )
}

impl StylesView {
    pub open spec fn is_empty(self) -> bool {
        self.paragraphs.len() == 0 && self.inline.len() == 0
    }

    /// The first paragraph style that `start..` touches.
    pub open spec fn paragraph_from(self, start: int) -> int {
        first_where(
            self.paragraphs,
            |s: DocumentParagraphStyle| s.spec_source().end > start,
            0,
        )
    }

    /// The first paragraph style behind `..end`.
    pub open spec fn paragraph_to(self, end: int) -> int {
        first_where(
            self.paragraphs,
            |s: DocumentParagraphStyle| s.spec_source().start >= end,
            0,
        )
    }

    /// The first inline style that `start..` touches.
    pub open spec fn inline_from(self, start: int) -> int {
        first_where(self.inline, |s: DocumentInlineStyle| s.spec_source().end > start, 0)
    }

    /// The first inline style behind `..end`.
    pub open spec fn inline_to(self, end: int) -> int {
        first_where(self.inline, |s: DocumentInlineStyle| s.spec_source().start >= end, 0)
    }

    /// The styles with those of `start..end` replaced by those of `length`
    /// other bytes, and those behind moved.
    pub open spec fn spliced(self, start: int, end: int, length: int, replacement: StylesView) -> StylesView {
        let delta = length - (end - start);
        StylesView {
            paragraphs: self.paragraphs.subrange(0, self.paragraph_from(start))
                + shifted_paragraphs(replacement.paragraphs, start) + shifted_paragraphs(
                self.paragraphs.subrange(
                    larger(self.paragraph_from(start), self.paragraph_to(end)),
                    self.paragraphs.len() as int,
                ),
                delta,
            ),
            inline: self.inline.subrange(0, self.inline_from(start)) + shifted_inline(
                replacement.inline,
                start,
            ) + shifted_inline(
                self.inline.subrange(
                    larger(self.inline_from(start), self.inline_to(end)),
                    self.inline.len() as int,
                ),
                delta,
            ),
        }
    }

    /// The styles where edits put them.
    pub open spec fn carried(self, edits: Seq<TextEdit>) -> StylesView {
        StylesView {
            paragraphs: self.paragraphs.map_values(
                |s: DocumentParagraphStyle|
                    s.with_source(moved_range(carried(ends(s.spec_source()), edits))),
            ),
            inline: self.inline.map_values(
                |s: DocumentInlineStyle|
                    s.with_source(moved_range(carried(ends(s.spec_source()), edits))),
            ),
        }
    }
}

fn shift_paragraphs(styles: &mut Vec<DocumentParagraphStyle>, delta: isize)
    ensures
        final(styles)@ == shifted_paragraphs(old(styles)@, delta as int),
{
    let ghost before = styles@;
    let mut i: usize = 0;
    while i < styles.len()
        invariant
            i <= styles.len(),
            styles.len() == before.len(),
            forall|k: int|
                0 <= k < i ==> #[trigger] styles@[k] == shifted_paragraphs(before, delta as int)[k],
            forall|k: int| i <= k < before.len() ==> #[trigger] styles@[k] == before[k],
        decreases styles.len() - i,
    {
        assert(styles@[i as int] == before[i as int]);
        let source = shift(&styles[i].source, delta);
        styles[i].source = source;
        i += 1;
    }
    assert(styles@ =~= shifted_paragraphs(before, delta as int));
}

fn shift_inline(styles: &mut Vec<DocumentInlineStyle>, delta: isize)
    ensures
        final(styles)@ == shifted_inline(old(styles)@, delta as int),
{
    let ghost before = styles@;
    let mut i: usize = 0;
    while i < styles.len()
        invariant
            i <= styles.len(),
            styles.len() == before.len(),
            forall|k: int|
                0 <= k < i ==> #[trigger] styles@[k] == shifted_inline(before, delta as int)[k],
            forall|k: int| i <= k < before.len() ==> #[trigger] styles@[k] == before[k],
        decreases styles.len() - i,
    {
        assert(styles@[i as int] == before[i as int]);
        let source = shift(&styles[i].source, delta);
        styles[i].source = source;
        i += 1;
    }
    assert(styles@ =~= shifted_inline(before, delta as int));
}

impl DocumentStyles {
    /// No styles.
    pub fn none() -> (styles: Self)
        ensures
            styles@ == no_styles(),
    {
        DocumentStyles { paragraphs: Vec::new(), inline: Vec::new() }
    }

    pub fn new(
        paragraphs: Vec<DocumentParagraphStyle>,
        inline: Vec<DocumentInlineStyle>,
    ) -> (styles: Self)
        ensures
            styles@ == (StylesView {
                paragraphs: stable_sort(paragraphs@),
                inline: stable_sort(inline@),
            }),
    {
        let mut paragraphs = paragraphs;
        let mut inline = inline;
        sort_stable(&mut paragraphs);
        sort_stable(&mut inline);
        DocumentStyles { paragraphs, inline }
    }

    pub fn paragraphs(&self) -> (styles: &[DocumentParagraphStyle])
        ensures
            styles@ == self@.paragraphs,
    {
        self.paragraphs.as_slice()
    }

    pub fn inline(&self) -> (styles: &[DocumentInlineStyle])
        ensures
            styles@ == self@.inline,
    {
        self.inline.as_slice()
    }

    pub fn is_empty(&self) -> (empty: bool)
        ensures
            empty == self@.is_empty(),
    {
        self.paragraphs.len() == 0 && self.inline.len() == 0
    }

    /// A copy of the styles.
    pub fn copy(&self) -> (copy: Self)
        ensures
            copy@ == self@,
    {
        let mut paragraphs: Vec<DocumentParagraphStyle> = Vec::new();
        let mut i: usize = 0;
        while i < self.paragraphs.len()
            invariant
                i <= self.paragraphs.len(),
                paragraphs@ == self.paragraphs@.subrange(0, i as int),
            decreases self.paragraphs.len() - i,
        {
            paragraphs.push(self.paragraphs[i].clone());
            assert(paragraphs@ =~= self.paragraphs@.subrange(0, i + 1));
            i += 1;
        }
        let mut inline: Vec<DocumentInlineStyle> = Vec::new();
        let mut i: usize = 0;
        while i < self.inline.len()
            invariant
                i <= self.inline.len(),
                inline@ == self.inline@.subrange(0, i as int),
            decreases self.inline.len() - i,
        {
            inline.push(self.inline[i].clone());
            assert(inline@ =~= self.inline@.subrange(0, i + 1));
            i += 1;
        }
        assert(paragraphs@ =~= self.paragraphs@);
        assert(inline@ =~= self.inline@);
        DocumentStyles { paragraphs, inline }
    }

    /// The styles where edits put them.
    pub fn transformed(&self, edits: &[TextEdit]) -> (styles: Self)
        requires
            edits_addressable(edits@),
        ensures
            styles@ == self@.carried(edits@),
    {
        let ghost target = self@.carried(edits@);
        let mut paragraphs: Vec<DocumentParagraphStyle> = Vec::new();
        let mut i: usize = 0;
        while i < self.paragraphs.len()
            invariant
                edits_addressable(edits@),
                target == self@.carried(edits@),
                i <= self.paragraphs.len(),
                paragraphs@ == target.paragraphs.subrange(0, i as int),
            decreases self.paragraphs.len() - i,
        {
            let style = &self.paragraphs[i];
            let source = transform_source_range(&style.source, edits);
            paragraphs.push(DocumentParagraphStyle { source, text_style: style.text_style });
            assert(paragraphs@ =~= target.paragraphs.subrange(0, i + 1));
            i += 1;
        }
        let mut inline: Vec<DocumentInlineStyle> = Vec::new();
        let mut i: usize = 0;
        while i < self.inline.len()
            invariant
                edits_addressable(edits@),
                target == self@.carried(edits@),
                i <= self.inline.len(),
                inline@ == target.inline.subrange(0, i as int),
            decreases self.inline.len() - i,
        {
            let style = &self.inline[i];
            let source = transform_source_range(&style.source, edits);
            inline.push(
                DocumentInlineStyle {
                    source,
                    highlight: style.highlight,
                    font_family: style.font_family,
                },
            );
            assert(inline@ =~= target.inline.subrange(0, i + 1));
            i += 1;
        }
        assert(paragraphs@ =~= target.paragraphs);
        assert(inline@ =~= target.inline);
        DocumentStyles { paragraphs, inline }
    }

    /// Replaces the styles of a range by those of `length` other bytes, and
    /// moves those behind.
    pub(crate) fn splice(&mut self, range: &Range<usize>, length: usize, replacement: Self)
        requires
            range.start <= range.end <= isize::MAX,
            length <= isize::MAX,
        ensures
            final(self)@ == old(self)@.spliced(
                range.start as int,
                range.end as int,
                length as int,
                replacement@,
            ),
    {
        let ghost before = self@;
        let delta: isize = length as isize - (range.end - range.start) as isize;
        let from = paragraph_index(&self.paragraphs, range.start, false);
        let to = paragraph_index(&self.paragraphs, range.end, true);
        let to = if to < from {
            from
        } else {
            to
        };
        let mut tail = self.paragraphs.split_off(to);
        shift_paragraphs(&mut tail, delta);
        self.paragraphs.truncate(from);
        let mut middle = replacement.paragraphs;
        shift_paragraphs(&mut middle, range.start as isize);
        self.paragraphs.append(&mut middle);
        self.paragraphs.append(&mut tail);
        let from = inline_index(&self.inline, range.start, false);
        let to = inline_index(&self.inline, range.end, true);
        let to = if to < from {
            from
        } else {
            to
        };
        let mut tail = self.inline.split_off(to);
        shift_inline(&mut tail, delta);
        self.inline.truncate(from);
        let mut middle = replacement.inline;
        shift_inline(&mut middle, range.start as isize);
        self.inline.append(&mut middle);
        self.inline.append(&mut tail);
        assert(self@ =~= before.spliced(
            range.start as int,
            range.end as int,
            length as int,
            replacement@,
        ));
    }
}

impl Default for DocumentStyles {
    fn default() -> (styles: Self)
        ensures
            styles@ == no_styles(),
    {
        DocumentStyles::none()
    }
}

impl Clone for DocumentStyles {
    fn clone(&self) -> (copy: Self)
        ensures
            copy@ == self@,
    {
        self.copy()
    }
}

/// The first style that ends behind an offset or, with `starts`, that starts
/// at or behind it.
fn paragraph_index(styles: &Vec<DocumentParagraphStyle>, offset: usize, starts: bool) -> (index:
    usize)
    ensures
        index <= styles.len(),
        !starts ==> index == first_where(
            styles@,
            |s: DocumentParagraphStyle| s.spec_source().end > offset as int,
            0,
        ),
        starts ==> index == first_where(
            styles@,
            |s: DocumentParagraphStyle| s.spec_source().start >= offset as int,
            0,
        ),
{
    let ghost ends_behind = |s: DocumentParagraphStyle| s.spec_source().end > offset as int;
    let ghost starts_from = |s: DocumentParagraphStyle| s.spec_source().start >= offset as int;
    let mut i: usize = 0;
    while i < styles.len() && ((starts && styles[i].source.start < offset) || (!starts
        && styles[i].source.end <= offset))
        invariant
            i <= styles.len(),
            ends_behind == (|s: DocumentParagraphStyle| s.spec_source().end > offset as int),
            starts_from == (|s: DocumentParagraphStyle| s.spec_source().start >= offset as int),
            !starts ==> forall|k: int| 0 <= k < i ==> !(#[trigger] ends_behind(styles@[k])),
            starts ==> forall|k: int| 0 <= k < i ==> !(#[trigger] starts_from(styles@[k])),
        decreases styles.len() - i,
    {
        i += 1;
    }
    proof {
        if starts {
            lemma_first_where_is(styles@, starts_from, 0, i as int);
        } else {
            lemma_first_where_is(styles@, ends_behind, 0, i as int);
        }
    }
    i
}

/// The first style that ends behind an offset or, with `starts`, that starts
/// at or behind it.
fn inline_index(styles: &Vec<DocumentInlineStyle>, offset: usize, starts: bool) -> (index: usize)
    ensures
        index <= styles.len(),
        !starts ==> index == first_where(
            styles@,
            |s: DocumentInlineStyle| s.spec_source().end > offset as int,
            0,
        ),
        starts ==> index == first_where(
            styles@,
            |s: DocumentInlineStyle| s.spec_source().start >= offset as int,
            0,
        ),
{
    let ghost ends_behind = |s: DocumentInlineStyle| s.spec_source().end > offset as int;
    let ghost starts_from = |s: DocumentInlineStyle| s.spec_source().start >= offset as int;
    let mut i: usize = 0;
    while i < styles.len() && ((starts && styles[i].source.start < offset) || (!starts
        && styles[i].source.end <= offset))
        invariant
            i <= styles.len(),
            ends_behind == (|s: DocumentInlineStyle| s.spec_source().end > offset as int),
            starts_from == (|s: DocumentInlineStyle| s.spec_source().start >= offset as int),
            !starts ==> forall|k: int| 0 <= k < i ==> !(#[trigger] ends_behind(styles@[k])),
            starts ==> forall|k: int| 0 <= k < i ==> !(#[trigger] starts_from(styles@[k])),
        decreases styles.len() - i,
    {
        i += 1;
    }
    proof {
        if starts {
            lemma_first_where_is(styles@, starts_from, 0, i as int);
        } else {
            lemma_first_where_is(styles@, ends_behind, 0, i as int);
        }
    }
    i
}

} // verus!
