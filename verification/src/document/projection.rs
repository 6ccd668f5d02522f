//! Projections: source spans that are displayed as other text.

use crate::document::mapping::{growth, lemma_growth_bound};
use crate::document::position::{saturated, shift_range};
use crate::document::transaction::{
    carried, edits_addressable, ends, transform_source_range, TextEdit,
};
use crate::order::{lemma_stable_sort, rank_less, sort_stable, stable_sort, Ranked};
use crate::scan::{
    first_fault, first_where, lemma_first_fault, lemma_first_where, lemma_first_where_is,
};
use crate::text::{at_boundary, byte_len, is_str_boundary, lemma_encoded, starts_clean};
use std::ops::Range;
use vstd::prelude::*;
use vstd::string::*;
use vstd::utf8::*;

verus! {

/// A part of a replacement and the source that it stands for.
#[derive(Debug, PartialEq, Eq)]
pub struct ProjectionMapping {
    pub(crate) display: Range<usize>,
    pub(crate) source: Range<usize>,
}

impl ProjectionMapping {
    pub open(crate) spec fn spec_display(self) -> (int, int) {
        ends(self.display)
    }

    pub open(crate) spec fn spec_source(self) -> (int, int) {
        ends(self.source)
    }

    /// The mapping with its source at another place.
    pub open(crate) spec fn with_source(self, source: (int, int)) -> ProjectionMapping {
        ProjectionMapping {
            display: self.display,
            source: (source.0 as usize)..(source.1 as usize),
        }
    }

    pub fn new(display: Range<usize>, source: Range<usize>) -> (mapping: Self)
        ensures
            mapping.spec_display() == ends(display),
            mapping.spec_source() == ends(source),
    {
        ProjectionMapping { display, source }
    }

    pub fn display(&self) -> (display: Range<usize>)
        ensures
            ends(display) == self.spec_display(),
    {
        self.display.start..self.display.end
    }

    pub fn source(&self) -> (source: Range<usize>)
        ensures
            ends(source) == self.spec_source(),
    {
        self.source.start..self.source.end
    }
}

impl Clone for ProjectionMapping {
    fn clone(&self) -> (copy: Self)
        ensures
            copy == *self,
    {
        ProjectionMapping { display: self.display(), source: self.source() }
    }
}

/// A copy of mappings.
pub(crate) fn copy_mapping(mapping: &Vec<ProjectionMapping>) -> (copy: Vec<ProjectionMapping>)
    ensures
        copy@ == mapping@,
{
    let mut copy: Vec<ProjectionMapping> = Vec::new();
    let mut i: usize = 0;
    while i < mapping.len()
        invariant
            i <= mapping.len(),
            copy@ == mapping@.subrange(0, i as int),
        decreases mapping.len() - i,
    {
        copy.push(mapping[i].clone());
        assert(copy@ =~= mapping@.subrange(0, i + 1));
        i += 1;
    }
    assert(copy@ =~= mapping@);
    copy
}

/// A source span and the text that is displayed in its place.
#[derive(Debug, PartialEq, Eq)]
pub struct ProjectionSpan {
    pub(crate) source: Range<usize>,
    pub(crate) replacement: String,
    pub(crate) mapping: Option<Vec<ProjectionMapping>>,
}

/// What a projection span says.
#[verifier::ext_equal]
pub struct SpanView {
    pub start: int,
    pub end: int,
    pub replacement: Seq<u8>,
    pub mapping: Option<Seq<ProjectionMapping>>,
}

impl View for ProjectionSpan {
    type V = SpanView;

    open(crate) spec fn view(&self) -> SpanView {
        SpanView {
            start: self.source.start as int,
            end: self.source.end as int,
            replacement: encode_utf8(self.replacement@),
            mapping: match self.mapping {
                Some(mapping) => Some(mapping@),
                None => None,
            },
        }
    }
}

/// Mappings, their sources moved by `delta`.
pub open spec fn shifted_mapping(mapping: Option<Seq<ProjectionMapping>>, delta: int) -> Option<
    Seq<ProjectionMapping>,
> {
    match mapping {
        Some(entries) => Some(
            entries.map_values(
                |e: ProjectionMapping|
                    e.with_source(
                        (
                            saturated(e.spec_source().0 + delta),
                            saturated(e.spec_source().1 + delta),
                        ),
                    ),
            ),
        ),
        None => None,
    }
}

impl SpanView {
    /// The span, its source moved by `delta`.
    pub open spec fn shifted(self, delta: int) -> SpanView {
        SpanView {
            start: saturated(self.start + delta),
            end: saturated(self.end + delta),
            replacement: self.replacement,
            mapping: shifted_mapping(self.mapping, delta),
        }
    }

    /// The span where edits put it.
    pub open spec fn carried(self, edits: Seq<TextEdit>) -> SpanView {
        SpanView {
            start: carried((self.start, self.end), edits).0,
            end: carried((self.start, self.end), edits).1,
            replacement: self.replacement,
            mapping: match self.mapping {
                Some(entries) => Some(
                    entries.map_values(
                        |e: ProjectionMapping| e.with_source(carried(e.spec_source(), edits)),
                    ),
                ),
                None => None,
            },
        }
    }

    /// A mapped span that maps nothing. Its source has no display position.
    pub open spec fn unmapped(self) -> bool {
        self.mapping matches Some(entries) && entries.len() == 0
    }

    /// The source of the span as a range.
    pub open spec fn range(self) -> Range<usize> {
        (self.start as usize)..(self.end as usize)
    }

    /// `offset` is inside the span, not at its edges.
    pub open spec fn inside(self, offset: int) -> bool {
        self.start < offset < self.end
    }
}

impl ProjectionSpan {
    pub fn replace(source: Range<usize>, replacement: &str) -> (span: Self)
        ensures
            span@ == (SpanView {
                start: source.start as int,
                end: source.end as int,
                replacement: replacement.spec_bytes(),
                mapping: None,
            }),
    {
        ProjectionSpan { source, replacement: replacement.to_owned(), mapping: None }
    }

    pub fn mapped(
        source: Range<usize>,
        replacement: &str,
        mapping: Vec<ProjectionMapping>,
    ) -> (span: Self)
        ensures
            span@ == (SpanView {
                start: source.start as int,
                end: source.end as int,
                replacement: replacement.spec_bytes(),
                mapping: Some(mapping@),
            }),
    {
        ProjectionSpan { source, replacement: replacement.to_owned(), mapping: Some(mapping) }
    }

    pub fn hidden(source: Range<usize>) -> (span: Self)
        ensures
            span@ == (SpanView {
                start: source.start as int,
                end: source.end as int,
                replacement: Seq::empty(),
                mapping: None,
            }),
    {
        proof {
            reveal_strlit("");
            lemma_encoded(""@);
            assert(encode_utf8(""@) =~= Seq::<u8>::empty());
        }
        Self::replace(source, "")
    }

    pub fn source(&self) -> (source: Range<usize>)
        ensures
            source.start == self@.start,
            source.end == self@.end,
    {
        self.source.start..self.source.end
    }

    pub fn replacement(&self) -> (text: &str)
        ensures
            text.spec_bytes() == self@.replacement,
    {
        self.replacement.as_str()
    }

    pub fn mapping(&self) -> (mapping: Option<&[ProjectionMapping]>)
        ensures
            match mapping {
                Some(entries) => self@.mapping == Some(entries@),
                None => self@.mapping is None,
            },
    {
        match &self.mapping {
            Some(mapping) => Some(mapping.as_slice()),
            None => None,
        }
    }

    pub(crate) fn shift_source(&mut self, delta: isize)
        ensures
            final(self)@ == old(self)@.shifted(delta as int),
    {
        let ghost before = self@;
        self.source = shift_range(&self.source, delta);
        if let Some(mapping) = &self.mapping {
            let shifted = shift_mapping(mapping, delta);
            self.mapping = Some(shifted);
        }
        assert(self@ =~= before.shifted(delta as int));
    }
}

/// Mappings, their sources moved by `delta`.
pub(crate) fn shift_mapping(mapping: &Vec<ProjectionMapping>, delta: isize) -> (shifted: Vec<
    ProjectionMapping,
>)
    ensures
        Some(shifted@) == shifted_mapping(Some(mapping@), delta as int),
{
    let mut shifted: Vec<ProjectionMapping> = Vec::new();
    let mut i: usize = 0;
    while i < mapping.len()
        invariant
            i <= mapping.len(),
            shifted.len() == i,
            forall|k: int|
                0 <= k < i ==> #[trigger] shifted@[k] == shifted_mapping(
                    Some(mapping@),
                    delta as int,
                )->0[k],
        decreases mapping.len() - i,
    {
        let entry = &mapping[i];
        shifted.push(
            ProjectionMapping {
                display: entry.display(),
                source: shift_range(&entry.source, delta),
            },
        );
        i += 1;
    }
    assert(shifted@ =~= shifted_mapping(Some(mapping@), delta as int)->0);
    shifted
}

impl Clone for ProjectionSpan {
    fn clone(&self) -> (copy: Self)
        ensures
            copy@ == self@,
    {
        ProjectionSpan {
            source: self.source(),
            replacement: self.replacement.clone(),
            mapping: match &self.mapping {
                Some(mapping) => Some(copy_mapping(mapping)),
                None => None,
            },
        }
    }
}

impl Ranked for ProjectionSpan {
    open(crate) spec fn rank(&self) -> (int, int) {
        (self@.start, self@.end)
    }

    fn ranks_after(&self, other: &Self) -> (after: bool) {
        self.source.start > other.source.start || (self.source.start == other.source.start
            && self.source.end > other.source.end)
    }
}

/// A copy of spans.
pub(crate) fn copy_spans(spans: &Vec<ProjectionSpan>) -> (copy: Vec<ProjectionSpan>)
    ensures
        span_views(copy@) == span_views(spans@),
{
    let mut copy: Vec<ProjectionSpan> = Vec::new();
    let mut i: usize = 0;
    while i < spans.len()
        invariant
            i <= spans.len(),
            copy.len() == i,
            forall|k: int| 0 <= k < i ==> (#[trigger] copy@[k])@ == spans@[k]@,
        decreases spans.len() - i,
    {
        copy.push(spans[i].clone());
        i += 1;
    }
    assert(span_views(copy@) =~= span_views(spans@));
    copy
}

/// What spans say.
pub open spec fn span_views(spans: Seq<ProjectionSpan>) -> Seq<SpanView> {
    spans.map_values(|s: ProjectionSpan| s@)
}

/// Source spans in order, and the length of the source.
#[derive(Debug, PartialEq, Eq)]
pub struct DocumentProjection {
    pub(crate) source_len: usize,
    pub(crate) spans: Vec<ProjectionSpan>,
}

impl Clone for DocumentProjection {
    fn clone(&self) -> (copy: Self)
        ensures
            copy@ == self@,
    {
        self.copy()
    }
}

/// What a projection says.
#[verifier::ext_equal]
pub struct ProjectionView {
    pub source_len: int,
    pub spans: Seq<SpanView>,
}

impl View for DocumentProjection {
    type V = ProjectionView;

    open(crate) spec fn view(&self) -> ProjectionView {
        ProjectionView { source_len: self.source_len as int, spans: span_views(self.spans@) }
    }
}

#[derive(Debug, PartialEq, Eq)]
pub enum ProjectionError {
    InvalidBoundary(Range<usize>),
    SourceLength { expected: usize, actual: usize },
    InvalidRange(Range<usize>),
    OutOfBounds { range: Range<usize>, source_len: usize },
    Overlap(Range<usize>),
    EditableOverlap(Range<usize>),
    BlocksRequirePresentation,
    InvalidMapping(Range<usize>),
}

impl Clone for ProjectionError {
    fn clone(&self) -> (copy: Self)
        ensures
            copy == *self,
    {
        match self {
            ProjectionError::InvalidBoundary(range) => ProjectionError::InvalidBoundary(range.start..range.end),
            ProjectionError::SourceLength { expected, actual } => ProjectionError::SourceLength {
                expected: *expected,
                actual: *actual,
            },
            ProjectionError::InvalidRange(range) => ProjectionError::InvalidRange(range.start..range.end),
            ProjectionError::OutOfBounds { range, source_len } => ProjectionError::OutOfBounds {
                range: range.start..range.end,
                source_len: *source_len,
            },
            ProjectionError::Overlap(range) => ProjectionError::Overlap(range.start..range.end),
            ProjectionError::EditableOverlap(range) => ProjectionError::EditableOverlap(range.start..range.end),
            ProjectionError::BlocksRequirePresentation => ProjectionError::BlocksRequirePresentation,
            ProjectionError::InvalidMapping(range) => ProjectionError::InvalidMapping(range.start..range.end),
        }
    }
}

/// A mapping entry covers the next part of the replacement, in whole
/// characters, and stands for a part of the span that does not start before
/// that of the entry before.
pub open spec fn entry_valid(entries: Seq<ProjectionMapping>, span: SpanView, i: int) -> bool {
    let entry = entries[i];
    &&& entry.spec_display().0 == (if i == 0 {
        0
    } else {
        entries[i - 1].spec_display().1
    })
    &&& entry.spec_display().0 < entry.spec_display().1 <= span.replacement.len()
    &&& span.start <= entry.spec_source().0 < entry.spec_source().1 <= span.end
    &&& i > 0 ==> entries[i - 1].spec_source().0 <= entry.spec_source().0
    &&& at_boundary(span.replacement, entry.spec_display().0)
    &&& at_boundary(span.replacement, entry.spec_display().1)
}

/// The entries cover the replacement of a span from its start to its end.
pub open spec fn mapping_valid(span: SpanView) -> bool {
    match span.mapping {
        Some(entries) => {
            &&& forall|i: int| 0 <= i < entries.len() ==> #[trigger] entry_valid(entries, span, i)
            &&& span.replacement.len() == (if entries.len() == 0 {
                0
            } else {
                entries.last().spec_display().1
            })
        },
        None => true,
    }
}

/// What is wrong with a span among ordered spans.
pub open spec fn span_fault(sorted: Seq<ProjectionSpan>, source_len: usize) -> spec_fn(
    int,
) -> Option<ProjectionError> {
    |i: int|
        if sorted[i]@.start >= sorted[i]@.end {
            Some(ProjectionError::InvalidRange(sorted[i]@.range()))
        } else if sorted[i]@.end > source_len {
            Some(ProjectionError::OutOfBounds { range: sorted[i]@.range(), source_len })
        } else if i > 0 && sorted[i]@.start < sorted[i - 1]@.end {
            Some(ProjectionError::Overlap(sorted[i]@.range()))
        } else if !mapping_valid(sorted[i]@) {
            Some(ProjectionError::InvalidMapping(sorted[i]@.range()))
        } else {
            None
        }
}

/// Why spans do not project a source of `source_len` bytes: in source order,
/// the first that is empty, out of bounds, overlaps the one before, or has a
/// bad mapping.
pub open spec fn spans_fault(spans: Seq<ProjectionSpan>, source_len: usize) -> Option<
    ProjectionError,
> {
    first_fault(span_fault(stable_sort(spans), source_len), 0, spans.len() as int)
}

impl ProjectionView {
    /// Spans in source order inside the source, none empty, no two
    /// overlapping, each with a valid mapping.
    pub open spec fn valid(self) -> bool {
        &&& 0 <= self.source_len <= usize::MAX
        &&& forall|i: int|
            0 <= i < self.spans.len() ==> {
                &&& 0 <= (#[trigger] self.spans[i]).start < self.spans[i].end <= self.source_len
                &&& mapping_valid(self.spans[i])
                &&& starts_clean(self.spans[i].replacement)
            }
        &&& forall|i: int, j: int|
            #![trigger self.spans[i], self.spans[j]]
            0 <= i < j < self.spans.len() ==> self.spans[i].end <= self.spans[j].start
    }

    /// `offset` is not inside a span.
    pub open spec fn outside(self, offset: int) -> bool {
        forall|i: int| 0 <= i < self.spans.len() ==> !(#[trigger] self.spans[i]).inside(offset)
    }

    /// The first span that ends behind `offset`.
    pub open spec fn span_behind(self, offset: int) -> int {
        first_where(self.spans, |s: SpanView| s.end > offset, 0)
    }

    /// The first span that starts at or behind `offset`.
    pub open spec fn span_from(self, offset: int) -> int {
        first_where(self.spans, |s: SpanView| s.start >= offset, 0)
    }

    /// The projection with the source of `start..end`, and what lies in it,
    /// replaced by another projection.
    pub open spec fn spliced(self, start: int, end: int, replacement: ProjectionView) -> ProjectionView {
        let delta = replacement.source_len - (end - start);
        ProjectionView {
            source_len: self.source_len + delta,
            spans: self.spans.subrange(0, self.span_behind(start)) + shifted_spans(
                replacement.spans,
                start,
            ) + shifted_spans(
                self.spans.subrange(self.span_from(end), self.spans.len() as int),
                delta,
            ),
        }
    }

    /// The projection where edits put it.
    pub open spec fn carried(self, edits: Seq<TextEdit>, source_len: int) -> ProjectionView {
        ProjectionView {
            source_len,
            spans: self.spans.map_values(|s: SpanView| s.carried(edits)),
        }
    }
}

/// A projection knows how long its source is: as long as it was made for, and
/// after edits as long as it is told, whatever the edits.
pub proof fn law_projections_know_their_source_length(
    source_len: usize,
    given: Seq<ProjectionSpan>,
    projection: ProjectionView,
    edits: Seq<TextEdit>,
    new_source_len: usize,
)
    requires
        projection == (ProjectionView {
            source_len: source_len as int,
            spans: span_views(stable_sort(given)),
        }),
    ensures
        projection.source_len == source_len,
        projection.carried(edits, new_source_len as int).source_len == new_source_len,
{
}

/// Spans, all moved by `delta`.
pub open spec fn shifted_spans(spans: Seq<SpanView>, delta: int) -> Seq<SpanView> {
    spans.map_values(|s: SpanView| s.shifted(delta))
}

pub proof fn lemma_span_behind(p: ProjectionView, offset: int)
    ensures
        0 <= p.span_behind(offset) <= p.spans.len(),
        forall|i: int|
            0 <= i < p.span_behind(offset) ==> (#[trigger] p.spans[i]).end <= offset,
        p.span_behind(offset) < p.spans.len() ==> p.spans[p.span_behind(offset)].end > offset,
{
    let test = |s: SpanView| s.end > offset;
    lemma_first_where(p.spans, test, 0);
    assert forall|i: int| 0 <= i < p.span_behind(offset) implies (#[trigger] p.spans[i]).end
        <= offset by {
        assert(!test(p.spans[i]));
    }
}

pub proof fn lemma_span_from(p: ProjectionView, offset: int)
    ensures
        0 <= p.span_from(offset) <= p.spans.len(),
        forall|i: int|
            0 <= i < p.span_from(offset) ==> (#[trigger] p.spans[i]).start < offset,
        p.span_from(offset) < p.spans.len() ==> p.spans[p.span_from(offset)].start >= offset,
{
    let test = |s: SpanView| s.start >= offset;
    lemma_first_where(p.spans, test, 0);
    assert forall|i: int| 0 <= i < p.span_from(offset) implies (#[trigger] p.spans[i]).start
        < offset by {
        assert(!test(p.spans[i]));
    }
}

/// An index with only spans that end at or before `offset` in front, and one
/// that ends behind it next, is the index of the first span behind.
pub proof fn lemma_span_behind_is(p: ProjectionView, offset: int, k: int)
    requires
        0 <= k <= p.spans.len(),
        forall|i: int| 0 <= i < k ==> (#[trigger] p.spans[i]).end <= offset,
        k < p.spans.len() ==> p.spans[k].end > offset,
    ensures
        p.span_behind(offset) == k,
{
    lemma_first_where_is(p.spans, |s: SpanView| s.end > offset, 0, k);
}

proof fn lemma_projection_valid(spans: Seq<ProjectionSpan>, source_len: usize)
    requires
        spans_fault(spans, source_len) is None,
    ensures
        (ProjectionView {
            source_len: source_len as int,
            spans: span_views(stable_sort(spans)),
        }).valid(),
{
    let sorted = stable_sort(spans);
    let n = spans.len() as int;
    lemma_stable_sort(spans);
    lemma_first_fault(span_fault(sorted, source_len), 0, n);
    let p = ProjectionView { source_len: source_len as int, spans: span_views(sorted) };
    assert forall|i: int| 0 <= i < n implies 0 <= (#[trigger] p.spans[i]).start < p.spans[i].end
        <= source_len && mapping_valid(p.spans[i]) && starts_clean(p.spans[i].replacement) by {
        assert(span_fault(sorted, source_len)(i) is None);
        lemma_encoded(sorted[i].replacement@);
    }
    assert forall|i: int, j: int|
        #![trigger p.spans[i], p.spans[j]]
        0 <= i < j < n implies p.spans[i].end <= p.spans[j].start by {
        assert(span_fault(sorted, source_len)(i + 1) is None);
        assert(sorted[i]@.end <= sorted[i + 1]@.start);
        if i + 1 < j {
            assert(!rank_less(sorted[j].rank(), sorted[i + 1].rank()));
        }
    }
}

/// Whether the mapping of a span is valid.
fn check_mapping(span: &ProjectionSpan) -> (ok: bool)
    ensures
        ok == mapping_valid(span@),
{
    match &span.mapping {
        None => true,
        Some(mapping) => {
            let replacement = span.replacement.as_str();
            let len = byte_len(replacement);
            let mut display_end: usize = 0;
            let mut source_start: usize = span.source.start;
            let mut i: usize = 0;
            while i < mapping.len()
                invariant
                    i <= mapping.len(),
                    span@.mapping == Some(mapping@),
                    replacement.spec_bytes() == span@.replacement,
                    len == span@.replacement.len(),
                    display_end == (if i == 0 {
                        0
                    } else {
                        mapping@[i - 1].spec_display().1
                    }),
                    i > 0 ==> source_start == mapping@[i - 1].spec_source().0,
                    i == 0 ==> source_start == span@.start,
                    forall|k: int| 0 <= k < i ==> #[trigger] entry_valid(mapping@, span@, k),
                decreases mapping.len() - i,
            {
                let entry = &mapping[i];
                if entry.display.start != display_end || entry.display.end <= entry.display.start
                    || entry.display.end > len || entry.source.start < span.source.start
                    || entry.source.end > span.source.end || entry.source.end
                    <= entry.source.start || entry.source.start < source_start
                    || !is_str_boundary(replacement, entry.display.start) || !is_str_boundary(
                    replacement,
                    entry.display.end,
                ) {
                    assert(!entry_valid(mapping@, span@, i as int));
                    return false;
                }
                display_end = entry.display.end;
                source_start = entry.source.start;
                i += 1;
            }
            display_end == len
        },
    }
}

impl DocumentProjection {
    pub fn identity(source_len: usize) -> (projection: Self)
        ensures
            projection@ == (ProjectionView {
                source_len: source_len as int,
                spans: Seq::empty(),
            }),
            projection@.valid(),
    {
        let projection = DocumentProjection { source_len, spans: Vec::new() };
        assert(projection@.spans =~= Seq::empty());
        projection
    }

    pub fn new(source_len: usize, spans: Vec<ProjectionSpan>) -> (result: Result<
        Self,
        ProjectionError,
    >)
        ensures
            match result {
                Ok(projection) => {
                    &&& spans_fault(spans@, source_len) is None
                    &&& projection@ == (ProjectionView {
                        source_len: source_len as int,
                        spans: span_views(stable_sort(spans@)),
                    })
                    &&& projection@.valid()
                },
                Err(error) => spans_fault(spans@, source_len) == Some(error),
            },
    {
        let ghost given = spans@;
        let mut sorted = spans;
        proof {
            lemma_stable_sort(given);
        }
        sort_stable(&mut sorted);
        let mut previous_end: usize = 0;
        let mut i: usize = 0;
        while i < sorted.len()
            invariant
                i <= sorted.len(),
                sorted.len() == given.len(),
                sorted@ == stable_sort(given),
                spans@ == given,
                previous_end == (if i == 0 {
                    0
                } else {
                    sorted@[i - 1]@.end
                }),
                spans_fault(given, source_len) == first_fault(
                    span_fault(sorted@, source_len),
                    i as int,
                    given.len() as int,
                ),
            decreases sorted.len() - i,
        {
            let span = &sorted[i];
            if span.source.start >= span.source.end {
                return Err(ProjectionError::InvalidRange(span.source()));
            }
            if span.source.end > source_len {
                return Err(ProjectionError::OutOfBounds { range: span.source(), source_len });
            }
            if span.source.start < previous_end {
                return Err(ProjectionError::Overlap(span.source()));
            }
            if !check_mapping(span) {
                return Err(ProjectionError::InvalidMapping(span.source()));
            }
            previous_end = span.source.end;
            i += 1;
        }
        proof {
            lemma_projection_valid(given, source_len);
        }
        Ok(DocumentProjection { source_len, spans: sorted })
    }

    pub fn source_len(&self) -> (len: usize)
        ensures
            len == self@.source_len,
    {
        self.source_len
    }

    pub fn spans(&self) -> (spans: &[ProjectionSpan])
        ensures
            span_views(spans@) == self@.spans,
    {
        self.spans.as_slice()
    }

    pub fn is_identity(&self) -> (identity: bool)
        ensures
            identity == (self@.spans.len() == 0),
    {
        self.spans.len() == 0
    }

    /// The number of bytes that are displayed, where it can be counted.
    pub fn display_len(&self) -> (len: Option<usize>)
        requires
            self@.valid(),
        ensures
            match len {
                Some(len) => len == self@.display_len(),
                None => self@.display_len() > usize::MAX,
            },
    {
        let ghost p = self@;
        let n: usize = self.spans.len();
        let mut len: usize = 0;
        let mut position: usize = 0;
        let mut i: usize = 0;
        while i < n
            invariant
                p == self@,
                p.valid(),
                n == self.spans@.len(),
                i <= n,
                position == (if i == 0 {
                    0
                } else {
                    p.spans[i - 1].end
                }),
                len == position + growth(p.spans, i as int),
            decreases n - i,
        {
            let span = &self.spans[i];
            assert(p.spans[i as int] == span@);
            proof {
                assert(p.spans[i as int].start < p.spans[i as int].end);
                if i > 0 {
                    assert(p.spans[i - 1].end <= p.spans[i as int].start);
                }
                assert(p.spans[n - 1].end <= p.source_len);
                lemma_growth_bound(p, i as int, n as int, span@.start, p.source_len as int);
                lemma_growth_bound(p, i + 1, n as int, span@.end, p.source_len as int);
            }
            len = match len.checked_add(span.source.start - position) {
                Some(len) => len,
                None => {
                    return None;
                },
            };
            len = match len.checked_add(byte_len(span.replacement.as_str())) {
                Some(len) => len,
                None => {
                    return None;
                },
            };
            position = span.source.end;
            i += 1;
        }
        proof {
            if n > 0 {
                assert(p.spans[n - 1].end <= p.source_len);
            }
        }
        len.checked_add(self.source_len - position)
    }

    /// A copy of the projection.
    pub fn copy(&self) -> (copy: Self)
        ensures
            copy@ == self@,
    {
        DocumentProjection { source_len: self.source_len, spans: copy_spans(&self.spans) }
    }

    /// The projection where edits put it. User edits cannot overlap projected
    /// source. Insertions at either edge belong to adjacent editable text, so
    /// spans and their mappings do not grow to consume them.
    pub fn transformed(&self, edits: &[TextEdit], new_source_len: usize) -> (projection: Self)
        requires
            edits_addressable(edits@),
        ensures
            projection@ == self@.carried(edits@, new_source_len as int),
    {
        let mut spans: Vec<ProjectionSpan> = Vec::new();
        let ghost target = self@.carried(edits@, new_source_len as int);
        let mut i: usize = 0;
        while i < self.spans.len()
            invariant
                i <= self.spans.len(),
                spans.len() == i,
                edits_addressable(edits@),
                target == self@.carried(edits@, new_source_len as int),
                forall|k: int| 0 <= k < i ==> (#[trigger] spans@[k])@ == target.spans[k],
            decreases self.spans.len() - i,
        {
            let span = &self.spans[i];
            let moved = transform_span(span, edits);
            assert(self@.spans[i as int] == span@);
            spans.push(moved);
            i += 1;
        }
        let projection = DocumentProjection { source_len: new_source_len, spans };
        assert(projection@ =~= target);
        projection
    }

    /// Replaces the source of a range, and the spans in it, by another
    /// projection.
    pub(crate) fn splice(&mut self, range: &Range<usize>, replacement: Self)
        requires
            old(self)@.valid(),
            range.start <= range.end <= old(self)@.source_len,
            range.end <= isize::MAX,
            replacement@.source_len <= isize::MAX,
            old(self)@.source_len + replacement@.source_len <= usize::MAX,
            old(self)@.span_behind(range.start as int) <= old(self)@.span_from(range.end as int),
        ensures
            final(self)@ == old(self)@.spliced(
                range.start as int,
                range.end as int,
                replacement@,
            ),
    {
        let ghost before = self@;
        let len = range.end - range.start;
        let delta: isize = replacement.source_len as isize - len as isize;
        let from = self.first_span_behind(range.start);
        let to = self.first_span_from(range.end);
        proof {
            lemma_span_from(before, range.end as int);
        }
        let mut tail = self.spans.split_off(to);
        assert(span_views(tail@) =~= before.spans.subrange(to as int, before.spans.len() as int));
        shift_spans(&mut tail, delta);
        self.spans.truncate(from);
        assert(span_views(self.spans@) =~= before.spans.subrange(0, from as int));
        let mut middle = replacement.spans;
        shift_spans(&mut middle, range.start as isize);
        let ghost parts = (self.spans@, middle@, tail@);
        self.spans.append(&mut middle);
        self.spans.append(&mut tail);
        assert(span_views(self.spans@) =~= span_views(parts.0) + span_views(parts.1) + span_views(
            parts.2,
        ));
        self.source_len = self.source_len - len + replacement.source_len;
        assert(self@ =~= before.spliced(range.start as int, range.end as int, replacement@));
    }

    /// The first span that ends behind an offset.
    fn first_span_behind(&self, offset: usize) -> (index: usize)
        requires
            self@.valid(),
        ensures
            index == self@.span_behind(offset as int),
            index <= self@.spans.len(),
    {
        let mut low: usize = 0;
        let mut high: usize = self.spans.len();
        while low < high
            invariant
                low <= high <= self.spans.len(),
                self@.valid(),
                forall|k: int| 0 <= k < low ==> (#[trigger] self@.spans[k]).end <= offset,
                forall|k: int|
                    high <= k < self.spans.len() ==> (#[trigger] self@.spans[k]).end > offset,
            decreases high - low,
        {
            let middle = low + (high - low) / 2;
            let ghost at = self@.spans[middle as int];
            if self.spans[middle].source.end <= offset {
                assert forall|k: int| 0 <= k < middle + 1 implies (#[trigger] self@.spans[k]).end
                    <= offset by {
                    if k < middle {
                        assert(self@.spans[k].end <= at.start);
                    }
                }
                low = middle + 1;
            } else {
                assert forall|k: int| middle <= k < self.spans.len() implies (
                #[trigger] self@.spans[k]).end > offset by {
                    if middle < k {
                        assert(at.end <= self@.spans[k].start);
                    }
                }
                high = middle;
            }
        }
        proof {
            lemma_span_behind_is(self@, offset as int, low as int);
        }
        low
    }

    /// The first span that starts at or behind an offset.
    fn first_span_from(&self, offset: usize) -> (index: usize)
        requires
            self@.valid(),
        ensures
            index == self@.span_from(offset as int),
            index <= self@.spans.len(),
    {
        let mut low: usize = 0;
        let mut high: usize = self.spans.len();
        while low < high
            invariant
                low <= high <= self.spans.len(),
                self@.valid(),
                forall|k: int| 0 <= k < low ==> (#[trigger] self@.spans[k]).start < offset,
                forall|k: int|
                    high <= k < self.spans.len() ==> (#[trigger] self@.spans[k]).start >= offset,
            decreases high - low,
        {
            let middle = low + (high - low) / 2;
            let ghost at = self@.spans[middle as int];
            if self.spans[middle].source.start < offset {
                assert forall|k: int| 0 <= k < middle + 1 implies (#[trigger] self@.spans[k]).start
                    < offset by {
                    if k < middle {
                        assert(self@.spans[k].end <= at.start);
                    }
                }
                low = middle + 1;
            } else {
                assert forall|k: int| middle <= k < self.spans.len() implies (
                #[trigger] self@.spans[k]).start >= offset by {
                    if middle < k {
                        assert(at.end <= self@.spans[k].start);
                    }
                }
                high = middle;
            }
        }
        proof {
            lemma_first_where_is(
                self@.spans,
                |s: SpanView| s.start >= offset as int,
                0,
                low as int,
            );
        }
        low
    }
}

fn transform_span(span: &ProjectionSpan, edits: &[TextEdit]) -> (moved: ProjectionSpan)
    requires
        edits_addressable(edits@),
    ensures
        moved@ == span@.carried(edits@),
{
    let source = transform_source_range(&span.source, edits);
    let mapping = match &span.mapping {
        None => None,
        Some(mapping) => {
            let mut entries: Vec<ProjectionMapping> = Vec::new();
            let mut i: usize = 0;
            while i < mapping.len()
                invariant
                    i <= mapping.len(),
                    entries.len() == i,
                    edits_addressable(edits@),
                    forall|k: int|
                        0 <= k < i ==> #[trigger] entries@[k] == mapping@[k].with_source(
                            carried(mapping@[k].spec_source(), edits@),
                        ),
                decreases mapping.len() - i,
            {
                let entry = &mapping[i];
                let source = transform_source_range(&entry.source, edits);
                entries.push(ProjectionMapping { display: entry.display(), source });
                i += 1;
            }
            assert(entries@ =~= mapping@.map_values(
                |e: ProjectionMapping| e.with_source(carried(e.spec_source(), edits@)),
            ));
            Some(entries)
        },
    };
    let moved = ProjectionSpan { source, replacement: span.replacement.clone(), mapping };
    assert(moved@ =~= span@.carried(edits@));
    moved
}

fn shift_spans(spans: &mut Vec<ProjectionSpan>, delta: isize)
    ensures
        span_views(final(spans)@) == shifted_spans(span_views(old(spans)@), delta as int),
{
    let ghost before = span_views(spans@);
    let mut i: usize = 0;
    while i < spans.len()
        invariant
            i <= spans.len(),
            spans.len() == before.len(),
            forall|k: int|
                0 <= k < i ==> (#[trigger] spans@[k])@ == before[k].shifted(delta as int),
            forall|k: int| i <= k < before.len() ==> (#[trigger] spans@[k])@ == before[k],
        decreases spans.len() - i,
    {
        assert(spans@[i as int]@ == before[i as int]);
        spans[i].shift_source(delta);
        i += 1;
    }
    assert(span_views(spans@) =~= shifted_spans(before, delta as int));
}

} // verus!
