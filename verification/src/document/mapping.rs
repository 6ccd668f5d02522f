//! Where a projection shows source offsets, and what display offsets show.

use crate::document::position::Affinity;
use crate::document::projection::{
    entry_valid, lemma_span_behind, lemma_span_behind_is, lemma_span_from, mapping_valid,
    shifted_mapping, shifted_spans, ProjectionMapping, ProjectionView, SpanView,
};
use crate::scan::{
    first_where, last_where, lemma_first_where, lemma_first_where_is, lemma_last_where,
};
use crate::text::{at_boundary, splice_bytes, starts_clean};
use vstd::prelude::*;
use vstd::utf8::*;

verus! {

/// By how many bytes the first `k` spans make the display longer than the
/// source.
pub open spec fn growth(spans: Seq<SpanView>, k: int) -> int
    decreases k,
{
    if k <= 0 {
        0
    } else {
        growth(spans, k - 1) + spans[k - 1].replacement.len() - (spans[k - 1].end
            - spans[k - 1].start)
    }
}

/// The displayed text: the source with every span replaced.
pub open spec fn rendered(bytes: Seq<u8>, spans: Seq<SpanView>) -> Seq<u8>
    decreases spans.len(),
{
    if spans.len() == 0 {
        bytes
    } else {
        rendered(bytes.subrange(0, spans.last().start), spans.drop_last())
            + spans.last().replacement + bytes.subrange(spans.last().end, bytes.len() as int)
    }
}

/// Where a mapping entry shows an offset of its source.
pub open spec fn entry_to_display(entry: ProjectionMapping, offset: int, affinity: Affinity) -> int {
    let source = entry.spec_source();
    let display = entry.spec_display();
    if source.1 - source.0 == display.1 - display.0 {
        display.0 + (if offset - source.0 <= display.1 - display.0 {
            offset - source.0
        } else {
            display.1 - display.0
        })
    } else if offset == source.0 || affinity == Affinity::Before {
        display.0
    } else {
        display.1
    }
}

/// What source a display offset of a mapping entry stands for.
pub open spec fn entry_to_source(entry: ProjectionMapping, local: int, affinity: Affinity) -> int {
    let source = entry.spec_source();
    let display = entry.spec_display();
    if source.1 - source.0 == display.1 - display.0 {
        source.0 + (if local - display.0 <= source.1 - source.0 {
            local - display.0
        } else {
            source.1 - source.0
        })
    } else if local == display.0 || affinity == Affinity::Before {
        source.0
    } else {
        source.1
    }
}

/// An entry whose source holds an offset. The end of its source counts for a
/// position before it.
pub open spec fn entry_holds(offset: int, affinity: Affinity) -> spec_fn(ProjectionMapping) -> bool {
    |e: ProjectionMapping|
        e.spec_source().0 <= offset && (offset < e.spec_source().1 || (offset == e.spec_source().1
            && affinity == Affinity::Before))
}

/// An entry whose display holds an offset.
pub open spec fn entry_shows(local: int, affinity: Affinity) -> spec_fn(ProjectionMapping) -> bool {
    |e: ProjectionMapping|
        e.spec_display().0 <= local && (local < e.spec_display().1 || (local == e.spec_display().1
            && affinity == Affinity::Before))
}

pub open spec fn entry_starts_from(offset: int) -> spec_fn(ProjectionMapping) -> bool {
    |e: ProjectionMapping| e.spec_source().0 >= offset
}

pub open spec fn entry_ends_by(offset: int) -> spec_fn(ProjectionMapping) -> bool {
    |e: ProjectionMapping| e.spec_source().1 <= offset
}

/// Where mapping entries show a source offset, counted from the start of
/// their replacement. An offset that no entry holds goes to the next entry
/// or, with the other affinity, to the one before.
pub open spec fn mapped_to_display(
    entries: Seq<ProjectionMapping>,
    offset: int,
    affinity: Affinity,
) -> Option<int> {
    let hit = first_where(entries, entry_holds(offset, affinity), 0);
    if hit < entries.len() {
        Some(entry_to_display(entries[hit], offset, affinity))
    } else if entries.len() == 0 {
        None
    } else if affinity == Affinity::Before {
        let next = first_where(entries, entry_starts_from(offset), 0);
        if next < entries.len() {
            Some(entries[next].spec_display().0)
        } else {
            Some(entries.last().spec_display().1)
        }
    } else {
        let previous = last_where(entries, entry_ends_by(offset), entries.len() as int);
        if previous >= 0 {
            Some(entries[previous].spec_display().1)
        } else {
            Some(entries[0].spec_display().0)
        }
    }
}

/// What source mapping entries have at a display offset, counted from the
/// start of their replacement.
pub open spec fn mapped_to_source(
    entries: Seq<ProjectionMapping>,
    local: int,
    affinity: Affinity,
) -> Option<int> {
    let hit = first_where(entries, entry_shows(local, affinity), 0);
    if hit < entries.len() {
        Some(entry_to_source(entries[hit], local, affinity))
    } else {
        None
    }
}

impl SpanView {
    /// Where the span shows an offset in it, counted from the start of its
    /// replacement.
    pub open spec fn to_display(self, offset: int, affinity: Affinity) -> Option<int> {
        match self.mapping {
            Some(entries) => mapped_to_display(entries, offset, affinity),
            None => if offset == self.start || affinity == Affinity::Before {
                Some(0)
            } else {
                Some(self.replacement.len() as int)
            },
        }
    }

    /// What source the span has at a display offset, counted from the start
    /// of its replacement.
    pub open spec fn to_source(self, local: int, affinity: Affinity) -> Option<int> {
        match self.mapping {
            Some(entries) => mapped_to_source(entries, local, affinity),
            None => if affinity == Affinity::Before || (local == 0 && self.replacement.len() > 0) {
                Some(self.start)
            } else {
                Some(self.end)
            },
        }
    }
}

/// `base` plus an offset, if there is one.
pub open spec fn plus(base: int, offset: Option<int>) -> Option<int> {
    match offset {
        Some(offset) => Some(base + offset),
        None => None,
    }
}

impl ProjectionView {
    /// Where span `k` starts in the display.
    pub open spec fn display_start(self, k: int) -> int {
        self.spans[k].start + growth(self.spans, k)
    }

    /// Where span `k` ends in the display.
    pub open spec fn display_end(self, k: int) -> int {
        self.display_start(k) + self.spans[k].replacement.len()
    }

    pub open spec fn display_len(self) -> int {
        self.source_len + growth(self.spans, self.spans.len() as int)
    }

    /// Where an offset outside every span is shown.
    pub open spec fn shown_at(self, offset: int) -> int {
        offset + growth(self.spans, self.span_behind(offset))
    }

    /// Where a source offset is shown.
    pub open spec fn source_to_display(self, offset: int, affinity: Affinity) -> Option<int> {
        let k = self.span_behind(offset);
        if offset > self.source_len {
            None
        } else if offset == self.source_len {
            Some(self.display_len())
        } else if k < self.spans.len() && self.spans[k].start <= offset {
            plus(self.display_start(k), self.spans[k].to_display(offset, affinity))
        } else {
            Some(self.shown_at(offset))
        }
    }

    /// Where a source offset stands in the display: where it is shown, and in a
    /// span that maps nothing, and so shows nothing, where the span stands.
    pub open spec fn place(self, offset: int, affinity: Affinity) -> int {
        match self.source_to_display(offset, affinity) {
            Some(display) => display,
            None => self.display_start(self.span_behind(offset)),
        }
    }

    /// The first span at or behind `from` that is shown at or behind a display
    /// offset. A span without text counts only with `empty`.
    pub open spec fn span_showing(self, offset: int, empty: bool, from: int) -> int
        decreases self.spans.len() - from,
    {
        if from >= self.spans.len() {
            self.spans.len() as int
        } else if self.display_end(from) > offset || (empty && self.display_end(from) == offset
            && self.spans[from].replacement.len() == 0) {
            from
        } else {
            self.span_showing(offset, empty, from + 1)
        }
    }

    /// What source is shown at a display offset. Spans without text are
    /// skipped but for a position before them.
    pub open spec fn display_to_source(self, offset: int, affinity: Affinity) -> Option<int> {
        let k = self.span_showing(offset, affinity == Affinity::Before, 0);
        if offset > self.display_len() {
            None
        } else if offset == self.display_len() {
            Some(self.source_len)
        } else if k < self.spans.len() && self.display_start(k) <= offset {
            self.spans[k].to_source(offset - self.display_start(k), affinity)
        } else {
            Some(offset - growth(self.spans, k))
        }
    }

    /// Every span begins and ends between characters.
    pub open spec fn on_boundaries(self, bytes: Seq<u8>) -> bool {
        forall|i: int|
            0 <= i < self.spans.len() ==> at_boundary(bytes, (#[trigger] self.spans[i]).start)
                && at_boundary(bytes, self.spans[i].end)
    }
}

// ---------------------------------------------------------------------------
// Growth
// ---------------------------------------------------------------------------

/// Growth depends only on what is counted.
pub proof fn lemma_growth_prefix(a: Seq<SpanView>, b: Seq<SpanView>, k: int)
    requires
        0 <= k <= a.len(),
        k <= b.len(),
        forall|i: int|
            0 <= i < k ==> (#[trigger] a[i]).replacement.len() == b[i].replacement.len() && a[i].end
                - a[i].start == b[i].end - b[i].start,
    ensures
        growth(a, k) == growth(b, k),
    decreases k,
{
    if k > 0 {
        lemma_growth_prefix(a, b, k - 1);
        assert(a[k - 1].replacement.len() == b[k - 1].replacement.len());
    }
}

pub proof fn lemma_growth_concat(a: Seq<SpanView>, b: Seq<SpanView>, k: int)
    requires
        0 <= k <= b.len(),
    ensures
        growth(a + b, a.len() + k) == growth(a, a.len() as int) + growth(b, k),
    decreases k,
{
    if k == 0 {
        lemma_growth_prefix(a + b, a, a.len() as int);
    } else {
        lemma_growth_concat(a, b, k - 1);
        assert((a + b)[a.len() + k - 1] == b[k - 1]);
    }
}

pub proof fn lemma_growth_skip(spans: Seq<SpanView>, from: int, k: int)
    requires
        0 <= from <= spans.len(),
        0 <= k <= spans.len() - from,
    ensures
        growth(spans.subrange(from, spans.len() as int), k) == growth(spans, from + k) - growth(
            spans,
            from,
        ),
    decreases k,
{
    if k > 0 {
        lemma_growth_skip(spans, from, k - 1);
        assert(spans.subrange(from, spans.len() as int)[k - 1] == spans[from + k - 1]);
    }
}

/// Between two offsets, spans cannot take away more than lies there.
pub proof fn lemma_growth_bound(p: ProjectionView, i: int, j: int, a: int, b: int)
    requires
        p.valid(),
        0 <= i <= j <= p.spans.len(),
        a <= b,
        i < j ==> a <= p.spans[i].start && p.spans[j - 1].end <= b,
    ensures
        a + growth(p.spans, i) <= b + growth(p.spans, j),
    decreases j - i,
{
    if i < j {
        let last = p.spans[j - 1];
        if i < j - 1 {
            assert(p.spans[j - 2].end <= p.spans[j - 1].start);
            assert(p.spans[i].start < p.spans[i].end);
            assert(p.spans[i].end <= p.spans[j - 1].start);
        }
        lemma_growth_bound(p, i, j - 1, a, last.start);
    }
}

pub proof fn lemma_span_showing(p: ProjectionView, offset: int, empty: bool, from: int)
    requires
        0 <= from <= p.spans.len(),
    ensures
        from <= p.span_showing(offset, empty, from) <= p.spans.len(),
        forall|i: int|
            from <= i < p.span_showing(offset, empty, from) ==> #[trigger] p.display_end(i)
                <= offset && !(empty && p.display_end(i) == offset && p.spans[i].replacement.len()
                == 0),
        p.span_showing(offset, empty, from) < p.spans.len() ==> ({
            let k = p.span_showing(offset, empty, from);
            p.display_end(k) > offset || (empty && p.display_end(k) == offset
                && p.spans[k].replacement.len() == 0)
        }),
    decreases p.spans.len() - from,
{
    if from < p.spans.len() && !(p.display_end(from) > offset || (empty && p.display_end(from)
        == offset && p.spans[from].replacement.len() == 0)) {
        lemma_span_showing(p, offset, empty, from + 1);
    }
}

/// The index that separates the spans that are not shown from the first that
/// is.
pub proof fn lemma_span_showing_is(p: ProjectionView, offset: int, empty: bool, from: int, k: int)
    requires
        0 <= from <= k <= p.spans.len(),
        forall|i: int|
            from <= i < k ==> #[trigger] p.display_end(i) <= offset && !(empty && p.display_end(i)
                == offset && p.spans[i].replacement.len() == 0),
        k < p.spans.len() ==> (p.display_end(k) > offset || (empty && p.display_end(k) == offset
            && p.spans[k].replacement.len() == 0)),
    ensures
        p.span_showing(offset, empty, from) == k,
    decreases k - from,
{
    if from < k {
        assert(p.display_end(from) <= offset);
        lemma_span_showing_is(p, offset, empty, from + 1, k);
    }
}

// ---------------------------------------------------------------------------
// Offsets outside spans
// ---------------------------------------------------------------------------

/// Outside spans, the spans before an offset are those that end by it.
pub proof fn lemma_outside(p: ProjectionView, offset: int)
    requires
        p.valid(),
        p.outside(offset),
    ensures
        p.span_behind(offset) == p.span_from(offset),
{
    let k = p.span_behind(offset);
    lemma_span_behind(p, offset);
    let test = |s: SpanView| s.start >= offset;
    assert forall|i: int| 0 <= i < k implies !(#[trigger] test(p.spans[i])) by {
        assert(p.spans[i].end <= offset);
    }
    if k < p.spans.len() {
        assert(!p.spans[k].inside(offset));
    }
    lemma_first_where_is(p.spans, test, 0, k);
}

/// The first entry of a mapping shows the start of its span at the start of
/// the replacement.
proof fn lemma_mapped_start(span: SpanView, affinity: Affinity)
    requires
        mapping_valid(span),
        span.start < span.end,
        span.mapping is Some,
        span.mapping->0.len() > 0,
    ensures
        mapped_to_display(span.mapping->0, span.start, affinity) == Some(0int),
{
    let entries = span.mapping->0;
    let holds = entry_holds(span.start, affinity);
    assert(entry_valid(entries, span, 0));
    lemma_first_where(entries, holds, 0);
    let hit = first_where(entries, holds, 0);
    if entries[0].spec_source().0 == span.start {
        assert(holds(entries[0]));
        assert(hit == 0) by {
            if hit > 0 {
                assert(!holds(entries[0]));
            }
        }
    } else {
        lemma_source_starts(span);
        assert forall|i: int| 0 <= i < entries.len() implies !(#[trigger] holds(entries[i])) by {
            assert(entries[i].spec_source().0 >= entries[0].spec_source().0);
        }
        lemma_first_where_is(entries, holds, 0, entries.len() as int);
        let from = entry_starts_from(span.start);
        assert(from(entries[0]));
        lemma_first_where_is(entries, from, 0, 0);
        let by_end = entry_ends_by(span.start);
        lemma_last_where(entries, by_end, entries.len() as int);
        let previous = last_where(entries, by_end, entries.len() as int);
        if previous >= 0 {
            assert(entry_valid(entries, span, previous));
            assert(by_end(entries[previous]));
        }
    }
}

/// The sources of mapping entries start in order.
proof fn lemma_source_starts(span: SpanView)
    requires
        mapping_valid(span),
        span.mapping is Some,
    ensures
        forall|i: int, j: int|
            #![trigger span.mapping->0[i], span.mapping->0[j]]
            0 <= i <= j < span.mapping->0.len() ==> span.mapping->0[i].spec_source().0
                <= span.mapping->0[j].spec_source().0,
{
    let entries = span.mapping->0;
    assert forall|i: int, j: int|
        #![trigger entries[i], entries[j]]
        0 <= i <= j < entries.len() implies entries[i].spec_source().0
        <= entries[j].spec_source().0 by {
        lemma_source_starts_between(span, i, j);
    }
}

proof fn lemma_source_starts_between(span: SpanView, i: int, j: int)
    requires
        mapping_valid(span),
        span.mapping is Some,
        0 <= i <= j < span.mapping->0.len(),
    ensures
        span.mapping->0[i].spec_source().0 <= span.mapping->0[j].spec_source().0,
    decreases j - i,
{
    if i < j {
        lemma_source_starts_between(span, i, j - 1);
        assert(entry_valid(span.mapping->0, span, j));
    }
}

/// An offset outside every span is shown at one place, whatever the
/// affinity.
pub proof fn lemma_seam_shown(p: ProjectionView, offset: int, affinity: Affinity)
    requires
        p.valid(),
        p.outside(offset),
        0 <= offset <= p.source_len,
        p.source_to_display(offset, affinity) is Some,
    ensures
        p.source_to_display(offset, affinity) == Some(p.shown_at(offset)),
{
    let k = p.span_behind(offset);
    lemma_span_behind(p, offset);
    if offset == p.source_len {
        if k < p.spans.len() {
            assert(p.spans[k].end <= p.source_len);
        }
    } else if k < p.spans.len() && p.spans[k].start <= offset {
        assert(!p.spans[k].inside(offset));
        assert(p.spans[k].start == offset);
        if p.spans[k].mapping is Some {
            assert(!p.spans[k].unmapped());
            lemma_mapped_start(p.spans[k], affinity);
        }
    }
}

/// An offset outside every span stands at one place, shown or not.
pub proof fn lemma_outside_shown(p: ProjectionView, offset: int, affinity: Affinity)
    requires
        p.valid(),
        p.outside(offset),
        0 <= offset <= p.source_len,
    ensures
        p.place(offset, affinity) == p.shown_at(offset),
{
    let k = p.span_behind(offset);
    lemma_span_behind(p, offset);
    if p.source_to_display(offset, affinity) is Some {
        lemma_seam_shown(p, offset, affinity);
    } else {
        assert(!p.spans[k].inside(offset));
        assert(p.spans[k].start == offset);
    }
}

/// Offsets outside spans are shown in order.
pub proof fn lemma_shown_order(p: ProjectionView, a: int, b: int)
    requires
        p.valid(),
        p.outside(a),
        a <= b,
    ensures
        p.span_behind(a) <= p.span_behind(b),
        p.shown_at(a) <= p.shown_at(b),
{
    lemma_span_behind(p, a);
    lemma_span_behind(p, b);
    let i = p.span_behind(a);
    let j = p.span_behind(b);
    if j < i {
        assert(p.spans[j].end <= a);
    }
    if i < j {
        assert(!p.spans[i].inside(a));
        assert(p.spans[j - 1].end <= b);
    }
    lemma_growth_bound(p, i, j, a, b);
}

/// What is displayed is as long as the projection says.
pub proof fn lemma_rendered_len(bytes: Seq<u8>, p: ProjectionView)
    requires
        p.valid(),
        bytes.len() == p.source_len,
    ensures
        rendered(bytes, p.spans).len() == p.display_len(),
        p.display_len() >= 0,
    decreases p.spans.len(),
{
    if p.spans.len() > 0 {
        let last = p.spans.last();
        let front = p.spans.drop_last();
        let q = ProjectionView { source_len: last.start, spans: front };
        assert(0 <= last.start < last.end <= p.source_len);
        lemma_front_valid(p);
        lemma_rendered_len(bytes.subrange(0, last.start), q);
        lemma_growth_prefix(p.spans, front, front.len() as int);
    }
}

/// Without its last span a projection of the text before it is valid.
pub proof fn lemma_front_valid(p: ProjectionView)
    requires
        p.valid(),
        p.spans.len() > 0,
    ensures
        (ProjectionView { source_len: p.spans.last().start, spans: p.spans.drop_last() }).valid(),
{
    let last = p.spans.last();
    let front = p.spans.drop_last();
    let q = ProjectionView { source_len: last.start, spans: front };
    assert(p.spans[p.spans.len() - 1] == last);
    assert forall|i: int| 0 <= i < front.len() implies 0 <= (#[trigger] q.spans[i]).start
        < q.spans[i].end <= q.source_len && mapping_valid(q.spans[i]) && starts_clean(
        q.spans[i].replacement,
    ) by {
        assert(q.spans[i] == p.spans[i]);
        assert(p.spans[i].end <= p.spans[p.spans.len() - 1].start);
    }
    assert forall|i: int, j: int|
        #![trigger q.spans[i], q.spans[j]]
        0 <= i < j < q.spans.len() implies q.spans[i].end <= q.spans[j].start by {
        assert(q.spans[i] == p.spans[i] && q.spans[j] == p.spans[j]);
    }
}

/// Whatever is displayed does not begin inside a character.
pub proof fn lemma_rendered_clean(bytes: Seq<u8>, p: ProjectionView)
    requires
        p.valid(),
        bytes.len() == p.source_len,
        p.on_boundaries(bytes),
        starts_clean(bytes),
    ensures
        starts_clean(rendered(bytes, p.spans)),
    decreases p.spans.len(),
{
    if p.spans.len() > 0 {
        let last = p.spans.last();
        let front = p.spans.drop_last();
        let q = ProjectionView { source_len: last.start, spans: front };
        assert(p.spans[p.spans.len() - 1] == last);
        let text = bytes.subrange(0, last.start);
        lemma_front_valid(p);
        assert(q.on_boundaries(text)) by {
            assert forall|i: int| 0 <= i < q.spans.len() implies at_boundary(
                text,
                (#[trigger] q.spans[i]).start,
            ) && at_boundary(text, q.spans[i].end) by {
                assert(q.spans[i] == p.spans[i]);
                assert(at_boundary(bytes, p.spans[i].start) && at_boundary(bytes, p.spans[i].end));
                assert(p.spans[i].end <= last.start);
            }
        }
        lemma_rendered_clean(text, q);
        let a = rendered(text, front);
        let c = bytes.subrange(last.end, bytes.len() as int);
        let all = rendered(bytes, p.spans);
        assert(at_boundary(bytes, last.end));
        if all.len() > 0 {
            if a.len() > 0 {
                assert(all[0] == a[0]);
            } else if last.replacement.len() > 0 {
                assert(all[0] == last.replacement[0]);
            } else {
                assert(all[0] == c[0]);
                assert(c[0] == bytes[last.end]);
            }
        }
    }
}

/// A projection of the text before an offset.
pub open spec fn projection_before(p: ProjectionView, offset: int) -> ProjectionView {
    ProjectionView {
        source_len: offset,
        spans: p.spans.subrange(0, p.span_behind(offset)),
    }
}

/// A projection of the text behind an offset.
pub open spec fn projection_behind(p: ProjectionView, offset: int) -> ProjectionView {
    ProjectionView {
        source_len: p.source_len - offset,
        spans: shifted_spans(
            p.spans.subrange(p.span_behind(offset), p.spans.len() as int),
            -offset,
        ),
    }
}

/// A mapping stays valid when its span moves.
pub proof fn lemma_shifted_mapping_valid(span: SpanView, delta: int)
    requires
        mapping_valid(span),
        0 <= span.start + delta,
        span.end + delta <= usize::MAX,
    ensures
        mapping_valid(span.shifted(delta)),
        span.start <= span.end ==> span.shifted(delta).start == span.start + delta
            && span.shifted(delta).end == span.end + delta,
{
    if let Some(entries) = span.mapping {
        let moved = shifted_mapping(span.mapping, delta)->0;
        let to = span.shifted(delta);
        assert forall|i: int| 0 <= i < moved.len() implies #[trigger] entry_valid(moved, to, i) by {
            assert(entry_valid(entries, span, i));
            if i > 0 {
                assert(entry_valid(entries, span, i - 1));
            }
        }
        if entries.len() > 0 {
            assert(moved.last().spec_display() == entries.last().spec_display());
        }
    }
}

/// Shifting spans keeps them valid where there is room.
pub proof fn lemma_shifted_valid(p: ProjectionView, delta: int, len: int)
    requires
        p.valid(),
        0 <= len <= usize::MAX,
        forall|i: int|
            0 <= i < p.spans.len() ==> 0 <= (#[trigger] p.spans[i]).start + delta
                && p.spans[i].end + delta <= len,
    ensures
        (ProjectionView { source_len: len, spans: shifted_spans(p.spans, delta) }).valid(),
        forall|i: int|
            0 <= i < p.spans.len() ==> (#[trigger] shifted_spans(p.spans, delta)[i]).start
                == p.spans[i].start + delta && shifted_spans(p.spans, delta)[i].end
                == p.spans[i].end + delta,
{
    let q = ProjectionView { source_len: len, spans: shifted_spans(p.spans, delta) };
    assert forall|i: int| 0 <= i < q.spans.len() implies q.spans[i].start == p.spans[i].start
        + delta && q.spans[i].end == p.spans[i].end + delta && 0 <= (#[trigger] q.spans[i]).start
        < q.spans[i].end <= q.source_len && mapping_valid(q.spans[i]) && starts_clean(
        q.spans[i].replacement,
    ) by {
        assert(p.spans[i].start < p.spans[i].end);
        lemma_shifted_mapping_valid(p.spans[i], delta);
    }
    assert forall|i: int, j: int|
        #![trigger q.spans[i], q.spans[j]]
        0 <= i < j < q.spans.len() implies q.spans[i].end <= q.spans[j].start by {
        assert(p.spans[i].end <= p.spans[j].start);
    }
}

/// The parts of a projection on both sides of an offset outside its spans.
pub proof fn lemma_split_valid(p: ProjectionView, offset: int)
    requires
        p.valid(),
        p.outside(offset),
        0 <= offset <= p.source_len,
    ensures
        projection_before(p, offset).valid(),
        projection_behind(p, offset).valid(),
        projection_before(p, offset).display_len() == p.shown_at(offset),
        projection_before(p, offset).display_len() + projection_behind(p, offset).display_len()
            == p.display_len(),
{
    let k = p.span_behind(offset);
    let n = p.spans.len() as int;
    lemma_span_behind(p, offset);
    let a = projection_before(p, offset);
    assert forall|i: int| 0 <= i < a.spans.len() implies 0 <= (#[trigger] a.spans[i]).start
        < a.spans[i].end <= a.source_len && mapping_valid(a.spans[i]) && starts_clean(
        a.spans[i].replacement,
    ) by {
        assert(a.spans[i] == p.spans[i]);
        assert(p.spans[i].end <= offset);
    }
    assert forall|i: int, j: int|
        #![trigger a.spans[i], a.spans[j]]
        0 <= i < j < a.spans.len() implies a.spans[i].end <= a.spans[j].start by {
        assert(a.spans[i] == p.spans[i] && a.spans[j] == p.spans[j]);
    }
    let tail = ProjectionView { source_len: p.source_len, spans: p.spans.subrange(k, n) };
    assert forall|i: int| 0 <= i < tail.spans.len() implies offset <= (
    #[trigger] tail.spans[i]).start < tail.spans[i].end <= p.source_len && mapping_valid(
        tail.spans[i],
    ) && starts_clean(tail.spans[i].replacement) by {
        assert(tail.spans[i] == p.spans[k + i]);
        assert(!p.spans[k].inside(offset));
        if i > 0 {
            assert(p.spans[k].end <= p.spans[k + i].start);
        }
    }
    assert forall|i: int, j: int|
        #![trigger tail.spans[i], tail.spans[j]]
        0 <= i < j < tail.spans.len() implies tail.spans[i].end <= tail.spans[j].start by {
        assert(tail.spans[i] == p.spans[k + i] && tail.spans[j] == p.spans[k + j]);
    }
    assert(tail.valid());
    lemma_shifted_valid(tail, -offset, p.source_len - offset);
    lemma_growth_prefix(a.spans, p.spans, k);
    let b = projection_behind(p, offset);
    lemma_growth_skip(p.spans, k, n - k);
    assert forall|i: int| 0 <= i < n - k implies (#[trigger] b.spans[i]).replacement.len()
        == tail.spans[i].replacement.len() && b.spans[i].end - b.spans[i].start
        == tail.spans[i].end - tail.spans[i].start by {
        assert(b.spans[i] == shifted_spans(tail.spans, -offset)[i]);
    }
    lemma_growth_prefix(b.spans, tail.spans, n - k);
}

/// Without its last span, which starts behind an offset, a projection is split
/// at the offset as before.
proof fn lemma_front_split(p: ProjectionView, offset: int)
    requires
        p.valid(),
        p.outside(offset),
        0 <= offset <= p.source_len,
        p.span_behind(offset) < p.spans.len(),
    ensures
        ({
            let last = p.spans.last();
            let q = ProjectionView { source_len: last.start, spans: p.spans.drop_last() };
            let b = projection_behind(p, offset);
            &&& offset <= last.start
            &&& q.valid()
            &&& q.outside(offset)
            &&& projection_before(q, offset).spans == projection_before(p, offset).spans
            &&& b.spans.len() > 0
            &&& projection_behind(q, offset).spans == b.spans.drop_last()
            &&& b.spans.last().start == last.start - offset
            &&& b.spans.last().end == last.end - offset
            &&& b.spans.last().replacement == last.replacement
        }),
{
    let k = p.span_behind(offset);
    let n = p.spans.len() as int;
    let last = p.spans.last();
    let front = p.spans.drop_last();
    let q = ProjectionView { source_len: last.start, spans: front };
    lemma_span_behind(p, offset);
    lemma_front_valid(p);
    assert(!p.spans[k].inside(offset));
    assert(offset <= p.spans[n - 1].start) by {
        if k < n - 1 {
            assert(p.spans[k].end <= p.spans[n - 1].start);
        }
    }
    assert forall|i: int| 0 <= i < q.spans.len() implies !(#[trigger] q.spans[i]).inside(offset) by {
        assert(q.spans[i] == p.spans[i]);
        assert(!p.spans[i].inside(offset));
    }
    assert forall|i: int| 0 <= i < k implies (#[trigger] q.spans[i]).end <= offset by {
        assert(q.spans[i] == p.spans[i]);
    }
    if k < q.spans.len() {
        assert(q.spans[k] == p.spans[k]);
    }
    lemma_span_behind_is(q, offset, k);
    let b = projection_behind(p, offset);
    assert(projection_before(q, offset).spans =~= projection_before(p, offset).spans);
    assert(p.spans.subrange(k, n).drop_last() =~= front.subrange(k, n - 1));
    assert(b.spans.drop_last() =~= projection_behind(q, offset).spans);
    assert(p.spans.subrange(k, n).last() == last);
    assert(b.spans.last() == last.shifted(-offset));
}

/// The display falls apart at an offset outside every span.
pub proof fn lemma_rendered_split(bytes: Seq<u8>, p: ProjectionView, offset: int)
    requires
        p.valid(),
        p.outside(offset),
        0 <= offset <= p.source_len,
        bytes.len() == p.source_len,
    ensures
        rendered(bytes, p.spans) == rendered(
            bytes.subrange(0, offset),
            projection_before(p, offset).spans,
        ) + rendered(
            bytes.subrange(offset, bytes.len() as int),
            projection_behind(p, offset).spans,
        ),
    decreases p.spans.len(),
{
    let k = p.span_behind(offset);
    let n = p.spans.len() as int;
    lemma_span_behind(p, offset);
    lemma_split_valid(p, offset);
    let a = projection_before(p, offset);
    let b = projection_behind(p, offset);
    let left = bytes.subrange(0, offset);
    let right = bytes.subrange(offset, bytes.len() as int);
    if k == n {
        assert(b.spans.len() == 0);
        assert(a.spans =~= p.spans);
        if n > 0 {
            let last = p.spans.last();
            assert(p.spans[n - 1].end <= offset);
            assert(left.subrange(0, last.start) =~= bytes.subrange(0, last.start));
            assert(left.subrange(last.end, offset) + right =~= bytes.subrange(
                last.end,
                bytes.len() as int,
            ));
            assert(rendered(bytes, p.spans) =~= rendered(left, a.spans) + right);
        } else {
            assert(left + right =~= bytes);
        }
    } else {
        let last = p.spans.last();
        let q = ProjectionView { source_len: last.start, spans: p.spans.drop_last() };
        let text = bytes.subrange(0, last.start);
        lemma_front_split(p, offset);
        lemma_rendered_split(text, q, offset);
        assert(text.subrange(0, offset) =~= left);
        let blast = b.spans.last();
        assert(text.subrange(offset, text.len() as int) =~= right.subrange(0, blast.start));
        assert(right.subrange(blast.end, right.len() as int) =~= bytes.subrange(
            last.end,
            bytes.len() as int,
        ));
        assert(rendered(bytes, p.spans) =~= rendered(left, a.spans) + rendered(right, b.spans));
    }
}

/// A boundary of the source outside every span is shown at a boundary of the
/// display.
pub proof fn lemma_shown_boundary(bytes: Seq<u8>, p: ProjectionView, offset: int)
    requires
        p.valid(),
        p.outside(offset),
        bytes.len() == p.source_len,
        p.on_boundaries(bytes),
        starts_clean(bytes),
        at_boundary(bytes, offset),
    ensures
        at_boundary(rendered(bytes, p.spans), p.shown_at(offset)),
        0 <= p.shown_at(offset) <= p.display_len(),
        rendered(bytes, p.spans).len() == p.display_len(),
{
    let k = p.span_behind(offset);
    let n = p.spans.len() as int;
    lemma_span_behind(p, offset);
    lemma_split_valid(p, offset);
    lemma_rendered_split(bytes, p, offset);
    lemma_rendered_len(bytes, p);
    let a = projection_before(p, offset);
    let b = projection_behind(p, offset);
    let left = bytes.subrange(0, offset);
    let right = bytes.subrange(offset, bytes.len() as int);
    lemma_rendered_len(left, a);
    lemma_rendered_len(right, b);
    assert(b.on_boundaries(right)) by {
        assert forall|i: int| 0 <= i < b.spans.len() implies at_boundary(
            right,
            (#[trigger] b.spans[i]).start,
        ) && at_boundary(right, b.spans[i].end) by {
            let s = p.spans[k + i];
            assert(at_boundary(bytes, s.start) && at_boundary(bytes, s.end));
            assert(!p.spans[k].inside(offset));
            if i > 0 {
                assert(p.spans[k].end <= p.spans[k + i].start);
            }
            assert(p.spans.subrange(k, n)[i] == s);
            assert(b.spans[i] == s.shifted(-offset));
            assert(b.spans[i].start == s.start - offset && b.spans[i].end == s.end - offset);
            if b.spans[i].start < right.len() {
                assert(right[b.spans[i].start] == bytes[s.start]);
            }
            if b.spans[i].end < right.len() {
                assert(right[b.spans[i].end] == bytes[s.end]);
            }
        }
    }
    assert(starts_clean(right)) by {
        if right.len() > 0 {
            assert(right[0] == bytes[offset]);
        }
    }
    lemma_rendered_clean(right, b);
    let all = rendered(bytes, p.spans);
    let d = p.shown_at(offset);
    if d < all.len() {
        assert(all[d] == rendered(right, b.spans)[0]);
    }
}

// ---------------------------------------------------------------------------
// Replacing a part
// ---------------------------------------------------------------------------

/// Which spans a projection has after a part of its source was replaced: those
/// before, those of the other projection and those behind.
#[verifier::opaque]
pub open spec fn splice_shape(p: ProjectionView, start: int, end: int, r: ProjectionView) -> bool {
    let q = p.spliced(start, end, r);
    let from = p.span_behind(start);
    let to = p.span_behind(end);
    let m = r.spans.len() as int;
    let delta = r.source_len - (end - start);
    &&& 0 <= from <= to <= p.spans.len()
    &&& to == p.span_from(end)
    &&& q.spans.len() == from + m + (p.spans.len() - to)
    &&& forall|i: int| 0 <= i < from ==> #[trigger] q.spans[i] == p.spans[i] && p.spans[i].end <= start
    &&& forall|i: int|
        from <= i < from + m ==> {
            let s = r.spans[i - from];
            &&& #[trigger] q.spans[i] == s.shifted(start)
            &&& q.spans[i].start == s.start + start
            &&& q.spans[i].end == s.end + start
            &&& 0 <= s.start < s.end <= r.source_len
        }
    &&& forall|i: int|
        from + m <= i < q.spans.len() ==> {
            let s = p.spans[to + (i - from - m)];
            &&& #[trigger] q.spans[i] == s.shifted(delta)
            &&& q.spans[i].start == s.start + delta
            &&& q.spans[i].end == s.end + delta
            &&& end <= s.start < s.end <= p.source_len
        }
}

proof fn lemma_splice_shape(p: ProjectionView, start: int, end: int, r: ProjectionView)
    requires
        p.valid(),
        r.valid(),
        0 <= start <= end <= p.source_len,
        p.outside(start),
        p.outside(end),
        p.source_len + r.source_len <= usize::MAX,
    ensures
        splice_shape(p, start, end, r),
{
    reveal(splice_shape);
    let q = p.spliced(start, end, r);
    let from = p.span_behind(start);
    let to = p.span_from(end);
    let n = p.spans.len() as int;
    let m = r.spans.len() as int;
    let delta = r.source_len - (end - start);
    lemma_outside(p, start);
    lemma_outside(p, end);
    lemma_span_behind(p, start);
    lemma_span_behind(p, end);
    lemma_span_from(p, end);
    lemma_shown_order(p, start, end);
    let tail = p.spans.subrange(to, n);
    assert forall|i: int| 0 <= i < from implies #[trigger] q.spans[i] == p.spans[i]
        && p.spans[i].end <= start by {}
    assert forall|i: int| from <= i < from + m implies {
        let s = r.spans[i - from];
        &&& #[trigger] q.spans[i] == s.shifted(start)
        &&& q.spans[i].start == s.start + start
        &&& q.spans[i].end == s.end + start
        &&& 0 <= s.start < s.end <= r.source_len
    } by {
        assert(shifted_spans(r.spans, start)[i - from] == r.spans[i - from].shifted(start));
        assert(0 <= r.spans[i - from].start < r.spans[i - from].end <= r.source_len);
    }
    assert forall|i: int| from + m <= i < q.spans.len() implies {
        let s = p.spans[to + (i - from - m)];
        &&& #[trigger] q.spans[i] == s.shifted(delta)
        &&& q.spans[i].start == s.start + delta
        &&& q.spans[i].end == s.end + delta
        &&& end <= s.start < s.end <= p.source_len
    } by {
        let k = i - from - m;
        assert(tail[k] == p.spans[to + k]);
        assert(shifted_spans(tail, delta)[k] == tail[k].shifted(delta));
        assert(p.spans[to + k].start < p.spans[to + k].end <= p.source_len);
        if k > 0 {
            assert(p.spans[to].end <= p.spans[to + k].start);
        }
        assert(p.spans[to].start >= end);
        assert(p.spans[to].start < p.spans[to].end);
    }
}

proof fn lemma_splice_valid(p: ProjectionView, start: int, end: int, r: ProjectionView)
    requires
        p.valid(),
        r.valid(),
        0 <= start <= end <= p.source_len,
        splice_shape(p, start, end, r),
        p.source_len + r.source_len <= usize::MAX,
    ensures
        p.spliced(start, end, r).valid(),
{
    reveal(splice_shape);
    let q = p.spliced(start, end, r);
    let from = p.span_behind(start);
    let to = p.span_behind(end);
    let m = r.spans.len() as int;
    let delta = r.source_len - (end - start);
    assert forall|i: int| 0 <= i < q.spans.len() implies 0 <= (#[trigger] q.spans[i]).start
        < q.spans[i].end <= q.source_len && mapping_valid(q.spans[i]) && starts_clean(
        q.spans[i].replacement,
    ) by {
        if i < from {
            assert(p.spans[i].start < p.spans[i].end);
        } else if i < from + m {
            let s = r.spans[i - from];
            assert(mapping_valid(s));
            lemma_shifted_mapping_valid(s, start);
        } else {
            let s = p.spans[to + (i - from - m)];
            assert(mapping_valid(s));
            lemma_shifted_mapping_valid(s, delta);
        }
    }
    assert forall|i: int, j: int|
        #![trigger q.spans[i], q.spans[j]]
        0 <= i < j < q.spans.len() implies q.spans[i].end <= q.spans[j].start by {
        if j < from {
            assert(p.spans[i].end <= p.spans[j].start);
        } else if i >= from && j < from + m {
            assert(r.spans[i - from].end <= r.spans[j - from].start);
        } else if i >= from + m {
            assert(p.spans[to + (i - from - m)].end <= p.spans[to + (j - from - m)].start);
        }
    }
}

/// How much the spans in front make the display longer after a part of the
/// source was replaced.
#[verifier::opaque]
pub open spec fn splice_growth(p: ProjectionView, start: int, end: int, r: ProjectionView) -> bool {
    let q = p.spliced(start, end, r);
    let from = p.span_behind(start);
    let to = p.span_behind(end);
    let m = r.spans.len() as int;
    &&& forall|i: int| 0 <= i <= from ==> #[trigger] growth(q.spans, i) == growth(p.spans, i)
    &&& forall|i: int|
        from <= i <= from + m ==> #[trigger] growth(q.spans, i) == growth(p.spans, from) + growth(
            r.spans,
            i - from,
        )
    &&& forall|i: int|
        from + m <= i <= q.spans.len() ==> #[trigger] growth(q.spans, i) == growth(p.spans, from)
            + growth(r.spans, m) + growth(p.spans, to + (i - from - m)) - growth(p.spans, to)
    &&& q.display_len() == p.shown_at(start) + r.display_len() + (p.display_len() - p.shown_at(end))
}

proof fn lemma_splice_growth(p: ProjectionView, start: int, end: int, r: ProjectionView)
    requires
        splice_shape(p, start, end, r),
    ensures
        splice_growth(p, start, end, r),
{
    reveal(splice_shape);
    reveal(splice_growth);
    let q = p.spliced(start, end, r);
    let from = p.span_behind(start);
    let to = p.span_behind(end);
    let n = p.spans.len() as int;
    let m = r.spans.len() as int;
    assert forall|i: int| 0 <= i <= from implies #[trigger] growth(q.spans, i) == growth(
        p.spans,
        i,
    ) by {
        lemma_growth_prefix(q.spans, p.spans, i);
    }
    assert forall|i: int| from <= i <= from + m implies #[trigger] growth(q.spans, i) == growth(
        p.spans,
        from,
    ) + growth(r.spans, i - from) by {
        lemma_growth_middle(q.spans, from, r.spans, 0, i - from);
        assert(growth(q.spans, from) == growth(p.spans, from));
    }
    assert(growth(q.spans, from + m) == growth(p.spans, from) + growth(r.spans, m));
    assert forall|i: int| from + m <= i <= q.spans.len() implies #[trigger] growth(q.spans, i)
        == growth(p.spans, from) + growth(r.spans, m) + growth(p.spans, to + (i - from - m))
        - growth(p.spans, to) by {
        lemma_growth_middle(q.spans, from + m, p.spans, to, i - from - m);
    }
    assert(growth(q.spans, from + m + (n - to)) == growth(p.spans, from) + growth(r.spans, m)
        + growth(p.spans, n) - growth(p.spans, to));
}

/// Equally long spans grow equally.
proof fn lemma_growth_middle(a: Seq<SpanView>, i: int, b: Seq<SpanView>, j: int, k: int)
    requires
        0 <= i,
        0 <= j,
        0 <= k,
        i + k <= a.len(),
        j + k <= b.len(),
        forall|x: int|
            i <= x < i + k ==> (#[trigger] a[x]).replacement.len() == b[j + (x - i)].replacement.len()
                && a[x].end - a[x].start == b[j + (x - i)].end - b[j + (x - i)].start,
    ensures
        growth(a, i + k) - growth(a, i) == growth(b, j + k) - growth(b, j),
    decreases k,
{
    if k > 0 {
        lemma_growth_middle(a, i, b, j, k - 1);
        assert(a[i + k - 1].replacement.len() == b[j + (i + k - 1 - i)].replacement.len());
    }
}

/// What a projection is after a part of its source, which no span reaches
/// into, was replaced by another projection.
pub proof fn lemma_spliced(p: ProjectionView, start: int, end: int, r: ProjectionView)
    requires
        p.valid(),
        r.valid(),
        0 <= start <= end <= p.source_len,
        p.outside(start),
        p.outside(end),
        p.source_len + r.source_len <= usize::MAX,
    ensures
        splice_shape(p, start, end, r),
        splice_growth(p, start, end, r),
        p.spliced(start, end, r).valid(),
{
    lemma_splice_shape(p, start, end, r);
    lemma_splice_growth(p, start, end, r);
    lemma_splice_valid(p, start, end, r);
}

/// The seams of a replaced part lie outside the spans.
pub proof fn lemma_splice_seams(p: ProjectionView, start: int, end: int, r: ProjectionView)
    requires
        p.valid(),
        r.valid(),
        0 <= start <= end <= p.source_len,
        splice_shape(p, start, end, r),
        p.spliced(start, end, r).valid(),
    ensures
        p.spliced(start, end, r).outside(start),
        p.spliced(start, end, r).outside(start + r.source_len),
        p.spliced(start, end, r).span_behind(start) == p.span_behind(start),
        p.spliced(start, end, r).span_behind(start + r.source_len) == p.span_behind(start)
            + r.spans.len(),
{
    reveal(splice_shape);
    let q = p.spliced(start, end, r);
    let from = p.span_behind(start);
    let m = r.spans.len() as int;
    let seam = start + r.source_len;
    assert forall|i: int| 0 <= i < q.spans.len() implies !(#[trigger] q.spans[i]).inside(start)
        && !q.spans[i].inside(seam) by {
        if i >= from && i < from + m {
            assert(q.spans[i].end == r.spans[i - from].end + start);
        }
    }
    if from < q.spans.len() {
        assert(q.spans[from].start < q.spans[from].end);
    }
    lemma_span_behind_is(q, start, from);
    assert forall|i: int| 0 <= i < from + m implies (#[trigger] q.spans[i]).end <= seam by {
        if i >= from {
            assert(q.spans[i].end == r.spans[i - from].end + start);
        }
    }
    if from + m < q.spans.len() {
        assert(q.spans[from + m].start < q.spans[from + m].end);
    }
    lemma_span_behind_is(q, seam, from + m);
}

proof fn lemma_splice_tail(p: ProjectionView, start: int, end: int, r: ProjectionView)
    requires
        p.valid(),
        r.valid(),
        0 <= start <= end <= p.source_len,
        splice_shape(p, start, end, r),
        p.spliced(start, end, r).valid(),
        p.source_len + r.source_len <= usize::MAX,
    ensures
        projection_behind(p.spliced(start, end, r), start + r.source_len).spans
            == projection_behind(p, end).spans,
{
    reveal(splice_shape);
    let q = p.spliced(start, end, r);
    let from = p.span_behind(start);
    let to = p.span_behind(end);
    let n = p.spans.len() as int;
    let m = r.spans.len() as int;
    let delta = r.source_len - (end - start);
    let seam = start + r.source_len;
    lemma_splice_seams(p, start, end, r);
    let x = projection_behind(q, seam).spans;
    let y = projection_behind(p, end).spans;
    assert forall|i: int| 0 <= i < x.len() implies x[i] == y[i] by {
        let s = p.spans[to + i];
        assert(q.spans[from + m + i] == s.shifted(delta));
        assert(q.spans.subrange(from + m, q.spans.len() as int)[i] == s.shifted(delta));
        assert(p.spans.subrange(to, n)[i] == s);
        assert(x[i] == s.shifted(delta).shifted(-seam));
        assert(y[i] == s.shifted(-end));
        assert(mapping_valid(s));
        lemma_shift_twice(s, delta, -seam);
    }
    assert(x =~= y);
}

proof fn lemma_splice_head(p: ProjectionView, start: int, end: int, r: ProjectionView)
    requires
        p.valid(),
        r.valid(),
        0 <= start <= end <= p.source_len,
        splice_shape(p, start, end, r),
        p.spliced(start, end, r).valid(),
        p.source_len + r.source_len <= usize::MAX,
    ensures
        ({
            let head = projection_before(p.spliced(start, end, r), start + r.source_len);
            &&& head.outside(start)
            &&& projection_before(head, start).spans == projection_before(p, start).spans
            &&& projection_behind(head, start).spans == r.spans
        }),
{
    reveal(splice_shape);
    let q = p.spliced(start, end, r);
    let from = p.span_behind(start);
    let m = r.spans.len() as int;
    let seam = start + r.source_len;
    lemma_splice_seams(p, start, end, r);
    let head = projection_before(q, seam);
    assert(head.outside(start)) by {
        assert forall|i: int| 0 <= i < head.spans.len() implies !(
        #[trigger] head.spans[i]).inside(start) by {
            assert(head.spans[i] == q.spans[i]);
        }
    }
    assert(head.span_behind(start) == from) by {
        assert forall|i: int| 0 <= i < from implies (#[trigger] head.spans[i]).end <= start by {
            assert(head.spans[i] == q.spans[i]);
        }
        if from < head.spans.len() {
            assert(head.spans[from] == q.spans[from]);
            assert(q.spans[from].start < q.spans[from].end);
        }
        lemma_span_behind_is(head, start, from);
    }
    assert(projection_before(head, start).spans =~= projection_before(p, start).spans) by {
        let x = projection_before(head, start).spans;
        let y = projection_before(p, start).spans;
        assert forall|i: int| 0 <= i < from implies x[i] == y[i] by {
            assert(q.spans[i] == p.spans[i]);
        }
    }
    let x = projection_behind(head, start).spans;
    assert forall|i: int| 0 <= i < m implies x[i] == r.spans[i] by {
        let s = r.spans[i];
        assert(q.spans[from + i] == s.shifted(start));
        assert(head.spans.subrange(from, head.spans.len() as int)[i] == s.shifted(start));
        assert(x[i] == s.shifted(start).shifted(-start));
        assert(mapping_valid(s));
        lemma_shift_twice(s, start, -start);
        lemma_shift_none(s);
    }
    assert(x =~= r.spans);
}

/// Replacing a part of the source replaces the part of the display that shows
/// it.
pub proof fn lemma_rendered_splice(
    bytes: Seq<u8>,
    p: ProjectionView,
    start: int,
    end: int,
    insert: Seq<u8>,
    r: ProjectionView,
)
    requires
        p.valid(),
        r.valid(),
        bytes.len() == p.source_len,
        insert.len() == r.source_len,
        0 <= start <= end <= p.source_len,
        p.outside(start),
        p.outside(end),
        p.source_len + r.source_len <= usize::MAX,
    ensures
        0 <= p.shown_at(start) <= p.shown_at(end) <= p.display_len(),
        rendered(bytes, p.spans).len() == p.display_len(),
        rendered(splice_bytes(bytes, start, end, insert), p.spliced(start, end, r).spans)
            == splice_bytes(
            rendered(bytes, p.spans),
            p.shown_at(start),
            p.shown_at(end),
            rendered(insert, r.spans),
        ),
{
    lemma_rendered_around(bytes, p, start);
    lemma_rendered_around(bytes, p, end);
    lemma_shown_order(p, start, end);
    lemma_rendered_spliced(bytes, p, start, end, insert, r);
}

/// What is displayed before and behind an offset outside every span.
proof fn lemma_rendered_around(bytes: Seq<u8>, p: ProjectionView, offset: int)
    requires
        p.valid(),
        bytes.len() == p.source_len,
        0 <= offset <= p.source_len,
        p.outside(offset),
    ensures
        0 <= p.shown_at(offset) <= p.display_len(),
        rendered(bytes, p.spans).len() == p.display_len(),
        rendered(bytes, p.spans).subrange(0, p.shown_at(offset)) == rendered(
            bytes.subrange(0, offset),
            projection_before(p, offset).spans,
        ),
        rendered(bytes, p.spans).subrange(p.shown_at(offset), p.display_len()) == rendered(
            bytes.subrange(offset, bytes.len() as int),
            projection_behind(p, offset).spans,
        ),
{
    lemma_split_valid(p, offset);
    lemma_rendered_split(bytes, p, offset);
    lemma_rendered_len(bytes, p);
    let a = bytes.subrange(0, offset);
    let b = bytes.subrange(offset, bytes.len() as int);
    lemma_rendered_len(a, projection_before(p, offset));
    lemma_rendered_len(b, projection_behind(p, offset));
    let all = rendered(bytes, p.spans);
    assert(all.subrange(0, p.shown_at(offset)) =~= rendered(a, projection_before(p, offset).spans));
    assert(all.subrange(p.shown_at(offset), p.display_len()) =~= rendered(
        b,
        projection_behind(p, offset).spans,
    ));
}

/// The three parts of the display after a part of the source was replaced.
proof fn lemma_rendered_spliced(
    bytes: Seq<u8>,
    p: ProjectionView,
    start: int,
    end: int,
    insert: Seq<u8>,
    r: ProjectionView,
)
    requires
        p.valid(),
        r.valid(),
        bytes.len() == p.source_len,
        insert.len() == r.source_len,
        0 <= start <= end <= p.source_len,
        p.outside(start),
        p.outside(end),
        p.source_len + r.source_len <= usize::MAX,
    ensures
        rendered(splice_bytes(bytes, start, end, insert), p.spliced(start, end, r).spans)
            == rendered(bytes.subrange(0, start), projection_before(p, start).spans) + rendered(
            insert,
            r.spans,
        ) + rendered(bytes.subrange(end, bytes.len() as int), projection_behind(p, end).spans),
{
    let q = p.spliced(start, end, r);
    let next = splice_bytes(bytes, start, end, insert);
    let seam = start + r.source_len;
    lemma_spliced(p, start, end, r);
    lemma_splice_seams(p, start, end, r);
    lemma_splice_tail(p, start, end, r);
    lemma_splice_head(p, start, end, r);
    let head = projection_before(q, seam);
    lemma_split_valid(q, seam);
    lemma_rendered_split(next, q, seam);
    let text = next.subrange(0, seam);
    assert(next.subrange(seam, next.len() as int) =~= bytes.subrange(end, bytes.len() as int));
    lemma_rendered_split(text, head, start);
    assert(text.subrange(0, start) =~= bytes.subrange(0, start));
    assert(text.subrange(start, text.len() as int) =~= insert);
}

/// Two moves are one, as long as the span stays in place.
pub proof fn lemma_shift_twice(span: SpanView, a: int, b: int)
    requires
        mapping_valid(span),
        0 <= span.start <= span.end,
        0 <= span.start + a,
        span.end + a <= usize::MAX,
        0 <= span.start + a + b,
        span.end + a + b <= usize::MAX,
    ensures
        span.shifted(a).shifted(b) == span.shifted(a + b),
{
    if let Some(entries) = span.mapping {
        let once = shifted_mapping(span.mapping, a)->0;
        let twice = shifted_mapping(Some(once), b)->0;
        let direct = shifted_mapping(span.mapping, a + b)->0;
        assert forall|i: int| 0 <= i < entries.len() implies twice[i] == direct[i] by {
            assert(entry_valid(entries, span, i));
        }
        assert(twice =~= direct);
    }
}

/// A move by nothing.
pub proof fn lemma_shift_none(span: SpanView)
    requires
        mapping_valid(span),
        0 <= span.start <= span.end <= usize::MAX,
    ensures
        span.shifted(0) == span,
{
    if let Some(entries) = span.mapping {
        let moved = shifted_mapping(span.mapping, 0)->0;
        assert forall|i: int| 0 <= i < entries.len() implies moved[i] == entries[i] by {
            assert(entry_valid(entries, span, i));
        }
        assert(moved =~= entries);
    }
}

// ---------------------------------------------------------------------------
// There and back
// ---------------------------------------------------------------------------

/// A source offset that no span covers, the end of the source among them, is
/// shown at a display offset that stands for it.
pub proof fn law_visible_source_comes_back(p: ProjectionView, offset: int)
    requires
        p.valid(),
        0 <= offset <= p.source_len,
        forall|i: int|
            0 <= i < p.spans.len() ==> !((#[trigger] p.spans[i]).start <= offset < p.spans[i].end),
    ensures
        p.source_to_display(offset, Affinity::Before) == p.source_to_display(
            offset,
            Affinity::After,
        ),
        p.source_to_display(offset, Affinity::After) is Some,
        p.display_to_source(
            p.source_to_display(offset, Affinity::After)->0,
            Affinity::After,
        ) == Some(offset),
{
    let k = p.span_behind(offset);
    let n = p.spans.len() as int;
    lemma_span_behind(p, offset);
    let d = p.shown_at(offset);
    assert forall|i: int| 0 <= i < k implies #[trigger] p.display_end(i) <= d && !(false
        && p.display_end(i) == d && p.spans[i].replacement.len() == 0) by {
        if i + 1 < k {
            assert(p.spans[i].end <= p.spans[i + 1].start);
            assert(p.spans[k - 1].end <= offset);
        }
        lemma_growth_bound(p, i + 1, k, p.spans[i].end, offset);
    }
    if k < n {
        assert(p.spans[k].start > offset);
        assert(p.display_start(k) > d);
    }
    lemma_span_showing_is(p, d, false, 0, k);
    if offset < p.source_len {
        if k < n {
            assert(p.spans[k].start >= offset + 1);
            assert(p.spans[n - 1].end <= p.source_len);
        }
        lemma_growth_bound(p, k, n, offset + 1, p.source_len);
        assert(d < p.display_len());
    }
}

/// A display offset in text that no span shows, the end of the display among
/// them, stands for a source offset that is shown there.
pub proof fn law_visible_display_comes_back(p: ProjectionView, offset: int)
    requires
        p.valid(),
        0 <= offset <= p.display_len(),
        forall|i: int|
            0 <= i < p.spans.len() ==> !(#[trigger] p.display_start(i) <= offset < p.display_end(
                i,
            )),
    ensures
        p.display_to_source(offset, Affinity::After) is Some,
        p.source_to_display(
            p.display_to_source(offset, Affinity::After)->0,
            Affinity::Before,
        ) == Some(offset),
        p.source_to_display(
            p.display_to_source(offset, Affinity::After)->0,
            Affinity::After,
        ) == Some(offset),
{
    let n = p.spans.len() as int;
    let k = p.span_showing(offset, false, 0);
    lemma_span_showing(p, offset, false, 0);
    let s = offset - growth(p.spans, k);
    if k < n {
        assert(!(p.display_start(k) <= offset < p.display_end(k)));
        assert(p.display_start(k) > offset);
        assert(s < p.spans[k].start);
    }
    assert forall|i: int| 0 <= i < k implies (#[trigger] p.spans[i]).end <= s by {
        assert(p.display_end(k - 1) <= offset);
        assert(p.spans[k - 1].end <= s);
        if i < k - 1 {
            assert(p.spans[i].end <= p.spans[k - 1].start);
        }
    }
    assert(0 <= s) by {
        if k > 0 {
            assert(p.spans[k - 1].end <= s);
        }
    }
    lemma_span_behind_is(p, s, k);
    if k == n && offset < p.display_len() {
        assert(s < p.source_len);
    }
}

} // verus!
