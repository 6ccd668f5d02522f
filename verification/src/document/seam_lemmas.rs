//! What a projection shows on both sides of a seam: an offset of the source
//! that no span reaches over.

use crate::document::mapping::{
    entry_ends_by, entry_holds, entry_shows, entry_starts_from, growth, lemma_growth_bound,
    lemma_outside, lemma_shown_order, lemma_span_showing, lemma_span_showing_is, lemma_spliced,
    plus, lemma_shift_none, lemma_splice_seams, splice_growth, splice_shape,
};
use crate::document::position::Affinity;
use crate::document::projection::{
    entry_valid, lemma_span_behind, lemma_span_behind_is, mapping_valid, shifted_mapping,
    ProjectionView, SpanView,
};
use crate::scan::{
    first_where, last_where, lemma_first_where, lemma_first_where_is, lemma_last_where,
};
use vstd::prelude::*;

verus! {

/// Every span shows its source somewhere.
pub open spec fn all_mapped(p: ProjectionView) -> bool {
    forall|i: int| 0 <= i < p.spans.len() ==> !(#[trigger] p.spans[i]).unmapped()
}

// ---------------------------------------------------------------------------
// One span
// ---------------------------------------------------------------------------

/// Some entry shows every offset of the replacement.
proof fn lemma_entry_shown(span: SpanView, local: int, k: int) -> (i: int)
    requires
        span.mapping is Some,
        mapping_valid(span),
        0 <= k < span.mapping->0.len(),
        0 <= local < span.mapping->0[k].spec_display().1,
    ensures
        0 <= i <= k,
        span.mapping->0[i].spec_display().0 <= local < span.mapping->0[i].spec_display().1,
    decreases k,
{
    let entries = span.mapping->0;
    assert(entry_valid(entries, span, k));
    if entries[k].spec_display().0 <= local {
        k
    } else {
        lemma_entry_shown(span, local, k - 1)
    }
}

/// What a span that maps something shows at a place of its replacement is its
/// source, and at the start of its replacement not the end of it.
proof fn lemma_to_source(span: SpanView, local: int, affinity: Affinity)
    requires
        mapping_valid(span),
        !span.unmapped(),
        span.start < span.end,
        0 <= local < span.replacement.len() || (local == 0 && span.replacement.len() == 0),
    ensures
        span.to_source(local, affinity) matches Some(x) && span.start <= x <= span.end,
        local == 0 && span.replacement.len() > 0 ==> span.to_source(local, affinity)->0 < span.end,
        span.replacement.len() == 0 && affinity == Affinity::Before ==> span.to_source(
            local,
            affinity,
        ) == Some(span.start),
{
    if let Some(entries) = span.mapping {
        let n = entries.len() as int;
        assert(entry_valid(entries, span, n - 1));
        let i = lemma_entry_shown(span, local, n - 1);
        let test = entry_shows(local, affinity);
        lemma_first_where(entries, test, 0);
        let hit = first_where(entries, test, 0);
        if hit > i {
            assert(!test(entries[i]));
        }
        assert(test(entries[hit]));
        assert(entry_valid(entries, span, hit));
        if local == 0 && hit > 0 {
            assert(entry_valid(entries, span, 0));
            assert(!test(entries[0]));
        }
    }
}

/// A span that is moved shows the same, at the place that it is moved to.
proof fn lemma_to_source_shifted(span: SpanView, delta: int, local: int, affinity: Affinity)
    requires
        mapping_valid(span),
        0 <= span.start < span.end,
        0 <= span.start + delta,
        span.end + delta <= usize::MAX,
    ensures
        span.shifted(delta).to_source(local, affinity) == plus(delta, span.to_source(
            local,
            affinity,
        )),
{
    if let Some(entries) = span.mapping {
        let moved = shifted_mapping(span.mapping, delta)->0;
        let test = entry_shows(local, affinity);
        lemma_first_where(entries, test, 0);
        let hit = first_where(entries, test, 0);
        assert forall|i: int| 0 <= i < entries.len() implies (#[trigger] moved[i]).spec_display()
            == entries[i].spec_display() && moved[i].spec_source().0 == entries[i].spec_source().0
            + delta && moved[i].spec_source().1 == entries[i].spec_source().1 + delta by {
            assert(entry_valid(entries, span, i));
        }
        assert forall|i: int| 0 <= i < hit implies !(#[trigger] test(moved[i])) by {
            assert(!test(entries[i]));
        }
        if hit < entries.len() {
            assert(test(entries[hit]));
            assert(test(moved[hit]));
        }
        lemma_first_where_is(moved, test, 0, hit);
    }
}

// ---------------------------------------------------------------------------
// Both sides of a seam
// ---------------------------------------------------------------------------

/// Where the spans on both sides of a seam are shown.
pub(crate) proof fn lemma_seam(p: ProjectionView, seam: int)
    requires
        p.valid(),
        p.outside(seam),
        0 <= seam <= p.source_len,
    ensures
        ({
            let k = p.span_behind(seam);
            &&& 0 <= k <= p.spans.len()
            &&& 0 <= p.shown_at(seam) <= p.display_len()
            &&& forall|i: int|
                0 <= i < k ==> (#[trigger] p.spans[i]).end <= seam && p.display_end(i)
                    <= p.shown_at(seam)
            &&& forall|i: int|
                k <= i < p.spans.len() ==> (#[trigger] p.spans[i]).start >= seam
                    && p.display_start(i) >= p.shown_at(seam)
        }),
{
    let k = p.span_behind(seam);
    let n = p.spans.len() as int;
    lemma_span_behind(p, seam);
    lemma_outside(p, seam);
    assert forall|i: int| 0 <= i < k implies (#[trigger] p.spans[i]).end <= seam && p.display_end(i)
        <= p.shown_at(seam) by {
        if i + 1 < k {
            assert(p.spans[i].end <= p.spans[i + 1].start);
        }
        lemma_growth_bound(p, i + 1, k, p.spans[i].end, seam);
    }
    assert forall|i: int| k <= i < n implies (#[trigger] p.spans[i]).start >= seam
        && p.display_start(i) >= p.shown_at(seam) by {
        assert(!p.spans[k].inside(seam));
        if k < i {
            assert(p.spans[k].end <= p.spans[i].start);
            assert(p.spans[i - 1].end <= p.spans[i].start);
        }
        lemma_growth_bound(p, k, i, seam, p.spans[i].start);
    }
    if k < n {
        assert(!p.spans[k].inside(seam));
        assert(p.spans[n - 1].end <= p.source_len);
    }
    lemma_growth_bound(p, k, n, seam, p.source_len);
    if k > 0 {
        assert(0 <= p.spans[0].start);
    }
    lemma_growth_bound(p, 0, k, 0, seam);
}

/// The span that is shown at a place, or the first behind it.
proof fn lemma_shown_span(p: ProjectionView, d: int, empty: bool)
    requires
        p.valid(),
        0 <= d < p.display_len(),
    ensures
        ({
            let k = p.span_showing(d, empty, 0);
            &&& 0 <= k <= p.spans.len()
            &&& forall|i: int|
                0 <= i < k ==> #[trigger] p.display_end(i) <= d && !(empty && p.display_end(i) == d
                    && p.spans[i].replacement.len() == 0)
            &&& k < p.spans.len() ==> p.display_end(k) > d || (empty && p.display_end(k) == d
                && p.spans[k].replacement.len() == 0)
        }),
{
    lemma_span_showing(p, d, empty, 0);
}

/// What is shown behind a seam stands for source behind it.
pub(crate) proof fn lemma_shown_behind(p: ProjectionView, seam: int, d: int)
    requires
        p.valid(),
        all_mapped(p),
        p.outside(seam),
        0 <= seam <= p.source_len,
        p.shown_at(seam) <= d <= p.display_len(),
    ensures
        p.display_to_source(d, Affinity::After) matches Some(x) && seam <= x <= p.source_len,
{
    lemma_seam(p, seam);
    if d < p.display_len() {
        let k = p.span_showing(d, false, 0);
        let at = p.span_behind(seam);
        lemma_shown_span(p, d, false);
        if k < at {
            assert(p.spans[k].end <= seam);
        }
        let n = p.spans.len() as int;
        if k < n && p.display_start(k) <= d {
            assert(p.spans[k].start < p.spans[k].end <= p.source_len);
            assert(!p.spans[k].unmapped());
            lemma_to_source(p.spans[k], d - p.display_start(k), Affinity::After);
        } else {
            if k > at {
                assert(p.display_end(k - 1) <= d);
                assert(p.spans[k - 1].start >= seam);
                assert(p.spans[k - 1].start < p.spans[k - 1].end);
            }
            lemma_plain(p, k, d);
        }
    }
}

/// Source that is shown as it is lies between the spans around it.
proof fn lemma_plain(p: ProjectionView, k: int, d: int)
    requires
        p.valid(),
        0 <= k <= p.spans.len(),
        0 <= d < p.display_len(),
        k < p.spans.len() ==> d < p.display_start(k),
    ensures
        k < p.spans.len() ==> d - growth(p.spans, k) < p.spans[k].start,
        k == p.spans.len() ==> d - growth(p.spans, k) < p.source_len,
        d - growth(p.spans, k) <= p.source_len,
        k > 0 && p.display_end(k - 1) <= d ==> d - growth(p.spans, k) >= p.spans[k - 1].end,
{
    if k < p.spans.len() {
        assert(p.spans[k].start < p.spans[k].end <= p.source_len);
    }
}

/// What is shown before a seam stands for source before it, or at it where a
/// span ends there.
pub(crate) proof fn lemma_shown_before(p: ProjectionView, seam: int, d: int, affinity: Affinity)
    requires
        p.valid(),
        all_mapped(p),
        p.outside(seam),
        0 <= seam <= p.source_len,
        0 <= d < p.shown_at(seam),
    ensures
        p.display_to_source(d, affinity) matches Some(x) && 0 <= x <= seam,
        p.span_showing(d, affinity == Affinity::Before, 0) <= p.span_behind(seam),
        p.span_showing(d, affinity == Affinity::Before, 0) == p.span_behind(seam)
            ==> p.span_behind(seam) == p.spans.len() || p.display_start(p.span_behind(seam)) > d,
{
    lemma_seam(p, seam);
    let empty = affinity == Affinity::Before;
    let k = p.span_showing(d, empty, 0);
    let at = p.span_behind(seam);
    let n = p.spans.len() as int;
    lemma_shown_span(p, d, empty);
    if k > at {
        assert(p.display_end(at) <= d);
        assert(p.spans[at].start >= seam);
        assert(p.display_start(at) <= p.display_end(at));
    }
    if k < n && p.display_start(k) <= d {
        if k == at {
            assert(p.spans[at].start >= seam);
        }
        assert(p.spans[k].end <= seam);
        assert(0 <= p.spans[k].start < p.spans[k].end);
        assert(!p.spans[k].unmapped());
        lemma_to_source(p.spans[k], d - p.display_start(k), affinity);
    } else {
        lemma_plain(p, k, d);
        if k < at {
            assert(p.spans[k].end <= seam);
            assert(p.spans[k].start < p.spans[k].end);
        }
        if k > 0 {
            assert(p.display_end(k - 1) <= d);
            assert(0 <= p.spans[k - 1].start < p.spans[k - 1].end);
        }
    }
}

/// Where another seam comes before, what is shown there stands for source
/// before the second.
pub(crate) proof fn lemma_shown_at_seam(p: ProjectionView, first: int, second: int)
    requires
        p.valid(),
        all_mapped(p),
        p.outside(first),
        p.outside(second),
        0 <= first <= second <= p.source_len,
        p.shown_at(first) < p.shown_at(second),
    ensures
        p.display_to_source(p.shown_at(first), Affinity::After) matches Some(x) && first <= x
            < second,
{
    let d = p.shown_at(first);
    lemma_seam(p, first);
    lemma_seam(p, second);
    lemma_shown_behind(p, first, d);
    lemma_shown_before(p, second, d, Affinity::After);
    let k = p.span_showing(d, false, 0);
    lemma_shown_span(p, d, false);
    let n = p.spans.len() as int;
    let at = p.span_behind(second);
    if k < n && p.display_start(k) <= d {
        if k < p.span_behind(first) {
            assert(p.spans[k].end <= first);
        }
        assert(p.spans[k].start >= first);
        assert(p.display_start(k) == d);
        if k >= at {
            assert(p.spans[k].start >= second);
        }
        assert(p.spans[k].end <= second);
        assert(p.spans[k].start < p.spans[k].end);
        assert(!p.spans[k].unmapped());
        lemma_to_source(p.spans[k], 0, Affinity::After);
    } else {
        lemma_plain(p, k, d);
        if k < at {
            assert(p.spans[k].end <= second);
            assert(p.spans[k].start < p.spans[k].end);
        }
    }
}

/// At a seam a position before is no further on in the source than one behind.
pub(crate) proof fn lemma_before_after(p: ProjectionView, seam: int)
    requires
        p.valid(),
        all_mapped(p),
        p.outside(seam),
        0 <= seam <= p.source_len,
    ensures
        p.display_to_source(p.shown_at(seam), Affinity::Before) matches Some(x)
            && p.display_to_source(p.shown_at(seam), Affinity::After) matches Some(y) && x <= y,
{
    let d = p.shown_at(seam);
    lemma_seam(p, seam);
    if d < p.display_len() {
        let j = p.span_showing(d, true, 0);
        let k = p.span_showing(d, false, 0);
        let at = p.span_behind(seam);
        let n = p.spans.len() as int;
        lemma_shown_span(p, d, true);
        lemma_shown_span(p, d, false);
        lemma_shown_behind(p, seam, d);
        if j > k {
            assert(p.display_end(k) <= d);
        }
        if j < k {
            // A span without text at the seam.
            assert(p.display_end(j) == d && p.spans[j].replacement.len() == 0);
            assert(p.spans[j].start < p.spans[j].end <= p.source_len);
            assert(!p.spans[j].unmapped());
            lemma_to_source(p.spans[j], 0, Affinity::Before);
            assert(p.display_to_source(d, Affinity::Before) == Some(p.spans[j].start));
            if j >= at {
                let x = p.spans[j].start;
                assert forall|i: int| 0 <= i < p.spans.len() implies !(
                #[trigger] p.spans[i]).inside(x) by {
                    if i < j {
                        assert(p.spans[i].end <= p.spans[j].start);
                    } else if i > j {
                        assert(p.spans[j].end <= p.spans[i].start);
                    }
                }
                assert forall|i: int| 0 <= i < j implies (#[trigger] p.spans[i]).end <= x by {
                    assert(p.spans[i].end <= p.spans[j].start);
                }
                lemma_span_behind_is(p, x, j);
                assert(p.shown_at(x) == d);
                lemma_shown_behind(p, x, d);
            } else {
                assert(p.spans[j].end <= seam);
            }
        } else if k < n && p.display_start(k) <= d {
            if k < at {
                assert(p.spans[k].end <= seam);
            }
            assert(p.spans[k].start >= seam);
            assert(p.spans[k].start < p.spans[k].end);
            assert(!p.spans[k].unmapped());
            lemma_first_shown(p.spans[k]);
        } else {
            lemma_plain(p, k, d);
        }
    }
}

/// The start of a replacement stands for one place.
proof fn lemma_first_shown(span: SpanView)
    requires
        mapping_valid(span),
        !span.unmapped(),
        span.replacement.len() > 0,
    ensures
        span.to_source(0, Affinity::Before) == span.to_source(0, Affinity::After),
        span.to_source(0, Affinity::Before) is Some,
{
    if let Some(entries) = span.mapping {
        assert(entry_valid(entries, span, 0));
        assert(entry_shows(0, Affinity::Before)(entries[0]));
        assert(entry_shows(0, Affinity::After)(entries[0]));
        lemma_first_where_is(entries, entry_shows(0, Affinity::Before), 0, 0);
        lemma_first_where_is(entries, entry_shows(0, Affinity::After), 0, 0);
    }
}

/// In a span a position before an offset is shown no further on than one
/// behind it.
proof fn lemma_sides_in_span(span: SpanView, x: int)
    requires
        mapping_valid(span),
        !span.unmapped(),
        span.start <= x < span.end,
    ensures
        span.to_display(x, Affinity::Before) matches Some(a) && span.to_display(
            x,
            Affinity::After,
        ) matches Some(b) && a <= b,
{
    if let Some(entries) = span.mapping {
        let n = entries.len() as int;
        let before = entry_holds(x, Affinity::Before);
        let after = entry_holds(x, Affinity::After);
        lemma_first_where(entries, before, 0);
        lemma_first_where(entries, after, 0);
        let i = first_where(entries, before, 0);
        let j = first_where(entries, after, 0);
        if j < n {
            assert(after(entries[j]));
            assert(before(entries[j]));
            if j < i {
                assert(!before(entries[j]));
            }
            assert(entry_valid(entries, span, i));
            assert(entry_valid(entries, span, j));
            if i < j {
                lemma_entries_apart(span, i, j);
            }
        } else {
            let ends = entry_ends_by(x);
            let starts = entry_starts_from(x);
            lemma_last_where(entries, ends, n);
            lemma_first_where(entries, starts, 0);
            let previous = last_where(entries, ends, n);
            let next = first_where(entries, starts, 0);
            if i < n {
                assert(before(entries[i]));
                assert(!after(entries[i]));
                assert(ends(entries[i]));
                assert(entry_valid(entries, span, i));
                if previous > i {
                    lemma_entries_apart(span, i, previous);
                    assert(entry_valid(entries, span, previous));
                }
            } else {
                assert forall|k: int| 0 <= k < n implies (#[trigger] entries[k]).spec_source().1 < x
                    || entries[k].spec_source().0 > x by {
                    assert(!before(entries[k]));
                }
                if next < n {
                    assert(starts(entries[next]));
                    assert(entry_valid(entries, span, next));
                    if next > 0 {
                        assert(!starts(entries[next - 1]));
                        assert(entries[next - 1].spec_source().1 < x);
                        assert(ends(entries[next - 1]));
                        assert(previous >= next - 1);
                        assert(entry_valid(entries, span, previous));
                        if previous > next - 1 {
                            lemma_entries_apart(span, next - 1, previous);
                        }
                    }
                } else {
                    assert(!starts(entries[n - 1]));
                    assert(entries[n - 1].spec_source().1 < x);
                    assert(ends(entries[n - 1]));
                    assert(previous == n - 1);
                }
            }
        }
    }
}

/// An entry is shown before a later one.
proof fn lemma_entries_apart(span: SpanView, i: int, j: int)
    requires
        span.mapping is Some,
        mapping_valid(span),
        0 <= i < j < span.mapping->0.len(),
    ensures
        span.mapping->0[i].spec_display().1 <= span.mapping->0[j].spec_display().0,
    decreases j - i,
{
    let entries = span.mapping->0;
    assert(entry_valid(entries, span, j));
    if i < j - 1 {
        lemma_entries_apart(span, i, j - 1);
        assert(entry_valid(entries, span, j - 1));
    }
}

/// A position before an offset stands no further on than one behind it.
pub(crate) proof fn lemma_sides(p: ProjectionView, x: int)
    requires
        p.valid(),
        all_mapped(p),
        0 <= x <= p.source_len,
    ensures
        p.place(x, Affinity::Before) <= p.place(x, Affinity::After),
{
    let k = p.span_behind(x);
    lemma_span_behind(p, x);
    if x < p.source_len && k < p.spans.len() && p.spans[k].start <= x {
        assert(!p.spans[k].unmapped());
        lemma_sides_in_span(p.spans[k], x);
    }
}

// ---------------------------------------------------------------------------
// A part of the source replaced
// ---------------------------------------------------------------------------

/// A part of one projection that can take the place of a part of another.
pub open spec fn seams_of(p: ProjectionView, first: int, last: int, r: ProjectionView) -> bool {
    &&& p.valid()
    &&& r.valid()
    &&& all_mapped(p)
    &&& all_mapped(r)
    &&& 0 <= first <= last <= p.source_len
    &&& p.outside(first)
    &&& p.outside(last)
    &&& p.source_len + r.source_len <= usize::MAX
}

/// The display before a replaced part stands for the source that it stood for.
pub(crate) proof fn lemma_source_before(
    p: ProjectionView,
    first: int,
    last: int,
    r: ProjectionView,
    q: ProjectionView,
    d: int,
    affinity: Affinity,
)
    requires
        seams_of(p, first, last, r),
        is_spliced(p, first, last, r, q),
        0 <= d < p.shown_at(first),
    ensures
        q.display_to_source(d, affinity) == p.display_to_source(d, affinity),
{
    reveal(is_spliced);
    lemma_spliced(p, first, last, r);
    lemma_spliced_seams(p, first, last, r);
    lemma_seam(p, first);
    lemma_seam(q, first);
    reveal(splice_shape);
    reveal(splice_growth);
    let empty = affinity == Affinity::Before;
    let k = p.span_showing(d, empty, 0);
    let at = p.span_behind(first);
    lemma_shown_before(p, first, d, affinity);
    lemma_shown_span(p, d, empty);
    assert forall|i: int| 0 <= i < k implies #[trigger] q.display_end(i) <= d && !(empty
        && q.display_end(i) == d && q.spans[i].replacement.len() == 0) by {
        assert(q.spans[i] == p.spans[i]);
        assert(p.display_end(i) <= d);
        assert(growth(q.spans, i) == growth(p.spans, i));
    }
    if k < at {
        assert(q.spans[k] == p.spans[k]);
        assert(growth(q.spans, k) == growth(p.spans, k));
    } else {
        assert(k == at);
        assert(growth(q.spans, at) == growth(p.spans, at));
        if k < q.spans.len() {
            assert(q.spans[k].start >= first);
            assert(q.display_start(k) >= q.shown_at(first));
            assert(q.display_end(k) > d);
        }
    }
    lemma_span_showing_is(q, d, empty, 0, k);
}

/// The seams of a replaced part are seams of the result, shown where they were.
pub(crate) proof fn lemma_spliced_seams(p: ProjectionView, first: int, last: int, r: ProjectionView)
    requires
        seams_of(p, first, last, r),
    ensures
        ({
            let q = p.spliced(first, last, r);
            &&& q.valid()
            &&& all_mapped(q)
            &&& q.outside(first)
            &&& q.outside(first + r.source_len)
            &&& q.source_len == p.source_len - (last - first) + r.source_len
            &&& q.span_behind(first) == p.span_behind(first)
            &&& q.span_behind(first + r.source_len) == p.span_behind(first) + r.spans.len()
            &&& q.shown_at(first) == p.shown_at(first)
            &&& q.shown_at(first + r.source_len) == p.shown_at(first) + r.display_len()
            &&& q.display_len() == p.shown_at(first) + r.display_len() + (p.display_len()
                - p.shown_at(last))
        }),
{
    let q = p.spliced(first, last, r);
    lemma_spliced(p, first, last, r);
    lemma_splice_seams(p, first, last, r);
    let m = r.spans.len() as int;
    let from = p.span_behind(first);
    assert(growth(q.spans, from) == growth(p.spans, from) && growth(q.spans, from + m) == growth(
        p.spans,
        from,
    ) + growth(r.spans, m) && q.display_len() == p.shown_at(first) + r.display_len() + (
    p.display_len() - p.shown_at(last))) by {
        reveal(splice_growth);
        reveal(splice_shape);
    }
    assert forall|i: int| 0 <= i < q.spans.len() implies !(#[trigger] q.spans[i]).unmapped() by {
        reveal(splice_shape);
        let to = p.span_behind(last);
        if i < from {
            assert(!p.spans[i].unmapped());
        } else if i < from + m {
            assert(!r.spans[i - from].unmapped());
            assert(q.spans[i] == r.spans[i - from].shifted(first));
        } else {
            assert(!p.spans[to + (i - from - m)].unmapped());
            assert(q.spans[i] == p.spans[to + (i - from - m)].shifted(r.source_len - (last
                - first)));
        }
    }
}

/// One projection with a part of it replaced by another.
#[verifier::opaque]
pub open spec fn is_spliced(
    p: ProjectionView,
    first: int,
    last: int,
    r: ProjectionView,
    q: ProjectionView,
) -> bool {
    q == p.spliced(first, last, r)
}

/// The seams of a replaced part in the result, and the spans around them.
pub(crate) proof fn lemma_result(
    p: ProjectionView,
    first: int,
    last: int,
    r: ProjectionView,
    q: ProjectionView,
)
    requires
        seams_of(p, first, last, r),
        is_spliced(p, first, last, r, q),
    ensures
        q.valid(),
        all_mapped(q),
        q.outside(first),
        q.outside(first + r.source_len),
        q.source_len == p.source_len - (last - first) + r.source_len,
        q.span_behind(first) == p.span_behind(first),
        q.span_behind(first + r.source_len) == p.span_behind(first) + r.spans.len(),
        q.shown_at(first) == p.shown_at(first),
        q.shown_at(first + r.source_len) == p.shown_at(first) + r.display_len(),
        q.display_len() == p.shown_at(first) + r.display_len() + (p.display_len() - p.shown_at(
            last,
        )),
        q.spans.len() == p.span_behind(first) + r.spans.len() + (p.spans.len() - p.span_behind(
            last,
        )),
        spans_moved(
            r,
            q,
            0,
            r.spans.len() as int,
            p.span_behind(first),
            first,
            p.shown_at(first),
        ),
        spans_moved(
            p,
            q,
            p.span_behind(last),
            p.spans.len() as int,
            p.span_behind(first) + r.spans.len() - p.span_behind(last),
            r.source_len - (last - first),
            p.shown_at(first) + r.display_len() - p.shown_at(last),
        ),
        spans_moved(p, q, 0, p.span_behind(first), 0, 0, 0),
        0 <= p.shown_at(first) <= p.shown_at(last) <= p.display_len(),
        0 <= r.display_len(),
{
    reveal(is_spliced);
    lemma_spliced_seams(p, first, last, r);
    lemma_spans_moved(p, first, last, r);
    lemma_seam(p, last);
    lemma_seam(p, first);
    lemma_shown_order(p, first, last);
    lemma_growth_ends(r);
}

proof fn lemma_growth_ends(r: ProjectionView)
    requires
        r.valid(),
    ensures
        0 <= r.display_len(),
{
    let n = r.spans.len() as int;
    if n > 0 {
        assert(0 <= r.spans[0].start);
        assert(r.spans[n - 1].end <= r.source_len);
    }
    lemma_growth_bound(r, 0, n, 0, r.source_len);
}

/// The spans `lo..hi` of one projection are spans of another, `k` further on,
/// with their source and their display moved.
#[verifier::opaque]
pub open spec fn spans_moved(
    r: ProjectionView,
    q: ProjectionView,
    lo: int,
    hi: int,
    k: int,
    delta: int,
    grown: int,
) -> bool {
    &&& 0 <= lo <= hi <= r.spans.len()
    &&& 0 <= lo + k
    &&& hi + k <= q.spans.len()
    &&& forall|i: int|
        lo <= i <= hi ==> #[trigger] growth(q.spans, i + k) == growth(r.spans, i) + grown - delta
    &&& forall|i: int|
        lo <= i < hi ==> (#[trigger] q.spans[i + k]) == r.spans[i].shifted(delta)
            && q.spans[i + k].start == r.spans[i].start + delta && q.spans[i + k].end
            == r.spans[i].end + delta
}

/// One of the moved spans.
proof fn lemma_moved_span(
    r: ProjectionView,
    q: ProjectionView,
    lo: int,
    hi: int,
    k: int,
    delta: int,
    grown: int,
    i: int,
)
    requires
        spans_moved(r, q, lo, hi, k, delta, grown),
        r.valid(),
        q.valid(),
        q.source_len <= usize::MAX,
        lo <= i <= hi,
    ensures
        0 <= lo <= hi <= r.spans.len(),
        0 <= lo + k,
        hi + k <= q.spans.len(),
        growth(q.spans, i + k) == growth(r.spans, i) + grown - delta,
        i < hi ==> {
            &&& q.spans[i + k].start == r.spans[i].start + delta
            &&& q.spans[i + k].end == r.spans[i].end + delta
            &&& q.spans[i + k].replacement == r.spans[i].replacement
            &&& q.display_start(i + k) == r.display_start(i) + grown
            &&& q.display_end(i + k) == r.display_end(i) + grown
            &&& 0 <= r.spans[i].start < r.spans[i].end <= r.source_len
            &&& forall|local: int, affinity: Affinity|
                (#[trigger] q.spans[i + k].to_source(local, affinity)) == plus(
                    delta,
                    r.spans[i].to_source(local, affinity),
                )
        },
{
    reveal(spans_moved);
    assert(growth(q.spans, i + k) == growth(r.spans, i) + grown - delta);
    if i < hi {
        let span = r.spans[i];
        assert(q.spans[i + k] == span.shifted(delta));
        assert(0 <= span.start < span.end <= r.source_len);
        assert(mapping_valid(span));
        assert(0 <= q.spans[i + k].start < q.spans[i + k].end <= q.source_len);
        assert forall|local: int, affinity: Affinity|
            (#[trigger] q.spans[i + k].to_source(local, affinity)) == plus(
                delta,
                r.spans[i].to_source(local, affinity),
            ) by {
            lemma_to_source_shifted(span, delta, local, affinity);
        }
    }
}

/// What is shown among spans that are moved is moved with them.
proof fn lemma_source_moved(
    r: ProjectionView,
    q: ProjectionView,
    lo: int,
    hi: int,
    k: int,
    delta: int,
    grown: int,
    d: int,
    affinity: Affinity,
)
    requires
        spans_moved(r, q, lo, hi, k, delta, grown),
        r.valid(),
        q.valid(),
        q.source_len <= usize::MAX,
        0 <= d < r.display_len(),
        0 <= d + grown < q.display_len(),
        lo <= r.span_showing(d, affinity == Affinity::Before, 0) <= hi,
        r.span_showing(d, affinity == Affinity::Before, 0) == hi ==> {
            &&& hi < r.spans.len() ==> r.display_start(hi) > d
            &&& hi + k < q.spans.len() ==> q.display_start(hi + k) > d + grown
        },
        forall|i: int|
            0 <= i < lo + k ==> #[trigger] q.display_end(i) <= d + grown && !(affinity
                == Affinity::Before && q.display_end(i) == d + grown
                && q.spans[i].replacement.len() == 0),
    ensures
        q.display_to_source(d + grown, affinity) == plus(delta, r.display_to_source(d, affinity)),
{
    let empty = affinity == Affinity::Before;
    let at = r.span_showing(d, empty, 0);
    lemma_shown_span(r, d, empty);
    lemma_moved_span(r, q, lo, hi, k, delta, grown, at);
    assert forall|i: int| 0 <= i < at + k implies #[trigger] q.display_end(i) <= d + grown && !(empty
        && q.display_end(i) == d + grown && q.spans[i].replacement.len() == 0) by {
        if i >= lo + k {
            lemma_moved_span(r, q, lo, hi, k, delta, grown, i - k);
            assert(r.display_end(i - k) <= d);
        }
    }
    if at + k < q.spans.len() && at == hi {
        assert(q.display_end(at + k) >= q.display_start(at + k));
    }
    lemma_span_showing_is(q, d + grown, empty, 0, at + k);
}

/// An offset among spans that are moved is shown where they are moved to.
proof fn lemma_place_moved(
    r: ProjectionView,
    q: ProjectionView,
    lo: int,
    hi: int,
    k: int,
    delta: int,
    grown: int,
    x: int,
)
    requires
        spans_moved(r, q, lo, hi, k, delta, grown),
        r.valid(),
        q.valid(),
        q.source_len <= usize::MAX,
        0 <= x <= r.source_len,
        r.outside(x),
        lo <= r.span_behind(x) <= hi,
        forall|i: int| 0 <= i < lo + k ==> (#[trigger] q.spans[i]).end <= x + delta,
        forall|i: int| hi + k <= i < q.spans.len() ==> (#[trigger] q.spans[i]).start >= x + delta,
    ensures
        q.outside(x + delta),
        q.shown_at(x + delta) == r.shown_at(x) + grown,
{
    let at = r.span_behind(x);
    lemma_seam(r, x);
    lemma_moved_span(r, q, lo, hi, k, delta, grown, at);
    assert forall|i: int| 0 <= i < at + k implies (#[trigger] q.spans[i]).end <= x + delta by {
        if i >= lo + k {
            lemma_moved_span(r, q, lo, hi, k, delta, grown, i - k);
            assert(r.spans[i - k].end <= x);
        }
    }
    assert forall|i: int| 0 <= i < q.spans.len() implies !(#[trigger] q.spans[i]).inside(
        x + delta,
    ) by {
        if lo + k <= i < hi + k {
            lemma_moved_span(r, q, lo, hi, k, delta, grown, i - k);
            assert(!r.spans[i - k].inside(x));
        }
    }
    if at + k < q.spans.len() {
        assert(q.spans[at + k].start < q.spans[at + k].end);
        if at < hi {
            assert(r.spans[at].start >= x);
        }
    }
    lemma_span_behind_is(q, x + delta, at + k);
}

/// The spans of a replaced part, and those behind it, in the result.
proof fn lemma_spans_moved(p: ProjectionView, first: int, last: int, r: ProjectionView)
    requires
        seams_of(p, first, last, r),
    ensures
        ({
            let q = p.spliced(first, last, r);
            let from = p.span_behind(first);
            let to = p.span_behind(last);
            let m = r.spans.len() as int;
            &&& spans_moved(r, q, 0, m, from, first, p.shown_at(first))
            &&& spans_moved(
                p,
                q,
                to,
                p.spans.len() as int,
                from + m - to,
                r.source_len - (last - first),
                p.shown_at(first) + r.display_len() - p.shown_at(last),
            )
            &&& spans_moved(p, q, 0, from, 0, 0, 0)
            &&& q.spans.len() == from + m + (p.spans.len() - to)
        }),
{
    lemma_spliced(p, first, last, r);
    reveal(splice_shape);
    reveal(splice_growth);
    reveal(spans_moved);
    let q = p.spliced(first, last, r);
    let from = p.span_behind(first);
    let to = p.span_behind(last);
    let m = r.spans.len() as int;
    let n = p.spans.len() as int;
    let shift = from + m - to;
    assert forall|i: int| 0 <= i <= m implies #[trigger] growth(q.spans, i + from) == growth(
        r.spans,
        i,
    ) + p.shown_at(first) - first by {
        assert(growth(q.spans, i + from) == growth(p.spans, from) + growth(
            r.spans,
            (i + from) - from,
        ));
    }
    assert forall|i: int| to <= i <= n implies #[trigger] growth(q.spans, i + shift) == growth(
        p.spans,
        i,
    ) + p.shown_at(first) + r.display_len() - p.shown_at(last) - (r.source_len - (last - first)) by {
        assert(growth(q.spans, i + shift) == growth(p.spans, from) + growth(r.spans, m) + growth(
            p.spans,
            to + ((i + shift) - from - m),
        ) - growth(p.spans, to));
    }
    assert forall|i: int| 0 <= i < from implies (#[trigger] q.spans[i + 0]) == p.spans[i].shifted(0)
        by {
        assert(q.spans[i] == p.spans[i]);
        assert(0 <= p.spans[i].start < p.spans[i].end <= p.source_len);
        assert(mapping_valid(p.spans[i]));
        lemma_shift_none(p.spans[i]);
    }
    assert forall|i: int| 0 <= i <= from implies #[trigger] growth(q.spans, i + 0) == growth(
        p.spans,
        i,
    ) + 0 - 0 by {
        assert(growth(q.spans, i) == growth(p.spans, i));
    }
}

/// The display of a replaced part stands for its source. At its start a
/// position before belongs to the source before it, and at its end one behind
/// to the source behind it.
pub(crate) proof fn lemma_source_within(
    p: ProjectionView,
    first: int,
    last: int,
    r: ProjectionView,
    q: ProjectionView,
    d: int,
    affinity: Affinity,
)
    requires
        seams_of(p, first, last, r),
        is_spliced(p, first, last, r, q),
        0 <= d < r.display_len(),
        d > 0 || affinity == Affinity::After,
    ensures
        q.display_to_source(p.shown_at(first) + d, affinity) == plus(
            first,
            r.display_to_source(d, affinity),
        ),
{
    lemma_result(p, first, last, r, q);
    lemma_seam(p, last);
    lemma_inner_source(
        r,
        q,
        p.span_behind(first),
        first,
        p.shown_at(first),
        d,
        affinity,
    );
}

proof fn lemma_inner_source(
    r: ProjectionView,
    q: ProjectionView,
    from: int,
    first: int,
    start: int,
    d: int,
    affinity: Affinity,
)
    requires
        r.valid(),
        q.valid(),
        q.source_len <= usize::MAX,
        spans_moved(r, q, 0, r.spans.len() as int, from, first, start),
        q.outside(first),
        q.outside(first + r.source_len),
        0 <= first,
        first + r.source_len <= q.source_len,
        q.span_behind(first) == from,
        q.span_behind(first + r.source_len) == from + r.spans.len(),
        q.shown_at(first) == start,
        q.shown_at(first + r.source_len) == start + r.display_len(),
        0 <= d < r.display_len(),
        d > 0 || affinity == Affinity::After,
    ensures
        q.display_to_source(start + d, affinity) == plus(first, r.display_to_source(d, affinity)),
{
    let m = r.spans.len() as int;
    lemma_seam(q, first);
    lemma_seam(q, first + r.source_len);
    lemma_shown_span(r, d, affinity == Affinity::Before);
    assert forall|i: int| 0 <= i < from implies #[trigger] q.display_end(i) <= d + start && !(
    affinity == Affinity::Before && q.display_end(i) == d + start
        && q.spans[i].replacement.len() == 0) by {
        assert(q.spans[i].end <= first);
    }
    if from + m < q.spans.len() {
        assert(q.spans[from + m].start >= first + r.source_len);
    }
    lemma_source_moved(r, q, 0, m, from, first, start, d, affinity);
}

/// The display behind a replaced part stands for its source. At the seam a
/// position before belongs to the source before it.
pub(crate) proof fn lemma_source_behind(
    p: ProjectionView,
    first: int,
    last: int,
    r: ProjectionView,
    q: ProjectionView,
    d: int,
    affinity: Affinity,
)
    requires
        seams_of(p, first, last, r),
        is_spliced(p, first, last, r, q),
        p.shown_at(last) <= d <= p.display_len(),
        d > p.shown_at(last) || affinity == Affinity::After,
    ensures
        q.display_to_source(
            d - p.shown_at(last) + p.shown_at(first) + r.display_len(),
            affinity,
        ) == plus(r.source_len - (last - first), p.display_to_source(d, affinity)),
{
    let delta = r.source_len - (last - first);
    let grown = p.shown_at(first) + r.display_len() - p.shown_at(last);
    lemma_result(p, first, last, r, q);
    lemma_seam(p, last);
    lemma_seam(p, first);
    if d < p.display_len() {
        lemma_outer_source(
            p,
            q,
            last,
            p.span_behind(first) + r.spans.len() - p.span_behind(last),
            delta,
            grown,
            d,
            affinity,
        );
    }
}

proof fn lemma_outer_source(
    p: ProjectionView,
    q: ProjectionView,
    last: int,
    shift: int,
    delta: int,
    grown: int,
    d: int,
    affinity: Affinity,
)
    requires
        p.valid(),
        q.valid(),
        q.source_len <= usize::MAX,
        p.outside(last),
        0 <= last <= p.source_len,
        spans_moved(p, q, p.span_behind(last), p.spans.len() as int, shift, delta, grown),
        q.spans.len() == p.spans.len() + shift,
        q.outside(last + delta),
        0 <= last + delta <= q.source_len,
        q.span_behind(last + delta) == p.span_behind(last) + shift,
        q.shown_at(last + delta) == p.shown_at(last) + grown,
        q.display_len() == p.display_len() + grown,
        p.shown_at(last) <= d < p.display_len(),
        d > p.shown_at(last) || affinity == Affinity::After,
    ensures
        q.display_to_source(d + grown, affinity) == plus(delta, p.display_to_source(d, affinity)),
{
    let to = p.span_behind(last);
    let empty = affinity == Affinity::Before;
    lemma_seam(p, last);
    lemma_seam(q, last + delta);
    lemma_shown_span(p, d, empty);
    let k = p.span_showing(d, empty, 0);
    if k < to {
        assert(p.spans[k].end <= last);
    }
    assert forall|i: int| 0 <= i < to + shift implies #[trigger] q.display_end(i) <= d + grown && !(
    affinity == Affinity::Before && q.display_end(i) == d + grown
        && q.spans[i].replacement.len() == 0) by {
        assert(q.spans[i].end <= last + delta);
    }
    lemma_source_moved(
        p,
        q,
        to,
        p.spans.len() as int,
        shift,
        delta,
        grown,
        d,
        affinity,
    );
}

/// Where an offset before a replaced part is shown.
pub(crate) proof fn lemma_place_before(
    p: ProjectionView,
    first: int,
    last: int,
    r: ProjectionView,
    q: ProjectionView,
    x: int,
)
    requires
        seams_of(p, first, last, r),
        is_spliced(p, first, last, r, q),
        0 <= x <= first,
        p.outside(x),
    ensures
        q.outside(x),
        q.shown_at(x) == p.shown_at(x),
{
    let from = p.span_behind(first);
    lemma_result(p, first, last, r, q);
    lemma_seam(p, x);
    lemma_seam(p, first);
    lemma_seam(q, first);
    if p.span_behind(x) > from {
        assert(p.spans[from].end <= x);
        assert(p.spans[from].start >= first);
        assert(p.spans[from].start < p.spans[from].end);
    }
    lemma_place_moved(p, q, 0, from, 0, 0, 0, x);
}

/// Where an offset in a replaced part is shown.
pub(crate) proof fn lemma_place_within(
    p: ProjectionView,
    first: int,
    last: int,
    r: ProjectionView,
    q: ProjectionView,
    x: int,
)
    requires
        seams_of(p, first, last, r),
        is_spliced(p, first, last, r, q),
        0 <= x <= r.source_len,
        r.outside(x),
    ensures
        q.outside(first + x),
        q.shown_at(first + x) == p.shown_at(first) + r.shown_at(x),
{
    lemma_result(p, first, last, r, q);
    lemma_seam(r, x);
    lemma_seam(q, first);
    lemma_seam(q, first + r.source_len);
    let from = p.span_behind(first);
    let m = r.spans.len() as int;
    lemma_place_moved(r, q, 0, m, from, first, p.shown_at(first), x);
}

/// Where an offset behind a replaced part is shown.
pub(crate) proof fn lemma_place_behind(
    p: ProjectionView,
    first: int,
    last: int,
    r: ProjectionView,
    q: ProjectionView,
    x: int,
)
    requires
        seams_of(p, first, last, r),
        is_spliced(p, first, last, r, q),
        last <= x <= p.source_len,
        p.outside(x),
    ensures
        q.outside(x + r.source_len - (last - first)),
        q.shown_at(x + r.source_len - (last - first)) == p.shown_at(x) + p.shown_at(first)
            + r.display_len() - p.shown_at(last),
{
    lemma_result(p, first, last, r, q);
    lemma_seam(p, x);
    lemma_seam(p, last);
    lemma_seam(q, first + r.source_len);
    let to = p.span_behind(last);
    let k = p.span_behind(x);
    if k < to {
        assert(p.spans[k].end <= last);
        assert(p.spans[k].start >= x);
        assert(p.spans[k].start < p.spans[k].end);
    }
    lemma_place_moved(
        p,
        q,
        to,
        p.spans.len() as int,
        p.span_behind(first) + r.spans.len() - to,
        r.source_len - (last - first),
        p.shown_at(first) + r.display_len() - p.shown_at(last),
        x,
    );
}

} // verus!
