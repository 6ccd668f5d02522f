//! What holds of places in a document: anchors, ranges, positions and the
//! caret.

use crate::document::laws::{lemma_same_part, lemma_same_rest};
use crate::document::mapping::{
    entry_ends_by, entry_holds, entry_starts_from, lemma_growth_bound, mapped_to_display,
};
use crate::document::model_lemmas::lemma_carried;
use crate::document::model_view::{owner_of, region_at, ModelView};
use crate::document::position::{moved_offset, Affinity, AnchorBias};
use crate::document::projection::{
    entry_valid, lemma_span_behind, mapping_valid, ProjectionMapping, ProjectionView, SpanView,
};
use crate::document::projection_map::lemma_mapped_bound;
use crate::document::region::DocumentRegion;
use crate::document::transaction::{
    applicable, carried, edited, edits_fit, edits_inside, edits_on_boundaries,
    lemma_edited_before, lemma_edited_behind, net_growth, TextEdit,
};
use crate::scan::{first_where, last_where, lemma_first_where, lemma_last_where};
use crate::text::{
    at_boundary, lemma_ceil_boundary, lemma_floor_boundary, lemma_utf16_floor_is, starts_clean,
    utf16_offset, utf16_units,
};
use vstd::prelude::*;
use vstd::utf8::*;

verus! {

// ---------------------------------------------------------------------------
// Anchors and ranges under edits
// ---------------------------------------------------------------------------

/// Anchors keep their order under an edit. Two of one place may part, and
/// then the left one comes first.
pub proof fn law_anchors_keep_their_order(
    left: int,
    left_bias: AnchorBias,
    right: int,
    right_bias: AnchorBias,
    start: int,
    end: int,
    len: int,
)
    requires
        0 <= left <= right,
        left_bias == right_bias || left_bias == AnchorBias::Left,
        0 <= start <= end,
        0 <= len,
        start + len <= usize::MAX,
    ensures
        moved_offset(left, left_bias, start, end, len) <= moved_offset(
            right,
            right_bias,
            start,
            end,
            len,
        ),
{
}

/// An edit leaves an anchor before it alone, and moves one behind it by what
/// it adds.
pub proof fn law_anchors_outside_an_edit_follow_their_text(
    offset: int,
    bias: AnchorBias,
    start: int,
    end: int,
    len: int,
)
    requires
        0 <= start <= end,
        0 <= len,
        0 <= offset,
        offset + len <= usize::MAX,
    ensures
        offset < start ==> moved_offset(offset, bias, start, end, len) == offset,
        offset > end ==> moved_offset(offset, bias, start, end, len) == offset + len - (end
            - start),
{
}

/// Text inserted at an anchor goes behind a left anchor and before a right
/// one.
pub proof fn law_insertions_go_to_the_side_of_the_bias(offset: int, len: int)
    requires
        0 <= offset,
        0 <= len,
    ensures
        moved_offset(offset, AnchorBias::Left, offset, offset, len) == offset,
        moved_offset(offset, AnchorBias::Right, offset, offset, len) == offset + len,
{
}

/// A range that edits do not touch stands for the same source afterwards, also
/// where an edit is made right beside it.
pub proof fn law_ranges_beside_edits_keep_their_source(
    bytes: Seq<u8>,
    edits: Seq<TextEdit>,
    start: int,
    end: int,
    range: (int, int),
)
    requires
        starts_clean(bytes),
        applicable(edits),
        edits_on_boundaries(edits, bytes),
        0 <= start <= end <= bytes.len(),
        edits_inside(edits, start, end),
        edits_fit(bytes.len() as int, edits),
        0 <= range.0 < range.1 <= bytes.len(),
        range.1 <= start || end <= range.0,
    ensures
        edited(bytes, edits).subrange(carried(range, edits).0, carried(range, edits).1)
            == bytes.subrange(range.0, range.1),
{
    lemma_carried(range, edits, start, end, bytes.len() as int);
    let after = edited(bytes, edits);
    if range.1 <= start {
        lemma_edited_before(bytes, edits, start);
        lemma_same_part(after, bytes, start, range.0, range.1);
    } else {
        assert(edits_inside(edits, 0, end));
        lemma_edited_behind(bytes, edits, end);
        let growth = net_growth(edits);
        assert(after.subrange(end + growth, after.len() as int).len() == bytes.len() - end);
        lemma_same_rest(after, bytes, end + growth, end, range.0 - end, range.1 - end);
    }
}

// ---------------------------------------------------------------------------
// Positions
// ---------------------------------------------------------------------------

/// At an edge that two nodes share, affinity decides: the position before
/// belongs to the first node that reaches the offset, the position after to
/// the last.
pub proof fn law_affinity_decides_at_a_shared_edge<I>(
    regions: Seq<DocumentRegion<I>>,
    offset: int,
    r: int,
)
    requires
        0 <= r < regions.len(),
        regions[r].start() <= offset <= regions[r].end(),
    ensures
        ({
            let first = owner_of(regions, offset, Affinity::Before);
            let last = owner_of(regions, offset, Affinity::After);
            &&& 0 <= first <= r <= last < regions.len()
            &&& regions[first].start() <= offset <= regions[first].end()
            &&& regions[last].start() <= offset <= regions[last].end()
        }),
{
    lemma_first_where(regions, region_at(offset), 0);
    lemma_last_where(regions, region_at(offset), regions.len() as int);
    assert(region_at::<I>(offset)(regions[r]));
}

// ---------------------------------------------------------------------------
// The display
// ---------------------------------------------------------------------------

/// A source offset is shown inside what the display has for its place.
proof fn lemma_shown_inside(p: ProjectionView, offset: int, affinity: Affinity)
    requires
        p.valid(),
        0 <= offset < p.source_len,
    ensures
        ({
            let k = p.span_behind(offset);
            let d = p.place(offset, affinity);
            if k < p.spans.len() && p.spans[k].start <= offset {
                p.display_start(k) <= d <= p.display_end(k)
            } else {
                d == p.shown_at(offset)
            }
        }),
{
    let k = p.span_behind(offset);
    lemma_span_behind(p, offset);
    if k < p.spans.len() && p.spans[k].start <= offset {
        if p.spans[k].mapping is Some && !p.spans[k].unmapped() {
            lemma_mapped_bound(p.spans[k], offset, affinity);
        }
    }
}

/// The entries of a mapping show the replacement from its start to its end,
/// in the order of what they stand for.
proof fn lemma_entries_in_order(span: SpanView, i: int, j: int)
    requires
        mapping_valid(span),
        span.mapping is Some,
        0 <= i < j < span.mapping->0.len(),
    ensures
        span.mapping->0[i].spec_display().1 <= span.mapping->0[j].spec_display().0,
        span.mapping->0[i].spec_source().0 <= span.mapping->0[j].spec_source().0,
    decreases j - i,
{
    let entries = span.mapping->0;
    assert(entry_valid(entries, span, i));
    assert(entry_valid(entries, span, j));
    if i + 1 < j {
        lemma_entries_in_order(span, i, j - 1);
        assert(entry_valid(entries, span, j - 1));
    }
}

/// The first entry that holds an offset, or the number of entries.
spec fn entry_at(entries: Seq<ProjectionMapping>, offset: int, affinity: Affinity) -> int {
    first_where(entries, entry_holds(offset, affinity), 0)
}

/// A span shows two offsets in it as one piece: their place in the display
/// depends on the affinity alone.
pub open spec fn shown_as_one(span: SpanView, first: int, second: int) -> bool {
    match span.mapping {
        None => span.start < first && span.replacement.len() > 0,
        Some(entries) => {
            let hit = first_where(entries, entry_holds(first, Affinity::After), 0);
            &&& hit < entries.len()
            &&& entries[hit].spec_source().0 < first
            &&& second <= entries[hit].spec_source().1
            &&& entries[hit].spec_source().1 - entries[hit].spec_source().0
                != entries[hit].spec_display().1 - entries[hit].spec_display().0
        },
    }
}

/// What is known of where a mapping shows an offset: within an entry that
/// holds it, or in a gap between what lies before it and what lies behind.
proof fn lemma_mapped_place(span: SpanView, offset: int, affinity: Affinity)
    requires
        mapping_valid(span),
        span.mapping is Some,
        span.mapping->0.len() > 0,
    ensures
        ({
            let entries = span.mapping->0;
            let hit = entry_at(entries, offset, affinity);
            let d = mapped_to_display(entries, offset, affinity)->0;
            &&& mapped_to_display(entries, offset, affinity) is Some
            &&& 0 <= hit <= entries.len()
            &&& forall|k: int|
                0 <= k < hit ==> !(#[trigger] entry_holds(offset, affinity)(entries[k]))
            &&& hit < entries.len() ==> entry_holds(offset, affinity)(entries[hit])
                && entries[hit].spec_display().0 <= d <= entries[hit].spec_display().1
            &&& hit == entries.len() ==> forall|k: int|
                0 <= k < entries.len() ==> {
                    &&& (#[trigger] entries[k]).spec_source().1 <= offset ==> entries[k].spec_display().1
                        <= d
                    &&& entries[k].spec_source().0 >= offset ==> d <= entries[k].spec_display().0
                }
        }),
{
    let entries = span.mapping->0;
    let n = entries.len() as int;
    let holds = entry_holds(offset, affinity);
    let hit = entry_at(entries, offset, affinity);
    lemma_first_where(entries, holds, 0);
    if hit < n {
        assert(entry_valid(entries, span, hit));
    } else {
        let from = entry_starts_from(offset);
        let ends = entry_ends_by(offset);
        let next = first_where(entries, from, 0);
        let previous = last_where(entries, ends, n);
        lemma_first_where(entries, from, 0);
        lemma_last_where(entries, ends, n);
        let d = mapped_to_display(entries, offset, affinity)->0;
        assert forall|k: int| 0 <= k < n implies {
            &&& (#[trigger] entries[k]).spec_source().1 <= offset ==> entries[k].spec_display().1 <= d
            &&& entries[k].spec_source().0 >= offset ==> d <= entries[k].spec_display().0
        } by {
            assert(entry_valid(entries, span, k));
            assert(entry_valid(entries, span, 0));
            assert(entry_valid(entries, span, n - 1));
            assert(!holds(entries[k]));
            if affinity == Affinity::Before {
                if next < n {
                    assert(from(entries[next]));
                    assert(entry_valid(entries, span, next));
                    if k < next {
                        assert(!from(entries[k]));
                        lemma_entries_in_order(span, k, next);
                    } else if next < k {
                        lemma_entries_in_order(span, next, k);
                    }
                } else {
                    assert(!from(entries[k]));
                    if k < n - 1 {
                        lemma_entries_in_order(span, k, n - 1);
                    }
                }
            } else if previous >= 0 {
                assert(ends(entries[previous]));
                assert(entry_valid(entries, span, previous));
                if previous < k {
                    assert(!ends(entries[k]));
                    lemma_entries_in_order(span, previous, k);
                } else if k < previous {
                    lemma_entries_in_order(span, k, previous);
                }
            } else {
                assert(!ends(entries[k]));
                if 0 < k {
                    lemma_entries_in_order(span, 0, k);
                }
            }
        }
    }
}

/// A mapped span keeps the order of the offsets in it, but for what an entry
/// shows as one piece.
proof fn lemma_mapped_order(
    span: SpanView,
    first: int,
    first_affinity: Affinity,
    second: int,
    second_affinity: Affinity,
)
    requires
        mapping_valid(span),
        span.mapping is Some,
        span.mapping->0.len() > 0,
        first < second,
        first_affinity == Affinity::After && second_affinity == Affinity::Before
            ==> !shown_as_one(span, first, second),
    ensures
        mapped_to_display(span.mapping->0, first, first_affinity)->0 <= mapped_to_display(
            span.mapping->0,
            second,
            second_affinity,
        )->0,
{
    let entries = span.mapping->0;
    let n = entries.len() as int;
    let i = entry_at(entries, first, first_affinity);
    let j = entry_at(entries, second, second_affinity);
    lemma_mapped_place(span, first, first_affinity);
    lemma_mapped_place(span, second, second_affinity);
    if i < n {
        assert(entry_valid(entries, span, i));
    }
    if j < n {
        assert(entry_valid(entries, span, j));
        if i < n {
            if j < i {
                lemma_entries_in_order(span, j, i);
                assert(!entry_holds(first, first_affinity)(entries[j]));
            } else if i < j {
                lemma_entries_in_order(span, i, j);
            }
        } else {
            assert(!entry_holds(first, first_affinity)(entries[j]));
        }
    } else if i < n {
        assert(!entry_holds(second, second_affinity)(entries[i]));
    } else {
        lemma_gaps_in_order(span, first, first_affinity, second, second_affinity);
    }
}

/// Offsets that no entry holds keep their order.
proof fn lemma_gaps_in_order(
    span: SpanView,
    first: int,
    first_affinity: Affinity,
    second: int,
    second_affinity: Affinity,
)
    requires
        mapping_valid(span),
        span.mapping is Some,
        span.mapping->0.len() > 0,
        first < second,
        entry_at(span.mapping->0, first, first_affinity) == span.mapping->0.len(),
        entry_at(span.mapping->0, second, second_affinity) == span.mapping->0.len(),
    ensures
        mapped_to_display(span.mapping->0, first, first_affinity)->0 <= mapped_to_display(
            span.mapping->0,
            second,
            second_affinity,
        )->0,
{
    let entries = span.mapping->0;
    let n = entries.len() as int;
    let next = first_where(entries, entry_starts_from(second), 0);
    let previous = last_where(entries, entry_ends_by(second), n);
    lemma_first_where(entries, entry_starts_from(second), 0);
    lemma_last_where(entries, entry_ends_by(second), n);
    lemma_mapped_place(span, first, first_affinity);
    lemma_mapped_place(span, second, second_affinity);
    lemma_mapped_bound(span, first, first_affinity);
    lemma_mapped_bound(span, second, second_affinity);
    assert(entry_valid(entries, span, n - 1));
    assert(entry_valid(entries, span, 0));
    let low = first_where(entries, entry_starts_from(first), 0);
    let high = last_where(entries, entry_ends_by(first), n);
    lemma_first_where(entries, entry_starts_from(first), 0);
    lemma_last_where(entries, entry_ends_by(first), n);
    if second_affinity == Affinity::Before {
        if next < n {
            assert(entry_starts_from(second)(entries[next]));
            assert(entries[next].spec_source().0 >= first);
        }
    } else if first_affinity == Affinity::After {
        if high >= 0 {
            assert(entry_ends_by(first)(entries[high]));
            assert(entries[high].spec_source().1 <= second);
        }
    } else if low < n {
        assert(entry_starts_from(first)(entries[low]));
        assert(entry_valid(entries, span, low));
        if low > 0 {
            assert(!entry_starts_from(first)(entries[low - 1]));
            assert(!entry_holds(first, first_affinity)(entries[low - 1]));
            assert(entry_valid(entries, span, low - 1));
            assert(entries[low - 1].spec_source().1 <= second);
        }
    } else {
        assert(!entry_starts_from(first)(entries[n - 1]));
        assert(!entry_holds(first, first_affinity)(entries[n - 1]));
        assert(entries[n - 1].spec_source().1 <= second);
    }
}

/// Two source offsets that no one span covers are shown in order.
proof fn lemma_order_apart(
    p: ProjectionView,
    first: int,
    first_affinity: Affinity,
    second: int,
    second_affinity: Affinity,
)
    requires
        p.valid(),
        0 <= first < second <= p.source_len,
        forall|i: int|
            0 <= i < p.spans.len() ==> !((#[trigger] p.spans[i]).start <= first && second
                < p.spans[i].end),
    ensures
        p.place(first, first_affinity) <= p.place(second, second_affinity),
{
    let n = p.spans.len() as int;
    let i = p.span_behind(first);
    let j = p.span_behind(second);
    lemma_span_behind(p, first);
    lemma_span_behind(p, second);
    lemma_shown_inside(p, first, first_affinity);
    if j < i {
        assert(p.spans[j].end <= first);
    }
    let covered = i < n && p.spans[i].start <= first;
    // Where what stands for the first offset ends, in the source and in the
    // display.
    let from = if covered {
        i + 1
    } else {
        i
    };
    let source = if covered {
        p.spans[i].end
    } else {
        first
    };
    let to = if second == p.source_len {
        n
    } else {
        j
    };
    if covered {
        assert(second >= p.spans[i].end);
        if j == i {
            assert(p.spans[i].end <= second);
        }
    }
    if second < p.source_len {
        lemma_shown_inside(p, second, second_affinity);
    }
    let reached = if second < p.source_len && j < n && p.spans[j].start <= second {
        p.spans[j].start
    } else {
        second
    };
    assert(from <= to);
    assert(source <= reached) by {
        if reached < second {
            if covered {
                assert(p.spans[i].end <= p.spans[j].start);
            } else if p.spans[j].start < first {
                assert(i <= j);
                if i < j {
                    assert(p.spans[i].end <= p.spans[j].start);
                }
            }
        }
    }
    if from < to {
        if covered {
            assert(p.spans[i].end <= p.spans[i + 1].start);
        }
        assert(p.spans[to - 1].end <= reached) by {
            if reached < second {
                assert(p.spans[to - 1].end <= p.spans[to].start);
            }
        }
    }
    lemma_growth_bound(p, from, to, source, reached);
}

/// Every source offset is shown, but for those that a span without a single
/// mapping entry covers.
pub proof fn law_all_but_unmapped_source_is_shown(p: ProjectionView, offset: int, affinity: Affinity)
    requires
        p.valid(),
        0 <= offset <= p.source_len,
    ensures
        p.source_to_display(offset, affinity) is None <==> exists|i: int|
            0 <= i < p.spans.len() && (#[trigger] p.spans[i]).unmapped() && p.spans[i].start
                <= offset < p.spans[i].end,
{
    lemma_span_behind(p, offset);
    let k = p.span_behind(offset);
    assert forall|i: int|
        0 <= i < p.spans.len() && (#[trigger] p.spans[i]).unmapped() && p.spans[i].start <= offset
            < p.spans[i].end implies i == k && offset < p.source_len by {
        if i < k {
            assert(p.spans[i].end <= offset);
        } else if k < i {
            assert(p.spans[k].end <= p.spans[i].start);
        }
    }
    if k < p.spans.len() && p.spans[k].start <= offset {
        assert(p.spans[k].end <= p.source_len);
    }
}

/// The display keeps the order of the source: of two source offsets the first
/// stands first, or both at one place. Where a span shows both as one piece,
/// the first must not be asked for behind it and the second before it.
pub proof fn law_the_display_keeps_the_order(
    p: ProjectionView,
    first: int,
    first_affinity: Affinity,
    second: int,
    second_affinity: Affinity,
)
    requires
        p.valid(),
        0 <= first < second <= p.source_len,
        first_affinity == Affinity::After && second_affinity == Affinity::Before ==> forall|i: int|
            0 <= i < p.spans.len() && (#[trigger] p.spans[i]).start <= first && second
                < p.spans[i].end ==> !shown_as_one(p.spans[i], first, second),
    ensures
        p.place(first, first_affinity) <= p.place(second, second_affinity),
{
    let i = p.span_behind(first);
    let j = p.span_behind(second);
    lemma_span_behind(p, first);
    lemma_span_behind(p, second);
    if i < p.spans.len() && p.spans[i].start <= first && second < p.spans[i].end {
        if i < j {
            assert(p.spans[i].end <= second);
        } else if j < i {
            assert(p.spans[j].end <= first);
        }
        if p.spans[i].mapping is Some && !p.spans[i].unmapped() {
            lemma_mapped_order(p.spans[i], first, first_affinity, second, second_affinity);
        }
    } else {
        assert forall|k: int| 0 <= k < p.spans.len() implies !((#[trigger] p.spans[k]).start
            <= first && second < p.spans[k].end) by {
            if k < i {
                assert(p.spans[k].end <= first);
            } else if i < k {
                assert(p.spans[i].end <= p.spans[k].start);
            }
        }
        lemma_order_apart(p, first, first_affinity, second, second_affinity);
    }
}

// ---------------------------------------------------------------------------
// UTF-16
// ---------------------------------------------------------------------------

proof fn lemma_units_grow(bytes: Seq<u8>, i: int, j: int)
    requires
        0 <= i <= j <= bytes.len(),
    ensures
        utf16_units(bytes.subrange(0, i)) <= utf16_units(bytes.subrange(0, j)),
        i < j && !is_continuation_byte(bytes[i]) ==> utf16_units(bytes.subrange(0, i))
            < utf16_units(bytes.subrange(0, j)),
    decreases j - i,
{
    if i < j {
        let part = bytes.subrange(0, j);
        assert(part.drop_last() =~= bytes.subrange(0, j - 1));
        assert(part.last() == bytes[j - 1]);
        lemma_units_grow(bytes, i, j - 1);
    }
}

/// An offset between characters comes back from its UTF-16 offset.
pub proof fn law_utf16_offsets_come_back(bytes: Seq<u8>, offset: int)
    requires
        starts_clean(bytes),
        at_boundary(bytes, offset),
    ensures
        utf16_offset(bytes, utf16_units(bytes.subrange(0, offset)) as int) == offset,
{
    let units = utf16_units(bytes.subrange(0, offset)) as int;
    assert forall|i: int| offset < i && #[trigger] at_boundary(bytes, i) implies utf16_units(
        bytes.subrange(0, i),
    ) > units by {
        lemma_units_grow(bytes, offset, i);
    }
    lemma_utf16_floor_is(bytes, units, bytes.len() as int, offset);
}

// ---------------------------------------------------------------------------
// The caret
// ---------------------------------------------------------------------------

/// A step of the caret crosses one character, and the step back undoes it.
pub proof fn law_caret_steps_are_inverse<I>(m: ModelView<I>, offset: int)
    requires
        at_boundary(m.bytes, offset),
    ensures
        offset > 0 ==> m.before(offset) < offset && m.behind(m.before(offset)) == offset,
        offset < m.bytes.len() ==> m.behind(offset) > offset && m.before(m.behind(offset)) == offset,
{
    if offset > 0 {
        let before = m.before(offset);
        lemma_floor_boundary(m.bytes, offset - 1);
        lemma_ceil_boundary(m.bytes, before + 1);
        let back = m.behind(before);
        assert(at_boundary(m.bytes, back));
        if back < offset {
            assert(before < back <= offset - 1);
        }
        if back > offset {
            assert(before + 1 <= offset < back);
        }
    }
    if offset < m.bytes.len() {
        let behind = m.behind(offset);
        lemma_ceil_boundary(m.bytes, offset + 1);
        lemma_floor_boundary(m.bytes, behind - 1);
        let back = m.before(behind);
        assert(at_boundary(m.bytes, back));
        if back < offset {
            assert(back < offset <= behind - 1);
        }
        if back > offset {
            assert(offset + 1 <= back < behind);
        }
    }
}

} // verus!
