//! Where styles without text go when the text of a node is put back.

use crate::document::edit_laws::edits_of;
use crate::document::model_view::ModelView;
use crate::document::region::{DocumentRegion, EditPolicy};
use crate::document::replay_laws::{is_empty_in, presentable, put_back, restored, styles_put_back};
use crate::document::resolve::{
    ends_line, inline_sources, paragraph_fault, paragraph_sources, region_forbids, shown_range, starts_line,
    style_range_fault, style_ranges_fault,
};
use crate::document::transaction::TextEdit;
use crate::order::{lemma_sort_members, lemma_stable_sort, rank_less, stable_sort, Ranked};
use crate::scan::{first_fault, lemma_first_fault};
use crate::text::at_boundary;
use std::ops::Range;
use vstd::prelude::*;

verus! {

/// A range by itself has no fault.
spec fn range_fits<I>(range: Range<usize>, bytes: Seq<u8>, regions: Seq<DocumentRegion<I>>) -> bool {
    &&& range.start <= range.end <= bytes.len()
    &&& at_boundary(bytes, range.start as int)
    &&& at_boundary(bytes, range.end as int)
    &&& first_fault(region_forbids(range, regions), 0, regions.len() as int) is None
}

/// Two ranges share no byte, and none lies inside the other.
spec fn apart(a: Range<usize>, b: Range<usize>) -> bool {
    a.end <= b.start || b.end <= a.start
}

/// Two places of a sequence that hold a value.
proof fn lemma_two_places(s: Seq<Range<usize>>, v: Range<usize>)
    requires
        s.to_multiset().count(v) >= 2,
    ensures
        exists|i: int, j: int|
            0 <= i < s.len() && 0 <= j < s.len() && i != j && #[trigger] s[i] == v
                && #[trigger] s[j] == v,
{
    broadcast use vstd::seq_lib::group_to_multiset_ensures;

    assert(s.contains(v));
    let i = choose|i: int| 0 <= i < s.len() && s[i] == v;
    let rest = s.remove(i);
    assert(rest.to_multiset() =~= s.to_multiset().remove(v));
    assert(rest.to_multiset().count(v) > 0);
    assert(rest.contains(v));
    let k = choose|k: int| 0 <= k < rest.len() && rest[k] == v;
    let j = if k < i {
        k
    } else {
        k + 1
    };
    assert(s[i] == v && s[j] == v && i != j);
}

/// A value at two places counts twice.
proof fn lemma_counted_twice(s: Seq<Range<usize>>, i: int, j: int)
    requires
        0 <= i < s.len(),
        0 <= j < s.len(),
        i != j,
        s[i] == s[j],
    ensures
        s.to_multiset().count(s[i]) >= 2,
{
    broadcast use vstd::seq_lib::group_to_multiset_ensures;

    let v = s[i];
    let rest = s.remove(i);
    assert(rest.to_multiset() =~= s.to_multiset().remove(v));
    let k = if j < i {
        j
    } else {
        j - 1
    };
    assert(rest[k] == v);
    assert(rest.contains(v));
    assert(rest.to_multiset().count(v) > 0);
}

/// Ranges at two places are at two places after a sort.
proof fn lemma_sorted_places(s: Seq<Range<usize>>, t: Seq<Range<usize>>, i: int, j: int)
    requires
        s.to_multiset() == t.to_multiset(),
        0 <= i < s.len(),
        0 <= j < s.len(),
        i != j,
    ensures
        exists|a: int, b: int|
            0 <= a < t.len() && 0 <= b < t.len() && a != b && #[trigger] t[a] == s[i]
                && #[trigger] t[b] == s[j],
{
    broadcast use vstd::seq_lib::group_to_multiset_ensures;

    if s[i] == s[j] {
        lemma_counted_twice(s, i, j);
        lemma_two_places(t, s[i]);
    } else {
        assert(s.contains(s[i]) && s.contains(s[j]));
        assert(s.to_multiset().count(s[i]) > 0 && s.to_multiset().count(s[j]) > 0);
        assert(t.to_multiset().count(s[i]) > 0 && t.to_multiset().count(s[j]) > 0);
        assert(t.contains(s[i]) && t.contains(s[j]));
        let a = choose|a: int| 0 <= a < t.len() && t[a] == s[i];
        let b = choose|b: int| 0 <= b < t.len() && t[b] == s[j];
        assert(t[a] == s[i] && t[b] == s[j]);
    }
}

/// In sorted ranges without a fault, no two overlap.
proof fn lemma_sorted_apart<I>(
    sorted: Seq<Range<usize>>,
    bytes: Seq<u8>,
    regions: Seq<DocumentRegion<I>>,
    a: int,
    b: int,
)
    requires
        forall|k: int|
            0 <= k < sorted.len() ==> (#[trigger] style_range_fault(sorted, bytes, regions)(
                k,
            )) is None,
        0 <= a < b < sorted.len(),
    ensures
        sorted[a].end <= sorted[b].start,
    decreases b - a,
{
    assert(style_range_fault(sorted, bytes, regions)(b) is None);
    if a + 1 < b {
        lemma_sorted_apart(sorted, bytes, regions, a, b - 1);
        assert(style_range_fault(sorted, bytes, regions)(b - 1) is None);
    }
}

/// Style ranges have no fault exactly if each by itself has none and no two
/// overlap.
proof fn lemma_ranges_fit<I>(
    ranges: Seq<Range<usize>>,
    bytes: Seq<u8>,
    regions: Seq<DocumentRegion<I>>,
)
    ensures
        style_ranges_fault(ranges, bytes, regions) is None <==> {
            &&& forall|i: int|
                0 <= i < ranges.len() ==> range_fits(#[trigger] ranges[i], bytes, regions)
            &&& forall|i: int, j: int|
                #![trigger ranges[i], ranges[j]]
                0 <= i < ranges.len() && 0 <= j < ranges.len() && i != j ==> apart(
                    ranges[i],
                    ranges[j],
                )
        },
{
    let sorted = stable_sort(ranges);
    let fault = style_range_fault(sorted, bytes, regions);
    lemma_stable_sort(ranges);
    lemma_sort_members(ranges);
    lemma_first_fault(fault, 0, ranges.len() as int);
    if style_ranges_fault(ranges, bytes, regions) is None {
        assert forall|i: int| 0 <= i < ranges.len() implies range_fits(
            #[trigger] ranges[i],
            bytes,
            regions,
        ) by {
            assert(ranges.contains(ranges[i]));
            assert(sorted.contains(ranges[i]));
            let k = choose|k: int| 0 <= k < sorted.len() && sorted[k] == ranges[i];
            assert(fault(k) is None);
        }
        assert forall|i: int, j: int|
            #![trigger ranges[i], ranges[j]]
            0 <= i < ranges.len() && 0 <= j < ranges.len() && i != j implies apart(
            ranges[i],
            ranges[j],
        ) by {
            lemma_sorted_places(ranges, sorted, i, j);
            let (a, b) = choose|a: int, b: int|
                0 <= a < sorted.len() && 0 <= b < sorted.len() && a != b && #[trigger] sorted[a]
                    == ranges[i] && #[trigger] sorted[b] == ranges[j];
            if a < b {
                lemma_sorted_apart(sorted, bytes, regions, a, b);
            } else {
                lemma_sorted_apart(sorted, bytes, regions, b, a);
            }
        }
    } else if (forall|i: int|
        0 <= i < ranges.len() ==> range_fits(#[trigger] ranges[i], bytes, regions)) && (forall|
        i: int,
        j: int,
    |
        #![trigger ranges[i], ranges[j]]
        0 <= i < ranges.len() && 0 <= j < ranges.len() && i != j ==> apart(ranges[i], ranges[j])) {
        assert forall|k: int| 0 <= k < ranges.len() implies (#[trigger] fault(k)) is None by {
            assert(sorted.contains(sorted[k]));
            assert(ranges.contains(sorted[k]));
            let i = choose|i: int| 0 <= i < ranges.len() && ranges[i] == sorted[k];
            assert(range_fits(ranges[i], bytes, regions));
            if k > 0 {
                lemma_sorted_places(sorted, ranges, k - 1, k);
                let (a, b) = choose|a: int, b: int|
                    0 <= a < ranges.len() && 0 <= b < ranges.len() && a != b && #[trigger] ranges[a]
                        == sorted[k - 1] && #[trigger] ranges[b] == sorted[k];
                assert(apart(ranges[a], ranges[b]));
                assert(range_fits(ranges[a], bytes, regions));
                assert(!rank_less(sorted[k].rank(), sorted[k - 1].rank()));
            }
        }
    }
}

/// Ranges without a fault have none when those without text go from the start
/// of an editable region, or from inside, to its end.
proof fn lemma_ranges_put_back<I>(
    ranges: Seq<Range<usize>>,
    put: Seq<Range<usize>>,
    m: ModelView<I>,
    target: int,
)
    requires
        m.wf(),
        0 <= target < m.regions.len(),
        m.regions[target].spec_policy() == EditPolicy::Editable,
        style_ranges_fault(ranges, m.bytes, m.regions) is None,
        put.len() == ranges.len(),
        forall|i: int|
            0 <= i < put.len() ==> #[trigger] put[i] == put_back(
                ranges[i],
                m.regions[target].start(),
                m.regions[target].end(),
            ),
    ensures
        style_ranges_fault(put, m.bytes, m.regions) is None,
{
    let region = m.regions[target];
    let (start, end) = (region.start(), region.end());
    lemma_ranges_fit(ranges, m.bytes, m.regions);
    assert(start <= end <= m.bytes.len());
    assert(at_boundary(m.bytes, end));
    let moved = (end as usize)..(end as usize);
    let forbids = region_forbids(moved, m.regions);
    assert forall|r: int| 0 <= r < m.regions.len() implies (#[trigger] forbids(r)) is None by {
        if r < target {
            assert(m.regions[r].end() <= m.regions[target].start());
        } else if r > target {
            assert(m.regions[target].end() <= m.regions[r].start());
        }
    }
    lemma_first_fault(forbids, 0, m.regions.len() as int);
    assert forall|i: int| 0 <= i < ranges.len() implies {
        &&& range_fits(#[trigger] put[i], m.bytes, m.regions)
        &&& ranges[i].start < ranges[i].end ==> ranges[i].end <= start || end <= ranges[i].start
    } by {
        assert(range_fits(ranges[i], m.bytes, m.regions));
        let own = region_forbids(ranges[i], m.regions);
        lemma_first_fault(own, 0, m.regions.len() as int);
        assert(own(target) is None);
    }
    assert forall|i: int, j: int|
        #![trigger put[i], put[j]]
        0 <= i < put.len() && 0 <= j < put.len() && i != j implies apart(put[i], put[j]) by {
        assert(apart(ranges[i], ranges[j]));
        assert(range_fits(put[i], m.bytes, m.regions) && range_fits(put[j], m.bytes, m.regions));
    }
    lemma_ranges_fit(put, m.bytes, m.regions);
}

/// A line of the display begins and ends where a source offset is shown.
pub open(crate) spec fn is_line_edge<I>(m: ModelView<I>, offset: int) -> bool {
    let shown = shown_range(m.projection, (offset as usize)..(offset as usize));
    starts_line(m.display(), shown.start as int) && ends_line(m.display(), shown.end as int)
}

/// An edit of all the text of a node can be undone: styles without text that
/// lie at its start go to its end. There a paragraph style without text needs
/// a line edge, as everywhere.
pub proof fn law_whole_nodes_can_be_put_back<I>(m: ModelView<I>, target: int, edit: TextEdit)
    requires
        edits_of(m, target, seq![edit]),
        presentable(m),
        edit.start() == m.regions[target].start(),
        edit.end() == m.regions[target].end(),
        forall|i: int|
            0 <= i < m.styles.paragraphs.len() && is_empty_in(
                (#[trigger] m.styles.paragraphs[i]).spec_source(),
                edit.start(),
                edit.end(),
            ) ==> is_line_edge(m, edit.end()),
    ensures
        presentable(restored(m, edit.start(), edit.end())),
{
    let (start, end) = (edit.start(), edit.end());
    let styles = styles_put_back(m.styles, start, end);
    let back = restored(m, start, end);
    assert(m.regions[target].start() <= m.regions[target].end() <= m.bytes.len());
    lemma_ranges_put_back(
        paragraph_sources(m.styles.paragraphs),
        paragraph_sources(styles.paragraphs),
        m,
        target,
    );
    lemma_ranges_put_back(
        inline_sources(m.styles.inline),
        inline_sources(styles.inline),
        m,
        target,
    );
    let n = m.styles.paragraphs.len() as int;
    let before = paragraph_fault(m.styles.paragraphs, m.projection, m.display());
    let after = paragraph_fault(styles.paragraphs, m.projection, m.display());
    lemma_first_fault(before, 0, n);
    assert forall|i: int| 0 <= i < n implies (#[trigger] after(i)) is None by {
        assert(before(i) is None);
        let source = m.styles.paragraphs[i].spec_source();
        if is_empty_in(source, start, end) {
            assert(is_line_edge(m, end));
        } else {
            assert(styles.paragraphs[i].spec_source() == source);
        }
    }
    lemma_first_fault(after, 0, n);
    assert(back.display() == m.display());
}

} // verus!
