//! Regions: source ranges with an identity and a mutation policy.

use crate::document::position::shift_offset;
use crate::identity::{copy_id, lawful_eq, lawful_id, same_id};
use crate::order::{
    distinct_keys, lemma_sort_distinct, lemma_sort_members, lemma_stable_sort, rank_less,
    sort_stable, stable_sort, Ranked,
};
use crate::scan::{first_fault, lemma_first_fault};
use crate::text::at_boundary;
use std::ops::Range;
use vstd::prelude::*;

verus! {

/// Mutation policy for one source range.
#[derive(Clone, Copy, Debug, PartialEq, Eq, Structural, Hash)]
pub enum EditPolicy {
    Editable,
    Readonly,
    Routed,
    Atomic,
}

/// A domain-identified source range and its mutation policy.
#[derive(Debug, PartialEq, Eq)]
pub struct DocumentRegion<I> {
    pub(crate) id: I,
    pub(crate) range: Range<usize>,
    pub(crate) policy: EditPolicy,
}

impl<I> DocumentRegion<I> {
    pub open(crate) spec fn spec_id(self) -> I {
        self.id
    }

    pub open(crate) spec fn start(self) -> int {
        self.range.start as int
    }

    pub open(crate) spec fn end(self) -> int {
        self.range.end as int
    }

    pub open(crate) spec fn spec_policy(self) -> EditPolicy {
        self.policy
    }

    /// The region at another place.
    pub open(crate) spec fn at(self, start: int, end: int) -> DocumentRegion<I> {
        DocumentRegion {
            id: self.id,
            range: (start as usize)..(end as usize),
            policy: self.policy,
        }
    }

    pub fn new(id: I, range: Range<usize>, policy: EditPolicy) -> (region: Self)
        ensures
            region.spec_id() == id,
            region.start() == range.start,
            region.end() == range.end,
            region.spec_policy() == policy,
    {
        DocumentRegion { id, range, policy }
    }

    pub fn id(&self) -> (id: &I)
        ensures
            *id == self.spec_id(),
    {
        &self.id
    }

    pub fn range(&self) -> (range: Range<usize>)
        ensures
            range.start == self.start(),
            range.end == self.end(),
    {
        self.range.start..self.range.end
    }

    pub fn policy(&self) -> (policy: EditPolicy)
        ensures
            policy == self.spec_policy(),
    {
        self.policy
    }
}

impl<I: Clone> Clone for DocumentRegion<I> {
    fn clone(&self) -> (copy: Self)
        ensures
            cloned(self.spec_id(), copy.spec_id()),
            copy.start() == self.start(),
            copy.end() == self.end(),
            copy.spec_policy() == self.spec_policy(),
    {
        DocumentRegion {
            id: self.id.clone(),
            range: self.range.start..self.range.end,
            policy: self.policy,
        }
    }
}

impl<I> Ranked for DocumentRegion<I> {
    open(crate) spec fn rank(&self) -> (int, int) {
        (self.start(), self.end())
    }

    fn ranks_after(&self, other: &Self) -> (after: bool) {
        self.range.start > other.range.start || (self.range.start == other.range.start
            && self.range.end > other.range.end)
    }
}

/// Canonical ordered region collection for one source revision.
#[derive(Debug, PartialEq, Eq)]
pub struct DocumentRegions<I> {
    pub(crate) regions: Vec<DocumentRegion<I>>,
}

impl<I: Clone> Clone for DocumentRegions<I> {
    fn clone(&self) -> (copy: Self)
        ensures
            copy.items().len() == self.items().len(),
            forall|i: int|
                0 <= i < self.items().len() ==> {
                    &&& cloned(self.items()[i].spec_id(), (#[trigger] copy.items()[i]).spec_id())
                    &&& copy.items()[i].start() == self.items()[i].start()
                    &&& copy.items()[i].end() == self.items()[i].end()
                    &&& copy.items()[i].spec_policy() == self.items()[i].spec_policy()
                },
    {
        let mut regions: Vec<DocumentRegion<I>> = Vec::new();
        let mut i: usize = 0;
        while i < self.regions.len()
            invariant
                i <= self.regions.len(),
                regions.len() == i,
                forall|k: int|
                    0 <= k < i ==> {
                        &&& cloned(self.regions@[k].spec_id(), (#[trigger] regions@[k]).spec_id())
                        &&& regions@[k].start() == self.regions@[k].start()
                        &&& regions@[k].end() == self.regions@[k].end()
                        &&& regions@[k].spec_policy() == self.regions@[k].spec_policy()
                    },
            decreases self.regions.len() - i,
        {
            regions.push(self.regions[i].clone());
            i += 1;
        }
        DocumentRegions { regions }
    }
}

#[derive(Clone, Copy, Debug, PartialEq, Eq, Structural)]
pub enum RegionError {
    InvalidBoundary { index: usize },
    InvalidRange { index: usize },
    OutOfBounds { index: usize, source_len: usize },
    DuplicateId { index: usize },
    Overlap { left: usize, right: usize },
}

/// What is wrong with a region: its range, or that an earlier one has its
/// id.
pub open spec fn region_fault<I>(regions: Seq<DocumentRegion<I>>, source_len: usize) -> spec_fn(
    int,
) -> Option<RegionError> {
    |i: int|
        if regions[i].start() > regions[i].end() {
            Some(RegionError::InvalidRange { index: i as usize })
        } else if regions[i].end() > source_len {
            Some(RegionError::OutOfBounds { index: i as usize, source_len })
        } else if exists|j: int| 0 <= j < i && (#[trigger] regions[j]).spec_id()
            == regions[i].spec_id() {
            Some(RegionError::DuplicateId { index: i as usize })
        } else {
            None
        }
}

/// Whether a region reaches into the next one.
pub open spec fn region_overlap<I>(sorted: Seq<DocumentRegion<I>>) -> spec_fn(int) -> Option<
    RegionError,
> {
    |i: int|
        if sorted[i].end() > sorted[i + 1].start() {
            Some(RegionError::Overlap { left: i as usize, right: (i + 1) as usize })
        } else {
            None
        }
}

/// Why regions do not divide a source of `source_len` bytes: the first region
/// with a bad range or a repeated id, else the first that overlaps its
/// successor in source order.
pub open spec fn regions_fault<I>(regions: Seq<DocumentRegion<I>>, source_len: usize) -> Option<
    RegionError,
> {
    if first_fault(region_fault(regions, source_len), 0, regions.len() as int) is Some {
        first_fault(region_fault(regions, source_len), 0, regions.len() as int)
    } else {
        first_fault(region_overlap(stable_sort(regions)), 0, regions.len() - 1)
    }
}

/// Ordered regions that do not overlap, inside `len` bytes, each with an id of
/// its own.
pub open spec fn regions_valid<I>(regions: Seq<DocumentRegion<I>>, len: int) -> bool {
    &&& forall|i: int|
        0 <= i < regions.len() ==> (#[trigger] regions[i]).start() <= regions[i].end() <= len
    &&& forall|i: int, j: int|
        #![trigger regions[i], regions[j]]
        0 <= i < j < regions.len() ==> regions[i].end() <= regions[j].start()
            && regions[i].spec_id() != regions[j].spec_id()
}

/// Every region begins and ends between characters.
pub open spec fn regions_on_boundaries<I>(regions: Seq<DocumentRegion<I>>, bytes: Seq<u8>) -> bool {
    forall|i: int|
        0 <= i < regions.len() ==> at_boundary(bytes, (#[trigger] regions[i]).start())
            && at_boundary(bytes, regions[i].end())
}

/// The index of the region with an id.
pub open spec fn region_index_of<I>(regions: Seq<DocumentRegion<I>>, id: I) -> Option<int> {
    if exists|i: int| 0 <= i < regions.len() && (#[trigger] regions[i]).spec_id() == id {
        Some(choose|i: int| 0 <= i < regions.len() && (#[trigger] regions[i]).spec_id() == id)
    } else {
        None
    }
}

/// Among valid regions an id has one index.
pub proof fn lemma_region_index<I>(regions: Seq<DocumentRegion<I>>, len: int, i: int)
    requires
        regions_valid(regions, len),
        0 <= i < regions.len(),
    ensures
        region_index_of(regions, regions[i].spec_id()) == Some(i),
{
    let id = regions[i].spec_id();
    let k = choose|k: int| 0 <= k < regions.len() && (#[trigger] regions[k]).spec_id() == id;
    assert(0 <= k < regions.len() && regions[k].spec_id() == id);
    if k < i {
        assert(regions[k].spec_id() != regions[i].spec_id());
    } else if i < k {
        assert(regions[i].spec_id() != regions[k].spec_id());
    }
}

pub proof fn lemma_regions_valid<I>(regions: Seq<DocumentRegion<I>>, source_len: usize)
    requires
        regions_fault(regions, source_len) is None,
    ensures
        regions_valid(stable_sort(regions), source_len as int),
{
    let sorted = stable_sort(regions);
    let n = regions.len() as int;
    lemma_first_fault(region_fault(regions, source_len), 0, n);
    lemma_stable_sort(regions);
    lemma_sort_members(regions);
    lemma_first_fault(region_overlap(sorted), 0, n - 1);
    assert forall|i: int| 0 <= i < n implies (#[trigger] sorted[i]).start() <= sorted[i].end()
        <= source_len by {
        assert(sorted.contains(sorted[i]));
        assert(regions.contains(sorted[i]));
        let k = choose|k: int| 0 <= k < n && regions[k] == sorted[i];
        assert(region_fault(regions, source_len)(k) is None);
    }
    lemma_distinct_ids(regions, source_len);
    lemma_sort_distinct(regions, |r: DocumentRegion<I>| r.spec_id());
    assert forall|i: int, j: int|
        #![trigger sorted[i], sorted[j]]
        0 <= i < j < n implies sorted[i].end() <= sorted[j].start() && sorted[i].spec_id()
        != sorted[j].spec_id() by {
        assert(region_overlap(sorted)(i) is None);
        assert(sorted[i].end() <= sorted[i + 1].start());
        if i + 1 < j {
            assert(!rank_less(sorted[j].rank(), sorted[i + 1].rank()));
        }
        let key = |r: DocumentRegion<I>| r.spec_id();
        assert(key(sorted[i]) != key(sorted[j]));
    }
}

/// Regions in order that divide a source have no fault.
pub proof fn lemma_regions_faultless<I>(regions: Seq<DocumentRegion<I>>, source_len: usize)
    requires
        stable_sort(regions) == regions,
        regions_valid(regions, source_len as int),
    ensures
        regions_fault(regions, source_len) is None,
{
    let n = regions.len() as int;
    let fault = region_fault(regions, source_len);
    lemma_first_fault(fault, 0, n);
    lemma_first_fault(region_overlap(regions), 0, n - 1);
    assert forall|i: int| 0 <= i < n implies #[trigger] fault(i) is None by {
        assert(regions[i].start() <= regions[i].end());
    }
    assert forall|i: int| 0 <= i < n - 1 implies #[trigger] region_overlap(regions)(i) is None by {
        assert(regions[i].end() <= regions[i + 1].start());
    }
}

proof fn lemma_distinct_ids<I>(regions: Seq<DocumentRegion<I>>, source_len: usize)
    requires
        first_fault(region_fault(regions, source_len), 0, regions.len() as int) is None,
    ensures
        distinct_keys(regions, |r: DocumentRegion<I>| r.spec_id()),
{
    lemma_first_fault(region_fault(regions, source_len), 0, regions.len() as int);
    let key = |r: DocumentRegion<I>| r.spec_id();
    assert forall|i: int, j: int|
        #![trigger regions[i], regions[j]]
        0 <= i < j < regions.len() implies key(regions[i]) != key(regions[j]) by {
        assert(region_fault(regions, source_len)(j) is None);
    }
}

/// Regions, all moved by `delta`.
pub open spec fn shifted_regions<I>(regions: Seq<DocumentRegion<I>>, delta: int) -> Seq<
    DocumentRegion<I>,
> {
    regions.map_values(|r: DocumentRegion<I>| r.at(r.start() + delta, r.end() + delta))
}

/// Regions with those of `from..to` replaced by others that are moved to
/// `start`, and those behind moved by `delta`.
pub open spec fn spliced_regions<I>(
    regions: Seq<DocumentRegion<I>>,
    from: int,
    to: int,
    replacement: Seq<DocumentRegion<I>>,
    start: int,
    delta: int,
) -> Seq<DocumentRegion<I>> {
    regions.subrange(0, from) + shifted_regions(replacement, start) + shifted_regions(
        regions.subrange(to, regions.len() as int),
        delta,
    )
}

/// A region can be moved by `delta`.
pub open spec fn can_shift<I>(regions: Seq<DocumentRegion<I>>, delta: int) -> bool {
    forall|i: int|
        0 <= i < regions.len() ==> 0 <= (#[trigger] regions[i]).start() + delta <= usize::MAX && 0
            <= regions[i].end() + delta <= usize::MAX
}

pub(crate) fn shift_regions<I>(regions: &mut Vec<DocumentRegion<I>>, delta: isize)
    requires
        can_shift(old(regions)@, delta as int),
    ensures
        final(regions)@ == shifted_regions(old(regions)@, delta as int),
{
    let ghost before = regions@;
    let mut i: usize = 0;
    while i < regions.len()
        invariant
            i <= regions.len(),
            regions.len() == before.len(),
            can_shift(before, delta as int),
            forall|k: int|
                0 <= k < i ==> #[trigger] regions@[k] == shifted_regions(before, delta as int)[k],
            forall|k: int| i <= k < before.len() ==> #[trigger] regions@[k] == before[k],
        decreases regions.len() - i,
    {
        assert(regions@[i as int] == before[i as int]);
        let range = regions[i].range();
        regions[i].range = shift_offset(range.start, delta)..shift_offset(range.end, delta);
        i += 1;
    }
    assert(regions@ =~= shifted_regions(before, delta as int));
}

impl<I> DocumentRegions<I> {
    /// The regions in source order.
    pub open(crate) spec fn items(self) -> Seq<DocumentRegion<I>> {
        self.regions@
    }

    pub fn as_slice(&self) -> (regions: &[DocumentRegion<I>])
        ensures
            regions@ == self.items(),
    {
        self.regions.as_slice()
    }

    pub fn into_vec(self) -> (regions: Vec<DocumentRegion<I>>)
        ensures
            regions@ == self.items(),
    {
        self.regions
    }

    /// Replaces the regions of a range by others, and moves those behind.
    pub(crate) fn splice(
        &mut self,
        range: Range<usize>,
        replacement: Self,
        start: usize,
        delta: isize,
    )
        requires
            range.start <= range.end <= old(self).items().len(),
            start <= isize::MAX,
            can_shift(replacement.items(), start as int),
            can_shift(
                old(self).items().subrange(range.end as int, old(self).items().len() as int),
                delta as int,
            ),
        ensures
            final(self).items() == spliced_regions(
                old(self).items(),
                range.start as int,
                range.end as int,
                replacement.items(),
                start as int,
                delta as int,
            ),
    {
        let ghost before = self.regions@;
        let mut tail = self.regions.split_off(range.end);
        shift_regions(&mut tail, delta);
        self.regions.truncate(range.start);
        let mut middle = replacement.regions;
        shift_regions(&mut middle, start as isize);
        self.regions.append(&mut middle);
        self.regions.append(&mut tail);
        proof {
            assert(self.regions@ =~= spliced_regions(
                before,
                range.start as int,
                range.end as int,
                replacement.items(),
                start as int,
                delta as int,
            ));
        }
    }
}

impl<I: Eq> DocumentRegions<I> {
    pub fn new(regions: Vec<DocumentRegion<I>>, source_len: usize) -> (result: Result<
        Self,
        RegionError,
    >)
        requires
            lawful_eq::<I>(),
        ensures
            match result {
                Ok(ordered) => {
                    &&& regions_fault(regions@, source_len) is None
                    &&& ordered.items() == stable_sort(regions@)
                    &&& regions_valid(ordered.items(), source_len as int)
                },
                Err(error) => regions_fault(regions@, source_len) == Some(error),
            },
    {
        let ghost given = regions@;
        let mut index: usize = 0;
        while index < regions.len()
            invariant
                index <= regions.len(),
                regions@ == given,
                lawful_eq::<I>(),
                first_fault(region_fault(given, source_len), 0, given.len() as int) == first_fault(
                    region_fault(given, source_len),
                    index as int,
                    given.len() as int,
                ),
            decreases regions.len() - index,
        {
            let region = &regions[index];
            if region.range.start > region.range.end {
                return Err(RegionError::InvalidRange { index });
            }
            if region.range.end > source_len {
                return Err(RegionError::OutOfBounds { index, source_len });
            }
            let mut other: usize = 0;
            while other < index
                invariant
                    other <= index < regions.len(),
                    regions@ == given,
                    *region == given[index as int],
                    lawful_eq::<I>(),
                    region.start() <= region.end() <= source_len,
                    first_fault(region_fault(given, source_len), 0, given.len() as int)
                        == first_fault(
                        region_fault(given, source_len),
                        index as int,
                        given.len() as int,
                    ),
                    forall|j: int|
                        0 <= j < other ==> (#[trigger] given[j]).spec_id() != region.spec_id(),
                decreases index - other,
            {
                if same_id(&regions[other].id, &region.id) {
                    proof {
                        assert(given[other as int].spec_id() == given[index as int].spec_id());
                    }
                    return Err(RegionError::DuplicateId { index });
                }
                other += 1;
            }
            index += 1;
        }
        let mut sorted = regions;
        proof {
            lemma_stable_sort(given);
        }
        sort_stable(&mut sorted);
        let mut index: usize = 0;
        while sorted.len() - index > 1
            invariant
                sorted@ == stable_sort(given),
                sorted@.len() == given.len(),
                index <= sorted.len(),
                regions@ == given,
                first_fault(region_fault(given, source_len), 0, given.len() as int) is None,
                first_fault(region_overlap(sorted@), 0, given.len() - 1) == first_fault(
                    region_overlap(sorted@),
                    index as int,
                    given.len() - 1,
                ),
            decreases sorted.len() - index,
        {
            if sorted[index].range.end > sorted[index + 1].range.start {
                return Err(RegionError::Overlap { left: index, right: index + 1 });
            }
            index += 1;
        }
        proof {
            lemma_regions_valid(given, source_len);
        }
        Ok(DocumentRegions { regions: sorted })
    }
}

impl<I: Clone + Eq> DocumentRegions<I> {
    /// A copy of the regions.
    pub fn copy(&self) -> (copy: Self)
        requires
            lawful_id::<I>(),
        ensures
            copy.items() == self.items(),
    {
        let mut regions: Vec<DocumentRegion<I>> = Vec::new();
        let mut i: usize = 0;
        while i < self.regions.len()
            invariant
                lawful_id::<I>(),
                i <= self.regions.len(),
                regions@ == self.regions@.subrange(0, i as int),
            decreases self.regions.len() - i,
        {
            let region = &self.regions[i];
            regions.push(
                DocumentRegion {
                    id: copy_id(&region.id),
                    range: region.range(),
                    policy: region.policy,
                },
            );
            assert(regions@ =~= self.regions@.subrange(0, i + 1));
            i += 1;
        }
        assert(regions@ =~= self.regions@);
        DocumentRegions { regions }
    }
}

/// The index of the region with an id.
pub(crate) fn find_region<I: Eq>(regions: &[DocumentRegion<I>], id: &I, Ghost(len): Ghost<int>) -> (index:
    Option<usize>)
    requires
        lawful_eq::<I>(),
        regions_valid(regions@, len),
    ensures
        match index {
            Some(i) => region_index_of(regions@, *id) == Some(i as int) && i < regions@.len()
                && regions@[i as int].spec_id() == *id,
            None => region_index_of(regions@, *id) is None,
        },
{
    let mut i: usize = 0;
    while i < regions.len()
        invariant
            lawful_eq::<I>(),
            regions_valid(regions@, len),
            i <= regions@.len(),
            forall|k: int| 0 <= k < i ==> (#[trigger] regions@[k]).spec_id() != *id,
        decreases regions@.len() - i,
    {
        if same_id(&regions[i].id, id) {
            proof {
                lemma_region_index(regions@, len, i as int);
            }
            return Some(i);
        }
        i += 1;
    }
    None
}

/// Replacing whole regions keeps regions valid: `first` and `last` are where
/// the replaced regions start and the kept ones go on.
pub proof fn lemma_splice_valid<I>(
    regions: Seq<DocumentRegion<I>>,
    len: int,
    from: int,
    to: int,
    replacement: Seq<DocumentRegion<I>>,
    replacement_len: int,
)
    requires
        regions_valid(regions, len),
        regions_valid(replacement, replacement_len),
        0 <= from <= to <= regions.len(),
        0 <= replacement_len,
        0 <= len,
        len + replacement_len <= usize::MAX,
        forall|i: int, j: int|
            #![trigger regions[i], replacement[j]]
            (0 <= i < from || to <= i < regions.len()) && 0 <= j < replacement.len()
                ==> regions[i].spec_id() != replacement[j].spec_id(),
    ensures
        ({
            let first = region_start_at(regions, len, from);
            let last = region_start_at(regions, len, to);
            let delta = replacement_len - (last - first);
            &&& 0 <= first <= last <= len
            &&& can_shift(replacement, first)
            &&& can_shift(regions.subrange(to, regions.len() as int), delta)
            &&& regions_valid(
                spliced_regions(regions, from, to, replacement, first, delta),
                len + delta,
            )
        }),
{
    let n = regions.len() as int;
    let first = region_start_at(regions, len, from);
    let last = region_start_at(regions, len, to);
    let delta = replacement_len - (last - first);
    if from < n {
        assert(regions[from].start() <= regions[from].end() <= len);
    }
    if to < n {
        assert(regions[to].start() <= regions[to].end() <= len);
        if from < to {
            assert(regions[from].end() <= regions[to].start());
        }
    }
    let tail = regions.subrange(to, n);
    assert forall|i: int| 0 <= i < tail.len() implies last <= (#[trigger] tail[i]).start()
        <= tail[i].end() <= len by {
        assert(tail[i] == regions[to + i]);
        if i > 0 {
            assert(regions[to].end() <= regions[to + i].start());
        }
    }
    assert forall|i: int| 0 <= i < from implies (#[trigger] regions[i]).start()
        <= regions[i].end() <= first by {
        if from < n {
            assert(regions[i].end() <= regions[from].start());
        }
    }
    let out = spliced_regions(regions, from, to, replacement, first, delta);
    let m = replacement.len() as int;
    assert forall|i: int| 0 <= i < out.len() implies (#[trigger] out[i]).start() <= out[i].end()
        <= len + delta && (i < from ==> out[i].end() <= first) && (from <= i < from + m ==> first
        <= out[i].start() && out[i].end() <= first + replacement_len) && (from + m <= i ==> first
        + replacement_len <= out[i].start()) by {
        if i < from {
            assert(out[i] == regions[i]);
        } else if i < from + m {
            assert(out[i] == shifted_regions(replacement, first)[i - from]);
            assert(replacement[i - from].start() <= replacement[i - from].end()
                <= replacement_len);
        } else {
            assert(out[i] == shifted_regions(tail, delta)[i - from - m]);
            assert(tail[i - from - m].start() >= last);
        }
    }
    assert forall|i: int, j: int|
        #![trigger out[i], out[j]]
        0 <= i < j < out.len() implies out[i].end() <= out[j].start() && out[i].spec_id()
        != out[j].spec_id() by {
        if i < from {
            assert(out[i] == regions[i]);
        } else if i < from + m {
            assert(out[i] == shifted_regions(replacement, first)[i - from]);
            assert(out[i].spec_id() == replacement[i - from].spec_id());
        } else {
            assert(out[i] == shifted_regions(tail, delta)[i - from - m]);
            assert(out[i].spec_id() == tail[i - from - m].spec_id());
            assert(tail[i - from - m] == regions[to + (i - from - m)]);
        }
        if j < from {
            assert(out[j] == regions[j]);
        } else if j < from + m {
            assert(out[j] == shifted_regions(replacement, first)[j - from]);
            assert(out[j].spec_id() == replacement[j - from].spec_id());
        } else {
            assert(out[j] == shifted_regions(tail, delta)[j - from - m]);
            assert(out[j].spec_id() == tail[j - from - m].spec_id());
            assert(tail[j - from - m] == regions[to + (j - from - m)]);
        }
    }
}

/// Where the region at an index starts; behind the last one, the end of the
/// source.
pub open spec fn region_start_at<I>(regions: Seq<DocumentRegion<I>>, len: int, index: int) -> int {
    if 0 <= index < regions.len() {
        regions[index].start()
    } else {
        len
    }
}

} // verus!
