//! Runtime anchors: offsets that follow edits.

use crate::document::position::{
    moved_offset, transform_offset, Affinity, AnchorBias, DocumentAnchor,
};
use crate::identity::{copy_id, lawful_id};
use std::ops::Range;
use vstd::prelude::*;

verus! {

/// What is known of an anchor.
#[derive(Debug, PartialEq, Eq)]
pub struct AnchorRecord<I> {
    pub(crate) offset: usize,
    pub(crate) bias: AnchorBias,
    pub(crate) node_id: Option<I>,
    pub(crate) affinity: Affinity,
}

impl<I> AnchorRecord<I> {
    pub open(crate) spec fn spec_offset(self) -> int {
        self.offset as int
    }

    pub open(crate) spec fn spec_bias(self) -> AnchorBias {
        self.bias
    }

    pub open(crate) spec fn spec_node_id(self) -> Option<I> {
        self.node_id
    }

    pub open(crate) spec fn spec_affinity(self) -> Affinity {
        self.affinity
    }

    /// A record of these parts.
    pub open(crate) spec fn of(
        offset: int,
        bias: AnchorBias,
        node_id: Option<I>,
        affinity: Affinity,
    ) -> AnchorRecord<I> {
        AnchorRecord { offset: offset as usize, bias, node_id, affinity }
    }

    /// The record after the bytes of `start..end` were replaced by `len`
    /// others.
    pub open spec fn moved(self, start: int, end: int, len: int) -> AnchorRecord<I> {
        AnchorRecord::of(
            moved_offset(self.spec_offset(), self.spec_bias(), start, end, len),
            self.spec_bias(),
            self.spec_node_id(),
            self.spec_affinity(),
        )
    }
}

#[derive(Debug)]
pub(crate) struct AnchorEntry<I> {
    pub(crate) anchor: DocumentAnchor,
    pub(crate) record: AnchorRecord<I>,
}

/// The live anchors of a document.
#[derive(Debug)]
pub struct AnchorStore<I> {
    pub(crate) next_id: u64,
    pub(crate) entries: Vec<AnchorEntry<I>>,
}

/// Where the entry of an anchor stands.
pub(crate) open(crate) spec fn entry_index<I>(
    entries: Seq<AnchorEntry<I>>,
    anchor: DocumentAnchor,
) -> int {
    choose|i: int| 0 <= i < entries.len() && (#[trigger] entries[i]).anchor == anchor
}

pub(crate) open(crate) spec fn has_entry<I>(
    entries: Seq<AnchorEntry<I>>,
    anchor: DocumentAnchor,
) -> bool {
    exists|i: int| 0 <= i < entries.len() && (#[trigger] entries[i]).anchor == anchor
}

/// The records of entries.
pub(crate) open(crate) spec fn entry_map<I>(entries: Seq<AnchorEntry<I>>) -> Map<
    DocumentAnchor,
    AnchorRecord<I>,
> {
    Map::new(
        |a: DocumentAnchor| has_entry(entries, a),
        |a: DocumentAnchor| entries[entry_index(entries, a)].record,
    )
}

/// No anchor has two entries.
pub(crate) open(crate) spec fn entries_distinct<I>(entries: Seq<AnchorEntry<I>>) -> bool {
    forall|i: int, j: int|
        #![trigger entries[i], entries[j]]
        0 <= i < j < entries.len() ==> entries[i].anchor != entries[j].anchor
}

proof fn lemma_entry<I>(entries: Seq<AnchorEntry<I>>, i: int)
    requires
        entries_distinct(entries),
        0 <= i < entries.len(),
    ensures
        has_entry(entries, entries[i].anchor),
        entry_index(entries, entries[i].anchor) == i,
        entry_map(entries).dom().contains(entries[i].anchor),
        entry_map(entries)[entries[i].anchor] == entries[i].record,
{
    let a = entries[i].anchor;
    let k = entry_index(entries, a);
    assert(has_entry(entries, a));
    assert(0 <= k < entries.len() && entries[k].anchor == a);
    if k < i {
        assert(entries[k].anchor != entries[i].anchor);
    } else if i < k {
        assert(entries[i].anchor != entries[k].anchor);
    }
}

impl<I> AnchorStore<I> {
    /// The records of the live anchors.
    pub open(crate) spec fn records(self) -> Map<DocumentAnchor, AnchorRecord<I>> {
        entry_map(self.entries@)
    }

    /// The number of the next anchor.
    pub open(crate) spec fn spec_next_id(self) -> u64 {
        self.next_id
    }

    pub open(crate) spec fn wf(self) -> bool {
        entries_distinct(self.entries@)
    }

    /// A store without anchors.
    pub fn new() -> (store: Self)
        ensures
            store.wf(),
            store.spec_next_id() == 0,
            store.records() == Map::<DocumentAnchor, AnchorRecord<I>>::empty(),
    {
        let store = AnchorStore { next_id: 0, entries: Vec::new() };
        assert(store.records() =~= Map::<DocumentAnchor, AnchorRecord<I>>::empty());
        store
    }

    /// Makes an anchor.
    pub fn create_for_node(
        &mut self,
        offset: usize,
        bias: AnchorBias,
        node_id: Option<I>,
        affinity: Affinity,
    ) -> (anchor: DocumentAnchor)
        requires
            old(self).wf(),
        ensures
            final(self).wf(),
            anchor.spec_id() == old(self).spec_next_id(),
            final(self).spec_next_id() == (if old(self).spec_next_id() == u64::MAX {
                u64::MAX
            } else {
                (old(self).spec_next_id() + 1) as u64
            }),
            final(self).records() == old(self).records().insert(
                anchor,
                AnchorRecord::of(offset as int, bias, node_id, affinity),
            ),
    {
        let ghost before = self.entries@;
        let anchor = DocumentAnchor(self.next_id);
        if self.next_id < u64::MAX {
            self.next_id = self.next_id + 1;
        }
        self.remove(anchor);
        let ghost kept = self.entries@;
        let record = AnchorRecord { offset, bias, node_id, affinity };
        self.entries.push(AnchorEntry { anchor, record });
        proof {
            let after = self.entries@;
            assert forall|i: int| 0 <= i < kept.len() implies (#[trigger] kept[i]).anchor
                != anchor by {
                lemma_entry(kept, i);
            }
            assert(entries_distinct(after));
            assert forall|a: DocumentAnchor| #[trigger] has_entry(after, a) <==> (a == anchor
                || has_entry(kept, a)) by {
                if has_entry(kept, a) {
                    let i = entry_index(kept, a);
                    assert(after[i].anchor == a);
                }
                if a == anchor {
                    assert(after[kept.len() as int].anchor == a);
                }
                if has_entry(after, a) && a != anchor {
                    let i = entry_index(after, a);
                    assert(kept[i].anchor == a);
                }
            }
            assert forall|a: DocumentAnchor| has_entry(after, a) implies #[trigger] entry_map(
                after,
            )[a] == (if a == anchor {
                record
            } else {
                entry_map(kept)[a]
            }) by {
                let i = entry_index(after, a);
                lemma_entry(after, i);
                if a != anchor {
                    assert(kept[i].anchor == a);
                    lemma_entry(kept, i);
                } else {
                    assert(i == kept.len()) by {
                        if i < kept.len() {
                            assert(kept[i].anchor != anchor);
                        }
                    }
                }
            }
            assert(entry_map(kept) == entry_map(before).remove(anchor));
            let target = entry_map(before).insert(anchor, record);
            assert forall|a: DocumentAnchor| #[trigger] entry_map(after).dom().contains(a)
                <==> target.dom().contains(a) by {
                assert(has_entry(after, a) <==> (a == anchor || has_entry(kept, a)));
                assert(entry_map(kept).dom().contains(a) <==> has_entry(kept, a));
            }
            assert forall|a: DocumentAnchor| #[trigger] entry_map(after).dom().contains(a) implies
                entry_map(after)[a] == target[a] by {
                assert(has_entry(after, a));
                if a != anchor {
                    assert(has_entry(kept, a));
                    assert(entry_map(kept).dom().contains(a));
                }
            }
            assert(entry_map(after) =~= target);
        }
        anchor
    }

    /// The index of the entry of an anchor.
    fn position(&self, anchor: DocumentAnchor) -> (index: Option<usize>)
        requires
            self.wf(),
        ensures
            match index {
                Some(i) => i < self.entries@.len() && self.entries@[i as int].anchor == anchor
                    && self.records().dom().contains(anchor) && self.records()[anchor]
                    == self.entries@[i as int].record,
                None => !self.records().dom().contains(anchor) && forall|k: int|
                    0 <= k < self.entries@.len() ==> (#[trigger] self.entries@[k]).anchor
                        != anchor,
            },
    {
        let mut i: usize = 0;
        while i < self.entries.len()
            invariant
                self.wf(),
                i <= self.entries.len(),
                forall|k: int| 0 <= k < i ==> (#[trigger] self.entries@[k]).anchor != anchor,
            decreases self.entries.len() - i,
        {
            if self.entries[i].anchor == anchor {
                proof {
                    lemma_entry(self.entries@, i as int);
                }
                return Some(i);
            }
            i += 1;
        }
        None
    }

    /// The record of an anchor, if it is live.
    pub fn record(&self, anchor: DocumentAnchor) -> (record: Option<&AnchorRecord<I>>)
        requires
            self.wf(),
        ensures
            match record {
                Some(record) => self.records().dom().contains(anchor) && *record
                    == self.records()[anchor],
                None => !self.records().dom().contains(anchor),
            },
    {
        match self.position(anchor) {
            Some(i) => Some(&self.entries[i].record),
            None => None,
        }
    }

    /// The offset of an anchor, if it is live.
    pub fn resolve(&self, anchor: DocumentAnchor) -> (offset: Option<usize>)
        requires
            self.wf(),
        ensures
            match offset {
                Some(offset) => self.records().dom().contains(anchor) && offset
                    == self.records()[anchor].spec_offset(),
                None => !self.records().dom().contains(anchor),
            },
    {
        match self.position(anchor) {
            Some(i) => Some(self.entries[i].record.offset),
            None => None,
        }
    }

    /// Ends an anchor.
    pub fn remove(&mut self, anchor: DocumentAnchor)
        requires
            old(self).wf(),
        ensures
            final(self).wf(),
            final(self).spec_next_id() == old(self).spec_next_id(),
            final(self).records() == old(self).records().remove(anchor),
    {
        let ghost before = self.entries@;
        match self.position(anchor) {
            None => {
                assert(self.records() =~= self.records().remove(anchor));
            },
            Some(at) => {
                self.entries.remove(at);
                proof {
                    let after = self.entries@;
                    assert(after =~= before.remove(at as int));
                    assert forall|i: int, j: int|
                        #![trigger after[i], after[j]]
                        0 <= i < j < after.len() implies after[i].anchor != after[j].anchor by {
                        let x = if i < at {
                            i
                        } else {
                            i + 1
                        };
                        let y = if j < at {
                            j
                        } else {
                            j + 1
                        };
                        assert(after[i] == before[x] && after[j] == before[y]);
                    }
                    assert forall|a: DocumentAnchor| #[trigger] has_entry(after, a) <==> (a
                        != anchor && has_entry(before, a)) by {
                        if has_entry(after, a) {
                            let i = entry_index(after, a);
                            let x = if i < at {
                                i
                            } else {
                                i + 1
                            };
                            assert(before[x] == after[i]);
                            if a == anchor {
                                assert(before[at as int].anchor != before[x].anchor);
                            }
                        }
                        if a != anchor && has_entry(before, a) {
                            let x = entry_index(before, a);
                            let i = if x < at {
                                x
                            } else {
                                x - 1
                            };
                            assert(after[i] == before[x]);
                        }
                    }
                    assert forall|a: DocumentAnchor| has_entry(after, a) implies
                        #[trigger] entry_map(after)[a] == entry_map(before)[a] by {
                        let i = entry_index(after, a);
                        let x = if i < at {
                            i
                        } else {
                            i + 1
                        };
                        assert(before[x] == after[i]);
                        lemma_entry(before, x);
                        lemma_entry(after, i);
                    }
                    assert(entry_map(after) =~= entry_map(before).remove(anchor));
                }
            },
        }
    }

    /// Moves all anchors by one replacement.
    pub fn apply_edit(&mut self, range: &Range<usize>, replacement_len: usize)
        requires
            old(self).wf(),
            range.start + replacement_len <= usize::MAX,
        ensures
            final(self).wf(),
            final(self).spec_next_id() == old(self).spec_next_id(),
            final(self).records() == old(self).records().map_values(
                |r: AnchorRecord<I>|
                    r.moved(range.start as int, range.end as int, replacement_len as int),
            ),
    {
        let ghost before = self.entries@;
        let ghost f = |r: AnchorRecord<I>|
            r.moved(range.start as int, range.end as int, replacement_len as int);
        let mut i: usize = 0;
        while i < self.entries.len()
            invariant
                i <= self.entries.len(),
                self.entries.len() == before.len(),
                self.next_id == old(self).next_id,
                range.start + replacement_len <= usize::MAX,
                f == (|r: AnchorRecord<I>|
                    r.moved(range.start as int, range.end as int, replacement_len as int)),
                forall|k: int|
                    0 <= k < before.len() ==> (#[trigger] self.entries@[k]).anchor
                        == before[k].anchor,
                forall|k: int|
                    0 <= k < i ==> (#[trigger] self.entries@[k]).record == f(before[k].record),
                forall|k: int|
                    i <= k < before.len() ==> (#[trigger] self.entries@[k]).record
                        == before[k].record,
            decreases self.entries.len() - i,
        {
            assert(self.entries@[i as int].record == before[i as int].record);
            let offset = transform_offset(
                self.entries[i].record.offset,
                self.entries[i].record.bias,
                range,
                replacement_len,
            );
            self.entries[i].record.offset = offset;
            i += 1;
        }
        proof {
            lemma_mapped_entries(before, self.entries@, f);
        }
    }
}

/// Entries of the same anchors with mapped records.
pub(crate) proof fn lemma_mapped_entries<I>(
    before: Seq<AnchorEntry<I>>,
    after: Seq<AnchorEntry<I>>,
    f: spec_fn(AnchorRecord<I>) -> AnchorRecord<I>,
)
    requires
        entries_distinct(before),
        before.len() == after.len(),
        forall|k: int|
            0 <= k < before.len() ==> (#[trigger] after[k]).anchor == before[k].anchor
                && after[k].record == f(before[k].record),
    ensures
        entries_distinct(after),
        entry_map(after) == entry_map(before).map_values(f),
{
    assert forall|i: int, j: int|
        #![trigger after[i], after[j]]
        0 <= i < j < after.len() implies after[i].anchor != after[j].anchor by {
        assert(before[i].anchor != before[j].anchor);
    }
    assert forall|a: DocumentAnchor| #[trigger] has_entry(after, a) <==> has_entry(before, a) by {
        if has_entry(after, a) {
            let i = entry_index(after, a);
            assert(before[i].anchor == after[i].anchor);
        }
        if has_entry(before, a) {
            let i = entry_index(before, a);
            assert(after[i].anchor == a);
        }
    }
    assert forall|a: DocumentAnchor| has_entry(after, a) implies #[trigger] entry_map(after)[a]
        == f(entry_map(before)[a]) by {
        let i = entry_index(after, a);
        assert(before[i].anchor == after[i].anchor);
        lemma_entry(before, i);
        lemma_entry(after, i);
    }
    assert(entry_map(after) =~= entry_map(before).map_values(f));
}

impl<I: Clone + Eq> AnchorStore<I> {
    /// A copy of the store.
    pub fn copy(&self) -> (copy: Self)
        requires
            lawful_id::<I>(),
            self.wf(),
        ensures
            copy.wf(),
            copy.spec_next_id() == self.spec_next_id(),
            copy.records() == self.records(),
    {
        let mut entries: Vec<AnchorEntry<I>> = Vec::new();
        let mut i: usize = 0;
        while i < self.entries.len()
            invariant
                lawful_id::<I>(),
                i <= self.entries.len(),
                entries@ == self.entries@.subrange(0, i as int),
            decreases self.entries.len() - i,
        {
            let entry = &self.entries[i];
            entries.push(
                AnchorEntry {
                    anchor: entry.anchor,
                    record: AnchorRecord {
                        offset: entry.record.offset,
                        bias: entry.record.bias,
                        node_id: match &entry.record.node_id {
                            Some(id) => Some(copy_id(id)),
                            None => None,
                        },
                        affinity: entry.record.affinity,
                    },
                },
            );
            assert(entries@ =~= self.entries@.subrange(0, i + 1));
            i += 1;
        }
        assert(entries@ =~= self.entries@);
        AnchorStore { next_id: self.next_id, entries }
    }
}

} // verus!
