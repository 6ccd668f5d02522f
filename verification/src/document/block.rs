//! Inline blocks: objects that stand for an atomic region.

use crate::document::projection::{DocumentProjection, ProjectionView, SpanView};
use crate::document::region::{DocumentRegion, DocumentRegions, EditPolicy};
use crate::document::transaction::{carried, edits_addressable, transform_source_range, TextEdit};
use crate::identity::{copy_id, lawful_eq, lawful_id, same_id};
use crate::order::Ranked;
use crate::scan::{first_fault, first_where, lemma_first_fault, lemma_first_where, lemma_first_where_is};
use crate::text::byte_len;
use std::ops::Range;
use vstd::prelude::*;

verus! {

#[derive(Debug, PartialEq, Eq)]
pub struct DocumentBlock<I> {
    pub(crate) id: I,
    pub(crate) source: Range<usize>,
}

impl<I> DocumentBlock<I> {
    pub open(crate) spec fn spec_id(self) -> I {
        self.id
    }

    pub open(crate) spec fn start(self) -> int {
        self.source.start as int
    }

    pub open(crate) spec fn end(self) -> int {
        self.source.end as int
    }

    /// The source as a range.
    pub open(crate) spec fn spec_source(self) -> Range<usize> {
        self.source
    }

    /// The block at another place.
    pub open(crate) spec fn at(self, start: int, end: int) -> DocumentBlock<I> {
        DocumentBlock { id: self.id, source: (start as usize)..(end as usize) }
    }

    pub fn new(id: I, source: Range<usize>) -> (block: Self)
        ensures
            block.spec_id() == id,
            block.start() == source.start,
            block.end() == source.end,
    {
        DocumentBlock { id, source }
    }

    pub fn id(&self) -> (id: &I)
        ensures
            *id == self.spec_id(),
    {
        &self.id
    }

    pub fn source(&self) -> (source: Range<usize>)
        ensures
            source == self.spec_source(),
            source.start == self.start(),
            source.end == self.end(),
    {
        self.source.start..self.source.end
    }
}

impl<I: Clone> Clone for DocumentBlock<I> {
    fn clone(&self) -> (copy: Self)
        ensures
            cloned(self.spec_id(), copy.spec_id()),
            copy.start() == self.start(),
            copy.end() == self.end(),
    {
        DocumentBlock { id: self.id.clone(), source: self.source() }
    }
}

impl<I> Ranked for DocumentBlock<I> {
    open(crate) spec fn rank(&self) -> (int, int) {
        (self.start(), self.end())
    }

    fn ranks_after(&self, other: &Self) -> (after: bool) {
        self.source.start > other.source.start || (self.source.start == other.source.start
            && self.source.end > other.source.end)
    }
}

#[derive(Debug, PartialEq, Eq)]
pub enum BlockError {
    MissingRenderer,
    InvalidRange(Range<usize>),
    OutOfBounds { range: Range<usize>, source_len: usize },
    Overlap(Range<usize>),
    MissingAtomicRegion(Range<usize>),
    RegionIdMismatch(Range<usize>),
    VisibleSource(Range<usize>),
}

impl Clone for BlockError {
    fn clone(&self) -> (copy: Self)
        ensures
            copy == *self,
    {
        match self {
            BlockError::MissingRenderer => BlockError::MissingRenderer,
            BlockError::InvalidRange(range) => BlockError::InvalidRange(range.start..range.end),
            BlockError::OutOfBounds { range, source_len } => BlockError::OutOfBounds {
                range: range.start..range.end,
                source_len: *source_len,
            },
            BlockError::Overlap(range) => BlockError::Overlap(range.start..range.end),
            BlockError::MissingAtomicRegion(range) => BlockError::MissingAtomicRegion(range.start..range.end),
            BlockError::RegionIdMismatch(range) => BlockError::RegionIdMismatch(range.start..range.end),
            BlockError::VisibleSource(range) => BlockError::VisibleSource(range.start..range.end),
        }
    }
}

/// An atomic region that covers exactly the source of a block.
pub open spec fn covers_block<I>(block: DocumentBlock<I>) -> spec_fn(DocumentRegion<I>) -> bool {
    |r: DocumentRegion<I>|
        r.start() == block.start() && r.end() == block.end() && r.spec_policy()
            == EditPolicy::Atomic
}

/// A span that hides exactly the source of a block.
pub open spec fn hides_block<I>(span: SpanView, block: DocumentBlock<I>) -> bool {
    span.start == block.start() && span.end == block.end() && span.replacement.len() == 0
}

/// What is wrong with a block among blocks in source order: it is empty, out
/// of bounds, overlaps the one before, has no atomic region of its own source
/// and id, or its source is not hidden.
pub open spec fn block_fault<I>(
    blocks: Seq<DocumentBlock<I>>,
    regions: Seq<DocumentRegion<I>>,
    projection: ProjectionView,
    source_len: usize,
) -> spec_fn(int) -> Option<BlockError> {
    |i: int|
        {
            let block = blocks[i];
            let at = first_where(regions, covers_block(block), 0);
            if block.start() >= block.end() {
                Some(BlockError::InvalidRange(block.spec_source()))
            } else if block.end() > source_len {
                Some(BlockError::OutOfBounds { range: block.spec_source(), source_len })
            } else if i > 0 && block.start() < blocks[i - 1].end() {
                Some(BlockError::Overlap(block.spec_source()))
            } else if at >= regions.len() {
                Some(BlockError::MissingAtomicRegion(block.spec_source()))
            } else if regions[at].spec_id() != block.spec_id() {
                Some(BlockError::RegionIdMismatch(block.spec_source()))
            } else if !(exists|k: int|
                0 <= k < projection.spans.len() && hides_block(
                    #[trigger] projection.spans[k],
                    block,
                )) {
                Some(BlockError::VisibleSource(block.spec_source()))
            } else {
                None
            }
        }
}

/// Why blocks cannot be shown: the first that has a fault.
pub open spec fn blocks_fault<I>(
    blocks: Seq<DocumentBlock<I>>,
    regions: Seq<DocumentRegion<I>>,
    projection: ProjectionView,
    source_len: usize,
) -> Option<BlockError> {
    first_fault(block_fault(blocks, regions, projection, source_len), 0, blocks.len() as int)
}

/// Every block has a hidden atomic region of its own source and id.
pub proof fn law_blocks_are_hidden_atomic_regions<I>(
    blocks: Seq<DocumentBlock<I>>,
    regions: Seq<DocumentRegion<I>>,
    projection: ProjectionView,
    source_len: usize,
    i: int,
)
    requires
        blocks_fault(blocks, regions, projection, source_len) is None,
        0 <= i < blocks.len(),
    ensures
        blocks[i].start() < blocks[i].end() <= source_len,
        exists|r: int|
            0 <= r < regions.len() && (#[trigger] regions[r]).start() == blocks[i].start()
                && regions[r].end() == blocks[i].end() && regions[r].spec_policy()
                == EditPolicy::Atomic && regions[r].spec_id() == blocks[i].spec_id(),
        exists|k: int|
            0 <= k < projection.spans.len() && hides_block(
                #[trigger] projection.spans[k],
                blocks[i],
            ),
        i > 0 ==> blocks[i - 1].end() <= blocks[i].start(),
{
    let fault = block_fault(blocks, regions, projection, source_len);
    lemma_first_fault(fault, 0, blocks.len() as int);
    assert(fault(i) is None);
    lemma_first_where(regions, covers_block(blocks[i]), 0);
    let at = first_where(regions, covers_block(blocks[i]), 0);
    assert(regions[at].start() == blocks[i].start());
}

/// Whether blocks in source order can be shown.
pub fn validate_blocks<I: Eq>(
    blocks: &[DocumentBlock<I>],
    regions: &DocumentRegions<I>,
    projection: &DocumentProjection,
    source_len: usize,
) -> (result: Result<(), BlockError>)
    requires
        lawful_eq::<I>(),
    ensures
        match result {
            Ok(()) => blocks_fault(blocks@, regions.items(), projection@, source_len) is None,
            Err(error) => blocks_fault(blocks@, regions.items(), projection@, source_len) == Some(
                error,
            ),
        },
{
    let ghost fault = block_fault(blocks@, regions.items(), projection@, source_len);
    let mut i: usize = 0;
    while i < blocks.len()
        invariant
            lawful_eq::<I>(),
            i <= blocks@.len(),
            fault == block_fault(blocks@, regions.items(), projection@, source_len),
            blocks_fault(blocks@, regions.items(), projection@, source_len) == first_fault(
                fault,
                i as int,
                blocks@.len() as int,
            ),
        decreases blocks@.len() - i,
    {
        let block = &blocks[i];
        let source = block.source();
        if source.start >= source.end {
            assert(fault(i as int) == Some(BlockError::InvalidRange(source)));
            return Err(BlockError::InvalidRange(source));
        }
        if source.end > source_len {
            return Err(BlockError::OutOfBounds { range: source, source_len });
        }
        if i > 0 && source.start < blocks[i - 1].source.end {
            return Err(BlockError::Overlap(source));
        }
        match atomic_region(block, regions) {
            None => {
                return Err(BlockError::MissingAtomicRegion(source));
            },
            Some(at) => {
                if !same_id(&regions.regions[at].id, &block.id) {
                    return Err(BlockError::RegionIdMismatch(source));
                }
            },
        }
        if !is_hidden(block, projection) {
            return Err(BlockError::VisibleSource(source));
        }
        assert(fault(i as int) is None);
        i += 1;
    }
    Ok(())
}

fn atomic_region<I>(block: &DocumentBlock<I>, regions: &DocumentRegions<I>) -> (index: Option<usize>)
    ensures
        match index {
            Some(at) => at < regions.items().len() && at == first_where(
                regions.items(),
                covers_block(*block),
                0,
            ),
            None => first_where(regions.items(), covers_block(*block), 0) == regions.items().len(),
        },
{
    let ghost covers = covers_block(*block);
    let mut i: usize = 0;
    while i < regions.regions.len()
        invariant
            i <= regions.regions.len(),
            covers == covers_block(*block),
            forall|k: int| 0 <= k < i ==> !(#[trigger] covers(regions.items()[k])),
        decreases regions.regions.len() - i,
    {
        let region = &regions.regions[i];
        if region.range.start == block.source.start && region.range.end == block.source.end
            && region.policy == EditPolicy::Atomic {
            proof {
                assert(covers(regions.items()[i as int]));
                lemma_first_where_is(regions.items(), covers, 0, i as int);
            }
            return Some(i);
        }
        assert(!covers(regions.items()[i as int]));
        i += 1;
    }
    proof {
        lemma_first_where_is(regions.items(), covers, 0, i as int);
    }
    None
}

fn is_hidden<I>(block: &DocumentBlock<I>, projection: &DocumentProjection) -> (hidden: bool)
    ensures
        hidden == exists|k: int|
            0 <= k < projection@.spans.len() && hides_block(
                #[trigger] projection@.spans[k],
                *block,
            ),
{
    let mut i: usize = 0;
    while i < projection.spans.len()
        invariant
            i <= projection.spans.len(),
            forall|k: int| 0 <= k < i ==> !hides_block(#[trigger] projection@.spans[k], *block),
        decreases projection.spans.len() - i,
    {
        let span = &projection.spans[i];
        assert(projection@.spans[i as int] == span@);
        if span.source.start == block.source.start && span.source.end == block.source.end
            && byte_len(span.replacement.as_str()) == 0 {
            assert(hides_block(projection@.spans[i as int], *block));
            return true;
        }
        i += 1;
    }
    false
}

/// Blocks where edits put them. Like a hidden span a block does not grow: an
/// insertion at either edge stays outside.
pub open spec fn blocks_carried<I>(blocks: Seq<DocumentBlock<I>>, edits: Seq<TextEdit>) -> Seq<
    DocumentBlock<I>,
> {
    blocks.map_values(
        |b: DocumentBlock<I>|
            b.at(carried((b.start(), b.end()), edits).0, carried((b.start(), b.end()), edits).1),
    )
}

/// Blocks where edits put them.
pub fn transform_blocks<I: Clone + Eq>(blocks: &[DocumentBlock<I>], edits: &[TextEdit]) -> (moved: Vec<
    DocumentBlock<I>,
>)
    requires
        lawful_id::<I>(),
        edits_addressable(edits@),
    ensures
        moved@ == blocks_carried(blocks@, edits@),
{
    let mut moved: Vec<DocumentBlock<I>> = Vec::new();
    let mut i: usize = 0;
    while i < blocks.len()
        invariant
            lawful_id::<I>(),
            edits_addressable(edits@),
            i <= blocks@.len(),
            moved.len() == i,
            forall|k: int|
                0 <= k < i ==> #[trigger] moved@[k] == blocks_carried(blocks@, edits@)[k],
        decreases blocks@.len() - i,
    {
        let block = &blocks[i];
        let source = transform_source_range(&block.source, edits);
        moved.push(DocumentBlock { id: copy_id(&block.id), source });
        i += 1;
    }
    assert(moved@ =~= blocks_carried(blocks@, edits@));
    moved
}

/// A copy of blocks.
pub(crate) fn copy_blocks<I: Clone + Eq>(blocks: &Vec<DocumentBlock<I>>) -> (copy: Vec<
    DocumentBlock<I>,
>)
    requires
        lawful_id::<I>(),
    ensures
        copy@ == blocks@,
{
    let mut copy: Vec<DocumentBlock<I>> = Vec::new();
    let mut i: usize = 0;
    while i < blocks.len()
        invariant
            lawful_id::<I>(),
            i <= blocks.len(),
            copy@ == blocks@.subrange(0, i as int),
        decreases blocks.len() - i,
    {
        copy.push(DocumentBlock { id: copy_id(&blocks[i].id), source: blocks[i].source() });
        assert(copy@ =~= blocks@.subrange(0, i + 1));
        i += 1;
    }
    assert(copy@ =~= blocks@);
    copy
}

} // verus!
