//! Positions, anchors and how an edit moves them.

use std::ops::Range;
use vstd::prelude::*;
use vstd::std_specs::cmp::PartialOrdSpecImpl;

verus! {

/// Which side of an ambiguous visual or structural boundary a position uses.
#[derive(Clone, Copy, Debug, PartialEq, Eq, Structural, Hash)]
pub enum Affinity {
    Before,
    After,
}

impl Default for Affinity {
    fn default() -> (affinity: Self)
        ensures
            affinity == Affinity::Before,
    {
        Affinity::Before
    }
}

/// How a runtime anchor moves when text is inserted at its exact offset.
#[derive(Clone, Copy, Debug, PartialEq, Eq, Structural, Hash)]
pub enum AnchorBias {
    Left,
    Right,
}

impl Default for AnchorBias {
    fn default() -> (bias: Self)
        ensures
            bias == AnchorBias::Left,
    {
        AnchorBias::Left
    }
}

/// A domain-stable position inside one document node.
#[derive(Debug, PartialEq, Eq, Hash)]
pub struct DocumentPosition<N> {
    pub(crate) node_id: N,
    pub(crate) offset: usize,
    pub(crate) affinity: Affinity,
}

impl<N> DocumentPosition<N> {
    pub open(crate) spec fn spec_node_id(self) -> N {
        self.node_id
    }

    pub open(crate) spec fn spec_offset(self) -> usize {
        self.offset
    }

    pub open(crate) spec fn spec_affinity(self) -> Affinity {
        self.affinity
    }

    pub fn new(node_id: N, offset: usize, affinity: Affinity) -> (position: Self)
        ensures
            position.spec_node_id() == node_id,
            position.spec_offset() == offset,
            position.spec_affinity() == affinity,
    {
        DocumentPosition { node_id, offset, affinity }
    }

    pub fn node_id(&self) -> (id: &N)
        ensures
            *id == self.spec_node_id(),
    {
        &self.node_id
    }

    pub fn offset(&self) -> (offset: usize)
        ensures
            offset == self.spec_offset(),
    {
        self.offset
    }

    pub fn affinity(&self) -> (affinity: Affinity)
        ensures
            affinity == self.spec_affinity(),
    {
        self.affinity
    }

    pub fn into_node_id(self) -> (id: N)
        ensures
            id == self.spec_node_id(),
    {
        self.node_id
    }
}

impl<N: Clone> Clone for DocumentPosition<N> {
    fn clone(&self) -> (copy: Self)
        ensures
            cloned(self.spec_node_id(), copy.spec_node_id()),
            copy.spec_offset() == self.spec_offset(),
            copy.spec_affinity() == self.spec_affinity(),
    {
        DocumentPosition {
            node_id: self.node_id.clone(),
            offset: self.offset,
            affinity: self.affinity,
        }
    }
}

#[derive(Clone, Copy, Debug, PartialEq, Eq, Structural)]
pub enum PositionError {
    InvalidBoundary { offset: usize },
    SourceOffsetOutOfBounds { offset: usize, source_len: usize },
    NodeNotFound,
    NodeOffsetOutOfBounds { offset: usize, node_len: usize },
}

/// Monotonic revision of a document's logical source.
#[derive(Clone, Copy, Debug, Default, PartialEq, Eq, Structural, Ord, Hash)]
pub struct DocumentRevision(pub(crate) u64);

impl DocumentRevision {
    /// The revision that every document starts with.
    pub fn initial() -> (revision: Self)
        ensures
            revision == DocumentRevision::numbered(0),
    {
        DocumentRevision(0)
    }

    pub open(crate) spec fn spec_value(self) -> u64 {
        self.0
    }

    pub fn value(self) -> (value: u64)
        ensures
            value == self.spec_value(),
    {
        self.0
    }

    /// The revision behind this one; the last revision stays itself.
    pub open spec fn spec_next(self) -> DocumentRevision {
        DocumentRevision::numbered(
            if self.spec_value() == u64::MAX {
                u64::MAX
            } else {
                (self.spec_value() + 1) as u64
            },
        )
    }

    pub open(crate) spec fn numbered(value: u64) -> DocumentRevision {
        DocumentRevision(value)
    }

    pub fn next(self) -> (next: Self)
        ensures
            next == self.spec_next(),
            next.spec_value() >= self.spec_value(),
    {
        if self.0 == u64::MAX {
            self
        } else {
            DocumentRevision(self.0 + 1)
        }
    }
}

impl PartialOrd for DocumentRevision {
    fn partial_cmp(&self, other: &Self) -> (order: Option<std::cmp::Ordering>) {
        if self.0 < other.0 {
            Some(std::cmp::Ordering::Less)
        } else if self.0 == other.0 {
            Some(std::cmp::Ordering::Equal)
        } else {
            Some(std::cmp::Ordering::Greater)
        }
    }
}

impl PartialOrdSpecImpl for DocumentRevision {
    open(crate) spec fn obeys_partial_cmp_spec() -> bool {
        true
    }

    open(crate) spec fn partial_cmp_spec(&self, other: &Self) -> Option<std::cmp::Ordering> {
        if self.0 < other.0 {
            Some(std::cmp::Ordering::Less)
        } else if self.0 == other.0 {
            Some(std::cmp::Ordering::Equal)
        } else {
            Some(std::cmp::Ordering::Greater)
        }
    }
}

/// Opaque identity for an offset that follows document transactions.
#[derive(Clone, Copy, Debug, PartialEq, Eq, Structural, PartialOrd, Ord, Hash)]
pub struct DocumentAnchor(pub(crate) u64);

impl DocumentAnchor {
    pub open(crate) spec fn spec_id(self) -> u64 {
        self.0
    }

    pub fn new(id: u64) -> (anchor: Self)
        ensures
            anchor.spec_id() == id,
    {
        DocumentAnchor(id)
    }
}

/// Directional selection expressed with runtime anchors.
#[derive(Clone, Copy, Debug, PartialEq, Eq, Structural, Hash)]
pub struct DocumentSelection {
    pub(crate) anchor: DocumentAnchor,
    pub(crate) head: DocumentAnchor,
}

impl DocumentSelection {
    pub open(crate) spec fn spec_anchor(self) -> DocumentAnchor {
        self.anchor
    }

    pub open(crate) spec fn spec_head(self) -> DocumentAnchor {
        self.head
    }

    pub fn new(anchor: DocumentAnchor, head: DocumentAnchor) -> (selection: Self)
        ensures
            selection.spec_anchor() == anchor,
            selection.spec_head() == head,
    {
        DocumentSelection { anchor, head }
    }

    pub fn anchor(self) -> (anchor: DocumentAnchor)
        ensures
            anchor == self.spec_anchor(),
    {
        self.anchor
    }

    pub fn head(self) -> (head: DocumentAnchor)
        ensures
            head == self.spec_head(),
    {
        self.head
    }
}

/// `value`, cut to what a `usize` can hold.
pub open spec fn saturated(value: int) -> int {
    if value < 0 {
        0
    } else if value > usize::MAX {
        usize::MAX as int
    } else {
        value
    }
}

/// Where an offset goes when the bytes of `start..end` are replaced by `len`
/// others. An offset inside the replaced bytes, or at an insertion, goes to
/// the side that its bias names; one at the end of replaced bytes stays behind
/// the replacement.
pub open spec fn moved_offset(offset: int, bias: AnchorBias, start: int, end: int, len: int) -> int {
    if offset < start {
        offset
    } else if start < end && offset == end {
        start + len
    } else if offset > end || (start >= end && offset > start) {
        saturated(
            offset + len - (if start < end {
                end - start
            } else {
                0
            }),
        )
    } else if bias == AnchorBias::Right {
        start + len
    } else {
        start
    }
}

/// Where an offset goes under one replacement.
pub fn transform_offset(
    offset: usize,
    bias: AnchorBias,
    range: &Range<usize>,
    replacement_len: usize,
) -> (moved: usize)
    requires
        range.start + replacement_len <= usize::MAX,
    ensures
        moved == moved_offset(
            offset as int,
            bias,
            range.start as int,
            range.end as int,
            replacement_len as int,
        ),
{
    let start = range.start;
    let end = range.end;
    if offset < start {
        offset
    } else if start < end && offset == end {
        start + replacement_len
    } else if offset > end || (start >= end && offset > start) {
        let removed: usize = if start < end {
            end - start
        } else {
            0
        };
        if replacement_len >= removed {
            offset.saturating_add(replacement_len - removed)
        } else {
            offset - (removed - replacement_len)
        }
    } else if bias == AnchorBias::Right {
        start + replacement_len
    } else {
        start
    }
}

/// `offset` moved by `delta`, cut to what a `usize` can hold.
pub fn shift_offset(offset: usize, delta: isize) -> (moved: usize)
    ensures
        moved == saturated(offset + delta),
{
    if delta >= 0 {
        offset.saturating_add(delta as usize)
    } else {
        let back: usize = if delta == isize::MIN {
            (isize::MAX as usize) + 1
        } else {
            (-delta) as usize
        };
        if offset < back {
            0
        } else {
            offset - back
        }
    }
}

/// A range moved by `delta`, its ends cut to what a `usize` can hold.
pub fn shift_range(range: &Range<usize>, delta: isize) -> (moved: Range<usize>)
    ensures
        moved.start == saturated(range.start + delta),
        moved.end == saturated(range.end + delta),
{
    shift_offset(range.start, delta)..shift_offset(range.end, delta)
}

} // verus!
