//! What the errors say.

use crate::document::anchored_block::AnchoredBlockError;
use crate::document::block::BlockError;
use crate::document::outcome::{HostTransactionError, PresentationError, ScrollPinError};
use crate::document::position::PositionError;
use crate::document::projection::ProjectionError;
use crate::document::region::RegionError;
use crate::document::style::DocumentStyleError;
use crate::document::transaction::TransactionError;
use crate::text::push_text;
use std::ops::Range;
use vstd::prelude::*;

verus! {

/// The digit of a number below ten.
pub open spec fn digit(n: int) -> char {
    (0x30 + n) as char
}

/// A number in decimal digits.
pub open spec fn digits(n: int) -> Seq<char>
    decreases n,
{
    if n < 10 {
        seq![digit(n)]
    } else {
        digits(n / 10).push(digit(n % 10))
    }
}

/// A range of offsets.
pub open spec fn range_digits(range: Range<usize>) -> Seq<char> {
    digits(range.start as int) + ".."@ + digits(range.end as int)
}

fn digit_text(n: usize) -> (text: &'static str)
    requires
        n < 10,
    ensures
        text@ == seq![digit(n as int)],
{
    proof {
        reveal_strlit("0");
        reveal_strlit("1");
        reveal_strlit("2");
        reveal_strlit("3");
        reveal_strlit("4");
        reveal_strlit("5");
        reveal_strlit("6");
        reveal_strlit("7");
        reveal_strlit("8");
        reveal_strlit("9");
    }
    let text = match n {
        0 => "0",
        1 => "1",
        2 => "2",
        3 => "3",
        4 => "4",
        5 => "5",
        6 => "6",
        7 => "7",
        8 => "8",
        _ => "9",
    };
    assert(text@ =~= seq![digit(n as int)]);
    text
}

fn number_text(n: usize) -> (text: String)
    ensures
        text@ == digits(n as int),
    decreases n,
{
    if n < 10 {
        digit_text(n).to_owned()
    } else {
        let mut text = number_text(n / 10);
        push_text(&mut text, digit_text(n % 10));
        assert(text@ =~= digits(n as int));
        text
    }
}

fn range_text(range: &Range<usize>) -> (text: String)
    ensures
        text@ == range_digits(*range),
{
    let mut text = number_text(range.start);
    push_text(&mut text, "..");
    push_text(&mut text, number_text(range.end).as_str());
    text
}

impl RegionError {
    pub open spec fn words(self) -> Seq<char> {
        match self {
            RegionError::InvalidBoundary { index } => "region "@ + digits(index as int) + " is not on UTF-8 boundaries"@,
            RegionError::InvalidRange { index } => "region "@ + digits(index as int) + " has an invalid range"@,
            RegionError::OutOfBounds { index, source_len } => "region "@ + digits(index as int) + " exceeds source length "@ + digits(source_len as int),
            RegionError::DuplicateId { index } => "region "@ + digits(index as int) + " repeats an id"@,
            RegionError::Overlap { left, right } => "regions "@ + digits(left as int) + " and "@ + digits(right as int) + " overlap"@,
        }
    }

    /// What the error says.
    pub fn message(&self) -> (text: String)
        ensures
            text@ == self.words(),
    {
        match self {
            RegionError::InvalidBoundary { index } => {
                let mut text = "region ".to_owned();
                push_text(&mut text, number_text(*index).as_str());
                push_text(&mut text, " is not on UTF-8 boundaries");
                text
            },
            RegionError::InvalidRange { index } => {
                let mut text = "region ".to_owned();
                push_text(&mut text, number_text(*index).as_str());
                push_text(&mut text, " has an invalid range");
                text
            },
            RegionError::OutOfBounds { index, source_len } => {
                let mut text = "region ".to_owned();
                push_text(&mut text, number_text(*index).as_str());
                push_text(&mut text, " exceeds source length ");
                push_text(&mut text, number_text(*source_len).as_str());
                text
            },
            RegionError::DuplicateId { index } => {
                let mut text = "region ".to_owned();
                push_text(&mut text, number_text(*index).as_str());
                push_text(&mut text, " repeats an id");
                text
            },
            RegionError::Overlap { left, right } => {
                let mut text = "regions ".to_owned();
                push_text(&mut text, number_text(*left).as_str());
                push_text(&mut text, " and ");
                push_text(&mut text, number_text(*right).as_str());
                push_text(&mut text, " overlap");
                text
            },
        }
    }
}

impl TransactionError {
    pub open spec fn words(self) -> Seq<char> {
        match self {
            TransactionError::Empty => "transaction has no edits"@,
            TransactionError::InvalidRange { index } => "edit "@ + digits(index as int) + " has an invalid range"@,
            TransactionError::OutOfBounds { index, source_len } => "edit "@ + digits(index as int) + " exceeds source length "@ + digits(source_len as int),
            TransactionError::Overlap { first, second } => "edits "@ + digits(first as int) + " and "@ + digits(second as int) + " overlap"@,
        }
    }

    /// What the error says.
    pub fn message(&self) -> (text: String)
        ensures
            text@ == self.words(),
    {
        match self {
            TransactionError::Empty => "transaction has no edits".to_owned(),
            TransactionError::InvalidRange { index } => {
                let mut text = "edit ".to_owned();
                push_text(&mut text, number_text(*index).as_str());
                push_text(&mut text, " has an invalid range");
                text
            },
            TransactionError::OutOfBounds { index, source_len } => {
                let mut text = "edit ".to_owned();
                push_text(&mut text, number_text(*index).as_str());
                push_text(&mut text, " exceeds source length ");
                push_text(&mut text, number_text(*source_len).as_str());
                text
            },
            TransactionError::Overlap { first, second } => {
                let mut text = "edits ".to_owned();
                push_text(&mut text, number_text(*first).as_str());
                push_text(&mut text, " and ");
                push_text(&mut text, number_text(*second).as_str());
                push_text(&mut text, " overlap");
                text
            },
        }
    }
}

impl PositionError {
    pub open spec fn words(self) -> Seq<char> {
        match self {
            PositionError::InvalidBoundary { offset } => "offset "@ + digits(offset as int) + " is not on a UTF-8 boundary"@,
            PositionError::SourceOffsetOutOfBounds { offset, source_len } => "source offset "@ + digits(offset as int) + " exceeds document length "@ + digits(source_len as int),
            PositionError::NodeNotFound => "document node no longer exists"@,
            PositionError::NodeOffsetOutOfBounds { offset, node_len } => "node offset "@ + digits(offset as int) + " exceeds node length "@ + digits(node_len as int),
        }
    }

    /// What the error says.
    pub fn message(&self) -> (text: String)
        ensures
            text@ == self.words(),
    {
        match self {
            PositionError::InvalidBoundary { offset } => {
                let mut text = "offset ".to_owned();
                push_text(&mut text, number_text(*offset).as_str());
                push_text(&mut text, " is not on a UTF-8 boundary");
                text
            },
            PositionError::SourceOffsetOutOfBounds { offset, source_len } => {
                let mut text = "source offset ".to_owned();
                push_text(&mut text, number_text(*offset).as_str());
                push_text(&mut text, " exceeds document length ");
                push_text(&mut text, number_text(*source_len).as_str());
                text
            },
            PositionError::NodeNotFound => "document node no longer exists".to_owned(),
            PositionError::NodeOffsetOutOfBounds { offset, node_len } => {
                let mut text = "node offset ".to_owned();
                push_text(&mut text, number_text(*offset).as_str());
                push_text(&mut text, " exceeds node length ");
                push_text(&mut text, number_text(*node_len).as_str());
                text
            },
        }
    }
}

impl ProjectionError {
    pub open spec fn words(self) -> Seq<char> {
        match self {
            ProjectionError::InvalidBoundary(range) => "projection range "@ + range_digits(range) + " is not on UTF-8 boundaries"@,
            ProjectionError::SourceLength { expected, actual } => "projection source length "@ + digits(actual as int) + " does not match document length "@ + digits(expected as int),
            ProjectionError::InvalidRange(range) => "invalid projection range "@ + range_digits(range),
            ProjectionError::OutOfBounds { range, source_len } => "projection range "@ + range_digits(range) + " exceeds source length "@ + digits(source_len as int),
            ProjectionError::Overlap(range) => "projection range "@ + range_digits(range) + " overlaps another"@,
            ProjectionError::EditableOverlap(range) => "projection range "@ + range_digits(range) + " overlaps editable text"@,
            ProjectionError::BlocksRequirePresentation => "documents with inline blocks must update projection and blocks together"@,
            ProjectionError::InvalidMapping(range) => "projection span "@ + range_digits(range) + " has an invalid mapping"@,
        }
    }

    /// What the error says.
    pub fn message(&self) -> (text: String)
        ensures
            text@ == self.words(),
    {
        match self {
            ProjectionError::InvalidBoundary(range) => {
                let mut text = "projection range ".to_owned();
                push_text(&mut text, range_text(range).as_str());
                push_text(&mut text, " is not on UTF-8 boundaries");
                text
            },
            ProjectionError::SourceLength { expected, actual } => {
                let mut text = "projection source length ".to_owned();
                push_text(&mut text, number_text(*actual).as_str());
                push_text(&mut text, " does not match document length ");
                push_text(&mut text, number_text(*expected).as_str());
                text
            },
            ProjectionError::InvalidRange(range) => {
                let mut text = "invalid projection range ".to_owned();
                push_text(&mut text, range_text(range).as_str());
                text
            },
            ProjectionError::OutOfBounds { range, source_len } => {
                let mut text = "projection range ".to_owned();
                push_text(&mut text, range_text(range).as_str());
                push_text(&mut text, " exceeds source length ");
                push_text(&mut text, number_text(*source_len).as_str());
                text
            },
            ProjectionError::Overlap(range) => {
                let mut text = "projection range ".to_owned();
                push_text(&mut text, range_text(range).as_str());
                push_text(&mut text, " overlaps another");
                text
            },
            ProjectionError::EditableOverlap(range) => {
                let mut text = "projection range ".to_owned();
                push_text(&mut text, range_text(range).as_str());
                push_text(&mut text, " overlaps editable text");
                text
            },
            ProjectionError::BlocksRequirePresentation => "documents with inline blocks must update projection and blocks together".to_owned(),
            ProjectionError::InvalidMapping(range) => {
                let mut text = "projection span ".to_owned();
                push_text(&mut text, range_text(range).as_str());
                push_text(&mut text, " has an invalid mapping");
                text
            },
        }
    }
}

impl BlockError {
    pub open spec fn words(self) -> Seq<char> {
        match self {
            BlockError::MissingRenderer => "document block renderer is not set"@,
            BlockError::InvalidRange(range) => "invalid block range "@ + range_digits(range),
            BlockError::OutOfBounds { range, source_len } => "block range "@ + range_digits(range) + " exceeds source length "@ + digits(source_len as int),
            BlockError::Overlap(range) => "block range "@ + range_digits(range) + " overlaps another"@,
            BlockError::MissingAtomicRegion(range) => "block range "@ + range_digits(range) + " has no matching atomic region"@,
            BlockError::RegionIdMismatch(range) => "block ID differs from atomic region ID at "@ + range_digits(range),
            BlockError::VisibleSource(range) => "block source "@ + range_digits(range) + " is not hidden by projection"@,
        }
    }

    /// What the error says.
    pub fn message(&self) -> (text: String)
        ensures
            text@ == self.words(),
    {
        match self {
            BlockError::MissingRenderer => "document block renderer is not set".to_owned(),
            BlockError::InvalidRange(range) => {
                let mut text = "invalid block range ".to_owned();
                push_text(&mut text, range_text(range).as_str());
                text
            },
            BlockError::OutOfBounds { range, source_len } => {
                let mut text = "block range ".to_owned();
                push_text(&mut text, range_text(range).as_str());
                push_text(&mut text, " exceeds source length ");
                push_text(&mut text, number_text(*source_len).as_str());
                text
            },
            BlockError::Overlap(range) => {
                let mut text = "block range ".to_owned();
                push_text(&mut text, range_text(range).as_str());
                push_text(&mut text, " overlaps another");
                text
            },
            BlockError::MissingAtomicRegion(range) => {
                let mut text = "block range ".to_owned();
                push_text(&mut text, range_text(range).as_str());
                push_text(&mut text, " has no matching atomic region");
                text
            },
            BlockError::RegionIdMismatch(range) => {
                let mut text = "block ID differs from atomic region ID at ".to_owned();
                push_text(&mut text, range_text(range).as_str());
                text
            },
            BlockError::VisibleSource(range) => {
                let mut text = "block source ".to_owned();
                push_text(&mut text, range_text(range).as_str());
                push_text(&mut text, " is not hidden by projection");
                text
            },
        }
    }
}

impl AnchoredBlockError {
    pub open spec fn words(self) -> Seq<char> {
        match self {
            AnchoredBlockError::MissingRenderer => "anchored block renderer is not set"@,
            AnchoredBlockError::DuplicateId => "anchored block ID is not unique"@,
            AnchoredBlockError::InvalidPosition(error) => error.words(),
            AnchoredBlockError::EditableRegion => "anchored block requires a readonly or routed region"@,
            AnchoredBlockError::NotLineBoundary => "anchored block must follow a display line"@,
        }
    }

    /// What the error says.
    pub fn message(&self) -> (text: String)
        ensures
            text@ == self.words(),
    {
        match self {
            AnchoredBlockError::MissingRenderer => "anchored block renderer is not set".to_owned(),
            AnchoredBlockError::DuplicateId => "anchored block ID is not unique".to_owned(),
            AnchoredBlockError::InvalidPosition(error) => error.message(),
            AnchoredBlockError::EditableRegion => "anchored block requires a readonly or routed region".to_owned(),
            AnchoredBlockError::NotLineBoundary => "anchored block must follow a display line".to_owned(),
        }
    }
}

impl DocumentStyleError {
    pub open spec fn words(self) -> Seq<char> {
        match self {
            DocumentStyleError::OutOfBounds { range, source_len } => "style range "@ + range_digits(range) + " exceeds source length "@ + digits(source_len as int),
            DocumentStyleError::InvalidBoundary(range) => "style range "@ + range_digits(range) + " is not on a UTF-8 boundary"@,
            DocumentStyleError::Overlap(range) => "style range "@ + range_digits(range) + " overlaps a peer"@,
            DocumentStyleError::EditableRange(range) => "style range "@ + range_digits(range) + " intersects editable source"@,
            DocumentStyleError::AtomicRange(range) => "style range "@ + range_digits(range) + " intersects atomic source"@,
            DocumentStyleError::ParagraphBoundary(range) => "paragraph style range "@ + range_digits(range) + " must map to complete display lines"@,
        }
    }

    /// What the error says.
    pub fn message(&self) -> (text: String)
        ensures
            text@ == self.words(),
    {
        match self {
            DocumentStyleError::OutOfBounds { range, source_len } => {
                let mut text = "style range ".to_owned();
                push_text(&mut text, range_text(range).as_str());
                push_text(&mut text, " exceeds source length ");
                push_text(&mut text, number_text(*source_len).as_str());
                text
            },
            DocumentStyleError::InvalidBoundary(range) => {
                let mut text = "style range ".to_owned();
                push_text(&mut text, range_text(range).as_str());
                push_text(&mut text, " is not on a UTF-8 boundary");
                text
            },
            DocumentStyleError::Overlap(range) => {
                let mut text = "style range ".to_owned();
                push_text(&mut text, range_text(range).as_str());
                push_text(&mut text, " overlaps a peer");
                text
            },
            DocumentStyleError::EditableRange(range) => {
                let mut text = "style range ".to_owned();
                push_text(&mut text, range_text(range).as_str());
                push_text(&mut text, " intersects editable source");
                text
            },
            DocumentStyleError::AtomicRange(range) => {
                let mut text = "style range ".to_owned();
                push_text(&mut text, range_text(range).as_str());
                push_text(&mut text, " intersects atomic source");
                text
            },
            DocumentStyleError::ParagraphBoundary(range) => {
                let mut text = "paragraph style range ".to_owned();
                push_text(&mut text, range_text(range).as_str());
                push_text(&mut text, " must map to complete display lines");
                text
            },
        }
    }
}

impl PresentationError {
    pub open spec fn words(self) -> Seq<char> {
        match self {
            PresentationError::Regions(error) => error.words(),
            PresentationError::Projection(error) => error.words(),
            PresentationError::Blocks(error) => error.words(),
            PresentationError::AnchoredBlocks(error) => error.words(),
            PresentationError::Styles(error) => error.words(),
            PresentationError::Position(error) => error.words(),
        }
    }

    /// What the error says.
    pub fn message(&self) -> (text: String)
        ensures
            text@ == self.words(),
    {
        match self {
            PresentationError::Regions(error) => error.message(),
            PresentationError::Projection(error) => error.message(),
            PresentationError::Blocks(error) => error.message(),
            PresentationError::AnchoredBlocks(error) => error.message(),
            PresentationError::Styles(error) => error.message(),
            PresentationError::Position(error) => error.message(),
        }
    }
}

impl ScrollPinError {
    pub open spec fn words(self) -> Seq<char> {
        match self {
            ScrollPinError::InvalidViewportFraction => "scroll pin viewport fraction must be between 0 and 1"@,
            ScrollPinError::InvalidPosition(error) => "invalid scroll pin: "@ + error.words(),
        }
    }

    /// What the error says.
    pub fn message(&self) -> (text: String)
        ensures
            text@ == self.words(),
    {
        match self {
            ScrollPinError::InvalidViewportFraction => "scroll pin viewport fraction must be between 0 and 1".to_owned(),
            ScrollPinError::InvalidPosition(error) => {
                let mut text = "invalid scroll pin: ".to_owned();
                push_text(&mut text, error.message().as_str());
                text
            },
        }
    }
}

impl HostTransactionError {
    pub open spec fn words(self) -> Seq<char> {
        match self {
            HostTransactionError::InvalidOrigin => "host transaction must use EditOrigin::Host"@,
            HostTransactionError::InvalidEditRange(range) => "host edit range "@ + range_digits(range) + " is outside the source or not on UTF-8 boundaries"@,
            HostTransactionError::StaleRevision => "host transaction revision is stale"@,
            HostTransactionError::TouchesEditableRegion => "host transaction touches an editable region"@,
            HostTransactionError::InvalidRegions(error) => "invalid host regions: "@ + error.words(),
            HostTransactionError::EditableRegionsChanged => "host transaction must preserve editable region identities and contents"@,
            HostTransactionError::ProjectionRequired => "host transaction must provide the next non-identity projection"@,
            HostTransactionError::InvalidProjection(error) => "invalid projection: "@ + error.words(),
            HostTransactionError::BlocksRequired => "host transaction must provide the next inline block descriptors"@,
            HostTransactionError::InvalidBlocks(error) => "invalid inline blocks: "@ + error.words(),
            HostTransactionError::StylesRequired => "host transaction must provide the next document style descriptors"@,
            HostTransactionError::InvalidStyles(error) => "invalid document styles: "@ + error.words(),
            HostTransactionError::FragmentBoundary => "host fragment must begin and end at nodes and display lines"@,
            HostTransactionError::InvalidFragment(error) => "invalid host fragment: "@ + error.words(),
        }
    }

    /// What the error says.
    pub fn message(&self) -> (text: String)
        ensures
            text@ == self.words(),
    {
        match self {
            HostTransactionError::InvalidOrigin => "host transaction must use EditOrigin::Host".to_owned(),
            HostTransactionError::InvalidEditRange(range) => {
                let mut text = "host edit range ".to_owned();
                push_text(&mut text, range_text(range).as_str());
                push_text(&mut text, " is outside the source or not on UTF-8 boundaries");
                text
            },
            HostTransactionError::StaleRevision => "host transaction revision is stale".to_owned(),
            HostTransactionError::TouchesEditableRegion => "host transaction touches an editable region".to_owned(),
            HostTransactionError::InvalidRegions(error) => {
                let mut text = "invalid host regions: ".to_owned();
                push_text(&mut text, error.message().as_str());
                text
            },
            HostTransactionError::EditableRegionsChanged => "host transaction must preserve editable region identities and contents".to_owned(),
            HostTransactionError::ProjectionRequired => "host transaction must provide the next non-identity projection".to_owned(),
            HostTransactionError::InvalidProjection(error) => {
                let mut text = "invalid projection: ".to_owned();
                push_text(&mut text, error.message().as_str());
                text
            },
            HostTransactionError::BlocksRequired => "host transaction must provide the next inline block descriptors".to_owned(),
            HostTransactionError::InvalidBlocks(error) => {
                let mut text = "invalid inline blocks: ".to_owned();
                push_text(&mut text, error.message().as_str());
                text
            },
            HostTransactionError::StylesRequired => "host transaction must provide the next document style descriptors".to_owned(),
            HostTransactionError::InvalidStyles(error) => {
                let mut text = "invalid document styles: ".to_owned();
                push_text(&mut text, error.message().as_str());
                text
            },
            HostTransactionError::FragmentBoundary => "host fragment must begin and end at nodes and display lines".to_owned(),
            HostTransactionError::InvalidFragment(error) => {
                let mut text = "invalid host fragment: ".to_owned();
                push_text(&mut text, error.message().as_str());
                text
            },
        }
    }
}

} // verus!
