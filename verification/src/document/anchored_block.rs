//! Anchored blocks: rows that follow a display line.

use crate::document::position::{DocumentPosition, PositionError};
use crate::text::{at_boundary, byte_len, is_str_boundary};
use vstd::prelude::*;
use vstd::string::*;

verus! {

/// A rendered row attached to a source position without occupying source text.
#[derive(Debug, PartialEq, Eq)]
pub struct AnchoredBlock<I> {
    pub(crate) id: I,
    pub(crate) position: DocumentPosition<I>,
}

impl<I> AnchoredBlock<I> {
    pub open(crate) spec fn spec_id(self) -> I {
        self.id
    }

    pub open(crate) spec fn spec_position(self) -> DocumentPosition<I> {
        self.position
    }

    pub fn new(id: I, position: DocumentPosition<I>) -> (block: Self)
        ensures
            block.spec_id() == id,
            block.spec_position() == position,
    {
        AnchoredBlock { id, position }
    }

    pub fn id(&self) -> (id: &I)
        ensures
            *id == self.spec_id(),
    {
        &self.id
    }

    pub fn position(&self) -> (position: &DocumentPosition<I>)
        ensures
            *position == self.spec_position(),
    {
        &self.position
    }
}

impl<I: Clone> Clone for AnchoredBlock<I> {
    fn clone(&self) -> (copy: Self)
        ensures
            cloned(self.spec_id(), copy.spec_id()),
            cloned(self.spec_position(), copy.spec_position()),
    {
        AnchoredBlock { id: self.id.clone(), position: self.position.clone() }
    }
}

#[derive(Clone, Copy, Debug, PartialEq, Eq, Structural)]
pub enum AnchoredBlockError {
    MissingRenderer,
    DuplicateId,
    InvalidPosition(PositionError),
    EditableRegion,
    NotLineBoundary,
}

/// A display offset that follows a line: the start, the end, or behind a line
/// feed.
pub open spec fn follows_line(display: Seq<u8>, offset: int) -> bool {
    &&& at_boundary(display, offset)
    &&& offset == 0 || offset == display.len() || display[offset - 1] == 0x0a
}

/// Where a row is placed, given what its position resolves to and where that
/// is shown.
pub open spec fn row_place(
    resolved: Result<usize, PositionError>,
    projected: Option<usize>,
    display: Seq<u8>,
) -> Result<(usize, usize), AnchoredBlockError> {
    match resolved {
        Err(error) => Err(AnchoredBlockError::InvalidPosition(error)),
        Ok(source) => match projected {
            None => Err(AnchoredBlockError::InvalidPosition(PositionError::NodeNotFound)),
            Some(offset) => if follows_line(display, offset as int) {
                Ok((source, offset))
            } else {
                Err(AnchoredBlockError::NotLineBoundary)
            },
        },
    }
}

/// Where a row is placed, in the source and in the display: what its position
/// resolves to, and where that is shown, if a line ends there.
pub fn display_offset(
    resolved: Result<usize, PositionError>,
    projected: Option<usize>,
    display: &str,
) -> (place: Result<(usize, usize), AnchoredBlockError>)
    ensures
        place == row_place(resolved, projected, display.spec_bytes()),
{
    match resolved {
        Err(error) => Err(AnchoredBlockError::InvalidPosition(error)),
        Ok(source) => match projected {
            None => Err(AnchoredBlockError::InvalidPosition(PositionError::NodeNotFound)),
            Some(offset) => {
                if is_str_boundary(display, offset) && (offset == 0 || offset == byte_len(display)
                    || display.as_bytes()[offset - 1] == 0x0a) {
                    Ok((source, offset))
                } else {
                    Err(AnchoredBlockError::NotLineBoundary)
                }
            },
        },
    }
}

} // verus!
