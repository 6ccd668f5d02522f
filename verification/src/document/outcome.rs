//! What requests to a document come to.

use crate::document::anchored_block::AnchoredBlockError;
use crate::document::block::BlockError;
use crate::document::position::PositionError;
use crate::document::projection::ProjectionError;
use crate::document::region::RegionError;
use crate::document::style::DocumentStyleError;
use std::ops::Range;
use vstd::prelude::*;

verus! {

#[derive(Clone, Copy, Debug, PartialEq, Eq, Structural)]
pub enum DocumentEditRejection {
    InvalidOrigin,
    StaleRevision,
    OutsideRegion,
    CrossesRegions,
    Readonly,
    Atomic,
    InvalidBoundary,
    InvalidRegions,
    InvalidPresentation,
}

#[derive(Debug, PartialEq, Eq)]
pub enum PresentationError {
    Regions(RegionError),
    Projection(ProjectionError),
    Blocks(BlockError),
    AnchoredBlocks(AnchoredBlockError),
    Styles(DocumentStyleError),
    Position(PositionError),
}

impl Clone for PresentationError {
    fn clone(&self) -> (copy: Self)
        ensures
            copy == *self,
    {
        match self {
            PresentationError::Regions(error) => PresentationError::Regions(*error),
            PresentationError::Projection(error) => PresentationError::Projection(error.clone()),
            PresentationError::Blocks(error) => PresentationError::Blocks(error.clone()),
            PresentationError::AnchoredBlocks(error) => PresentationError::AnchoredBlocks(*error),
            PresentationError::Styles(error) => PresentationError::Styles(error.clone()),
            PresentationError::Position(error) => PresentationError::Position(*error),
        }
    }
}

#[derive(Debug, PartialEq, Eq)]
pub enum HostTransactionError {
    InvalidOrigin,
    InvalidEditRange(Range<usize>),
    StaleRevision,
    TouchesEditableRegion,
    InvalidRegions(RegionError),
    EditableRegionsChanged,
    ProjectionRequired,
    InvalidProjection(ProjectionError),
    BlocksRequired,
    InvalidBlocks(BlockError),
    StylesRequired,
    InvalidStyles(DocumentStyleError),
    /// A replaced fragment, or what replaces it, does not end where nodes
    /// and display lines do.
    FragmentBoundary,
    InvalidFragment(PresentationError),
}

impl Clone for HostTransactionError {
    fn clone(&self) -> (copy: Self)
        ensures
            copy == *self,
    {
        match self {
            HostTransactionError::InvalidOrigin => HostTransactionError::InvalidOrigin,
            HostTransactionError::InvalidEditRange(range) => HostTransactionError::InvalidEditRange(range.start..range.end),
            HostTransactionError::StaleRevision => HostTransactionError::StaleRevision,
            HostTransactionError::TouchesEditableRegion => HostTransactionError::TouchesEditableRegion,
            HostTransactionError::InvalidRegions(error) => HostTransactionError::InvalidRegions(*error),
            HostTransactionError::EditableRegionsChanged => HostTransactionError::EditableRegionsChanged,
            HostTransactionError::ProjectionRequired => HostTransactionError::ProjectionRequired,
            HostTransactionError::InvalidProjection(error) => HostTransactionError::InvalidProjection(error.clone()),
            HostTransactionError::BlocksRequired => HostTransactionError::BlocksRequired,
            HostTransactionError::InvalidBlocks(error) => HostTransactionError::InvalidBlocks(error.clone()),
            HostTransactionError::StylesRequired => HostTransactionError::StylesRequired,
            HostTransactionError::InvalidStyles(error) => HostTransactionError::InvalidStyles(error.clone()),
            HostTransactionError::FragmentBoundary => HostTransactionError::FragmentBoundary,
            HostTransactionError::InvalidFragment(error) => HostTransactionError::InvalidFragment(error.clone()),
        }
    }
}

#[derive(Clone, Copy, Debug, PartialEq, Eq, Structural)]
pub enum ScrollPinError {
    InvalidViewportFraction,
    InvalidPosition(PositionError),
}

/// What routing made of a transaction.
#[derive(Debug, PartialEq, Eq)]
pub enum RoutingOutcome<I> {
    Applied,
    Routed(I),
    Rejected(DocumentEditRejection),
}

} // verus!
