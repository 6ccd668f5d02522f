//! What a document reports and asks of the view that shows it, and what a
//! host hands to it.

use crate::document::anchored_block::AnchoredBlock;
use crate::document::block::DocumentBlock;
use crate::document::outcome::DocumentEditRejection;
use crate::document::position::{DocumentPosition, DocumentRevision};
use crate::document::projection::{DocumentProjection, ProjectionView};
use crate::document::region::DocumentRegion;
use crate::document::style::{DocumentStyles, StylesView};
use crate::document::transaction::{EditOrigin, EditTransaction};
use crate::text::byte_len;
use std::ops::Range;
use vstd::prelude::*;
use vstd::string::*;
use vstd::utf8::*;

verus! {

/// An edit that a routed region received. The host decides about it.
#[derive(Debug, PartialEq, Eq)]
pub struct RoutedEdit<I> {
    pub(crate) region_id: I,
    pub(crate) transaction: EditTransaction,
}

/// A copy of a routed edit.
pub open spec fn routed_copied<I: Clone>(edit: RoutedEdit<I>, copy: RoutedEdit<I>) -> bool {
    &&& cloned(edit.spec_region_id(), copy.spec_region_id())
    &&& copy.spec_transaction().spec_revision() == edit.spec_transaction().spec_revision()
    &&& copy.spec_transaction().spec_origin() == edit.spec_transaction().spec_origin()
    &&& copy.spec_transaction().spec_edits() == edit.spec_transaction().spec_edits()
}

impl<I: Clone> Clone for RoutedEdit<I> {
    fn clone(&self) -> (copy: Self)
        ensures
            routed_copied(*self, copy),
    {
        RoutedEdit { region_id: self.region_id.clone(), transaction: self.transaction.clone() }
    }
}

impl<I> RoutedEdit<I> {
    pub open(crate) spec fn of(region_id: I, transaction: EditTransaction) -> RoutedEdit<I> {
        RoutedEdit { region_id, transaction }
    }

    pub open(crate) spec fn spec_region_id(self) -> I {
        self.region_id
    }

    pub open(crate) spec fn spec_transaction(self) -> EditTransaction {
        self.transaction
    }

    pub fn region_id(&self) -> (id: &I)
        ensures
            *id == self.spec_region_id(),
    {
        &self.region_id
    }

    pub fn transaction(&self) -> (transaction: &EditTransaction)
        ensures
            *transaction == self.spec_transaction(),
    {
        &self.transaction
    }
}

/// What a document tells its host.
#[derive(Debug, PartialEq, Eq)]
pub enum DocumentEvent<I> {
    Changed { revision: DocumentRevision, origin: EditOrigin },
    Routed(RoutedEdit<I>),
    Rejected(DocumentEditRejection),
    SelectionChanged,
    ProjectionChanged,
    PresentationChanged,
    StopFollowingRequested { pin_id: I },
}

impl<I: Clone> Clone for DocumentEvent<I> {
    fn clone(&self) -> (copy: Self)
        ensures
            match (*self, copy) {
                (DocumentEvent::Routed(edit), DocumentEvent::Routed(other)) => routed_copied(
                    edit,
                    other,
                ),
                (
                    DocumentEvent::StopFollowingRequested { pin_id },
                    DocumentEvent::StopFollowingRequested { pin_id: other },
                ) => cloned(pin_id, other),
                (DocumentEvent::Routed(_), _) => false,
                (DocumentEvent::StopFollowingRequested { .. }, _) => false,
                _ => copy == *self,
            },
    {
        match self {
            DocumentEvent::Changed { revision, origin } => DocumentEvent::Changed {
                revision: *revision,
                origin: *origin,
            },
            DocumentEvent::Routed(edit) => DocumentEvent::Routed(edit.clone()),
            DocumentEvent::Rejected(reason) => DocumentEvent::Rejected(*reason),
            DocumentEvent::SelectionChanged => DocumentEvent::SelectionChanged,
            DocumentEvent::ProjectionChanged => DocumentEvent::ProjectionChanged,
            DocumentEvent::PresentationChanged => DocumentEvent::PresentationChanged,
            DocumentEvent::StopFollowingRequested { pin_id } =>
            DocumentEvent::StopFollowingRequested { pin_id: pin_id.clone() },
        }
    }
}

/// What a document asks of the view that shows it, in order.
#[derive(Debug, PartialEq, Eq)]
pub enum DocumentEffect<I> {
    /// Tell the host.
    Emit(DocumentEvent<I>),
    /// Paint again.
    Notify,
    /// Forget the column that vertical movement keeps to.
    ForgetColumn,
    /// Stop scrolling under a dragged pointer.
    StopAutoScroll,
    /// Replace the rows `from..to` by `count` rows, and measure those.
    SpliceItems { from: usize, to: usize, count: usize },
    /// Forget every row, every measurement and every scroll input. There are
    /// now this many rows.
    ResetItems(usize),
    /// Measure the rows `from..to` again.
    RemeasureItems { from: usize, to: usize },
    /// Scroll so far that a row is visible.
    RevealItem(usize),
    /// Forget how high the space behind the last line is.
    ForgetTrailer,
}

/// The text row that a host may wrap.
#[derive(Debug, PartialEq, Eq)]
pub struct DocumentTextContext<I> {
    pub(crate) node_id: I,
    pub(crate) source: Range<usize>,
    pub(crate) first_line: bool,
}

impl<I: Clone> Clone for DocumentTextContext<I> {
    fn clone(&self) -> (copy: Self)
        ensures
            cloned(self.spec_node_id(), copy.spec_node_id()),
            copy.spec_source() == self.spec_source(),
            copy.spec_first_line() == self.spec_first_line(),
    {
        DocumentTextContext {
            node_id: self.node_id.clone(),
            source: self.source.start..self.source.end,
            first_line: self.first_line,
        }
    }
}

impl<I> DocumentTextContext<I> {
    pub open(crate) spec fn of(node_id: I, source: Range<usize>, first_line: bool) -> DocumentTextContext<
        I,
    > {
        DocumentTextContext { node_id, source, first_line }
    }

    pub open(crate) spec fn spec_node_id(self) -> I {
        self.node_id
    }

    pub open(crate) spec fn spec_source(self) -> Range<usize> {
        self.source
    }

    pub open(crate) spec fn spec_first_line(self) -> bool {
        self.first_line
    }

    pub fn node_id(&self) -> (id: &I)
        ensures
            *id == self.spec_node_id(),
    {
        &self.node_id
    }

    pub fn source(&self) -> (source: Range<usize>)
        ensures
            source == self.spec_source(),
    {
        self.source.start..self.source.end
    }

    pub fn is_first_line(&self) -> (first: bool)
        ensures
            first == self.spec_first_line(),
    {
        self.first_line
    }
}

/// A whole document, as a host hands it over.
pub struct DocumentSnapshot<I> {
    pub(crate) text: String,
    pub(crate) regions: Vec<DocumentRegion<I>>,
    pub(crate) projection: DocumentProjection,
    pub(crate) blocks: Vec<DocumentBlock<I>>,
    pub(crate) anchored_blocks: Vec<AnchoredBlock<I>>,
    pub(crate) styles: DocumentStyles,
    pub(crate) selection: Option<DocumentPosition<I>>,
}

#[verifier::ext_equal]
pub struct SnapshotView<I> {
    pub text: Seq<u8>,
    pub regions: Seq<DocumentRegion<I>>,
    pub projection: ProjectionView,
    pub blocks: Seq<DocumentBlock<I>>,
    pub anchored: Seq<AnchoredBlock<I>>,
    pub styles: StylesView,
    pub selection: Option<DocumentPosition<I>>,
}

impl<I> View for DocumentSnapshot<I> {
    type V = SnapshotView<I>;

    open(crate) spec fn view(&self) -> SnapshotView<I> {
        SnapshotView {
            text: encode_utf8(self.text@),
            regions: self.regions@,
            projection: self.projection@,
            blocks: self.blocks@,
            anchored: self.anchored_blocks@,
            styles: self.styles@,
            selection: self.selection,
        }
    }
}

impl<I> DocumentSnapshot<I> {
    pub fn new(
        text: &str,
        regions: Vec<DocumentRegion<I>>,
        projection: DocumentProjection,
        blocks: Vec<DocumentBlock<I>>,
        styles: DocumentStyles,
    ) -> (snapshot: Self)
        ensures
            snapshot@ == (SnapshotView {
                text: text.spec_bytes(),
                regions: regions@,
                projection: projection@,
                blocks: blocks@,
                anchored: Seq::empty(),
                styles: styles@,
                selection: None,
            }),
    {
        DocumentSnapshot {
            text: text.to_string(),
            regions,
            projection,
            blocks,
            anchored_blocks: Vec::new(),
            styles,
            selection: None,
        }
    }

    /// The number of bytes that are displayed, where it can be counted.
    pub fn display_len(&self) -> (len: Option<usize>)
        requires
            self@.projection.valid(),
        ensures
            match len {
                Some(len) => len == self@.projection.display_len(),
                None => self@.projection.display_len() > usize::MAX,
            },
    {
        self.projection.display_len()
    }

    /// The number of bytes of the text.
    pub fn text_len(&self) -> (len: usize)
        ensures
            len == self@.text.len(),
    {
        byte_len(self.text.as_str())
    }

    pub fn selection(self, selection: DocumentPosition<I>) -> (snapshot: Self)
        ensures
            snapshot@ == (SnapshotView { selection: Some(selection), ..self@ }),
    {
        DocumentSnapshot { selection: Some(selection), ..self }
    }

    pub fn anchored_blocks(self, anchored_blocks: Vec<AnchoredBlock<I>>) -> (snapshot: Self)
        ensures
            snapshot@ == (SnapshotView { anchored: anchored_blocks@, ..self@ }),
    {
        DocumentSnapshot { anchored_blocks, ..self }
    }
}

} // verus!
