//! Moving the caret and the selection.

use crate::document::event::{DocumentEffect, DocumentEvent};
use crate::document::model::DocumentModel;
use crate::document::model_edit::{copy_position, lemma_anchor_position, lemma_offset_position};
use crate::document::model_view::ModelView;
use crate::document::position::{Affinity, DocumentPosition, PositionError};
use crate::document::region::region_index_of;
use crate::document::state::DocumentState;
use crate::document::state_view::StateView;
use crate::identity::{copy_id, lawful_id, same_id};
use crate::text::{at_boundary, clipped, line_end, line_start, Bias};
use crate::words::{next_word, previous_word};
use vstd::prelude::*;

verus! {

impl<I> ModelView<I> {
    /// Where the head of the selection is.
    pub open(crate) spec fn head_position(self) -> Result<DocumentPosition<I>, PositionError> {
        self.position_for_anchor(self.selection.spec_head())
    }

    /// Where the anchor of the selection is.
    pub open(crate) spec fn tail_position(self) -> Result<DocumentPosition<I>, PositionError> {
        self.position_for_anchor(self.selection.spec_anchor())
    }

    /// An offset in a node, if the node reaches it.
    pub open(crate) spec fn position_in_node(self, node: I, offset: int, affinity: Affinity) -> Option<
        DocumentPosition<I>,
    > {
        match region_index_of(self.regions, node) {
            Some(at) => if self.regions[at].start() <= offset <= self.regions[at].end() {
                Some(
                    DocumentPosition {
                        node_id: node,
                        offset: (offset - self.regions[at].start()) as usize,
                        affinity,
                    },
                )
            } else {
                None
            },
            None => None,
        }
    }

    /// The position that an offset has, if it has one.
    pub open(crate) spec fn any_position(self, offset: int, affinity: Affinity) -> Option<
        DocumentPosition<I>,
    > {
        match self.position_for_offset(offset, affinity) {
            Ok(position) => Some(position),
            Err(_) => None,
        }
    }

    /// Where the head goes to: it stays in its node where that reaches the
    /// offset.
    pub open(crate) spec fn head_target(self, offset: int) -> Option<DocumentPosition<I>> {
        match self.head_position() {
            Ok(head) => match self.position_in_node(
                head.spec_node_id(),
                offset,
                Affinity::After,
            ) {
                Some(position) => Some(position),
                None => self.any_position(offset, Affinity::After),
            },
            Err(_) => self.any_position(offset, Affinity::After),
        }
    }

    /// The offset before an offset.
    pub open spec fn before(self, offset: int) -> int {
        clipped(
            self.bytes,
            if offset > 0 {
                offset - 1
            } else {
                0
            },
            Bias::Left,
        )
    }

    /// The offset behind an offset.
    pub open spec fn behind(self, offset: int) -> int {
        clipped(self.bytes, offset + 1, Bias::Right)
    }

    /// Where the caret goes to the left: a selection collapses to its start.
    pub open spec fn left_of_selection(self) -> int {
        if self.selected().0 < self.selected().1 {
            self.selected().0
        } else {
            self.before(self.cursor())
        }
    }

    /// Where the caret goes to the right: a selection collapses to its end.
    pub open spec fn right_of_selection(self) -> int {
        if self.selected().0 < self.selected().1 {
            self.selected().1
        } else {
            self.behind(self.cursor())
        }
    }

    /// Where moving up or down starts: a selection is left at its nearer end.
    pub open(crate) spec fn vertical_start(self, down: bool) -> Option<DocumentPosition<I>> {
        let from = if self.selected().0 >= self.selected().1 {
            self.cursor()
        } else if down {
            self.selected().1
        } else {
            self.selected().0
        };
        if from == self.cursor() {
            match self.head_position() {
                Ok(head) => Some(head),
                Err(_) => None,
            }
        } else {
            self.any_position(from, Affinity::After)
        }
    }
}

impl<I> StateView<I> {
    /// The next edit is a record of its own, and the column that moves up and
    /// down keep to is forgotten.
    pub open(crate) spec fn settled(self) -> StateView<I> {
        self.broken().with_effect(DocumentEffect::ForgetColumn)
    }

    /// The head at a position, and the anchor too unless the selection is
    /// extended.
    pub open(crate) spec fn moved_to(self, position: DocumentPosition<I>, extend: bool) -> StateView<
        I,
    > {
        let quiet = self.settled();
        match self.model.tail_position() {
            Ok(anchor) => {
                let from = if extend {
                    anchor
                } else {
                    position
                };
                quiet.with_model(
                    self.model.with_positions(from, position),
                ).revealing().selection_told()
            },
            Err(_) => if extend {
                quiet
            } else {
                quiet.with_model(
                    self.model.with_positions(position, position),
                ).revealing().selection_told()
            },
        }
    }

    /// The head at an offset, if some node reaches it.
    pub open(crate) spec fn head_moved(self, offset: int, extend: bool) -> StateView<I> {
        match self.model.head_target(offset) {
            Some(position) => self.moved_to(position, extend),
            None => self,
        }
    }

    /// The head at one end of the document.
    pub open(crate) spec fn jumped(self, offset: int, affinity: Affinity, extend: bool) -> StateView<
        I,
    > {
        match self.model.any_position(offset, affinity) {
            Some(position) => self.moved_to(position, extend),
            None => self,
        }
    }

    /// All of the document selected.
    pub open(crate) spec fn all_selected(self) -> StateView<I> {
        self.settled().with_model(
            self.model.with_selection(0, self.model.bytes.len() as int),
        ).selection_told()
    }

    /// A range of the source selected, moved to character boundaries.
    pub open(crate) spec fn range_selected(self, start: int, end: int, reversed: bool) -> StateView<
        I,
    > {
        let first = clipped(self.model.bytes, start, Bias::Left);
        let last = clipped(self.model.bytes, end, Bias::Right);
        let quiet = self.settled().with_effect(DocumentEffect::StopAutoScroll);
        quiet.with_model(
            if reversed {
                quiet.model.with_selection(last, first)
            } else {
                quiet.model.with_selection(first, last)
            },
        ).selection_told()
    }

    /// Before a press on text selects: the view stops following anything.
    pub open(crate) spec fn pressed(self) -> StateView<I> {
        StateView {
            reveal: false,
            ..self.settled().with_effect(
                DocumentEffect::StopAutoScroll,
            ).unfollowed().without_viewport()
        }
    }

    /// After a press at a position, if there is one.
    pub open(crate) spec fn pressed_at(
        self,
        position: Option<DocumentPosition<I>>,
        extend: bool,
    ) -> StateView<I> {
        let quiet = self.pressed();
        match position {
            Some(position) => {
                let anchor = match quiet.model.tail_position() {
                    Ok(anchor) => if extend {
                        anchor
                    } else {
                        position
                    },
                    Err(_) => position,
                };
                quiet.with_model(
                    quiet.model.with_positions(anchor, position),
                ).selection_told()
            },
            None => quiet,
        }
    }

    /// After a drag to a position, if there is one.
    pub open(crate) spec fn dragged_to(self, position: Option<DocumentPosition<I>>) -> StateView<I> {
        match (position, self.model.tail_position()) {
            (Some(position), Ok(anchor)) => if self.model.head_position() == Ok::<
                DocumentPosition<I>,
                PositionError,
            >(position) {
                self
            } else {
                self.with_model(self.model.with_positions(anchor, position)).selection_told()
            },
            _ => self,
        }
    }

    // -----------------------------------------------------------------------
    // The keys that move the caret
    // -----------------------------------------------------------------------

    pub open(crate) spec fn moved_left(self) -> StateView<I> {
        self.head_moved(self.model.left_of_selection(), false)
    }

    pub open(crate) spec fn moved_right(self) -> StateView<I> {
        self.head_moved(self.model.right_of_selection(), false)
    }

    pub open(crate) spec fn selected_left(self) -> StateView<I> {
        self.head_moved(self.model.before(self.model.cursor()), true)
    }

    pub open(crate) spec fn selected_right(self) -> StateView<I> {
        self.head_moved(self.model.behind(self.model.cursor()), true)
    }

    /// At the start of the caret's line.
    pub open(crate) spec fn at_line_start(self, extend: bool) -> StateView<I> {
        self.head_moved(line_start(self.model.bytes, self.model.cursor()), extend)
    }

    /// At the end of the caret's line.
    pub open(crate) spec fn at_line_end(self, extend: bool) -> StateView<I> {
        self.head_moved(line_end(self.model.bytes, self.model.cursor()), extend)
    }

    /// At the start of the document.
    pub open(crate) spec fn at_start(self, extend: bool) -> StateView<I> {
        self.jumped(0, Affinity::Before, extend)
    }

    /// At the end of the document.
    pub open(crate) spec fn at_end(self, extend: bool) -> StateView<I> {
        self.jumped(self.model.bytes.len() as int, Affinity::After, extend)
    }

    /// At the start of the word before the caret.
    pub open(crate) spec fn at_previous_word(self, extend: bool) -> StateView<I> {
        self.head_moved(previous_word(self.model.bytes, self.model.cursor()), extend)
    }

    /// Behind the word at the caret.
    pub open(crate) spec fn at_next_word(self, extend: bool) -> StateView<I> {
        self.head_moved(next_word(self.model.bytes, self.model.cursor()), extend)
    }
}

/// A position in a node that an offset between characters lies in resolves.
pub proof fn lemma_position_in_node<I>(m: ModelView<I>, node: I, offset: int, affinity: Affinity)
    requires
        m.wf(),
        at_boundary(m.bytes, offset),
    ensures
        m.position_in_node(node, offset, affinity) matches Some(position) ==> m.resolve_position(
            position,
        ) == Ok::<usize, PositionError>(offset as usize),
{
    if let Some(at) = region_index_of(m.regions, node) {
        assert(m.regions[at].start() <= m.regions[at].end() <= m.bytes.len());
    }
}

/// Where the head goes to resolves.
pub(crate) proof fn lemma_head_target<I>(m: ModelView<I>, offset: int)
    requires
        m.wf(),
        at_boundary(m.bytes, offset),
    ensures
        m.head_target(offset) matches Some(position) ==> m.resolve_position(position) == Ok::<
            usize,
            PositionError,
        >(offset as usize),
{
    lemma_offset_position(m, offset, Affinity::After);
    if let Ok(head) = m.head_position() {
        lemma_position_in_node(m, head.spec_node_id(), offset, Affinity::After);
    }
}

impl<I: Clone + Eq> DocumentModel<I> {
    /// Where the head of the selection is.
    pub fn head_position(&self) -> (position: Result<DocumentPosition<I>, PositionError>)
        requires
            self.wf(),
        ensures
            position == self@.head_position(),
            position matches Ok(p) ==> self@.resolve_position(p) is Ok,
    {
        proof {
            lemma_anchor_position(
                self@,
                self@.selection.spec_head(),
            );
        }
        self.position_for_anchor(self.selection.head())
    }

    /// Where the anchor of the selection is.
    pub fn tail_position(&self) -> (position: Result<DocumentPosition<I>, PositionError>)
        requires
            self.wf(),
        ensures
            position == self@.tail_position(),
            position matches Ok(p) ==> self@.resolve_position(p) is Ok,
    {
        proof {
            lemma_anchor_position(
                self@,
                self@.selection.spec_anchor(),
            );
        }
        self.position_for_anchor(self.selection.anchor())
    }

    /// An offset in a node, if the node reaches it.
    pub(crate) fn position_in_node(&self, node: &I, offset: usize, affinity: Affinity) -> (position:
        Option<DocumentPosition<I>>)
        requires
            self.wf(),
        ensures
            position == self@.position_in_node(*node, offset as int, affinity),
    {
        match self.region_index(node) {
            Some(at) => {
                let region = self.regions.regions[at].range();
                if region.start <= offset && offset <= region.end {
                    Some(
                        DocumentPosition {
                            node_id: copy_id(node),
                            offset: offset - region.start,
                            affinity,
                        },
                    )
                } else {
                    None
                }
            },
            None => None,
        }
    }

    /// The position that an offset has, if it has one.
    pub(crate) fn any_position(&self, offset: usize, affinity: Affinity) -> (position: Option<
        DocumentPosition<I>,
    >)
        requires
            self.wf(),
        ensures
            position == self@.any_position(offset as int, affinity),
    {
        match self.position_for_offset(offset, affinity) {
            Ok(position) => Some(position),
            Err(_) => None,
        }
    }

    fn head_target(&self, offset: usize) -> (position: Option<DocumentPosition<I>>)
        requires
            self.wf(),
        ensures
            position == self@.head_target(offset as int),
    {
        match self.head_position() {
            Ok(head) => match self.position_in_node(&head.node_id, offset, Affinity::After) {
                Some(position) => Some(position),
                None => self.any_position(offset, Affinity::After),
            },
            Err(_) => self.any_position(offset, Affinity::After),
        }
    }

    /// The offset before an offset.
    pub fn previous_boundary(&self, offset: usize) -> (before: usize)
        ensures
            before == self@.before(offset as int),
            at_boundary(self@.bytes, before as int),
    {
        self.text.clip_offset(offset.saturating_sub(1), Bias::Left)
    }

    /// The offset behind an offset.
    pub fn next_boundary(&self, offset: usize) -> (behind: usize)
        requires
            self.wf(),
        ensures
            behind == self@.behind(offset as int),
            at_boundary(self@.bytes, behind as int),
    {
        let behind = offset.saturating_add(1);
        self.text.clip_offset(behind, Bias::Right)
    }

    /// Where moving up or down starts.
    pub fn vertical_start(&self, down: bool) -> (position: Option<DocumentPosition<I>>)
        requires
            self.wf(),
        ensures
            position == self@.vertical_start(down),
    {
        let range = self.selected_range();
        let cursor = self.cursor();
        let from = if range.start >= range.end {
            cursor
        } else if down {
            range.end
        } else {
            range.start
        };
        if from == cursor {
            match self.head_position() {
                Ok(head) => Some(head),
                Err(_) => None,
            }
        } else {
            self.any_position(from, Affinity::After)
        }
    }
}

impl<I: Clone + Eq> DocumentState<I> {
    pub(crate) fn settle(&mut self)
        requires
            old(self).wf(),
        ensures
            final(self).wf(),
            final(self)@ == old(self)@.settled(),
    {
        self.break_coalescing();
        self.effect(DocumentEffect::ForgetColumn);
    }

    pub(crate) fn tell_selection(&mut self)
        requires
            old(self).wf(),
        ensures
            final(self).wf(),
            final(self)@ == old(self)@.selection_told(),
    {
        self.emit(DocumentEvent::SelectionChanged);
        self.notify();
    }

    /// Selects positions that resolve.
    pub(crate) fn select_resolved(&mut self, anchor: DocumentPosition<I>, head: DocumentPosition<I>)
        requires
            old(self).wf(),
            old(self)@.model.has_room(2),
            old(self)@.model.resolve_position(anchor) is Ok,
            old(self)@.model.resolve_position(head) is Ok,
        ensures
            final(self).wf(),
            final(self)@ == old(self)@.with_model(
                old(self)@.model.with_positions(anchor, head),
            ),
    {
        match self.select_positions(anchor, head) {
            Ok(()) => {},
            Err(_) => {},
        }
    }

    /// Moves the head of the selection to a position that resolves, and the
    /// anchor too unless the selection is extended.
    pub fn move_selection_to_position(&mut self, position: DocumentPosition<I>, extend: bool)
        requires
            old(self).wf(),
            old(self)@.model.has_room(2),
            old(self)@.model.resolve_position(position) is Ok,
        ensures
            final(self).wf(),
            final(self)@ == old(self)@.moved_to(position, extend),
    {
        self.settle();
        if extend {
            let anchor = match self.model.tail_position() {
                Ok(anchor) => anchor,
                Err(_) => {
                    return;
                },
            };
            self.select_resolved(anchor, position);
        } else {
            let anchor = copy_position(&position);
            self.select_resolved(anchor, position);
        }
        self.request_caret_reveal();
        self.tell_selection();
    }

    /// Moves the head of the selection to an offset between characters.
    pub fn move_selection_head(&mut self, offset: usize, extend: bool)
        requires
            old(self).wf(),
            old(self)@.model.has_room(2),
            at_boundary(old(self)@.model.bytes, offset as int),
        ensures
            final(self).wf(),
            final(self)@ == old(self)@.head_moved(offset as int, extend),
    {
        proof {
            lemma_head_target(self@.model, offset as int);
        }
        if let Some(position) = self.model.head_target(offset) {
            self.move_selection_to_position(position, extend);
        }
    }

    /// Moves the caret to the left.
    pub fn move_left(&mut self)
        requires
            old(self).wf(),
            old(self)@.model.has_room(2),
        ensures
            final(self).wf(),
            final(self)@ == old(self)@.moved_left(),
    {
        let range = self.model.selected_range();
        let offset = if range.start >= range.end {
            self.model.previous_boundary(self.model.cursor())
        } else {
            range.start
        };
        self.move_selection_head(offset, false);
    }

    /// Moves the caret to the right.
    pub fn move_right(&mut self)
        requires
            old(self).wf(),
            old(self)@.model.has_room(2),
        ensures
            final(self).wf(),
            final(self)@ == old(self)@.moved_right(),
    {
        let range = self.model.selected_range();
        let offset = if range.start >= range.end {
            self.model.next_boundary(self.model.cursor())
        } else {
            range.end
        };
        self.move_selection_head(offset, false);
    }

    /// Extends the selection to the left.
    pub fn select_left(&mut self)
        requires
            old(self).wf(),
            old(self)@.model.has_room(2),
        ensures
            final(self).wf(),
            final(self)@ == old(self)@.selected_left(),
    {
        let (_, head) = self.model.selection_offsets();
        let offset = self.model.previous_boundary(head);
        self.move_selection_head(offset, true);
    }

    /// Extends the selection to the right.
    pub fn select_right(&mut self)
        requires
            old(self).wf(),
            old(self)@.model.has_room(2),
        ensures
            final(self).wf(),
            final(self)@ == old(self)@.selected_right(),
    {
        let (_, head) = self.model.selection_offsets();
        let offset = self.model.next_boundary(head);
        self.move_selection_head(offset, true);
    }

    /// Moves the head to the start of the caret's line.
    fn head_to_start_of_line(&mut self, extend: bool)
        requires
            old(self).wf(),
            old(self)@.model.has_room(2),
        ensures
            final(self).wf(),
            final(self)@ == old(self)@.at_line_start(extend),
    {
        let offset = self.model.text.start_of_line(self.model.cursor());
        self.move_selection_head(offset, extend);
    }

    /// Moves the head to the end of the caret's line.
    fn head_to_end_of_line(&mut self, extend: bool)
        requires
            old(self).wf(),
            old(self)@.model.has_room(2),
        ensures
            final(self).wf(),
            final(self)@ == old(self)@.at_line_end(extend),
    {
        let offset = self.model.text.end_of_line(self.model.cursor());
        self.move_selection_head(offset, extend);
    }

    /// Moves the caret to the start of its line.
    pub fn move_home(&mut self)
        requires
            old(self).wf(),
            old(self)@.model.has_room(2),
        ensures
            final(self).wf(),
            final(self)@ == old(self)@.at_line_start(false),
    {
        self.head_to_start_of_line(false);
    }

    /// Moves the caret to the end of its line.
    pub fn move_end(&mut self)
        requires
            old(self).wf(),
            old(self)@.model.has_room(2),
        ensures
            final(self).wf(),
            final(self)@ == old(self)@.at_line_end(false),
    {
        self.head_to_end_of_line(false);
    }

    /// Moves the caret to the start of its line.
    pub fn move_to_start_of_line(&mut self)
        requires
            old(self).wf(),
            old(self)@.model.has_room(2),
        ensures
            final(self).wf(),
            final(self)@ == old(self)@.at_line_start(false),
    {
        self.head_to_start_of_line(false);
    }

    /// Moves the caret to the end of its line.
    pub fn move_to_end_of_line(&mut self)
        requires
            old(self).wf(),
            old(self)@.model.has_room(2),
        ensures
            final(self).wf(),
            final(self)@ == old(self)@.at_line_end(false),
    {
        self.head_to_end_of_line(false);
    }

    /// Extends the selection to the start of the caret's line.
    pub fn select_to_start_of_line(&mut self)
        requires
            old(self).wf(),
            old(self)@.model.has_room(2),
        ensures
            final(self).wf(),
            final(self)@ == old(self)@.at_line_start(true),
    {
        self.head_to_start_of_line(true);
    }

    /// Extends the selection to the end of the caret's line.
    pub fn select_to_end_of_line(&mut self)
        requires
            old(self).wf(),
            old(self)@.model.has_room(2),
        ensures
            final(self).wf(),
            final(self)@ == old(self)@.at_line_end(true),
    {
        self.head_to_end_of_line(true);
    }

    /// Jumps to an end of the document. The node at that end is chosen even
    /// where it shares an offset with the current one.
    fn jump(&mut self, offset: usize, affinity: Affinity, extend: bool)
        requires
            old(self).wf(),
            old(self)@.model.has_room(2),
            offset <= old(self)@.model.bytes.len(),
        ensures
            final(self).wf(),
            final(self)@ == old(self)@.jumped(offset as int, affinity, extend),
    {
        proof {
            lemma_offset_position(
                self@.model,
                offset as int,
                affinity,
            );
        }
        if let Some(position) = self.model.any_position(offset, affinity) {
            self.move_selection_to_position(position, extend);
        }
    }

    /// Moves the caret to the start of the document.
    pub fn move_to_start(&mut self)
        requires
            old(self).wf(),
            old(self)@.model.has_room(2),
        ensures
            final(self).wf(),
            final(self)@ == old(self)@.at_start(false),
    {
        self.jump(0, Affinity::Before, false);
    }

    /// Moves the caret to the end of the document.
    pub fn move_to_end(&mut self)
        requires
            old(self).wf(),
            old(self)@.model.has_room(2),
        ensures
            final(self).wf(),
            final(self)@ == old(self)@.at_end(false),
    {
        let end = self.model.text.len();
        self.jump(end, Affinity::After, false);
    }

    /// Extends the selection to the start of the document.
    pub fn select_to_start(&mut self)
        requires
            old(self).wf(),
            old(self)@.model.has_room(2),
        ensures
            final(self).wf(),
            final(self)@ == old(self)@.at_start(true),
    {
        self.jump(0, Affinity::Before, true);
    }

    /// Extends the selection to the end of the document.
    pub fn select_to_end(&mut self)
        requires
            old(self).wf(),
            old(self)@.model.has_room(2),
        ensures
            final(self).wf(),
            final(self)@ == old(self)@.at_end(true),
    {
        let end = self.model.text.len();
        self.jump(end, Affinity::After, true);
    }

    /// Moves the caret to the start of the word before it.
    pub fn move_to_previous_word(&mut self)
        requires
            old(self).wf(),
            old(self)@.model.has_room(2),
        ensures
            final(self).wf(),
            final(self)@ == old(self)@.at_previous_word(false),
    {
        let offset = self.model.text.previous_word_boundary(self.model.cursor());
        self.move_selection_head(offset, false);
    }

    /// Moves the caret behind the word at it.
    pub fn move_to_next_word(&mut self)
        requires
            old(self).wf(),
            old(self)@.model.has_room(2),
        ensures
            final(self).wf(),
            final(self)@ == old(self)@.at_next_word(false),
    {
        let offset = self.model.text.next_word_boundary(self.model.cursor());
        self.move_selection_head(offset, false);
    }

    /// Extends the selection to the start of the word before the caret.
    pub fn select_to_previous_word(&mut self)
        requires
            old(self).wf(),
            old(self)@.model.has_room(2),
        ensures
            final(self).wf(),
            final(self)@ == old(self)@.at_previous_word(true),
    {
        let offset = self.model.text.previous_word_boundary(self.model.cursor());
        self.move_selection_head(offset, true);
    }

    /// Extends the selection behind the word at the caret.
    pub fn select_to_next_word(&mut self)
        requires
            old(self).wf(),
            old(self)@.model.has_room(2),
        ensures
            final(self).wf(),
            final(self)@ == old(self)@.at_next_word(true),
    {
        let offset = self.model.text.next_word_boundary(self.model.cursor());
        self.move_selection_head(offset, true);
    }

    /// Selects the whole document.
    pub fn select_all(&mut self)
        requires
            old(self).wf(),
            old(self)@.model.has_room(2),
        ensures
            final(self).wf(),
            final(self)@ == old(self)@.all_selected(),
    {
        self.settle();
        let end = self.model.text.len();
        self.select_offsets(0, end);
        self.tell_selection();
    }

    /// Where moving up or down starts, if it starts anywhere.
    pub fn vertical_start(&self, down: bool) -> (position: Option<DocumentPosition<I>>)
        requires
            self.wf(),
        ensures
            position == self@.model.vertical_start(down),
    {
        self.model.vertical_start(down)
    }

    /// A press on a block ends scrolling, and selects nothing.
    pub fn press_block(&mut self)
        requires
            old(self).wf(),
        ensures
            final(self).wf(),
            final(self)@ == old(self)@.settled().with_effect(DocumentEffect::StopAutoScroll),
    {
        self.settle();
        self.effect(DocumentEffect::StopAutoScroll);
    }

    /// A press selects the position that it hits, or extends the selection to
    /// it.
    pub fn press(&mut self, position: Option<DocumentPosition<I>>, extend: bool)
        requires
            old(self).wf(),
            old(self)@.model.has_room(2),
            position matches Some(position) ==> old(self)@.model.resolve_position(position) is Ok,
        ensures
            final(self).wf(),
            final(self)@ == old(self)@.pressed_at(position, extend),
    {
        self.settle();
        self.effect(DocumentEffect::StopAutoScroll);
        self.stop_following();
        self.clear_pending_viewport_anchor();
        self.caret_reveal_pending = false;
        assert(self@ =~= old(self)@.pressed());
        let position = match position {
            Some(position) => position,
            None => {
                return;
            },
        };
        let anchor = if extend {
            match self.model.tail_position() {
                Ok(anchor) => anchor,
                Err(_) => copy_position(&position),
            }
        } else {
            copy_position(&position)
        };
        self.select_resolved(anchor, position);
        self.tell_selection();
    }

    /// A drag moves the head of the selection to the position that it hits.
    pub fn extend_pointer_selection(&mut self, position: Option<DocumentPosition<I>>)
        requires
            old(self).wf(),
            old(self)@.model.has_room(2),
            position matches Some(position) ==> old(self)@.model.resolve_position(position) is Ok,
        ensures
            final(self).wf(),
            final(self)@ == old(self)@.dragged_to(position),
    {
        let head = match position {
            Some(head) => head,
            None => {
                return;
            },
        };
        let anchor = match self.model.tail_position() {
            Ok(anchor) => anchor,
            Err(_) => {
                return;
            },
        };
        let moved = match self.model.head_position() {
            Ok(current) => !same_position(&current, &head),
            Err(_) => true,
        };
        if moved {
            self.select_resolved(anchor, head);
            self.tell_selection();
        }
    }
}

/// Whether two positions are the same.
fn same_position<I: Clone + Eq>(left: &DocumentPosition<I>, right: &DocumentPosition<I>) -> (same:
    bool)
    requires
        lawful_id::<I>(),
    ensures
        same == (*left == *right),
{
    same_id(&left.node_id, &right.node_id) && left.offset == right.offset
        && left.affinity == right.affinity
}

} // verus!
