//! What a platform's text input asks of a document and tells it. Platforms
//! count UTF-16 code units.

use crate::document::model::{lemma_resolved, range_ends, DocumentModel};
use crate::document::model_edit::lemma_offset_position;
use crate::document::model_view::ModelView;
use crate::document::position::{Affinity, DocumentPosition, PositionError};
use crate::document::state::{lemma_spared, lemma_spares_marked, position_of, DocumentState};
use crate::document::state_move::lemma_position_in_node;
use crate::document::state_view::StateView;
use crate::document::transaction::EditOrigin;
use crate::text::{at_boundary, boundary_range, utf16_floor, utf16_offset, utf16_units, SourceText};
use std::ops::Range;
use vstd::prelude::*;
use vstd::string::*;
use vstd::utf8::*;

verus! {

impl<I> ModelView<I> {
    /// The offsets of a range in code units.
    pub open spec fn from_utf16(self, range: (int, int)) -> (int, int) {
        (utf16_offset(self.bytes, range.0), utf16_offset(self.bytes, range.1))
    }

    /// A range of offsets in code units.
    pub open spec fn to_utf16(self, range: (int, int)) -> (int, int) {
        (
            utf16_units(self.bytes.subrange(0, range.0)) as int,
            utf16_units(self.bytes.subrange(0, range.1)) as int,
        )
    }

    /// The text in a range of code units, and the range that it really has.
    pub open spec fn text_in_units(self, range: (int, int)) -> (Seq<u8>, (int, int)) {
        let (start, end) = self.from_utf16(range);
        (self.bytes.subrange(start, end), self.to_utf16((start, end)))
    }

    /// The selection in code units, and whether the caret is at its start.
    pub open spec fn selection_units(self) -> ((int, int), bool) {
        (self.to_utf16(self.selected()), self.cursor() < self.anchor_offset())
    }

    /// The marked range in code units.
    pub open spec fn marked_units(self) -> Option<(int, int)> {
        match self.marked_range() {
            Some(marked) => Some(self.to_utf16(marked)),
            None => None,
        }
    }

    /// The position of an offset for the input: it stays in the node of the
    /// head where that reaches the offset.
    pub open(crate) spec fn input_position(self, offset: int, affinity: Affinity) -> Option<
        DocumentPosition<I>,
    > {
        match self.head_position() {
            Ok(head) => match self.position_in_node(head.spec_node_id(), offset, affinity) {
                Some(position) => Some(position),
                None => self.any_position(offset, affinity),
            },
            Err(_) => None,
        }
    }

    /// The range that input replaces: one in code units, else the marked
    /// range, else the selection.
    pub open spec fn input_range(self, range: Option<(int, int)>) -> (int, int) {
        match range {
            Some(range) => self.from_utf16(range),
            None => match self.marked_range() {
                Some(marked) => marked,
                None => self.selected(),
            },
        }
    }

    /// With the selection that the input asks for.
    pub open(crate) spec fn input_selected(self, range: (int, int)) -> ModelView<I> {
        let (start, end) = self.from_utf16(range);
        match (
            self.input_position(start, Affinity::After),
            self.input_position(end, Affinity::Before),
        ) {
            (Some(anchor), Some(head)) => self.with_positions(anchor, head),
            _ => self.with_selection(start, end),
        }
    }
}

impl<I> StateView<I> {
    /// The marked range given up, and its composition ended.
    pub open(crate) spec fn unmarked(self) -> StateView<I> {
        StateView { undo: self.undo.finished(), ..self.with_model(self.model.with_marked(None)) }
    }

    /// With a range of code units selected.
    pub open(crate) spec fn units_selected(self, range: (int, int)) -> StateView<I> {
        self.settled().with_model(self.model.input_selected(range)).selection_told()
    }

    /// What input of text leaves behind. It ends a composition.
    pub open(crate) spec fn text_input(
        self,
        range: Option<(int, int)>,
        bytes: Seq<u8>,
        after: StateView<I>,
    ) -> bool {
        let origin = if self.model.marked_range() is Some {
            EditOrigin::Composition
        } else {
            EditOrigin::User
        };
        self.edited(self.model.input_range(range), bytes, origin, None, after)
    }

    /// What input of text to be marked leaves behind. Without a selection in
    /// the text the caret goes to its end.
    pub open(crate) spec fn marked_input(
        self,
        range: Option<(int, int)>,
        bytes: Seq<u8>,
        selected: Option<(int, int)>,
        after: StateView<I>,
    ) -> bool {
        let end = utf16_units(bytes) as int;
        let composition = match selected {
            Some(selected) => selected,
            None => (end, end),
        };
        self.edited(
            self.model.input_range(range),
            bytes,
            EditOrigin::Composition,
            Some(composition),
            after,
        )
    }
}

proof fn lemma_utf16_floor_order(bytes: Seq<u8>, less: int, more: int, from: int)
    requires
        less <= more,
        0 <= from <= bytes.len(),
    ensures
        utf16_floor(bytes, less, from) <= utf16_floor(bytes, more, from) <= from,
    decreases from,
{
    if from > 0 {
        lemma_utf16_floor_order(bytes, less, more, from - 1);
        lemma_utf16_floor_order(bytes, less, less, from - 1);
    }
}

/// A position for the input resolves.
pub(crate) proof fn lemma_input_position<I>(m: ModelView<I>, offset: int, affinity: Affinity)
    requires
        m.wf(),
        at_boundary(m.bytes, offset),
    ensures
        m.input_position(offset, affinity) matches Some(position) ==> m.resolve_position(position)
            == Ok::<usize, PositionError>(offset as usize),
{
    lemma_offset_position(m, offset, affinity);
    if let Ok(head) = m.head_position() {
        lemma_position_in_node(m, head.spec_node_id(), offset, affinity);
    }
}

impl<I: Clone + Eq> DocumentModel<I> {
    /// The offsets of a range in code units.
    pub fn range_from_utf16(&self, range: &Range<usize>) -> (offsets: Range<usize>)
        ensures
            (offsets.start as int, offsets.end as int) == self@.from_utf16(
                (range.start as int, range.end as int),
            ),
            at_boundary(self@.bytes, offsets.start as int),
            at_boundary(self@.bytes, offsets.end as int),
            range.start <= range.end ==> boundary_range(self@.bytes, offsets),
    {
        proof {
            let len = self@.bytes.len() as int;
            if range.start <= range.end {
                lemma_utf16_floor_order(self@.bytes, range.start as int, range.end as int, len);
            }
        }
        self.text.offset_utf16_to_offset(range.start)..self.text.offset_utf16_to_offset(range.end)
    }

    /// A range of offsets in code units.
    pub fn range_to_utf16(&self, range: &Range<usize>) -> (units: Range<usize>)
        requires
            at_boundary(self@.bytes, range.start as int),
            at_boundary(self@.bytes, range.end as int),
        ensures
            (units.start as int, units.end as int) == self@.to_utf16(
                (range.start as int, range.end as int),
            ),
    {
        self.text.offset_to_offset_utf16(range.start)..self.text.offset_to_offset_utf16(range.end)
    }

    /// The position of an offset for the input.
    pub fn input_position_for_offset(&self, offset: usize, affinity: Affinity) -> (position: Option<
        DocumentPosition<I>,
    >)
        requires
            self.wf(),
        ensures
            position == self@.input_position(offset as int, affinity),
    {
        match self.head_position() {
            Ok(head) => match self.position_in_node(&head.node_id, offset, affinity) {
                Some(position) => Some(position),
                None => self.any_position(offset, affinity),
            },
            Err(_) => None,
        }
    }

    fn input_range(&self, range: Option<Range<usize>>) -> (offsets: Range<usize>)
        requires
            self.wf(),
        ensures
            (offsets.start as int, offsets.end as int) == self@.input_range(range_ends(range)),
    {
        match range {
            Some(range) => self.range_from_utf16(&range),
            None => match self.marked_range() {
                Some(marked) => marked,
                None => self.selected_range(),
            },
        }
    }
}

impl<I: Clone + Eq> DocumentState<I> {
    /// The text in a range of code units, and the range that it really has.
    pub fn text_for_range(&self, range_utf16: Range<usize>) -> (found: (String, Range<usize>))
        requires
            self.wf(),
            range_utf16.start <= range_utf16.end,
        ensures
            (encode_utf8(found.0@), (found.1.start as int, found.1.end as int))
                == self@.model.text_in_units((range_utf16.start as int, range_utf16.end as int)),
    {
        let range = self.model.range_from_utf16(&range_utf16);
        let adjusted = self.model.range_to_utf16(&range);
        (self.model.text.slice(&range), adjusted)
    }

    /// The selection in code units, and whether it is reversed.
    pub fn selected_text_range(&self) -> (selection: (Range<usize>, bool))
        requires
            self.wf(),
        ensures
            ((selection.0.start as int, selection.0.end as int), selection.1)
                == self@.model.selection_units(),
    {
        let range = self.model.selected_range();
        (self.model.range_to_utf16(&range), self.model.selection_reversed())
    }

    /// The marked range in code units.
    pub fn marked_text_range(&self) -> (range: Option<Range<usize>>)
        requires
            self.wf(),
        ensures
            range_ends(range) == self@.model.marked_units(),
    {
        match self.model.marked_range() {
            Some(range) => Some(self.model.range_to_utf16(&range)),
            None => None,
        }
    }

    /// Gives the marked range up.
    pub fn unmark_text(&mut self)
        requires
            old(self).wf(),
        ensures
            final(self).wf(),
            final(self)@ == old(self)@.unmarked(),
    {
        let ghost before = self@;
        proof {
            lemma_spares_marked(before.model, None);
        }
        self.model.clear_marked();
        self.undo.finish_composition();
        proof {
            assert(self@ =~= before.unmarked());
            lemma_spared(before, self@);
        }
    }

    /// Replaces a range with text. Without a range it replaces the marked
    /// text, or else the selection.
    pub fn replace_text_in_range(&mut self, range_utf16: Option<Range<usize>>, text: &str)
        requires
            old(self).wf(),
            old(self)@.model.has_room(4),
            old(self)@.model.bytes.len() + text.spec_bytes().len() <= isize::MAX,
        ensures
            final(self).wf(),
            old(self)@.text_input(range_ends(range_utf16), text.spec_bytes(), final(self)@),
    {
        let origin = match self.model.marked_range() {
            Some(_) => EditOrigin::Composition,
            None => EditOrigin::User,
        };
        let range = self.model.input_range(range_utf16);
        let _ = self.replace(range, text, origin, None);
    }

    /// Replaces what the user has selected or is composing with text.
    pub fn replace_selection(&mut self, text: &str)
        requires
            old(self).wf(),
            old(self)@.model.has_room(4),
            old(self)@.model.bytes.len() + text.spec_bytes().len() <= isize::MAX,
        ensures
            final(self).wf(),
            old(self)@.text_input(None, text.spec_bytes(), final(self)@),
    {
        self.replace_text_in_range(None, text);
    }

    /// Replaces a range with text that is still composed, and marks it.
    pub fn replace_and_mark_text_in_range(
        &mut self,
        range_utf16: Option<Range<usize>>,
        text: &str,
        new_selected_range_utf16: Option<Range<usize>>,
    )
        requires
            old(self).wf(),
            old(self)@.model.has_room(4),
            old(self)@.model.bytes.len() + text.spec_bytes().len() <= isize::MAX,
        ensures
            final(self).wf(),
            old(self)@.marked_input(
                range_ends(range_utf16),
                text.spec_bytes(),
                range_ends(new_selected_range_utf16),
                final(self)@,
            ),
    {
        let range = self.model.input_range(range_utf16);
        let selected = match new_selected_range_utf16 {
            Some(selected) => selected,
            None => {
                let end = SourceText::new(text).len_utf16();
                end..end
            },
        };
        let _ = self.replace(range, text, EditOrigin::Composition, Some(selected));
    }

    /// The code units before the offset of a position, or before the caret
    /// where there is none.
    pub fn character_index_for_position(&self, position: Option<&DocumentPosition<I>>) -> (units:
        usize)
        requires
            self.wf(),
        ensures
            units == utf16_units(
                self@.model.bytes.subrange(
                    0,
                    self@.offset_of(position_of(position)),
                ),
            ),
    {
        let offset = self.offset_for_position(position);
        self.model.text.offset_to_offset_utf16(offset)
    }

    /// The offset of a position, or that of the caret where there is none.
    pub fn offset_for_position(&self, position: Option<&DocumentPosition<I>>) -> (offset: usize)
        requires
            self.wf(),
        ensures
            offset == self@.offset_of(position_of(position)),
            at_boundary(self@.model.bytes, offset as int),
    {
        match position {
            Some(position) => match self.model.resolve_position(position) {
                Ok(offset) => {
                    proof {
                        lemma_resolved(self@.model, *position);
                    }
                    offset
                },
                Err(_) => self.model.cursor(),
            },
            None => self.model.cursor(),
        }
    }

    /// Selects a range of code units.
    pub fn set_selected_text_range(&mut self, range_utf16: Range<usize>)
        requires
            old(self).wf(),
            old(self)@.model.has_room(2),
        ensures
            final(self).wf(),
            final(self)@ == old(self)@.units_selected(
                (range_utf16.start as int, range_utf16.end as int),
            ),
    {
        self.settle();
        let range = self.model.range_from_utf16(&range_utf16);
        proof {
            lemma_input_position(self@.model, range.start as int, Affinity::After);
            lemma_input_position(self@.model, range.end as int, Affinity::Before);
        }
        let anchor = self.model.input_position_for_offset(range.start, Affinity::After);
        let head = self.model.input_position_for_offset(range.end, Affinity::Before);
        match (anchor, head) {
            (Some(anchor), Some(head)) => {
                self.select_resolved(anchor, head);
            },
            _ => {
                self.select_offsets(range.start, range.end);
            },
        }
        self.tell_selection();
    }

    /// The length of the document in code units.
    pub fn text_length_utf16(&self) -> (units: usize)
        ensures
            units == utf16_units(self@.model.bytes),
    {
        self.model.text.len_utf16()
    }

    /// The range of code units around the caret that input may edit.
    pub fn text_input_editable_range(&self) -> (range: Option<Range<usize>>)
        requires
            self.wf(),
        ensures
            range_ends(range) == (match self@.model.editable_range_for_cursor() {
                Some(editable) => Some(self@.model.to_utf16(editable)),
                None => None,
            }),
    {
        match self.model.editable_range_for_cursor() {
            Some(range) => Some(self.model.range_to_utf16(&range)),
            None => None,
        }
    }
}

impl<I> StateView<I> {
    /// The offset of a position, or that of the caret where there is none.
    pub open(crate) spec fn offset_of(self, position: Option<DocumentPosition<I>>) -> int {
        match position {
            Some(position) => match self.model.resolve_position(position) {
                Ok(offset) => offset as int,
                Err(_) => self.model.cursor(),
            },
            None => self.model.cursor(),
        }
    }
}

} // verus!
