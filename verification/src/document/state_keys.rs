//! Edits that keys and the clipboard make.

use crate::document::model_view::ModelView;
use crate::document::state::DocumentState;
use crate::document::state_view::StateView;
use crate::document::transaction::{EditDecision, EditOrigin};
use crate::text::{line_end, line_start};
use crate::words::{next_word, previous_word};
use std::ops::Range;
use vstd::prelude::*;
use vstd::string::*;
use vstd::utf8::*;

verus! {

impl<I> ModelView<I> {
    /// What a key deletes to the left: the selection, or the character before
    /// the caret.
    pub open spec fn erased_back(self) -> (int, int) {
        if self.selected().0 < self.selected().1 {
            self.selected()
        } else {
            (self.before(self.cursor()), self.cursor())
        }
    }

    /// What a key deletes to the right: the selection, or the character
    /// behind the caret.
    pub open spec fn erased_ahead(self) -> (int, int) {
        if self.selected().0 < self.selected().1 {
            self.selected()
        } else {
            (self.cursor(), self.behind(self.cursor()))
        }
    }
}

impl<I> StateView<I> {
    /// What an edit of a range leaves behind, whatever became of it.
    pub open(crate) spec fn edited(
        self,
        range: (int, int),
        bytes: Seq<u8>,
        origin: EditOrigin,
        composition: Option<(int, int)>,
        after: StateView<I>,
    ) -> bool {
        exists|decision: EditDecision<I>| #[trigger]
            self.replaced(range, bytes, origin, composition, decision, after)
    }

    /// What deleting a range leaves behind. An empty range stays.
    pub open(crate) spec fn erased(self, range: (int, int), after: StateView<I>) -> bool {
        if range.0 < range.1 {
            self.edited(range, Seq::empty(), EditOrigin::User, None, after)
        } else {
            after == self
        }
    }

    /// What deleting a range leaves behind, even an empty one.
    pub open(crate) spec fn deleted(self, range: (int, int), after: StateView<I>) -> bool {
        self.edited(range, Seq::empty(), EditOrigin::User, None, after)
    }

    /// What the backspace key leaves behind.
    pub open(crate) spec fn backspaced(self, after: StateView<I>) -> bool {
        self.erased(self.model.erased_back(), after)
    }

    /// What the delete key leaves behind.
    pub open(crate) spec fn deleted_ahead(self, after: StateView<I>) -> bool {
        self.erased(self.model.erased_ahead(), after)
    }

    /// What deleting to the start of the line leaves behind.
    pub open(crate) spec fn line_start_deleted(self, after: StateView<I>) -> bool {
        let m = self.model;
        self.deleted((line_start(m.bytes, m.cursor()), m.cursor()), after)
    }

    /// What deleting to the end of the line leaves behind.
    pub open(crate) spec fn line_end_deleted(self, after: StateView<I>) -> bool {
        let m = self.model;
        self.deleted((m.cursor(), line_end(m.bytes, m.cursor())), after)
    }

    /// What deleting the word before the caret leaves behind.
    pub open(crate) spec fn previous_word_deleted(self, after: StateView<I>) -> bool {
        let m = self.model;
        self.deleted((previous_word(m.bytes, m.cursor()), m.cursor()), after)
    }

    /// What deleting the word behind the caret leaves behind.
    pub open(crate) spec fn next_word_deleted(self, after: StateView<I>) -> bool {
        let m = self.model;
        self.deleted((m.cursor(), next_word(m.bytes, m.cursor())), after)
    }

    /// What the enter key leaves behind.
    pub open(crate) spec fn entered(self, after: StateView<I>) -> bool {
        self.edited(self.model.selected(), seq![0x0au8], EditOrigin::User, None, after)
    }

    /// What pasting text leaves behind.
    pub open(crate) spec fn pasted(self, bytes: Seq<u8>, after: StateView<I>) -> bool {
        self.edited(self.model.selected(), bytes, EditOrigin::Paste, None, after)
    }

    /// The text to copy.
    pub open spec fn copied(self) -> Option<Seq<u8>> {
        let (start, end) = self.model.selected();
        if start < end {
            Some(self.model.bytes.subrange(start, end))
        } else {
            None
        }
    }

    /// What cutting the selection leaves behind, and the text that was cut.
    pub open(crate) spec fn was_cut(self, text: Option<Seq<u8>>, after: StateView<I>) -> bool {
        let (start, end) = self.model.selected();
        if start < end {
            exists|decision: EditDecision<I>| #[trigger]
                self.replaced(
                    (start, end),
                    Seq::empty(),
                    EditOrigin::User,
                    None,
                    decision,
                    after,
                ) && (match text {
                    Some(text) => decision == EditDecision::<I>::Apply && text
                        == self.model.bytes.subrange(start, end),
                    None => decision != EditDecision::<I>::Apply,
                })
        } else {
            text is None && after == self
        }
    }
}

proof fn lemma_nothing()
    ensures
        "".spec_bytes() == Seq::<u8>::empty(),
{
    reveal_strlit("");
    assert(""@ =~= Seq::<char>::empty());
    assert(encode_utf8(Seq::<char>::empty()) =~= Seq::<u8>::empty());
}

proof fn lemma_line_feed()
    ensures
        "\n".spec_bytes() == seq![0x0au8],
{
    reveal_strlit("\n");
    assert("\n"@ =~= seq!['\n']);
    let one = seq!['\n'];
    assert(one.drop_first() =~= Seq::<char>::empty());
    reveal_with_fuel(encode_utf8, 2);
    assert(encode_utf8(one) =~= encode_scalar('\n' as u32));
    assert(encode_scalar(0x0a) =~= seq![0x0au8]) by {
        assert((0x0au32 & 0x7f) as u8 == 0x0au8) by (bit_vector);
    }
}

impl<I: Clone + Eq> DocumentState<I> {
    fn delete_range(&mut self, range: Range<usize>)
        requires
            old(self).wf(),
            old(self)@.model.has_room(4),
        ensures
            final(self).wf(),
            old(self)@.deleted((range.start as int, range.end as int), final(self)@),
    {
        proof {
            lemma_nothing();
        }
        let _ = self.replace(range, "", EditOrigin::User, None);
    }

    /// Deletes the selection, or the character before the caret.
    pub fn backspace(&mut self)
        requires
            old(self).wf(),
            old(self)@.model.has_room(4),
        ensures
            final(self).wf(),
            old(self)@.backspaced(final(self)@),
    {
        let selected = self.model.selected_range();
        let range = if selected.start >= selected.end {
            let cursor = self.model.cursor();
            self.model.previous_boundary(cursor)..cursor
        } else {
            selected
        };
        if range.start < range.end {
            self.delete_range(range);
        }
    }

    /// Deletes the selection, or the character behind the caret.
    pub fn delete(&mut self)
        requires
            old(self).wf(),
            old(self)@.model.has_room(4),
        ensures
            final(self).wf(),
            old(self)@.deleted_ahead(final(self)@),
    {
        let selected = self.model.selected_range();
        let range = if selected.start >= selected.end {
            let cursor = self.model.cursor();
            cursor..self.model.next_boundary(cursor)
        } else {
            selected
        };
        if range.start < range.end {
            self.delete_range(range);
        }
    }

    /// Deletes from the start of the line to the caret.
    pub fn delete_to_start_of_line(&mut self)
        requires
            old(self).wf(),
            old(self)@.model.has_room(4),
        ensures
            final(self).wf(),
            old(self)@.line_start_deleted(final(self)@),
    {
        let cursor = self.model.cursor();
        let start = self.model.text.start_of_line(cursor);
        self.delete_range(start..cursor);
    }

    /// Deletes from the caret to the end of the line.
    pub fn delete_to_end_of_line(&mut self)
        requires
            old(self).wf(),
            old(self)@.model.has_room(4),
        ensures
            final(self).wf(),
            old(self)@.line_end_deleted(final(self)@),
    {
        let cursor = self.model.cursor();
        let end = self.model.text.end_of_line(cursor);
        self.delete_range(cursor..end);
    }

    /// Deletes from the start of the word before the caret to the caret.
    pub fn delete_previous_word(&mut self)
        requires
            old(self).wf(),
            old(self)@.model.has_room(4),
        ensures
            final(self).wf(),
            old(self)@.previous_word_deleted(final(self)@),
    {
        let cursor = self.model.cursor();
        let start = self.model.text.previous_word_boundary(cursor);
        self.delete_range(start..cursor);
    }

    /// Deletes from the caret to the end of the word at it.
    pub fn delete_next_word(&mut self)
        requires
            old(self).wf(),
            old(self)@.model.has_room(4),
        ensures
            final(self).wf(),
            old(self)@.next_word_deleted(final(self)@),
    {
        let cursor = self.model.cursor();
        let end = self.model.text.next_word_boundary(cursor);
        self.delete_range(cursor..end);
    }

    /// Replaces the selection with a line feed.
    pub fn enter(&mut self)
        requires
            old(self).wf(),
            old(self)@.model.has_room(4),
            old(self)@.model.bytes.len() < isize::MAX,
        ensures
            final(self).wf(),
            old(self)@.entered(final(self)@),
    {
        proof {
            lemma_line_feed();
        }
        let range = self.model.selected_range();
        let _ = self.replace(range, "\n", EditOrigin::User, None);
    }

    /// The text to copy: that of the selection, unless it is empty.
    pub fn copy(&self) -> (text: Option<String>)
        requires
            self.wf(),
        ensures
            match text {
                Some(text) => self@.copied() == Some(encode_utf8(text@)),
                None => self@.copied() is None,
            },
    {
        let range = self.model.selected_range();
        if range.start < range.end {
            Some(self.model.text.slice(&range))
        } else {
            None
        }
    }

    /// Deletes the selection. Its text is for the clipboard only if it could
    /// be deleted.
    pub fn cut(&mut self) -> (text: Option<String>)
        requires
            old(self).wf(),
            old(self)@.model.has_room(4),
        ensures
            final(self).wf(),
            old(self)@.was_cut(
                match text {
                    Some(text) => Some(encode_utf8(text@)),
                    None => None,
                },
                final(self)@,
            ),
    {
        proof {
            lemma_nothing();
        }
        let range = self.model.selected_range();
        if range.start >= range.end {
            return None;
        }
        let text = self.model.text.slice(&range);
        match self.replace(range, "", EditOrigin::User, None) {
            EditDecision::Apply => Some(text),
            _ => None,
        }
    }

    /// Replaces the selection with text of the clipboard.
    pub fn paste(&mut self, text: &str)
        requires
            old(self).wf(),
            old(self)@.model.has_room(4),
            old(self)@.model.bytes.len() + text.spec_bytes().len() <= isize::MAX,
        ensures
            final(self).wf(),
            old(self)@.pasted(text.spec_bytes(), final(self)@),
    {
        let range = self.model.selected_range();
        let _ = self.replace(range, text, EditOrigin::Paste, None);
    }
}

} // verus!
