//! What the keys and the clipboard do to the text: each is stated over the
//! text, the caret and the selection that they find.

use crate::document::model_view::ModelView;
use crate::document::replace_laws::{
    caret_at, edit_outcome, law_edits_replace_their_range, left_alone, text_replaced,
};
use crate::document::state_view::StateView;
use crate::document::transaction::{EditDecision, EditOrigin};
use crate::text::{
    at_boundary, before_breaks, lemma_ceil_boundary, lemma_encode_concat, lemma_floor_boundary,
    line_start, next_line,
};
use crate::words::{char_is_whitespace, next_word, previous_word, run_ahead, run_back, spaces};
use vstd::prelude::*;
use vstd::utf8::*;

verus! {

/// The caret of a valid document, and both ends of its selection, are in the
/// text and between characters.
pub(crate) proof fn lemma_selected<I>(m: ModelView<I>)
    requires
        m.wf(),
    ensures
        0 <= m.selected().0 <= m.selected().1 <= m.bytes.len(),
        at_boundary(m.bytes, m.selected().0),
        at_boundary(m.bytes, m.selected().1),
        at_boundary(m.bytes, m.cursor()),
        0 <= m.cursor() <= m.bytes.len(),
{
    assert(m.is_live(m.selection.spec_anchor()) && m.is_live(m.selection.spec_head()));
}

/// What an edit of a range leaves behind.
proof fn lemma_edit<I>(
    s: StateView<I>,
    range: (int, int),
    bytes: Seq<u8>,
    origin: EditOrigin,
    after: StateView<I>,
)
    requires
        s.wf(),
        s.model.has_room(4),
        origin == EditOrigin::User || origin == EditOrigin::Paste || origin
            == EditOrigin::Composition,
        0 <= range.0 <= range.1 <= s.model.bytes.len(),
        s.model.bytes.len() + bytes.len() <= isize::MAX,
        s.edited(range, bytes, origin, None, after),
    ensures
        edit_outcome(s, after, range.0, range.1, bytes),
{
    let decision = choose|decision: EditDecision<I>| #[trigger]
        s.replaced(range, bytes, origin, None, decision, after);
    law_edits_replace_their_range(s, range, bytes, origin, decision, after);
}

// ---------------------------------------------------------------------------
// Characters
// ---------------------------------------------------------------------------

/// With a selection, the backspace key deletes exactly the selection, and the
/// caret is then where it started.
pub proof fn law_backspace_deletes_the_selection<I>(
    s: StateView<I>,
    after: StateView<I>,
    start: int,
    end: int,
)
    requires
        s.wf(),
        s.model.has_room(4),
        s.backspaced(after),
        s.model.selected() == (start, end),
        start < end,
    ensures
        edit_outcome(s, after, start, end, Seq::empty()),
{
    lemma_selected(s.model);
    lemma_edit(s, (start, end), Seq::empty(), EditOrigin::User, after);
}

/// With a selection, the delete key deletes exactly the selection, and the
/// caret is then where it started.
pub proof fn law_delete_deletes_the_selection<I>(
    s: StateView<I>,
    after: StateView<I>,
    start: int,
    end: int,
)
    requires
        s.wf(),
        s.model.has_room(4),
        s.deleted_ahead(after),
        s.model.selected() == (start, end),
        start < end,
    ensures
        edit_outcome(s, after, start, end, Seq::empty()),
{
    lemma_selected(s.model);
    lemma_edit(s, (start, end), Seq::empty(), EditOrigin::User, after);
}

/// `start..end` is one character.
pub open spec fn one_character(bytes: Seq<u8>, start: int, end: int) -> bool {
    &&& start < end
    &&& at_boundary(bytes, start)
    &&& at_boundary(bytes, end)
    &&& forall|i: int| start < i < end ==> !#[trigger] at_boundary(bytes, i)
}

/// Without a selection, the backspace key deletes the one character before the
/// caret, and nothing at the start of the text.
pub proof fn law_backspace_deletes_the_character_before<I>(
    s: StateView<I>,
    after: StateView<I>,
    start: int,
)
    requires
        s.wf(),
        s.model.has_room(4),
        s.backspaced(after),
        s.model.selected() == (s.model.cursor(), s.model.cursor()),
        s.model.cursor() > 0 ==> one_character(s.model.bytes, start, s.model.cursor()),
    ensures
        s.model.cursor() > 0 ==> edit_outcome(s, after, start, s.model.cursor(), Seq::empty()),
        s.model.cursor() == 0 ==> after == s,
{
    let c = s.model.cursor();
    lemma_selected(s.model);
    if c > 0 {
        lemma_floor_boundary(s.model.bytes, c - 1);
        let found = s.model.before(c);
        assert(at_boundary(s.model.bytes, found));
        assert(found == start);
        lemma_edit(s, (start, c), Seq::empty(), EditOrigin::User, after);
    } else {
        lemma_floor_boundary(s.model.bytes, 0);
    }
}

/// Without a selection, the delete key deletes the one character behind the
/// caret, and nothing at the end of the text.
pub proof fn law_delete_deletes_the_character_behind<I>(
    s: StateView<I>,
    after: StateView<I>,
    end: int,
)
    requires
        s.wf(),
        s.model.has_room(4),
        s.deleted_ahead(after),
        s.model.selected() == (s.model.cursor(), s.model.cursor()),
        s.model.cursor() < s.model.bytes.len() ==> one_character(
            s.model.bytes,
            s.model.cursor(),
            end,
        ),
    ensures
        s.model.cursor() < s.model.bytes.len() ==> edit_outcome(
            s,
            after,
            s.model.cursor(),
            end,
            Seq::empty(),
        ),
        s.model.cursor() == s.model.bytes.len() ==> after == s,
{
    let c = s.model.cursor();
    let n = s.model.bytes.len() as int;
    lemma_selected(s.model);
    if c < n {
        lemma_ceil_boundary(s.model.bytes, c + 1);
        let found = s.model.behind(c);
        assert(at_boundary(s.model.bytes, found));
        assert(found == end);
        lemma_edit(s, (c, end), Seq::empty(), EditOrigin::User, after);
    } else {
        lemma_ceil_boundary(s.model.bytes, n);
    }
}

// ---------------------------------------------------------------------------
// Lines
// ---------------------------------------------------------------------------

pub(crate) proof fn lemma_line_start_is(bytes: Seq<u8>, offset: int, start: int)
    requires
        0 <= start <= offset <= bytes.len(),
        start == 0 || bytes[start - 1] == 0x0a,
        forall|i: int| start <= i < offset ==> #[trigger] bytes[i] != 0x0a,
    ensures
        line_start(bytes, offset) == start,
    decreases offset - start,
{
    if start < offset {
        assert(bytes[offset - 1] != 0x0a);
        lemma_line_start_is(bytes, offset - 1, start);
    }
}

/// Deleting to the start of the line deletes what is between the caret and the
/// line feed before it, or the start of the text.
pub proof fn law_the_start_of_a_line_is_deleted<I>(
    s: StateView<I>,
    after: StateView<I>,
    start: int,
)
    requires
        s.wf(),
        s.model.has_room(4),
        s.line_start_deleted(after),
        0 <= start <= s.model.cursor(),
        start == 0 || s.model.bytes[start - 1] == 0x0a,
        forall|i: int| start <= i < s.model.cursor() ==> #[trigger] s.model.bytes[i] != 0x0a,
    ensures
        edit_outcome(s, after, start, s.model.cursor(), Seq::empty()),
{
    lemma_selected(s.model);
    lemma_line_start_is(s.model.bytes, s.model.cursor(), start);
    lemma_edit(s, (start, s.model.cursor()), Seq::empty(), EditOrigin::User, after);
}

pub(crate) proof fn lemma_next_line_is(bytes: Seq<u8>, offset: int, end: int)
    requires
        0 <= offset <= end <= bytes.len(),
        end == bytes.len() || bytes[end] == 0x0a,
        forall|i: int| offset <= i < end ==> #[trigger] bytes[i] != 0x0a,
    ensures
        next_line(bytes, offset) == (if end == bytes.len() {
            end
        } else {
            end + 1
        }),
    decreases end - offset,
{
    if offset < end {
        assert(bytes[offset] != 0x0a);
        lemma_next_line_is(bytes, offset + 1, end);
    }
}

pub(crate) proof fn lemma_before_breaks_is(bytes: Seq<u8>, start: int, end: int, at: int)
    requires
        0 <= start <= at <= end <= bytes.len(),
        forall|i: int| at <= i < end ==> #[trigger] bytes[i] == 0x0a || bytes[i] == 0x0d,
        at == start || (bytes[at - 1] != 0x0a && bytes[at - 1] != 0x0d),
    ensures
        before_breaks(bytes, start, end) == at,
    decreases end - at,
{
    if at < end {
        assert(bytes[end - 1] == 0x0a || bytes[end - 1] == 0x0d);
        lemma_before_breaks_is(bytes, start, end - 1, at);
    }
}

/// Deleting to the end of the line deletes what is between the caret and the
/// line break behind it, or the end of the text. The line break stays, with
/// the carriage returns before its line feed.
pub proof fn law_the_end_of_a_line_is_deleted<I>(
    s: StateView<I>,
    after: StateView<I>,
    end: int,
    feed: int,
)
    requires
        s.wf(),
        s.model.has_room(4),
        s.line_end_deleted(after),
        s.model.cursor() <= end <= feed <= s.model.bytes.len(),
        feed == s.model.bytes.len() || s.model.bytes[feed] == 0x0a,
        forall|i: int| s.model.cursor() <= i < feed ==> #[trigger] s.model.bytes[i] != 0x0a,
        forall|i: int| end <= i < feed ==> #[trigger] s.model.bytes[i] == 0x0d,
        end == 0 || s.model.bytes[end - 1] != 0x0d,
    ensures
        edit_outcome(s, after, s.model.cursor(), end, Seq::empty()),
{
    let bytes = s.model.bytes;
    let c = s.model.cursor();
    lemma_selected(s.model);
    lemma_next_line_is(bytes, c, feed);
    lemma_line_starts_before(bytes, c);
    let start = line_start(bytes, c);
    lemma_before_breaks_is(bytes, start, next_line(bytes, c), end);
    lemma_edit(s, (c, end), Seq::empty(), EditOrigin::User, after);
}

pub(crate) proof fn lemma_line_starts_before(bytes: Seq<u8>, offset: int)
    requires
        0 <= offset <= bytes.len(),
    ensures
        0 <= line_start(bytes, offset) <= offset,
        line_start(bytes, offset) == 0 || bytes[line_start(bytes, offset) - 1] == 0x0a,
        forall|i: int| line_start(bytes, offset) <= i < offset ==> #[trigger] bytes[i] != 0x0a,
    decreases offset,
{
    if offset > 0 && bytes[offset - 1] != 0x0a {
        lemma_line_starts_before(bytes, offset - 1);
    }
}

// ---------------------------------------------------------------------------
// Words
// ---------------------------------------------------------------------------

/// Characters that are all whitespace, or none of which is.
pub open spec fn all_spaces(chars: Seq<char>, space: bool) -> bool {
    forall|i: int| 0 <= i < chars.len() ==> char_is_whitespace(#[trigger] chars[i]) == space
}

proof fn lemma_run_back_is(flags: Seq<bool>, at: int, space: bool, start: int)
    requires
        0 <= start <= at <= flags.len(),
        forall|i: int| start <= i < at ==> #[trigger] flags[i] == space,
        start == 0 || flags[start - 1] != space,
    ensures
        run_back(flags, at, space) == start,
    decreases at - start,
{
    if start < at {
        assert(flags[at - 1] == space);
        lemma_run_back_is(flags, at - 1, space, start);
    }
}

proof fn lemma_run_ahead_is(flags: Seq<bool>, at: int, space: bool, end: int)
    requires
        0 <= at <= end <= flags.len(),
        forall|i: int| at <= i < end ==> #[trigger] flags[i] == space,
        end == flags.len() || flags[end] != space,
    ensures
        run_ahead(flags, at, space) == end,
    decreases end - at,
{
    if at < end {
        assert(flags[at] == space);
        lemma_run_ahead_is(flags, at + 1, space, end);
    }
}

/// Where the word before an offset starts.
pub(crate) proof fn lemma_previous_word_is(
    bytes: Seq<u8>,
    c: int,
    rest: Seq<char>,
    word: Seq<char>,
    gap: Seq<char>,
)
    requires
        0 <= c <= bytes.len(),
        at_boundary(bytes, c),
        bytes.subrange(0, c) == encode_utf8(rest + word + gap),
        all_spaces(word, false),
        all_spaces(gap, true),
        rest.len() > 0 ==> char_is_whitespace(rest.last()),
        rest.len() > 0 ==> word.len() > 0,
    ensures
        previous_word(bytes, c) == encode_utf8(rest).len(),
        previous_word(bytes, c) <= c,
{
    let before = rest + word + gap;
    lemma_floor_boundary(bytes, c);
    encode_utf8_decode_utf8(before);
    let flags = spaces(before);
    let w = (rest.len() + word.len()) as int;
    assert forall|i: int| w <= i < flags.len() implies #[trigger] flags[i] by {
        assert(before[i] == gap[i - w]);
    }
    assert forall|i: int| rest.len() <= i < w implies !#[trigger] flags[i] by {
        assert(before[i] == word[i - rest.len()]);
    }
    if w > 0 {
        assert(word.len() > 0);
        assert(!flags[w - 1]);
    }
    lemma_run_back_is(flags, flags.len() as int, true, w);
    if rest.len() > 0 {
        assert(before[rest.len() - 1] == rest.last());
    }
    lemma_run_back_is(flags, w, false, rest.len() as int);
    assert(before.subrange(0, rest.len() as int) =~= rest);
    assert(before =~= rest + (word + gap));
    lemma_encode_concat(rest, word + gap);
    assert(previous_word(bytes, c) == encode_utf8(rest).len());
}

/// Deleting the word before the caret deletes the whitespace before the caret
/// and the word before that, and nothing before the word.
pub proof fn law_the_word_before_is_deleted<I>(
    s: StateView<I>,
    after: StateView<I>,
    rest: Seq<char>,
    word: Seq<char>,
    gap: Seq<char>,
)
    requires
        s.wf(),
        s.model.has_room(4),
        s.previous_word_deleted(after),
        s.model.bytes.subrange(0, s.model.cursor()) == encode_utf8(rest + word + gap),
        all_spaces(word, false),
        all_spaces(gap, true),
        rest.len() > 0 ==> char_is_whitespace(rest.last()),
        rest.len() > 0 ==> word.len() > 0,
    ensures
        edit_outcome(
            s,
            after,
            encode_utf8(rest).len() as int,
            s.model.cursor(),
            Seq::empty(),
        ),
{
    let c = s.model.cursor();
    lemma_selected(s.model);
    lemma_previous_word_is(s.model.bytes, c, rest, word, gap);
    lemma_edit(s, (encode_utf8(rest).len() as int, c), Seq::empty(), EditOrigin::User, after);
}

/// Where the word at an offset and the whitespace behind it end.
pub(crate) proof fn lemma_next_word_is(
    bytes: Seq<u8>,
    c: int,
    word: Seq<char>,
    gap: Seq<char>,
    rest: Seq<char>,
)
    requires
        0 <= c <= bytes.len(),
        at_boundary(bytes, c),
        bytes.subrange(c, bytes.len() as int) == encode_utf8(word + gap + rest),
        all_spaces(word, false),
        all_spaces(gap, true),
        rest.len() > 0 ==> !char_is_whitespace(rest[0]),
        rest.len() > 0 ==> gap.len() > 0,
    ensures
        next_word(bytes, c) == c + encode_utf8(word + gap).len(),
        next_word(bytes, c) <= bytes.len(),
{
    let behind = word + gap + rest;
    lemma_ceil_boundary(bytes, c);
    encode_utf8_decode_utf8(behind);
    let flags = spaces(behind);
    let w = word.len() as int;
    let g = (word.len() + gap.len()) as int;
    assert forall|i: int| 0 <= i < w implies !#[trigger] flags[i] by {
        assert(behind[i] == word[i]);
    }
    assert forall|i: int| w <= i < g implies #[trigger] flags[i] by {
        assert(behind[i] == gap[i - w]);
    }
    if w < flags.len() {
        assert(gap.len() > 0);
        assert(flags[w]);
    }
    lemma_run_ahead_is(flags, 0, false, w);
    if rest.len() > 0 {
        assert(behind[g] == rest[0]);
    }
    lemma_run_ahead_is(flags, w, true, g);
    assert(behind.subrange(0, g) =~= word + gap);
    lemma_encode_concat(word + gap, rest);
    assert(next_word(bytes, c) == c + encode_utf8(word + gap).len());
}

/// Deleting the word behind the caret deletes the word and the whitespace
/// behind it, and nothing behind that.
pub proof fn law_the_word_behind_is_deleted<I>(
    s: StateView<I>,
    after: StateView<I>,
    word: Seq<char>,
    gap: Seq<char>,
    rest: Seq<char>,
)
    requires
        s.wf(),
        s.model.has_room(4),
        s.next_word_deleted(after),
        s.model.bytes.subrange(s.model.cursor(), s.model.bytes.len() as int) == encode_utf8(
            word + gap + rest,
        ),
        all_spaces(word, false),
        all_spaces(gap, true),
        rest.len() > 0 ==> !char_is_whitespace(rest[0]),
        rest.len() > 0 ==> gap.len() > 0,
    ensures
        edit_outcome(
            s,
            after,
            s.model.cursor(),
            s.model.cursor() + encode_utf8(word + gap).len(),
            Seq::empty(),
        ),
{
    let c = s.model.cursor();
    lemma_selected(s.model);
    lemma_next_word_is(s.model.bytes, c, word, gap, rest);
    lemma_edit(
        s,
        (c, c + encode_utf8(word + gap).len()),
        Seq::empty(),
        EditOrigin::User,
        after,
    );
}

// ---------------------------------------------------------------------------
// Enter and the clipboard
// ---------------------------------------------------------------------------

/// The enter key puts a line feed in the place of the selection, and the caret
/// behind it.
pub proof fn law_enter_breaks_the_line<I>(
    s: StateView<I>,
    after: StateView<I>,
    start: int,
    end: int,
)
    requires
        s.wf(),
        s.model.has_room(4),
        s.model.bytes.len() < isize::MAX,
        s.entered(after),
        s.model.selected() == (start, end),
    ensures
        edit_outcome(s, after, start, end, seq![0x0au8]),
{
    lemma_selected(s.model);
    lemma_edit(s, (start, end), seq![0x0au8], EditOrigin::User, after);
}

/// Pasting puts the text in the place of the selection, and the caret behind
/// it.
pub proof fn law_pasted_text_replaces_the_selection<I>(
    s: StateView<I>,
    bytes: Seq<u8>,
    after: StateView<I>,
    start: int,
    end: int,
)
    requires
        s.wf(),
        s.model.has_room(4),
        s.model.bytes.len() + bytes.len() <= isize::MAX,
        s.pasted(bytes, after),
        s.model.selected() == (start, end),
    ensures
        edit_outcome(s, after, start, end, bytes),
{
    lemma_selected(s.model);
    lemma_edit(s, (start, end), bytes, EditOrigin::Paste, after);
}

/// What is copied is what is selected, byte for byte, and nothing without a
/// selection.
pub proof fn law_copying_takes_the_selection<I>(s: StateView<I>, start: int, end: int)
    requires
        s.wf(),
        s.model.selected() == (start, end),
    ensures
        start == end <==> s.copied() is None,
        s.copied() matches Some(text) ==> {
            &&& text.len() == end - start
            &&& forall|i: int| start <= i < end ==> #[trigger] s.model.bytes[i] == text[i - start]
        },
{
    lemma_selected(s.model);
}

/// Cutting takes what copying takes, if the selection could be deleted. Then
/// it is gone from the text, and the caret is where it was; otherwise nothing
/// changes and there is no text.
pub proof fn law_cutting_copies_and_deletes<I>(
    s: StateView<I>,
    text: Option<Seq<u8>>,
    after: StateView<I>,
    start: int,
    end: int,
)
    requires
        s.wf(),
        s.model.has_room(4),
        s.was_cut(text, after),
        s.model.selected() == (start, end),
    ensures
        text is Some ==> text == s.copied() && text_replaced(s, after, start, end, Seq::empty())
            && caret_at(after.model, start),
        text is None ==> after == s || left_alone(s, after),
        start < end ==> edit_outcome(s, after, start, end, Seq::empty()),
        start == end ==> text is None && after == s,
{
    lemma_selected(s.model);
    if start < end {
        let decision = choose|decision: EditDecision<I>| #[trigger]
            s.replaced(
                (start, end),
                Seq::empty(),
                EditOrigin::User,
                None,
                decision,
                after,
            ) && (match text {
                Some(text) => decision == EditDecision::<I>::Apply && text
                    == s.model.bytes.subrange(start, end),
                None => decision != EditDecision::<I>::Apply,
            });
        law_edits_replace_their_range(
            s,
            (start, end),
            Seq::empty(),
            EditOrigin::User,
            decision,
            after,
        );
    }
}

/// What was cut can be pasted back at once: the text is then what it was, and
/// the caret is behind what was pasted.
#[verifier::spinoff_prover]
#[verifier::rlimit(40)]
pub proof fn law_cut_text_can_be_pasted_back<I>(
    s: StateView<I>,
    text: Seq<u8>,
    cut: StateView<I>,
    pasted: StateView<I>,
)
    requires
        s.wf(),
        s.model.has_room(4),
        s.was_cut(Some(text), cut),
        cut.wf(),
        cut.model.has_room(4),
        cut.pasted(text, pasted),
        !left_alone(cut, pasted),
    ensures
        pasted.model.bytes == s.model.bytes,
        caret_at(pasted.model, s.model.selected().1),
{
    let (start, end) = s.model.selected();
    lemma_selected(s.model);
    law_cutting_copies_and_deletes(s, Some(text), cut, start, end);
    assert(text.len() == end - start);
    law_pasted_text_replaces_the_selection(cut, text, pasted, start, start);
    assert(pasted.model.bytes =~= s.model.bytes) by {
        assert forall|i: int| 0 <= i < s.model.bytes.len() implies pasted.model.bytes[i]
            == s.model.bytes[i] by {
            if i < start {
                assert(cut.model.bytes[i] == s.model.bytes[i]);
                assert(pasted.model.bytes[i] == cut.model.bytes[i]);
            } else if i < end {
                assert(pasted.model.bytes[start + (i - start)] == text[i - start]);
            } else {
                assert(cut.model.bytes[i - (end - start)] == s.model.bytes[i]);
                assert(pasted.model.bytes[i] == cut.model.bytes[i - (end - start)]);
            }
        }
    }
}

} // verus!
