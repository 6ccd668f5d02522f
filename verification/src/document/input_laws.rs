//! What a platform's text input does: ranges of UTF-16 code units, compositions
//! and the selection in them.

use crate::document::model_view::ModelView;
use crate::document::place_laws::law_utf16_offsets_come_back;
use crate::document::position::Affinity;
use crate::document::replace_laws::{
    edit_outcome, is_editable, law_edits_replace_their_range, left_alone, lemma_composed_outcome,
    text_replaced,
};
use crate::document::state_input::lemma_input_position;
use crate::document::state_view::StateView;
use crate::document::transaction::{EditDecision, EditOrigin};
use crate::document::undo_laws::unadorned;
use crate::document::view_laws::same_document;
use crate::text::{
    at_boundary, lemma_encode_concat, lemma_encoded, splice_bytes, starts_clean, utf16_offset,
    utf16_units,
};
use vstd::prelude::*;
use vstd::utf8::*;

verus! {

// ---------------------------------------------------------------------------
// Code units
// ---------------------------------------------------------------------------

/// Code units of texts one after another add up.
proof fn lemma_units_concat(a: Seq<u8>, b: Seq<u8>)
    ensures
        utf16_units(a + b) == utf16_units(a) + utf16_units(b),
    decreases b.len(),
{
    if b.len() == 0 {
        assert(a + b =~= a);
    } else {
        lemma_units_concat(a, b.drop_last());
        assert((a + b).drop_last() =~= a + b.drop_last());
        assert((a + b).last() == b.last());
    }
}

proof fn lemma_character_units(c: char)
    ensures
        utf16_units(encode_scalar(c as u32)) == (if c as u32 >= 0x10000 {
            2nat
        } else {
            1nat
        }),
{
    let scalar = c as u32;
    let bytes = encode_scalar(scalar);
    reveal_with_fuel(utf16_units, 5);
    let last = 0x80u8 | (scalar & 0x3f) as u8;
    assert(0x80 <= (0x80u8 | (scalar & 0x3f) as u8) <= 0xbf) by (bit_vector);
    assert(0x80 <= (0x80u8 | ((scalar >> 6) & 0x3f) as u8) <= 0xbf) by (bit_vector);
    assert(0x80 <= (0x80u8 | ((scalar >> 12) & 0x3f) as u8) <= 0xbf) by (bit_vector);
    assert(((scalar & 0x7f) as u8) < 0x80) by (bit_vector);
    assert(0xc0 <= (0xc0u8 | ((scalar >> 6) & 0x1f) as u8) < 0xf0) by (bit_vector);
    assert(0xe0 <= (0xe0u8 | ((scalar >> 12) & 0xf) as u8) < 0xf0) by (bit_vector);
    assert((0xf0u8 | ((scalar >> 18) & 0x7) as u8) >= 0xf0) by (bit_vector);
    if bytes.len() == 1 {
        assert(bytes.drop_last() =~= Seq::empty());
    } else if bytes.len() == 2 {
        assert(bytes.drop_last() =~= seq![bytes[0]]);
        assert(bytes.drop_last().drop_last() =~= Seq::empty());
    } else if bytes.len() == 3 {
        assert(bytes.drop_last() =~= seq![bytes[0], bytes[1]]);
        assert(bytes.drop_last().drop_last() =~= seq![bytes[0]]);
        assert(bytes.drop_last().drop_last().drop_last() =~= Seq::empty());
    } else {
        assert(bytes.drop_last() =~= seq![bytes[0], bytes[1], bytes[2]]);
        assert(bytes.drop_last().drop_last() =~= seq![bytes[0], bytes[1]]);
        assert(bytes.drop_last().drop_last().drop_last() =~= seq![bytes[0]]);
        assert(bytes.drop_last().drop_last().drop_last().drop_last() =~= Seq::empty());
    }
}

/// A character counts one code unit, and two outside the basic plane.
pub proof fn law_characters_count_code_units(text: Seq<char>, c: char)
    ensures
        utf16_units(encode_utf8(Seq::empty())) == 0,
        utf16_units(encode_utf8(text.push(c))) == utf16_units(encode_utf8(text)) + (if c as u32
            >= 0x10000 {
            2nat
        } else {
            1nat
        }),
{
    let one = seq![c];
    assert(text.push(c) =~= text + one);
    lemma_encode_concat(text, one);
    lemma_units_concat(encode_utf8(text), encode_utf8(one));
    assert(one.drop_first() =~= Seq::<char>::empty());
    assert(encode_utf8(one) =~= encode_scalar(c as u32)) by {
        reveal_with_fuel(encode_utf8, 2);
    }
    lemma_character_units(c);
}

/// Code units of a text between its start and an offset.
pub open spec fn units_at(bytes: Seq<u8>, units: int, offset: int) -> bool {
    &&& at_boundary(bytes, offset)
    &&& units == utf16_units(bytes.subrange(0, offset))
}

/// Code units before a place in text that was put into another.
proof fn lemma_units_in(bytes: Seq<u8>, start: int, end: int, text: Seq<u8>, offset: int)
    requires
        0 <= start <= end <= bytes.len(),
        0 <= offset <= text.len(),
    ensures
        utf16_units(splice_bytes(bytes, start, end, text).subrange(0, start + offset))
            == utf16_units(bytes.subrange(0, start)) + utf16_units(text.subrange(0, offset)),
{
    let whole = splice_bytes(bytes, start, end, text);
    assert(whole.subrange(0, start + offset) =~= bytes.subrange(0, start) + text.subrange(
        0,
        offset,
    ));
    lemma_units_concat(bytes.subrange(0, start), text.subrange(0, offset));
}

// ---------------------------------------------------------------------------
// What input replaces
// ---------------------------------------------------------------------------

/// Input with a range replaces the source between its code units; without one
/// it replaces what is marked, and else what is selected.
pub proof fn law_input_goes_to_its_range<I>(
    m: ModelView<I>,
    range: Option<(int, int)>,
    start: int,
    end: int,
)
    requires
        m.wf(),
        range matches Some(units) ==> units_at(m.bytes, units.0, start) && units_at(
            m.bytes,
            units.1,
            end,
        ),
        range is None && m.marked_range() is Some ==> m.marked_range() == Some((start, end)),
        range is None && m.marked_range() is None ==> m.selected() == (start, end),
    ensures
        m.input_range(range) == (start, end),
{
    if range is Some {
        law_utf16_offsets_come_back(m.bytes, start);
        law_utf16_offsets_come_back(m.bytes, end);
    }
}

/// The ranges of the selection and the marks lie in the text.
proof fn lemma_input_range<I>(m: ModelView<I>)
    requires
        m.wf(),
    ensures
        0 <= m.selected().0 <= m.selected().1 <= m.bytes.len(),
        at_boundary(m.bytes, m.selected().0),
        at_boundary(m.bytes, m.selected().1),
        m.marked_range() matches Some(marked) ==> 0 <= marked.0 <= marked.1 <= m.bytes.len()
            && at_boundary(m.bytes, marked.0) && at_boundary(m.bytes, marked.1),
{
    assert(m.is_live(m.selection.spec_anchor()) && m.is_live(m.selection.spec_head()));
    if let Some(marked) = m.marked {
        assert(m.is_live(marked.spec_anchor()) && m.is_live(marked.spec_head()));
    }
}

/// Input of text puts it in the place of what it replaces, and the caret
/// behind it; then nothing is marked any more.
pub proof fn law_text_input_replaces_its_range<I>(
    s: StateView<I>,
    range: Option<(int, int)>,
    bytes: Seq<u8>,
    after: StateView<I>,
    start: int,
    end: int,
)
    requires
        s.wf(),
        s.model.has_room(4),
        s.model.bytes.len() + bytes.len() <= isize::MAX,
        s.text_input(range, bytes, after),
        s.model.input_range(range) == (start, end),
        0 <= start <= end <= s.model.bytes.len(),
    ensures
        edit_outcome(s, after, start, end, bytes),
{
    let origin = if s.model.marked_range() is Some {
        EditOrigin::Composition
    } else {
        EditOrigin::User
    };
    let decision = choose|decision: EditDecision<I>| #[trigger]
        s.replaced((start, end), bytes, origin, None, decision, after);
    law_edits_replace_their_range(s, (start, end), bytes, origin, decision, after);
}

// ---------------------------------------------------------------------------
// Compositions
// ---------------------------------------------------------------------------

/// What a composition leaves behind: its text in the place of the range, and
/// all of it marked. The selection is given in code units of the document.
pub open spec fn composition_placed<I>(
    s: StateView<I>,
    after: StateView<I>,
    start: int,
    end: int,
    bytes: Seq<u8>,
    anchor: int,
    head: int,
) -> bool {
    let before = utf16_units(s.model.bytes.subrange(0, start)) as int;
    &&& text_replaced(s, after, start, end, bytes)
    &&& utf16_units(after.model.bytes.subrange(0, after.model.anchor_offset())) == before + anchor
    &&& utf16_units(after.model.bytes.subrange(0, after.model.cursor())) == before + head
    &&& anchor <= head ==> after.model.selection_units() == ((before + anchor, before + head), false)
    &&& after.model.marked_units() == (if bytes.len() > 0 {
        Some((before, before + utf16_units(bytes)))
    } else {
        None
    })
}

/// Text that is composed is put in the place of what it replaces and marked.
/// The selection is the part of the text that the input asks for, counted in
/// code units; without such a part the caret is behind the text.
#[verifier::spinoff_prover]
#[verifier::rlimit(40)]
pub proof fn law_compositions_are_marked_and_selected<I>(
    s: StateView<I>,
    range: Option<(int, int)>,
    text: Seq<char>,
    selected: Option<(int, int)>,
    after: StateView<I>,
    start: int,
    end: int,
    anchor: int,
    head: int,
)
    requires
        s.wf(),
        s.model.has_room(4),
        s.model.bytes.len() + encode_utf8(text).len() <= isize::MAX,
        s.marked_input(range, encode_utf8(text), selected, after),
        s.model.input_range(range) == (start, end),
        0 <= start <= end <= s.model.bytes.len(),
        selected matches Some(units) ==> units_at(encode_utf8(text), units.0, anchor) && units_at(
            encode_utf8(text),
            units.1,
            head,
        ),
        selected is None ==> anchor == encode_utf8(text).len() && head == encode_utf8(text).len(),
    ensures
        left_alone(s, after) || composition_placed(
            s,
            after,
            start,
            end,
            encode_utf8(text),
            match selected {
                Some(units) => units.0,
                None => utf16_units(encode_utf8(text)) as int,
            },
            match selected {
                Some(units) => units.1,
                None => utf16_units(encode_utf8(text)) as int,
            },
        ) && after.model.anchor_offset() == start + anchor && after.model.cursor() == start + head,
        unadorned(s.model) && is_editable(s.model, start, end) ==> text_replaced(
            s,
            after,
            start,
            end,
            encode_utf8(text),
        ),
{
    let bytes = encode_utf8(text);
    let units = lemma_units_of(text, selected, anchor, head);
    lemma_composed_outcome(s, (start, end), bytes, units, after);
    if !left_alone(s, after) {
        lemma_placed_units(s, after, start, end, text, units, anchor, head);
    }
}

/// The part of a text that is to be selected, in code units.
proof fn lemma_units_of(text: Seq<char>, selected: Option<(int, int)>, anchor: int, head: int) -> (units:
    (int, int))
    requires
        selected matches Some(units) ==> units_at(encode_utf8(text), units.0, anchor) && units_at(
            encode_utf8(text),
            units.1,
            head,
        ),
        selected is None ==> anchor == encode_utf8(text).len() && head == encode_utf8(text).len(),
    ensures
        units == (match selected {
            Some(units) => units,
            None => (
                utf16_units(encode_utf8(text)) as int,
                utf16_units(encode_utf8(text)) as int,
            ),
        }),
        units_at(encode_utf8(text), units.0, anchor),
        units_at(encode_utf8(text), units.1, head),
        utf16_offset(encode_utf8(text), units.0) == anchor,
        utf16_offset(encode_utf8(text), units.1) == head,
{
    let bytes = encode_utf8(text);
    let n = bytes.len() as int;
    lemma_encoded(text);
    assert(bytes.subrange(0, n) =~= bytes);
    law_utf16_offsets_come_back(bytes, anchor);
    law_utf16_offsets_come_back(bytes, head);
    match selected {
        Some(units) => units,
        None => (utf16_units(bytes) as int, utf16_units(bytes) as int),
    }
}

/// Where what was composed is, in code units.
proof fn lemma_placed_units<I>(
    s: StateView<I>,
    after: StateView<I>,
    start: int,
    end: int,
    text: Seq<char>,
    units: (int, int),
    anchor: int,
    head: int,
)
    requires
        0 <= start <= end <= s.model.bytes.len(),
        units_at(encode_utf8(text), units.0, anchor),
        units_at(encode_utf8(text), units.1, head),
        text_replaced(s, after, start, end, encode_utf8(text)),
        after.model.bytes == splice_bytes(s.model.bytes, start, end, encode_utf8(text)),
        after.model.anchor_offset() == start + anchor,
        after.model.cursor() == start + head,
        after.model.marked_range() == (if encode_utf8(text).len() > 0 {
            Some((start, start + encode_utf8(text).len()))
        } else {
            None
        }),
    ensures
        composition_placed(s, after, start, end, encode_utf8(text), units.0, units.1),
{
    let bytes = encode_utf8(text);
    let n = bytes.len() as int;
    lemma_encoded(text);
    assert(bytes.subrange(0, n) =~= bytes);
    assert(bytes.subrange(0, 0) =~= Seq::empty());
    lemma_units_in(s.model.bytes, start, end, bytes, anchor);
    lemma_units_in(s.model.bytes, start, end, bytes, head);
    lemma_units_in(s.model.bytes, start, end, bytes, 0);
    lemma_units_in(s.model.bytes, start, end, bytes, n);
    if anchor > head {
        lemma_units_order(bytes, head, anchor);
    }
}

/// More text has no fewer code units.
proof fn lemma_units_order(bytes: Seq<u8>, less: int, more: int)
    requires
        starts_clean(bytes),
        0 <= less < more <= bytes.len(),
        at_boundary(bytes, less),
        at_boundary(bytes, more),
    ensures
        utf16_units(bytes.subrange(0, less)) < utf16_units(bytes.subrange(0, more)),
{
    law_utf16_offsets_come_back(bytes, less);
    law_utf16_offsets_come_back(bytes, more);
    let part = bytes.subrange(less, more);
    assert(bytes.subrange(0, more) =~= bytes.subrange(0, less) + part);
    lemma_units_concat(bytes.subrange(0, less), part);
}

/// The next step of a composition replaces the step before as a whole: the
/// text is then that of the last step alone, and all of it is marked.
#[verifier::spinoff_prover]
#[verifier::rlimit(40)]
pub proof fn law_compositions_replace_their_text<I>(
    s: StateView<I>,
    first: Seq<char>,
    middle: StateView<I>,
    second: Seq<char>,
    after: StateView<I>,
    start: int,
    end: int,
)
    requires
        s.wf(),
        s.model.has_room(4),
        s.model.bytes.len() + encode_utf8(first).len() <= isize::MAX,
        s.model.input_range(None) == (start, end),
        s.marked_input(None, encode_utf8(first), None, middle),
        !left_alone(s, middle),
        first.len() > 0,
        middle.wf(),
        middle.model.has_room(4),
        middle.model.bytes.len() + encode_utf8(second).len() <= isize::MAX,
        middle.marked_input(None, encode_utf8(second), None, after),
        !left_alone(middle, after),
    ensures
        after.model.bytes == splice_bytes(s.model.bytes, start, end, encode_utf8(second)),
        after.model.cursor() == start + encode_utf8(second).len(),
        second.len() > 0 ==> after.model.marked_range() == Some(
            (start, start + encode_utf8(second).len()),
        ),
        second.len() == 0 ==> after.model.marked_range() is None,
{
    let a = encode_utf8(first);
    let b = encode_utf8(second);
    let n = a.len() as int;
    lemma_input_range(s.model);
    assert(n > 0) by {
        lemma_encoded(first);
    }
    assert(second.len() == 0 <==> b.len() == 0) by {
        lemma_encoded(second);
    }
    let u = lemma_units_of(first, None, n, n);
    let v = lemma_units_of(second, None, b.len() as int, b.len() as int);
    lemma_composed_outcome(s, (start, end), a, u, middle);
    assert(middle.model.input_range(None) == (start, start + n));
    lemma_composed_outcome(middle, (start, start + n), b, v, after);
    assert(after.model.bytes =~= splice_bytes(s.model.bytes, start, end, b));
}

/// Giving the marks up ends the composition and changes nothing else: the
/// text, the selection and what can be undone stay.
pub proof fn law_unmarking_keeps_text_and_selection<I>(s: StateView<I>)
    requires
        s.wf(),
    ensures
        s.unmarked().model.marked_range() is None,
        same_document(s.unmarked(), s),
        s.unmarked().model.selection_units() == s.model.selection_units(),
        s.unmarked().undo.coalescing != Some(EditOrigin::Composition),
        s.unmarked().effects == s.effects,
{
}

// ---------------------------------------------------------------------------
// Asking and selecting
// ---------------------------------------------------------------------------

/// The text in a range of code units is the text between them.
pub proof fn law_text_is_found_by_code_units<I>(
    m: ModelView<I>,
    units: (int, int),
    start: int,
    end: int,
)
    requires
        m.wf(),
        units_at(m.bytes, units.0, start),
        units_at(m.bytes, units.1, end),
        start <= end,
    ensures
        m.text_in_units(units) == (m.bytes.subrange(start, end), units),
{
    law_utf16_offsets_come_back(m.bytes, start);
    law_utf16_offsets_come_back(m.bytes, end);
}

/// A range of code units that is selected is the selection, in code units, and
/// nothing of the document changes.
pub proof fn law_selected_code_units_are_the_selection<I>(
    s: StateView<I>,
    units: (int, int),
    start: int,
    end: int,
)
    requires
        s.wf(),
        s.model.has_room(2),
        units_at(s.model.bytes, units.0, start),
        units_at(s.model.bytes, units.1, end),
        start <= end,
    ensures
        s.units_selected(units).model.selection_units() == (units, false),
        s.units_selected(units).model.selected() == (start, end),
        same_document(s.units_selected(units), s),
{
    let m = s.model;
    law_utf16_offsets_come_back(m.bytes, start);
    law_utf16_offsets_come_back(m.bytes, end);
    lemma_input_position(m, start, Affinity::After);
    lemma_input_position(m, end, Affinity::Before);
}

} // verus!
