//! Where the keys take the caret: each is stated over the text, the caret and
//! the selection that they find.

use crate::document::key_laws::{
    all_spaces, lemma_before_breaks_is, lemma_line_start_is, lemma_line_starts_before,
    lemma_next_line_is, lemma_next_word_is, lemma_previous_word_is, lemma_selected, one_character,
};
use crate::document::model_edit::{lemma_anchor_position, lemma_offset_position};
use crate::document::model_view::{owner_of, region_at, ModelView};
use crate::document::position::{Affinity, DocumentPosition, PositionError};
use crate::document::state_move::lemma_head_target;
use crate::document::state_view::StateView;
use crate::document::view_laws::{law_moves_change_only_the_selection, same_document};
use crate::scan::{lemma_first_where, lemma_last_where};
use crate::text::{at_boundary, lemma_ceil_boundary, lemma_floor_boundary, line_start, next_line};
use crate::words::char_is_whitespace;
use vstd::prelude::*;
use vstd::utf8::*;

verus! {

/// Some node reaches an offset.
pub open spec fn is_reached<I>(m: ModelView<I>, offset: int) -> bool {
    exists|r: int|
        0 <= r < m.regions.len() && (#[trigger] m.regions[r]).start() <= offset
            <= m.regions[r].end()
}

/// The head is at an offset and the anchor too, or where it was when the
/// selection is extended. Nothing of the document has changed, and the next
/// edit is a record of its own.
pub open spec fn head_is_at<I>(s: StateView<I>, after: StateView<I>, offset: int, extend: bool) -> bool {
    &&& same_document(after, s)
    &&& after.model.cursor() == offset
    &&& !extend ==> after.model.anchor_offset() == offset
    &&& extend ==> after.model.anchor_offset() == s.model.anchor_offset()
    &&& after.undo.coalescing is None
}

/// An offset that a node reaches has a position.
proof fn lemma_reached<I>(m: ModelView<I>, offset: int, affinity: Affinity)
    requires
        m.wf(),
        at_boundary(m.bytes, offset),
        is_reached(m, offset),
    ensures
        m.any_position(offset, affinity) is Some,
{
    let test = region_at::<I>(offset);
    lemma_first_where(m.regions, test, 0);
    lemma_last_where(m.regions, test, m.regions.len() as int);
    let r = choose|r: int|
        0 <= r < m.regions.len() && (#[trigger] m.regions[r]).start() <= offset
            <= m.regions[r].end();
    assert(test(m.regions[r]));
    let at = owner_of(m.regions, offset, affinity);
    assert(0 <= at < m.regions.len());
}

proof fn lemma_head<I>(s: StateView<I>, offset: int, extend: bool)
    requires
        s.wf(),
        s.model.has_room(2),
        s.model.tail_position() is Ok,
        at_boundary(s.model.bytes, offset),
        is_reached(s.model, offset),
    ensures
        head_is_at(s, s.head_moved(offset, extend), offset, extend),
{
    lemma_reached(s.model, offset, Affinity::After);
    lemma_head_target(s.model, offset);
    law_moves_change_only_the_selection(s, s.model.head_target(offset)->0, extend);
}

// ---------------------------------------------------------------------------
// Characters
// ---------------------------------------------------------------------------

/// To the left a selection collapses to its start. Without a selection the
/// caret goes before the one character before it.
pub proof fn law_the_caret_goes_left<I>(s: StateView<I>, target: int)
    requires
        s.wf(),
        s.model.has_room(2),
        s.model.tail_position() is Ok,
        is_reached(s.model, target),
        ({
            let (start, end) = s.model.selected();
            if start < end {
                target == start
            } else {
                one_character(s.model.bytes, target, s.model.cursor()) || (s.model.cursor() == 0
                    && target == 0)
            }
        }),
    ensures
        head_is_at(s, s.moved_left(), target, false),
{
    lemma_selected(s.model);
    let c = s.model.cursor();
    lemma_floor_boundary(
        s.model.bytes,
        if c > 0 {
            c - 1
        } else {
            0
        },
    );
    if s.model.selected().0 >= s.model.selected().1 {
        assert(at_boundary(s.model.bytes, s.model.before(c)));
        assert(s.model.before(c) == target);
    }
    lemma_head(s, target, false);
}

/// To the right a selection collapses to its end. Without a selection the
/// caret goes behind the one character behind it.
pub proof fn law_the_caret_goes_right<I>(s: StateView<I>, target: int)
    requires
        s.wf(),
        s.model.has_room(2),
        s.model.tail_position() is Ok,
        is_reached(s.model, target),
        ({
            let (start, end) = s.model.selected();
            let n = s.model.bytes.len() as int;
            if start < end {
                target == end
            } else {
                one_character(s.model.bytes, s.model.cursor(), target) || (s.model.cursor() == n
                    && target == n)
            }
        }),
    ensures
        head_is_at(s, s.moved_right(), target, false),
{
    lemma_selected(s.model);
    let c = s.model.cursor();
    let n = s.model.bytes.len() as int;
    lemma_ceil_boundary(
        s.model.bytes,
        if c < n {
            c + 1
        } else {
            n
        },
    );
    if s.model.selected().0 >= s.model.selected().1 {
        assert(at_boundary(s.model.bytes, s.model.behind(c)));
        assert(s.model.behind(c) == target);
    }
    lemma_head(s, target, false);
}

/// Extending to the left takes the head before the character before it and
/// leaves the anchor.
pub proof fn law_the_selection_grows_left<I>(s: StateView<I>, target: int)
    requires
        s.wf(),
        s.model.has_room(2),
        s.model.tail_position() is Ok,
        is_reached(s.model, target),
        one_character(s.model.bytes, target, s.model.cursor()),
    ensures
        head_is_at(s, s.selected_left(), target, true),
{
    lemma_selected(s.model);
    let c = s.model.cursor();
    lemma_floor_boundary(s.model.bytes, c - 1);
    assert(at_boundary(s.model.bytes, s.model.before(c)));
    assert(s.model.before(c) == target);
    lemma_head(s, target, true);
}

/// Extending to the right takes the head behind the character behind it and
/// leaves the anchor.
pub proof fn law_the_selection_grows_right<I>(s: StateView<I>, target: int)
    requires
        s.wf(),
        s.model.has_room(2),
        s.model.tail_position() is Ok,
        is_reached(s.model, target),
        one_character(s.model.bytes, s.model.cursor(), target),
    ensures
        head_is_at(s, s.selected_right(), target, true),
{
    lemma_selected(s.model);
    let c = s.model.cursor();
    lemma_ceil_boundary(s.model.bytes, c + 1);
    assert(at_boundary(s.model.bytes, s.model.behind(c)));
    assert(s.model.behind(c) == target);
    lemma_head(s, target, true);
}

// ---------------------------------------------------------------------------
// Lines
// ---------------------------------------------------------------------------

/// The start of a line is behind the line feed before the caret, or at the
/// start of the text.
pub proof fn law_the_caret_goes_to_the_start_of_its_line<I>(
    s: StateView<I>,
    target: int,
    extend: bool,
)
    requires
        s.wf(),
        s.model.has_room(2),
        s.model.tail_position() is Ok,
        is_reached(s.model, target),
        at_boundary(s.model.bytes, target),
        0 <= target <= s.model.cursor(),
        target == 0 || s.model.bytes[target - 1] == 0x0a,
        forall|i: int| target <= i < s.model.cursor() ==> #[trigger] s.model.bytes[i] != 0x0a,
    ensures
        head_is_at(s, s.at_line_start(extend), target, extend),
{
    lemma_selected(s.model);
    lemma_floor_boundary(s.model.bytes, s.model.cursor());
    lemma_line_start_is(s.model.bytes, s.model.cursor(), target);
    lemma_head(s, target, extend);
}

/// The end of a line is before the line break behind the caret, or at the end
/// of the text.
pub proof fn law_the_caret_goes_to_the_end_of_its_line<I>(
    s: StateView<I>,
    target: int,
    feed: int,
    extend: bool,
)
    requires
        s.wf(),
        s.model.has_room(2),
        s.model.tail_position() is Ok,
        is_reached(s.model, target),
        at_boundary(s.model.bytes, target),
        s.model.cursor() <= target <= feed <= s.model.bytes.len(),
        feed == s.model.bytes.len() || s.model.bytes[feed] == 0x0a,
        forall|i: int| s.model.cursor() <= i < feed ==> #[trigger] s.model.bytes[i] != 0x0a,
        forall|i: int| target <= i < feed ==> #[trigger] s.model.bytes[i] == 0x0d,
        target == 0 || s.model.bytes[target - 1] != 0x0d,
    ensures
        head_is_at(s, s.at_line_end(extend), target, extend),
{
    let bytes = s.model.bytes;
    let c = s.model.cursor();
    lemma_selected(s.model);
    lemma_floor_boundary(bytes, c);
    lemma_next_line_is(bytes, c, feed);
    lemma_line_starts_before(bytes, c);
    lemma_before_breaks_is(bytes, line_start(bytes, c), next_line(bytes, c), target);
    lemma_head(s, target, extend);
}

// ---------------------------------------------------------------------------
// The document
// ---------------------------------------------------------------------------

/// The start of the document is its first offset, and its end the last.
pub proof fn law_the_caret_goes_to_the_ends<I>(s: StateView<I>, extend: bool)
    requires
        s.wf(),
        s.model.has_room(2),
        s.model.tail_position() is Ok,
    ensures
        is_reached(s.model, 0) ==> head_is_at(s, s.at_start(extend), 0, extend),
        is_reached(s.model, s.model.bytes.len() as int) ==> head_is_at(
            s,
            s.at_end(extend),
            s.model.bytes.len() as int,
            extend,
        ),
{
    let m = s.model;
    let n = m.bytes.len() as int;
    if is_reached(m, 0) {
        lemma_reached(m, 0, Affinity::Before);
        lemma_offset_position(m, 0, Affinity::Before);
        law_moves_change_only_the_selection(s, m.any_position(0, Affinity::Before)->0, extend);
    }
    if is_reached(m, n) {
        lemma_reached(m, n, Affinity::After);
        lemma_offset_position(m, n, Affinity::After);
        law_moves_change_only_the_selection(s, m.any_position(n, Affinity::After)->0, extend);
    }
}

// ---------------------------------------------------------------------------
// Words
// ---------------------------------------------------------------------------

/// The word before the caret is behind the whitespace before it: the caret
/// goes back over whitespace, and then over a word.
pub proof fn law_the_caret_goes_before_a_word<I>(
    s: StateView<I>,
    rest: Seq<char>,
    word: Seq<char>,
    gap: Seq<char>,
    extend: bool,
)
    requires
        s.wf(),
        s.model.has_room(2),
        s.model.tail_position() is Ok,
        is_reached(s.model, encode_utf8(rest).len() as int),
        at_boundary(s.model.bytes, encode_utf8(rest).len() as int),
        s.model.bytes.subrange(0, s.model.cursor()) == encode_utf8(rest + word + gap),
        all_spaces(word, false),
        all_spaces(gap, true),
        rest.len() > 0 ==> char_is_whitespace(rest.last()),
        rest.len() > 0 ==> word.len() > 0,
    ensures
        head_is_at(s, s.at_previous_word(extend), encode_utf8(rest).len() as int, extend),
{
    lemma_selected(s.model);
    lemma_previous_word_is(s.model.bytes, s.model.cursor(), rest, word, gap);
    lemma_head(s, encode_utf8(rest).len() as int, extend);
}

/// The caret goes ahead over a word, and then over the whitespace behind it.
pub proof fn law_the_caret_goes_behind_a_word<I>(
    s: StateView<I>,
    word: Seq<char>,
    gap: Seq<char>,
    rest: Seq<char>,
    extend: bool,
)
    requires
        s.wf(),
        s.model.has_room(2),
        s.model.tail_position() is Ok,
        is_reached(s.model, s.model.cursor() + encode_utf8(word + gap).len()),
        at_boundary(s.model.bytes, s.model.cursor() + encode_utf8(word + gap).len()),
        s.model.bytes.subrange(s.model.cursor(), s.model.bytes.len() as int) == encode_utf8(
            word + gap + rest,
        ),
        all_spaces(word, false),
        all_spaces(gap, true),
        rest.len() > 0 ==> !char_is_whitespace(rest[0]),
        rest.len() > 0 ==> gap.len() > 0,
    ensures
        head_is_at(
            s,
            s.at_next_word(extend),
            s.model.cursor() + encode_utf8(word + gap).len(),
            extend,
        ),
{
    lemma_selected(s.model);
    lemma_next_word_is(s.model.bytes, s.model.cursor(), word, gap, rest);
    lemma_head(s, s.model.cursor() + encode_utf8(word + gap).len(), extend);
}

// ---------------------------------------------------------------------------
// Ranges
// ---------------------------------------------------------------------------

/// A range between characters is selected as it is, with the head at its end
/// or, reversed, at its start.
pub proof fn law_ranges_are_selected<I>(s: StateView<I>, start: int, end: int, reversed: bool)
    requires
        s.wf(),
        s.model.has_room(2),
        0 <= start <= end <= s.model.bytes.len(),
        at_boundary(s.model.bytes, start),
        at_boundary(s.model.bytes, end),
    ensures
        ({
            let after = s.range_selected(start, end, reversed);
            &&& same_document(after, s)
            &&& after.model.selected() == (start, end)
            &&& after.model.cursor() == (if reversed {
                start
            } else {
                end
            })
            &&& after.undo.coalescing is None
        }),
{
    lemma_floor_boundary(s.model.bytes, start);
    lemma_ceil_boundary(s.model.bytes, end);
}

/// Moving up leaves a selection at its start and moving down at its end;
/// without a selection both start at the caret.
pub proof fn law_vertical_moves_start_at_the_nearer_end<I>(
    s: StateView<I>,
    down: bool,
    position: DocumentPosition<I>,
)
    requires
        s.wf(),
        s.model.vertical_start(down) == Some(position),
    ensures
        ({
            let (start, end) = s.model.selected();
            s.model.resolve_position(position) == Ok::<usize, PositionError>(
                (if start == end {
                    s.model.cursor()
                } else if down {
                    end
                } else {
                    start
                }) as usize,
            )
        }),
{
    lemma_selected(s.model);
    lemma_anchor_position(s.model, s.model.selection.spec_head());
    lemma_offset_position(s.model, s.model.selected().0, Affinity::After);
    lemma_offset_position(s.model, s.model.selected().1, Affinity::After);
}

} // verus!
