//! Source text: a rope of UTF-8 bytes that is addressed by byte offsets.
//!
//! A rope's contents are the sequence [`rope_bytes`]. Offsets between
//! characters satisfy [`at_boundary`]; an edit replaces the bytes between two
//! such offsets.

use ropey::{LineType, Rope};
use std::ops::Range;
use vstd::prelude::*;
use vstd::string::*;
use vstd::utf8::*;

verus! {

#[verifier::external_type_specification]
#[verifier::external_body]
pub struct ExRope(Rope);

/// The UTF-8 bytes that a rope holds.
pub uninterp spec fn rope_bytes(rope: Rope) -> Seq<u8>;

/// Which way an offset inside a character is moved.
#[derive(Clone, Copy, Debug, PartialEq, Eq, Structural)]
pub enum Bias {
    Left,
    Right,
}

// ---------------------------------------------------------------------------
// Offsets and bytes
// ---------------------------------------------------------------------------

/// `offset` lies between two characters, or at an end.
pub open spec fn at_boundary(bytes: Seq<u8>, offset: int) -> bool {
    &&& 0 <= offset <= bytes.len()
    &&& offset == 0 || offset == bytes.len() || !is_continuation_byte(bytes[offset])
}

/// A range whose ends are in order and both at boundaries.
pub open spec fn boundary_range(bytes: Seq<u8>, range: Range<usize>) -> bool {
    &&& range.start <= range.end <= bytes.len()
    &&& at_boundary(bytes, range.start as int)
    &&& at_boundary(bytes, range.end as int)
}

/// The closest boundary at or before `offset`.
pub open spec fn floor_boundary(bytes: Seq<u8>, offset: int) -> int
    decreases offset,
{
    if offset <= 0 || at_boundary(bytes, offset) {
        offset
    } else {
        floor_boundary(bytes, offset - 1)
    }
}

/// The closest boundary at or behind `offset`.
pub open spec fn ceil_boundary(bytes: Seq<u8>, offset: int) -> int
    decreases bytes.len() - offset,
{
    if offset >= bytes.len() || at_boundary(bytes, offset) {
        offset
    } else {
        ceil_boundary(bytes, offset + 1)
    }
}

/// `offset`, cut to the text and moved to a boundary.
pub open spec fn clipped(bytes: Seq<u8>, offset: int, bias: Bias) -> int {
    let inside = if offset <= bytes.len() {
        offset
    } else {
        bytes.len() as int
    };
    match bias {
        Bias::Left => floor_boundary(bytes, inside),
        Bias::Right => ceil_boundary(bytes, inside),
    }
}

/// The bytes with those between `start` and `end` replaced by `insert`.
pub open spec fn splice_bytes(bytes: Seq<u8>, start: int, end: int, insert: Seq<u8>) -> Seq<u8> {
    bytes.subrange(0, start) + insert + bytes.subrange(end, bytes.len() as int)
}

/// UTF-16 code units of the characters that start in `bytes`.
pub open spec fn utf16_units(bytes: Seq<u8>) -> nat
    decreases bytes.len(),
{
    if bytes.len() == 0 {
        0
    } else {
        utf16_units(bytes.drop_last()) + (if is_continuation_byte(bytes.last()) {
            0nat
        } else if bytes.last() >= 0xf0 {
            2nat
        } else {
            1nat
        })
    }
}

/// The last boundary at or before `from` with at most `units` UTF-16 code
/// units before it.
pub open spec fn utf16_floor(bytes: Seq<u8>, units: int, from: int) -> int
    decreases from,
{
    if from <= 0 || (at_boundary(bytes, from) && utf16_units(bytes.subrange(0, from)) <= units) {
        from
    } else {
        utf16_floor(bytes, units, from - 1)
    }
}

/// The last boundary with at most `units` UTF-16 code units before it.
pub open spec fn utf16_offset(bytes: Seq<u8>, units: int) -> int {
    utf16_floor(bytes, units, bytes.len() as int)
}

pub(crate) proof fn lemma_utf16_floor_is(bytes: Seq<u8>, units: int, from: int, offset: int)
    requires
        0 <= offset <= from <= bytes.len(),
        at_boundary(bytes, offset),
        utf16_units(bytes.subrange(0, offset)) <= units,
        forall|i: int|
            offset < i && #[trigger] at_boundary(bytes, i) ==> utf16_units(bytes.subrange(0, i))
                > units,
    ensures
        utf16_floor(bytes, units, from) == offset,
    decreases from,
{
    if offset < from {
        lemma_utf16_floor_is(bytes, units, from - 1, offset);
    }
}

/// Line feeds in `bytes`.
pub open spec fn line_feeds(bytes: Seq<u8>) -> nat
    decreases bytes.len(),
{
    if bytes.len() == 0 {
        0
    } else {
        line_feeds(bytes.drop_last()) + (if bytes.last() == 0x0a {
            1nat
        } else {
            0nat
        })
    }
}

/// The first offset from `from` on that as many line feeds come before.
pub open spec fn line_from(bytes: Seq<u8>, line: int, from: int) -> int
    decreases bytes.len() - from,
{
    if from >= bytes.len() || line_feeds(bytes.subrange(0, from)) >= line {
        from
    } else {
        line_from(bytes, line, from + 1)
    }
}

/// Where a line starts: at the first offset that as many line feeds come
/// before as lines do. Behind the last line that is the end of the text.
pub open spec fn nth_line(bytes: Seq<u8>, line: int) -> int {
    line_from(bytes, line, 0)
}

/// Where the line of an offset starts: behind the last line feed before it.
pub open spec fn line_start(bytes: Seq<u8>, offset: int) -> int
    decreases offset,
{
    if offset <= 0 {
        0
    } else if bytes[offset - 1] == 0x0a {
        offset
    } else {
        line_start(bytes, offset - 1)
    }
}

/// Where the line behind that of an offset starts: behind the first line feed
/// from it on.
pub open spec fn next_line(bytes: Seq<u8>, offset: int) -> int
    decreases bytes.len() - offset,
{
    if offset >= bytes.len() {
        bytes.len() as int
    } else if bytes[offset] == 0x0a {
        offset + 1
    } else {
        next_line(bytes, offset + 1)
    }
}

/// The end of a range without the line breaks at its end.
pub open spec fn before_breaks(bytes: Seq<u8>, start: int, end: int) -> int
    decreases end - start,
{
    if start < end && (bytes[end - 1] == 0x0a || bytes[end - 1] == 0x0d) {
        before_breaks(bytes, start, end - 1)
    } else {
        end
    }
}

/// Where the line of an offset ends, without its line break.
pub open spec fn line_end(bytes: Seq<u8>, offset: int) -> int {
    before_breaks(bytes, line_start(bytes, offset), next_line(bytes, offset))
}

proof fn lemma_line_feeds(bytes: Seq<u8>, from: int, to: int)
    requires
        0 <= from <= to <= bytes.len(),
    ensures
        line_feeds(bytes.subrange(0, from)) <= line_feeds(bytes.subrange(0, to)),
        to > from ==> line_feeds(bytes.subrange(0, to)) == line_feeds(bytes.subrange(0, to - 1)) + (
        if bytes[to - 1] == 0x0a {
            1nat
        } else {
            0nat
        }),
    decreases to - from,
{
    if from < to {
        assert(bytes.subrange(0, to).drop_last() =~= bytes.subrange(0, to - 1));
        lemma_line_feeds(bytes, from, to - 1);
    }
}

proof fn lemma_line_from(bytes: Seq<u8>, line: int, from: int, to: int)
    requires
        0 <= from <= to <= bytes.len(),
        to == bytes.len() || line_feeds(bytes.subrange(0, to)) >= line,
        from < to ==> line_feeds(bytes.subrange(0, to - 1)) < line,
    ensures
        line_from(bytes, line, from) == to,
    decreases to - from,
{
    if from < to {
        lemma_line_feeds(bytes, from, to - 1);
        lemma_line_from(bytes, line, from + 1, to);
    }
}

proof fn lemma_line_start(bytes: Seq<u8>, offset: int)
    requires
        0 <= offset <= bytes.len(),
    ensures
        0 <= line_start(bytes, offset) <= offset,
        nth_line(bytes, line_feeds(bytes.subrange(0, offset)) as int) == line_start(bytes, offset),
    decreases offset,
{
    let line = line_feeds(bytes.subrange(0, offset)) as int;
    if offset == 0 {
        assert(bytes.subrange(0, 0) =~= Seq::<u8>::empty());
        lemma_line_from(bytes, line, 0, 0);
    } else {
        lemma_line_feeds(bytes, 0, offset);
        if bytes[offset - 1] == 0x0a {
            lemma_line_from(bytes, line, 0, offset);
        } else {
            lemma_line_feeds(bytes, offset - 1, offset);
            lemma_line_start(bytes, offset - 1);
        }
    }
}

proof fn lemma_next_line(bytes: Seq<u8>, offset: int)
    requires
        0 <= offset <= bytes.len(),
    ensures
        offset <= next_line(bytes, offset) <= bytes.len(),
        next_line(bytes, offset) == bytes.len() || offset < next_line(bytes, offset) && bytes[
        next_line(bytes, offset) - 1] == 0x0a,
        nth_line(bytes, line_feeds(bytes.subrange(0, offset)) as int + 1) == next_line(bytes, offset),
    decreases bytes.len() - offset,
{
    let line = line_feeds(bytes.subrange(0, offset)) as int + 1;
    if offset == bytes.len() {
        if offset > 0 {
            lemma_line_feeds(bytes, offset - 1, offset);
        }
        lemma_line_from(bytes, line, 0, offset);
    } else {
        lemma_line_feeds(bytes, offset, offset + 1);
        if bytes[offset] == 0x0a {
            lemma_line_from(bytes, line, 0, offset + 1);
        } else {
            lemma_next_line(bytes, offset + 1);
        }
    }
}

proof fn lemma_before_breaks(bytes: Seq<u8>, start: int, end: int)
    requires
        0 <= start <= end <= bytes.len(),
        at_boundary(bytes, end) || start < end && bytes[end - 1] == 0x0a,
    ensures
        start <= before_breaks(bytes, start, end) <= end,
        at_boundary(bytes, before_breaks(bytes, start, end)),
        before_breaks(bytes.subrange(start, end), 0, end - start) == before_breaks(
            bytes,
            start,
            end,
        ) - start,
    decreases end - start,
{
    if start < end && (bytes[end - 1] == 0x0a || bytes[end - 1] == 0x0d) {
        let byte = bytes[end - 1];
        assert(!is_continuation_byte(byte)) by {
            assert(byte < 0x80 ==> byte & 0xc0 != 0x80) by (bit_vector);
        }
        lemma_before_breaks(bytes, start, end - 1);
        lemma_same_breaks(
            bytes.subrange(start, end),
            bytes.subrange(start, end - 1),
            end - 1 - start,
        );
    }
}

proof fn lemma_same_breaks(left: Seq<u8>, right: Seq<u8>, end: int)
    requires
        0 <= end <= left.len(),
        end <= right.len(),
        forall|i: int| 0 <= i < end ==> left[i] == right[i],
    ensures
        before_breaks(left, 0, end) == before_breaks(right, 0, end),
    decreases end,
{
    if end > 0 {
        lemma_same_breaks(left, right, end - 1);
    }
}

pub proof fn lemma_floor_boundary(bytes: Seq<u8>, offset: int)
    requires
        0 <= offset <= bytes.len(),
    ensures
        0 <= floor_boundary(bytes, offset) <= offset,
        at_boundary(bytes, floor_boundary(bytes, offset)),
        forall|i: int|
            floor_boundary(bytes, offset) < i <= offset ==> !(#[trigger] at_boundary(bytes, i)),
    decreases offset,
{
    if offset <= 0 || at_boundary(bytes, offset) {
    } else {
        lemma_floor_boundary(bytes, offset - 1);
    }
}

pub proof fn lemma_ceil_boundary(bytes: Seq<u8>, offset: int)
    requires
        0 <= offset <= bytes.len(),
    ensures
        offset <= ceil_boundary(bytes, offset) <= bytes.len(),
        at_boundary(bytes, ceil_boundary(bytes, offset)),
        forall|i: int|
            offset <= i < ceil_boundary(bytes, offset) ==> !(#[trigger] at_boundary(bytes, i)),
    decreases bytes.len() - offset,
{
    if offset >= bytes.len() || at_boundary(bytes, offset) {
    } else {
        lemma_ceil_boundary(bytes, offset + 1);
    }
}

/// Clipping reaches a boundary inside the text and leaves boundaries alone.
pub proof fn lemma_clipped(bytes: Seq<u8>, offset: int, bias: Bias)
    requires
        0 <= offset,
    ensures
        at_boundary(bytes, clipped(bytes, offset, bias)),
        offset <= bytes.len() ==> (clipped(bytes, offset, bias) == offset <==> at_boundary(
            bytes,
            offset,
        )),
{
    let inside = if offset <= bytes.len() {
        offset
    } else {
        bytes.len() as int
    };
    lemma_floor_boundary(bytes, inside);
    lemma_ceil_boundary(bytes, inside);
}

/// Encoding characters one after another is encoding them together.
pub proof fn lemma_encode_concat(left: Seq<char>, right: Seq<char>)
    ensures
        encode_utf8(left + right) == encode_utf8(left) + encode_utf8(right),
    decreases left.len(),
{
    if left.len() == 0 {
        assert(left + right =~= right);
        assert(encode_utf8(left) + encode_utf8(right) =~= encode_utf8(right));
    } else {
        lemma_encode_concat(left.drop_first(), right);
        assert((left + right).drop_first() =~= left.drop_first() + right);
        assert(encode_utf8(left + right) =~= encode_utf8(left) + encode_utf8(right));
    }
}

/// Two strings of the same bytes are the same characters.
pub proof fn lemma_encode_injective(left: Seq<char>, right: Seq<char>)
    requires
        encode_utf8(left) == encode_utf8(right),
    ensures
        left == right,
{
    encode_utf8_decode_utf8(left);
    encode_utf8_decode_utf8(right);
}

/// An encoded string does not begin inside a character, and its boundaries
/// are the character boundaries of the string.
pub proof fn lemma_encoded(chars: Seq<char>)
    ensures
        encode_utf8(chars).len() > 0 ==> !is_continuation_byte(encode_utf8(chars)[0]),
        encode_utf8(chars).len() == 0 <==> chars.len() == 0,
        forall|i: int|
            #[trigger] at_boundary(encode_utf8(chars), i) <==> 0 <= i <= encode_utf8(chars).len()
                && is_char_boundary(encode_utf8(chars), i),
{
    let bytes = encode_utf8(chars);
    encode_utf8_valid_utf8(chars);
    is_char_boundary_start_end_of_seq(bytes);
    if bytes.len() > 0 {
        is_char_boundary_iff_not_is_continuation_byte(bytes, 0);
    }
    if chars.len() > 0 {
        encode_utf8_first_scalar(chars);
    }
    assert forall|i: int| #[trigger] at_boundary(bytes, i) <==> 0 <= i <= bytes.len()
        && is_char_boundary(bytes, i) by {
        if 0 <= i < bytes.len() {
            is_char_boundary_iff_not_is_continuation_byte(bytes, i);
        }
    }
}

/// Behind a character of one byte a character ends.
pub proof fn lemma_behind_ascii(chars: Seq<char>, i: int)
    requires
        0 <= i < encode_utf8(chars).len(),
        encode_utf8(chars)[i] < 0x80,
    ensures
        at_boundary(encode_utf8(chars), i),
        at_boundary(encode_utf8(chars), i + 1),
{
    encode_utf8_valid_utf8(chars);
    lemma_ascii_ends(encode_utf8(chars), i);
    lemma_encoded(chars);
}

proof fn lemma_ascii_ends(bytes: Seq<u8>, i: int)
    requires
        valid_utf8(bytes),
        0 <= i < bytes.len(),
        bytes[i] < 0x80,
    ensures
        is_char_boundary(bytes, i + 1),
    decreases bytes.len(),
{
    let n = length_of_first_scalar(bytes);
    if i < n {
        reveal_with_fuel(is_char_boundary, 2);
    } else {
        lemma_ascii_ends(pop_first_scalar(bytes), i - n);
    }
}

/// The bytes do not begin inside a character.
pub open spec fn starts_clean(bytes: Seq<u8>) -> bool {
    bytes.len() > 0 ==> !is_continuation_byte(bytes[0])
}

/// Replacing the bytes between two boundaries keeps every boundary outside,
/// and adds those of the inserted bytes.
pub proof fn lemma_splice_boundaries(bytes: Seq<u8>, start: int, end: int, insert: Seq<u8>)
    requires
        0 <= start <= end <= bytes.len(),
        at_boundary(bytes, start),
        at_boundary(bytes, end),
        starts_clean(insert),
        starts_clean(bytes),
    ensures
        starts_clean(splice_bytes(bytes, start, end, insert)),
        splice_bytes(bytes, start, end, insert).len() == bytes.len() - (end - start) + insert.len(),
        forall|i: int|
            0 <= i <= start ==> (#[trigger] at_boundary(splice_bytes(bytes, start, end, insert), i)
                <==> at_boundary(bytes, i)),
        forall|i: int|
            end <= i <= bytes.len() ==> (at_boundary(
                splice_bytes(bytes, start, end, insert),
                #[trigger] (i - (end - start) + insert.len()),
            ) <==> at_boundary(bytes, i)),
        forall|i: int|
            0 <= i <= insert.len() && at_boundary(insert, i) ==> at_boundary(
                splice_bytes(bytes, start, end, insert),
                #[trigger] (start + i),
            ),
{
    let out = splice_bytes(bytes, start, end, insert);
    let n = insert.len();
    assert forall|i: int| 0 <= i <= start implies (#[trigger] at_boundary(out, i) <==> at_boundary(
        bytes,
        i,
    )) by {
        if i < start {
            assert(out[i] == bytes[i]);
        } else if n > 0 {
            assert(out[start] == insert[0]);
        } else if end < bytes.len() {
            assert(out[start] == bytes[end]);
        }
    }
    assert forall|i: int| end <= i <= bytes.len() implies (at_boundary(
        out,
        #[trigger] (i - (end - start) + n),
    ) <==> at_boundary(bytes, i)) by {
        let j = i - (end - start) + n;
        if i < bytes.len() {
            assert(out[j] == bytes[i]);
        }
        if j == 0 {
            assert(n == 0 && start == 0 && i == end);
        }
    }
    assert forall|i: int| 0 <= i <= n && at_boundary(insert, i) implies at_boundary(
        out,
        #[trigger] (start + i),
    ) by {
        if i < n {
            assert(out[start + i] == insert[i]);
        } else {
            if end < bytes.len() {
                assert(out[start + i] == bytes[end]);
            }
        }
    }
    if out.len() > 0 {
        if start > 0 {
            assert(out[0] == bytes[0]);
        } else if n > 0 {
            assert(out[0] == insert[0]);
        } else {
            assert(out[0] == bytes[end]);
        }
    }
}

/// Between two boundaries, the offsets at boundaries of the part are those of
/// the whole.
pub proof fn lemma_part_boundary(bytes: Seq<u8>, start: int, end: int, offset: int)
    requires
        0 <= start <= end <= bytes.len(),
        at_boundary(bytes, start),
        at_boundary(bytes, end),
        0 <= offset <= end - start,
    ensures
        at_boundary(bytes.subrange(start, end), offset) <==> at_boundary(bytes, start + offset),
{
    let part = bytes.subrange(start, end);
    if offset < part.len() {
        assert(part[offset] == bytes[start + offset]);
    }
}

// ---------------------------------------------------------------------------
// Strings
// ---------------------------------------------------------------------------

/// The number of bytes of a string.
pub fn byte_len(text: &str) -> (len: usize)
    ensures
        len == text.spec_bytes().len(),
{
    text.as_bytes().len()
}

/// The part of a string between two character boundaries.
pub fn sub_str(text: &str, start: usize, end: usize) -> (part: &str)
    requires
        start <= end <= text.spec_bytes().len(),
        at_boundary(text.spec_bytes(), start as int),
        at_boundary(text.spec_bytes(), end as int),
    ensures
        part.spec_bytes() == text.spec_bytes().subrange(start as int, end as int),
{
    proof {
        lemma_encoded(text@);
    }
    let front = text.split_at(end).0;
    proof {
        lemma_encoded(front@);
        let bytes = text.spec_bytes();
        lemma_part_boundary(bytes, 0, end as int, start as int);
    }
    let part = front.split_at(start).1;
    assert(part.spec_bytes() =~= text.spec_bytes().subrange(start as int, end as int));
    part
}

/// An owned copy of the part of a string between two character boundaries.
pub fn sub_string(text: &str, start: usize, end: usize) -> (part: String)
    requires
        start <= end <= text.spec_bytes().len(),
        at_boundary(text.spec_bytes(), start as int),
        at_boundary(text.spec_bytes(), end as int),
    ensures
        encode_utf8(part@) == text.spec_bytes().subrange(start as int, end as int),
{
    sub_str(text, start, end).to_owned()
}

/// Whether an offset lies at a boundary of a string.
pub fn is_str_boundary(text: &str, offset: usize) -> (boundary: bool)
    ensures
        boundary == at_boundary(text.spec_bytes(), offset as int),
{
    proof {
        lemma_encoded(text@);
        assert(at_boundary(encode_utf8(text@), offset as int) <==> 0 <= offset <= encode_utf8(
            text@,
        ).len() && is_char_boundary(encode_utf8(text@), offset as int));
    }
    offset <= byte_len(text) && text.is_char_boundary(offset)
}

/// Appends `more` to `text`.
pub fn push_text(text: &mut String, more: &str)
    ensures
        final(text)@ == old(text)@ + more@,
        encode_utf8(final(text)@) == encode_utf8(old(text)@) + more.spec_bytes(),
{
    proof {
        lemma_encode_concat(old(text)@, more@);
    }
    text.append(more);
}

/// Whether two strings are the same.
pub fn same_text(left: &str, right: &str) -> (same: bool)
    ensures
        same == (left@ == right@),
        same == (left.spec_bytes() == right.spec_bytes()),
{
    let left = left.to_owned();
    let right = right.to_owned();
    proof {
        if encode_utf8(left@) == encode_utf8(right@) {
            lemma_encode_injective(left@, right@);
        }
    }
    left == right
}

// ---------------------------------------------------------------------------
// Ropes
// ---------------------------------------------------------------------------

/// `Rope::from_str`: a rope that holds the bytes of the string.
#[verifier::external_body]
fn rope_from_str(text: &str) -> (rope: Rope)
    ensures
        rope_bytes(rope) == text.spec_bytes(),
{
    Rope::from_str(text)
}

/// `Rope::len`: the number of bytes.
#[verifier::external_body]
fn rope_byte_count(rope: &Rope) -> (len: usize)
    ensures
        len == rope_bytes(*rope).len(),
{
    rope.len()
}

/// `Rope::clone`: a rope of the same bytes.
#[verifier::external_body]
fn rope_clone(rope: &Rope) -> (copy: Rope)
    ensures
        rope_bytes(copy) == rope_bytes(*rope),
{
    rope.clone()
}

/// `Rope::is_char_boundary`: whether the byte at the offset begins a
/// character. It panics behind the end of the rope.
#[verifier::external_body]
fn rope_is_char_boundary(rope: &Rope, offset: usize) -> (boundary: bool)
    requires
        offset <= rope_bytes(*rope).len(),
    ensures
        boundary == at_boundary(rope_bytes(*rope), offset as int),
{
    rope.is_char_boundary(offset)
}

/// `Rope::floor_char_boundary`: the closest character boundary at or before
/// the offset. It panics behind the end of the rope.
#[verifier::external_body]
fn rope_floor_char_boundary(rope: &Rope, offset: usize) -> (boundary: usize)
    requires
        offset <= rope_bytes(*rope).len(),
    ensures
        boundary == floor_boundary(rope_bytes(*rope), offset as int),
{
    rope.floor_char_boundary(offset)
}

/// `Rope::ceil_char_boundary`: the closest character boundary at or behind
/// the offset. It panics behind the end of the rope.
#[verifier::external_body]
fn rope_ceil_char_boundary(rope: &Rope, offset: usize) -> (boundary: usize)
    requires
        offset <= rope_bytes(*rope).len(),
    ensures
        boundary == ceil_boundary(rope_bytes(*rope), offset as int),
{
    rope.ceil_char_boundary(offset)
}

/// `Rope::slice`, turned into a string: the bytes of the range. It panics
/// when the ends are out of order, behind the end of the rope or inside a
/// character.
#[verifier::external_body]
fn rope_slice_text(rope: &Rope, start: usize, end: usize) -> (part: String)
    requires
        start <= end <= rope_bytes(*rope).len(),
        at_boundary(rope_bytes(*rope), start as int),
        at_boundary(rope_bytes(*rope), end as int),
    ensures
        encode_utf8(part@) == rope_bytes(*rope).subrange(start as int, end as int),
{
    rope.slice(start..end).to_string()
}

/// `Rope::insert`: puts the bytes of the string at the offset. It panics
/// when the offset is behind the end of the rope or inside a character; the
/// longer rope must be addressable.
#[verifier::external_body]
fn rope_insert(rope: &mut Rope, offset: usize, text: &str)
    requires
        at_boundary(rope_bytes(*old(rope)), offset as int),
        rope_bytes(*old(rope)).len() + text.spec_bytes().len() <= usize::MAX,
    ensures
        rope_bytes(*final(rope)) == splice_bytes(
            rope_bytes(*old(rope)),
            offset as int,
            offset as int,
            text.spec_bytes(),
        ),
{
    rope.insert(offset, text);
}

/// `Rope::remove`: takes the bytes of the range out. It panics when the ends
/// are out of order, behind the end of the rope or inside a character.
#[verifier::external_body]
fn rope_remove(rope: &mut Rope, start: usize, end: usize)
    requires
        start <= end <= rope_bytes(*old(rope)).len(),
        at_boundary(rope_bytes(*old(rope)), start as int),
        at_boundary(rope_bytes(*old(rope)), end as int),
    ensures
        rope_bytes(*final(rope)) == splice_bytes(
            rope_bytes(*old(rope)),
            start as int,
            end as int,
            Seq::<u8>::empty(),
        ),
{
    rope.remove(start..end);
}

/// `Rope::len_utf16`: the UTF-16 code units of the text.
#[verifier::external_body]
fn rope_len_utf16(rope: &Rope) -> (units: usize)
    ensures
        units == utf16_units(rope_bytes(*rope)),
{
    rope.len_utf16()
}

/// `Rope::byte_to_utf16_idx`: the UTF-16 code units before a character
/// boundary. It panics behind the end of the rope.
#[verifier::external_body]
fn rope_byte_to_utf16(rope: &Rope, offset: usize) -> (units: usize)
    requires
        at_boundary(rope_bytes(*rope), offset as int),
    ensures
        units == utf16_units(rope_bytes(*rope).subrange(0, offset as int)),
{
    rope.byte_to_utf16_idx(offset)
}

/// `Rope::utf16_to_byte_idx`: the boundary before the character that the
/// code unit belongs to, which is the last one with at most `units` code
/// units before it. It panics when the text has fewer code units.
#[verifier::external_body]
fn rope_utf16_to_byte(rope: &Rope, units: usize) -> (offset: usize)
    requires
        units <= utf16_units(rope_bytes(*rope)),
    ensures
        at_boundary(rope_bytes(*rope), offset as int),
        utf16_units(rope_bytes(*rope).subrange(0, offset as int)) <= units,
        forall|i: int|
            offset < i && #[trigger] at_boundary(rope_bytes(*rope), i) ==> utf16_units(
                rope_bytes(*rope).subrange(0, i),
            ) > units,
{
    rope.utf16_to_byte_idx(units)
}

/// `Rope::byte_to_line_idx` for lines that end in a line feed: the line feeds
/// before the offset. It panics behind the end of the rope.
#[verifier::external_body]
fn rope_byte_to_line(rope: &Rope, offset: usize) -> (line: usize)
    requires
        offset <= rope_bytes(*rope).len(),
    ensures
        line == line_feeds(rope_bytes(*rope).subrange(0, offset as int)),
{
    rope.byte_to_line_idx(offset, LineType::LF)
}

/// `Rope::line_to_byte_idx` for lines that end in a line feed: where the line
/// starts, which is never inside a character; one line past the last is the
/// end of the text. It panics beyond that.
#[verifier::external_body]
fn rope_line_to_byte(rope: &Rope, line: usize) -> (offset: usize)
    requires
        line <= line_feeds(rope_bytes(*rope)) + 1,
    ensures
        offset == nth_line(rope_bytes(*rope), line as int),
        at_boundary(rope_bytes(*rope), offset as int),
{
    rope.line_to_byte_idx(line, LineType::LF)
}

/// `Rope::line` for lines that end in a line feed: the text from where the
/// line starts to where the next one does. It panics behind the last line.
#[verifier::external_body]
fn rope_line(rope: &Rope, line: usize) -> (text: String)
    requires
        line <= line_feeds(rope_bytes(*rope)),
    ensures
        encode_utf8(text@) == rope_bytes(*rope).subrange(
            nth_line(rope_bytes(*rope), line as int),
            nth_line(rope_bytes(*rope), line + 1),
        ),
{
    rope.line(line, LineType::LF).to_string()
}

/// The source text of a document.
pub struct SourceText {
    pub(crate) rope: Rope,
}

impl SourceText {
    /// The bytes of the text.
    pub open(crate) spec fn bytes(self) -> Seq<u8> {
        rope_bytes(self.rope)
    }

    /// The text does not begin inside a character, and its offsets fit.
    pub open(crate) spec fn wf(self) -> bool {
        &&& starts_clean(self.bytes())
        &&& self.bytes().len() <= isize::MAX
    }

    /// Text that holds a string.
    pub fn new(text: &str) -> (source: Self)
        requires
            text.spec_bytes().len() <= isize::MAX,
        ensures
            source.bytes() == text.spec_bytes(),
            source.wf(),
    {
        proof {
            lemma_encoded(text@);
        }
        SourceText { rope: rope_from_str(text) }
    }

    /// A copy of the text.
    pub fn copy(&self) -> (copy: Self)
        ensures
            copy.bytes() == self.bytes(),
    {
        SourceText { rope: rope_clone(&self.rope) }
    }

    /// The number of bytes.
    pub fn len(&self) -> (len: usize)
        ensures
            len == self.bytes().len(),
    {
        rope_byte_count(&self.rope)
    }

    /// The whole text.
    pub fn text(&self) -> (text: String)
        ensures
            encode_utf8(text@) == self.bytes(),
    {
        let len = self.len();
        let text = rope_slice_text(&self.rope, 0, len);
        assert(self.bytes().subrange(0, len as int) =~= self.bytes());
        text
    }

    /// The text of a range between boundaries.
    pub fn slice(&self, range: &Range<usize>) -> (part: String)
        requires
            boundary_range(self.bytes(), *range),
        ensures
            encode_utf8(part@) == self.bytes().subrange(range.start as int, range.end as int),
    {
        rope_slice_text(&self.rope, range.start, range.end)
    }

    /// `offset`, cut to the text and moved to a boundary.
    pub fn clip_offset(&self, offset: usize, bias: Bias) -> (clip: usize)
        ensures
            clip == clipped(self.bytes(), offset as int, bias),
            at_boundary(self.bytes(), clip as int),
    {
        proof {
            lemma_clipped(self.bytes(), offset as int, bias);
        }
        let len = self.len();
        let inside = if offset <= len {
            offset
        } else {
            len
        };
        match bias {
            Bias::Left => rope_floor_char_boundary(&self.rope, inside),
            Bias::Right => rope_ceil_char_boundary(&self.rope, inside),
        }
    }

    /// Whether an offset lies at a boundary of the text.
    pub fn is_boundary(&self, offset: usize) -> (boundary: bool)
        ensures
            boundary == at_boundary(self.bytes(), offset as int),
    {
        offset <= self.len() && rope_is_char_boundary(&self.rope, offset)
    }

    /// Replaces the text of a range between boundaries.
    pub fn replace(&mut self, range: &Range<usize>, replacement: &str)
        requires
            old(self).wf(),
            boundary_range(old(self).bytes(), *range),
            old(self).bytes().len() - (range.end - range.start) + replacement.spec_bytes().len()
                <= isize::MAX,
        ensures
            final(self).wf(),
            final(self).bytes() == splice_bytes(
                old(self).bytes(),
                range.start as int,
                range.end as int,
                replacement.spec_bytes(),
            ),
    {
        let ghost before = self.bytes();
        proof {
            lemma_encoded(replacement@);
            lemma_splice_boundaries(
                before,
                range.start as int,
                range.end as int,
                Seq::<u8>::empty(),
            );
            lemma_splice_boundaries(
                before,
                range.start as int,
                range.end as int,
                replacement.spec_bytes(),
            );
        }
        rope_remove(&mut self.rope, range.start, range.end);
        rope_insert(&mut self.rope, range.start, replacement);
        assert(self.bytes() =~= splice_bytes(
            before,
            range.start as int,
            range.end as int,
            replacement.spec_bytes(),
        ));
    }

    /// The UTF-16 code units of the text.
    pub fn len_utf16(&self) -> (units: usize)
        ensures
            units == utf16_units(self.bytes()),
    {
        rope_len_utf16(&self.rope)
    }

    /// The UTF-16 code units before a boundary.
    pub fn offset_to_offset_utf16(&self, offset: usize) -> (units: usize)
        requires
            at_boundary(self.bytes(), offset as int),
        ensures
            units == utf16_units(self.bytes().subrange(0, offset as int)),
    {
        rope_byte_to_utf16(&self.rope, offset)
    }

    /// The last boundary with at most `units` UTF-16 code units before it.
    pub fn offset_utf16_to_offset(&self, units: usize) -> (offset: usize)
        ensures
            offset == utf16_offset(self.bytes(), units as int),
            at_boundary(self.bytes(), offset as int),
    {
        let ghost bytes = self.bytes();
        proof {
            assert(bytes.subrange(0, bytes.len() as int) =~= bytes);
        }
        if units > self.len_utf16() {
            return self.len();
        }
        let offset = rope_utf16_to_byte(&self.rope, units);
        proof {
            lemma_utf16_floor_is(bytes, units as int, bytes.len() as int, offset as int);
        }
        offset
    }

    /// Where the line of an offset starts.
    pub fn start_of_line(&self, offset: usize) -> (start: usize)
        requires
            offset <= self.bytes().len(),
        ensures
            start == line_start(self.bytes(), offset as int),
            start <= offset,
            at_boundary(self.bytes(), start as int),
    {
        proof {
            lemma_line_start(self.bytes(), offset as int);
            lemma_line_feeds(self.bytes(), offset as int, self.bytes().len() as int);
            assert(self.bytes().subrange(0, self.bytes().len() as int) =~= self.bytes());
        }
        rope_line_to_byte(&self.rope, rope_byte_to_line(&self.rope, offset))
    }

    /// Where the line of an offset ends, without its line break.
    pub fn end_of_line(&self, offset: usize) -> (end: usize)
        requires
            offset <= self.bytes().len(),
        ensures
            end == line_end(self.bytes(), offset as int),
            end <= self.bytes().len(),
            at_boundary(self.bytes(), end as int),
    {
        let ghost all = self.bytes();
        let ghost stop = next_line(all, offset as int);
        proof {
            lemma_line_start(all, offset as int);
            lemma_next_line(all, offset as int);
            lemma_line_feeds(all, offset as int, all.len() as int);
            assert(all.subrange(0, all.len() as int) =~= all);
        }
        let total = self.len();
        let line = rope_byte_to_line(&self.rope, offset);
        let start = rope_line_to_byte(&self.rope, line);
        let text = rope_line(&self.rope, line);
        let ghost part = all.subrange(start as int, stop);
        let bytes = text.as_str().as_bytes();
        let mut end: usize = bytes.len();
        while end > 0 && (bytes[end - 1] == 0x0a || bytes[end - 1] == 0x0d)
            invariant
                bytes@ == part,
                end <= part.len(),
                before_breaks(part, 0, part.len() as int) == before_breaks(part, 0, end as int),
            decreases end,
        {
            end -= 1;
        }
        proof {
            lemma_before_breaks(all, start as int, stop);
            assert(start + end <= total);
        }
        start + end
    }
}

} // verus!
