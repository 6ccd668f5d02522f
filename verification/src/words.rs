//! Words: runs of characters that are not whitespace.

use crate::text::{
    at_boundary, byte_len, clipped, lemma_encode_concat, lemma_encoded, lemma_part_boundary, Bias,
    SourceText,
};
use vstd::prelude::*;
use vstd::string::*;
use vstd::utf8::*;

verus! {

/// The characters with the Unicode property `White_Space`: the controls from
/// the tab to the carriage return, and the spaces and separators of all
/// scripts.
pub open spec fn char_is_whitespace(c: char) -> bool {
    let code = c as int;
    ||| 0x09 <= code <= 0x0d
    ||| code == 0x20
    ||| code == 0x85
    ||| code == 0xa0
    ||| code == 0x1680
    ||| 0x2000 <= code <= 0x200a
    ||| code == 0x2028
    ||| code == 0x2029
    ||| code == 0x202f
    ||| code == 0x205f
    ||| code == 0x3000
}

/// `char::is_whitespace`: whether a character has the Unicode property
/// `White_Space`, as `PropList.txt` of the Unicode Character Database gives
/// it.
#[verifier::external_body]
fn is_whitespace(c: char) -> (space: bool)
    ensures
        space == char_is_whitespace(c),
{
    c.is_whitespace()
}

/// Which characters are whitespace.
pub open spec fn spaces(chars: Seq<char>) -> Seq<bool> {
    Seq::new(chars.len(), |i: int| char_is_whitespace(chars[i]))
}

/// Where the run of one kind that ends at `at` begins.
pub open spec fn run_back(spaces: Seq<bool>, at: int, space: bool) -> int
    decreases at,
{
    if at > 0 && spaces[at - 1] == space {
        run_back(spaces, at - 1, space)
    } else {
        at
    }
}

/// Where the run of one kind that begins at `at` ends.
pub open spec fn run_ahead(spaces: Seq<bool>, at: int, space: bool) -> int
    decreases spaces.len() - at,
{
    if at < spaces.len() && spaces[at] == space {
        run_ahead(spaces, at + 1, space)
    } else {
        at
    }
}

/// The start of the word before `at`: whitespace is skipped, then a word.
pub open spec fn word_before(spaces: Seq<bool>, at: int) -> int {
    run_back(spaces, run_back(spaces, at, true), false)
}

/// The end of what follows `at`: a word is skipped, then whitespace.
pub open spec fn word_behind(spaces: Seq<bool>, at: int) -> int {
    run_ahead(spaces, run_ahead(spaces, at, false), true)
}

fn find_run_back(spaces: &Vec<bool>, at: usize, space: bool) -> (start: usize)
    requires
        at <= spaces@.len(),
    ensures
        start == run_back(spaces@, at as int, space),
        start <= at,
{
    let mut start: usize = at;
    while start > 0 && spaces[start - 1] == space
        invariant
            start <= at <= spaces@.len(),
            run_back(spaces@, at as int, space) == run_back(spaces@, start as int, space),
        decreases start,
    {
        start -= 1;
    }
    start
}

fn find_run_ahead(spaces: &Vec<bool>, at: usize, space: bool) -> (end: usize)
    requires
        at <= spaces@.len(),
    ensures
        end == run_ahead(spaces@, at as int, space),
        at <= end <= spaces@.len(),
{
    let mut end: usize = at;
    while end < spaces.len() && spaces[end] == space
        invariant
            at <= end <= spaces@.len(),
            run_ahead(spaces@, at as int, space) == run_ahead(spaces@, end as int, space),
        decreases spaces@.len() - end,
    {
        end += 1;
    }
    end
}

/// The start of the word before a character, of characters that are
/// whitespace or not.
pub fn find_word_before(spaces: &Vec<bool>, at: usize) -> (start: usize)
    requires
        at <= spaces@.len(),
    ensures
        start == word_before(spaces@, at as int),
        start <= at,
{
    let word = find_run_back(spaces, at, true);
    find_run_back(spaces, word, false)
}

/// The end of the word and of the whitespace from a character on, of
/// characters that are whitespace or not.
pub fn find_word_behind(spaces: &Vec<bool>, at: usize) -> (end: usize)
    requires
        at <= spaces@.len(),
    ensures
        end == word_behind(spaces@, at as int),
        at <= end <= spaces@.len(),
{
    let space = find_run_ahead(spaces, at, false);
    find_run_ahead(spaces, space, true)
}

/// Where the word before an offset starts.
pub open spec fn previous_word(bytes: Seq<u8>, offset: int) -> int {
    let before = decode_utf8(bytes.subrange(0, clipped(bytes, offset, Bias::Left)));
    let word = word_before(spaces(before), before.len() as int);
    encode_utf8(before.subrange(0, word)).len() as int
}

/// Where the word at an offset and the whitespace behind it end.
pub open spec fn next_word(bytes: Seq<u8>, offset: int) -> int {
    let at = clipped(bytes, offset, Bias::Right);
    let behind = decode_utf8(bytes.subrange(at, bytes.len() as int));
    let word = word_behind(spaces(behind), 0);
    at + encode_utf8(behind.subrange(0, word)).len()
}

/// How many bytes a character takes.
fn char_width(c: char) -> (width: usize)
    ensures
        width == encode_scalar(c as u32).len(),
        1 <= width <= 4,
{
    let scalar = c as u32;
    if scalar < 0x80 {
        1
    } else if scalar < 0x800 {
        2
    } else if scalar < 0x10000 {
        3
    } else {
        4
    }
}

/// One character more takes as many bytes more as it is wide.
proof fn lemma_one_more(chars: Seq<char>, i: int)
    requires
        0 <= i < chars.len(),
    ensures
        encode_utf8(chars.subrange(0, i + 1)).len() == encode_utf8(chars.subrange(0, i)).len()
            + encode_scalar(chars[i] as u32).len(),
        encode_utf8(chars.subrange(0, i + 1)).len() <= encode_utf8(chars).len(),
{
    let one = seq![chars[i]];
    assert(chars.subrange(0, i + 1) =~= chars.subrange(0, i) + one);
    lemma_encode_concat(chars.subrange(0, i), one);
    assert(one.drop_first() =~= Seq::<char>::empty());
    assert(encode_utf8(one) =~= encode_scalar(chars[i] as u32)) by {
        reveal_with_fuel(encode_utf8, 2);
    }
    let rest = chars.subrange(i + 1, chars.len() as int);
    assert(chars =~= chars.subrange(0, i + 1) + rest);
    lemma_encode_concat(chars.subrange(0, i + 1), rest);
}

/// The end of the first characters of a text is no offset inside a character.
proof fn lemma_char_ends(chars: Seq<char>, i: int)
    requires
        0 <= i <= chars.len(),
    ensures
        at_boundary(encode_utf8(chars), encode_utf8(chars.subrange(0, i)).len() as int),
{
    let rest = chars.subrange(i, chars.len() as int);
    assert(chars =~= chars.subrange(0, i) + rest);
    lemma_encode_concat(chars.subrange(0, i), rest);
    lemma_encoded(rest);
}

/// Which characters of a text are whitespace, and where each of them starts;
/// the last start is the end of the text.
fn scan_chars(text: &str) -> (scan: (Vec<bool>, Vec<usize>))
    ensures
        scan.0@ == spaces(text@),
        scan.1@.len() == text@.len() + 1,
        forall|i: int|
            0 <= i <= text@.len() ==> #[trigger] scan.1@[i] == encode_utf8(text@.subrange(0, i)).len(),
{
    let len = byte_len(text);
    let mut flags: Vec<bool> = Vec::new();
    let mut starts: Vec<usize> = Vec::new();
    let mut at: usize = 0;
    starts.push(0);
    assert(text@.subrange(0, 0) =~= Seq::<char>::empty());
    for c in iter: text.chars()
        invariant
            iter.seq() == text@,
            len == encode_utf8(text@).len(),
            flags@.len() == iter.index(),
            starts@.len() == iter.index() + 1,
            forall|i: int|
                0 <= i < flags@.len() ==> #[trigger] flags@[i] == char_is_whitespace(text@[i]),
            forall|i: int|
                0 <= i < starts@.len() ==> #[trigger] starts@[i] == encode_utf8(
                    text@.subrange(0, i),
                ).len(),
            at == starts@.last(),
            at <= len,
    {
        proof {
            lemma_one_more(text@, iter.index() as int);
        }
        flags.push(is_whitespace(c));
        at = at + char_width(c);
        starts.push(at);
    }
    assert(flags@ =~= spaces(text@));
    (flags, starts)
}

impl SourceText {
    /// Where the word before an offset starts.
    pub fn previous_word_boundary(&self, offset: usize) -> (start: usize)
        ensures
            start == previous_word(self.bytes(), offset as int),
            start <= clipped(self.bytes(), offset as int, Bias::Left),
            at_boundary(self.bytes(), start as int),
    {
        let at = self.clip_offset(offset, Bias::Left);
        let text = self.slice(&(0..at));
        let (flags, starts) = scan_chars(text.as_str());
        let word = find_word_before(&flags, flags.len());
        proof {
            let before = self.bytes().subrange(0, at as int);
            encode_utf8_decode_utf8(text@);
            lemma_char_ends(text@, word as int);
            lemma_part_boundary(self.bytes(), 0, at as int, starts@[word as int] as int);
        }
        starts[word]
    }

    /// Where the word at an offset and the whitespace behind it end.
    pub fn next_word_boundary(&self, offset: usize) -> (end: usize)
        ensures
            end == next_word(self.bytes(), offset as int),
            clipped(self.bytes(), offset as int, Bias::Right) <= end <= self.bytes().len(),
            at_boundary(self.bytes(), end as int),
    {
        let at = self.clip_offset(offset, Bias::Right);
        let len = self.len();
        let text = self.slice(&(at..len));
        let (flags, starts) = scan_chars(text.as_str());
        let word = find_word_behind(&flags, 0);
        proof {
            encode_utf8_decode_utf8(text@);
            lemma_char_ends(text@, word as int);
            lemma_part_boundary(self.bytes(), at as int, len as int, starts@[word as int] as int);
        }
        at + starts[word]
    }
}

} // verus!
