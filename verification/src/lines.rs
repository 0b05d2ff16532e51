//! Splitting a text into lines.
//!
//! A line ends at a line feed; one carriage return in front of that line
//! feed belongs to the line ending too. The last line needs no line ending,
//! and a text that ends with one has no empty line after it.

use vstd::prelude::*;
use vstd::string::*;
use vstd::utf8::*;
use crate::encoding::{
    lemma_byte_absent,
    lemma_first_byte,
    lemma_last_byte,
    lemma_one_byte_is_one_char,
};

verus! {

/// The number of characters in front of the first line feed of `text`, or the
/// length of `text` where it holds no line feed.
pub open spec fn first_line_len(text: Seq<char>) -> nat
    decreases text.len(),
{
    if text.len() == 0 || text[0] == '\n' {
        0
    } else {
        1 + first_line_len(text.drop_first())
    }
}

/// `line` without the carriage return at its end, if it has one.
pub open spec fn without_carriage_return(line: Seq<char>) -> Seq<char> {
    if line.len() > 0 && line.last() == '\r' {
        line.drop_last()
    } else {
        line
    }
}

/// The first line of a text that is not empty, without its line ending.
pub open spec fn first_line(text: Seq<char>) -> Seq<char> {
    let end = first_line_len(text) as int;
    if end < text.len() {
        without_carriage_return(text.take(end))
    } else {
        text
    }
}

/// What follows the first line of `text` and its line ending.
pub open spec fn after_first_line(text: Seq<char>) -> Seq<char> {
    let end = first_line_len(text) as int;
    if end < text.len() {
        text.skip(end + 1)
    } else {
        Seq::empty()
    }
}

/// The lines of `text`, in order and without their line endings.
pub open spec fn lines_of(text: Seq<char>) -> Seq<Seq<char>>
    decreases text.len(),
{
    if text.len() == 0 {
        Seq::empty()
    } else {
        seq![first_line(text)] + lines_of(after_first_line(text))
    }
}

/// The first line ends at `end` where no line feed stands in front of `end`
/// and `end` is either a line feed or the end of the text.
pub proof fn lemma_first_line_len(text: Seq<char>, end: int)
    requires
        0 <= end <= text.len(),
        forall|i: int| 0 <= i < end ==> text[i] != '\n',
        end < text.len() ==> text[end] == '\n',
    ensures
        first_line_len(text) == end,
    decreases text.len(),
{
    if end > 0 {
        let rest = text.drop_first();
        assert forall|i: int| 0 <= i < end - 1 implies rest[i] != '\n' by {
            assert(rest[i] == text[i + 1]);
        }
        lemma_first_line_len(rest, end - 1);
    }
}

/// The first line ends in front of the first line feed of the text, or at
/// the end of a text that holds none.
pub proof fn lemma_first_line_end(text: Seq<char>)
    ensures
        first_line_len(text) <= text.len(),
        forall|i: int| 0 <= i < first_line_len(text) ==> text[i] != '\n',
        first_line_len(text) < text.len() ==> text[first_line_len(text) as int] == '\n',
    decreases text.len(),
{
    if text.len() > 0 && text[0] != '\n' {
        let rest = text.drop_first();
        lemma_first_line_end(rest);
        assert forall|i: int| 0 <= i < first_line_len(text) implies text[i] != '\n' by {
            if i > 0 {
                assert(text[i] == rest[i - 1]);
            }
        }
    }
}

/// An empty text has no lines, not one empty line.
pub proof fn lemma_no_lines_in_empty_text()
    ensures
        lines_of(Seq::empty()).len() == 0,
{
}

/// A text that is not empty and holds no line feed is one line, and that
/// line is the text.
pub proof fn lemma_text_without_line_feed(text: Seq<char>)
    requires
        text.len() > 0,
        forall|i: int| 0 <= i < text.len() ==> text[i] != '\n',
    ensures
        lines_of(text) == seq![text],
{
    lemma_first_line_len(text, text.len() as int);
    assert(lines_of(after_first_line(text)) =~= Seq::empty());
}

/// A line ending at the end of a text adds no line: the text has the lines
/// that it has without it.
pub proof fn lemma_final_line_feed(text: Seq<char>)
    requires
        text.len() > 0,
        text.last() != '\n',
        text.last() != '\r',
    ensures
        lines_of(text.push('\n')) == lines_of(text),
    decreases text.len(),
{
    let longer = text.push('\n');
    let end = first_line_len(text) as int;
    lemma_first_line_end(text);
    assert forall|i: int| 0 <= i < end implies longer[i] != '\n' by {
        assert(longer[i] == text[i]);
    }
    lemma_first_line_len(longer, end);
    assert(longer.take(end) =~= text.take(end));
    if end < text.len() {
        let rest = text.skip(end + 1);
        assert(longer.skip(end + 1) =~= rest.push('\n'));
        assert(rest.last() == text.last());
        lemma_final_line_feed(rest);
    } else {
        assert(text.take(end) =~= text);
        assert(longer.skip(end + 1) =~= Seq::<char>::empty());
    }
}

/// The byte that encodes a line feed.
const LINE_FEED: u8 = 0x0a;

/// The byte that encodes a carriage return.
const CARRIAGE_RETURN: u8 = 0x0d;

/// The index of the first `mark` among `bytes`, or their number where none of
/// them is `mark`.
fn position_of(bytes: &[u8], mark: u8) -> (at: usize)
    ensures
        at <= bytes@.len(),
        forall|j: int| 0 <= j < at ==> bytes@[j] != mark,
        at < bytes@.len() ==> bytes@[at as int] == mark,
{
    let total: usize = bytes.len();
    let mut at: usize = 0;
    while at < total && bytes[at] != mark
        invariant
            total == bytes@.len(),
            at <= total,
            forall|j: int| 0 <= j < at ==> bytes@[j] != mark,
        decreases total - at,
    {
        at += 1;
    }
    at
}

/// Cuts `text` in two at the byte offset `mid`, which must not lie inside a
/// character.
fn split_at_boundary<'a>(text: &'a str, mid: usize) -> (parts: (&'a str, &'a str))
    requires
        is_char_boundary(encode_utf8(text@), mid as int),
    ensures
        text@ == parts.0@ + parts.1@,
        mid <= encode_utf8(text@).len(),
        encode_utf8(parts.0@) == encode_utf8(text@).subrange(0, mid as int),
        encode_utf8(parts.1@) == encode_utf8(text@).subrange(
            mid as int,
            encode_utf8(text@).len() as int,
        ),
{
    let parts = text.split_at(mid);
    proof {
        let bytes = encode_utf8(text@);
        encode_utf8_valid_utf8(text@);
        decode_utf8_split(bytes, mid as int);
        encode_utf8_decode_utf8(text@);
        encode_utf8_decode_utf8(parts.0@);
        encode_utf8_decode_utf8(parts.1@);
    }
    parts
}

/// Takes the carriage return off the end of `line`, if it has one.
fn trim_carriage_return<'a>(line: &'a str) -> (trimmed: &'a str)
    ensures
        trimmed@ == without_carriage_return(line@),
{
    let bytes = line.as_bytes();
    let total: usize = bytes.len();
    if total > 0 && bytes[total - 1] == CARRIAGE_RETURN {
        proof {
            encode_utf8_valid_utf8(line@);
            is_char_boundary_iff_not_is_continuation_byte(encode_utf8(line@), total - 1);
        }
        let (body, ending) = split_at_boundary(line, total - 1);
        proof {
            lemma_one_byte_is_one_char(ending@);
            lemma_first_byte(ending@, '\r');
            assert(body@ =~= line@.drop_last());
        }
        body
    } else {
        proof {
            if line@.len() > 0 && line@.last() == '\r' {
                lemma_last_byte(line@, '\r');
            }
        }
        line
    }
}

/// Takes the first line off `text`: the line without its line ending, and
/// what follows that line ending. There is no first line in an empty text.
pub fn split_first_line<'a>(text: &'a str) -> (parts: Option<(&'a str, &'a str)>)
    ensures
        parts is None <==> text@.len() == 0,
        parts matches Some((line, rest)) ==> line@ == first_line(text@) && rest@
            == after_first_line(text@),
{
    if text.is_empty() {
        return None;
    }
    let bytes = text.as_bytes();
    let end: usize = position_of(bytes, LINE_FEED);
    proof {
        encode_utf8_valid_utf8(text@);
    }
    if end == bytes.len() {
        proof {
            reveal_strlit("");
            lemma_byte_absent(text@, '\n');
            lemma_first_line_len(text@, text@.len() as int);
        }
        return Some((text, ""));
    }
    proof {
        is_char_boundary_iff_not_is_continuation_byte(encode_utf8(text@), end as int);
    }
    let (head, tail) = split_at_boundary(text, end);
    proof {
        let tail_bytes = encode_utf8(tail@);
        encode_utf8_valid_utf8(tail@);
        assert(is_char_boundary(tail_bytes, 1)) by {
            reveal_with_fuel(is_char_boundary, 2);
        }
    }
    let (ending, rest) = split_at_boundary(tail, 1);
    proof {
        lemma_one_byte_is_one_char(ending@);
        lemma_first_byte(tail@, '\n');
        lemma_byte_absent(head@, '\n');
        lemma_first_line_len(text@, head@.len() as int);
        assert(text@.take(head@.len() as int) =~= head@);
        assert(text@.skip(head@.len() as int + 1) =~= rest@);
    }
    Some((trim_carriage_return(head), rest))
}

} // verus!
