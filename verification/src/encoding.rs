//! How a text relates to its UTF-8 bytes.
//!
//! Contracts in this crate speak of texts as sequences of characters, while
//! the executable code reads bytes. The lemmas here carry facts from one
//! side to the other.

use vstd::prelude::*;
use vstd::utf8::*;

verus! {

/// The encoding of a concatenation is the concatenation of the encodings.
pub proof fn lemma_encoding_of_concat(a: Seq<char>, b: Seq<char>)
    ensures
        encode_utf8(a + b) == encode_utf8(a) + encode_utf8(b),
    decreases a.len(),
{
    if a.len() > 0 {
        assert((a + b).drop_first() =~= a.drop_first() + b);
        lemma_encoding_of_concat(a.drop_first(), b);
    }
}

/// Every character takes at least one byte, so only the empty text has an
/// empty encoding.
pub proof fn lemma_encoding_len(text: Seq<char>)
    ensures
        text.len() <= encode_utf8(text).len(),
    decreases text.len(),
{
    if text.len() > 0 {
        lemma_encoding_len(text.drop_first());
    }
}

/// A text whose encoding begins the encoding of another text begins that
/// text: a match on bytes never starts or ends inside a character.
pub proof fn lemma_prefix_of_encoding(head: Seq<char>, text: Seq<char>)
    requires
        encode_utf8(head).is_prefix_of(encode_utf8(text)),
    ensures
        head.is_prefix_of(text),
    decreases head.len(),
{
    if head.len() > 0 {
        let head_bytes = encode_utf8(head);
        let text_bytes = encode_utf8(text);
        encode_utf8_first_scalar(head);
        encode_utf8_first_scalar(text);
        let width = length_of_first_scalar(head_bytes);
        char_u32_cast(head[0], decode_first_scalar(head_bytes));
        char_u32_cast(text[0], decode_first_scalar(text_bytes));
        assert(encode_utf8(text.drop_first()) =~= text_bytes.skip(width));
        assert(head_bytes.skip(width).is_prefix_of(text_bytes.skip(width)));
        lemma_prefix_of_encoding(head.drop_first(), text.drop_first());
        assert(head =~= text.subrange(0, head.len() as int)) by {
            assert forall|i: int| 0 <= i < head.len() implies head[i] == text[i] by {
                if i > 0 {
                    assert(head.drop_first()[i - 1] == text.drop_first()[i - 1]);
                }
            }
        }
    }
}

/// Whether `mark` is one of the characters that UTF-8 writes as a single byte
/// of the same value.
pub open spec fn is_single_byte(mark: char) -> bool {
    mark as u32 <= 0x7f
}

/// A text begins with a single-byte character exactly when its encoding
/// begins with that byte.
pub proof fn lemma_first_byte(text: Seq<char>, mark: char)
    requires
        text.len() > 0,
        is_single_byte(mark),
    ensures
        text[0] == mark <==> encode_utf8(text)[0] == mark as u8,
        text[0] == mark ==> encode_utf8(text.drop_first()) == encode_utf8(text).skip(1),
{
    let bytes = encode_utf8(text);
    let code = mark as u32;
    encode_utf8_first_scalar(text);
    assert(leading_byte_width_1(code) == code as u8 && (code as u8) <= 0x7f) by (bit_vector)
        requires
            code <= 0x7f,
    ;
    if bytes[0] == mark as u8 {
        let first = bytes[0];
        assert(codepoint_width_1(first) == first as u32) by (bit_vector)
            requires
                first <= 0x7f,
        ;
        char_u32_cast(text[0], code);
    }
}

/// A text whose encoding is free of the byte of a single-byte character is
/// free of that character.
pub proof fn lemma_byte_absent(text: Seq<char>, mark: char)
    requires
        is_single_byte(mark),
        forall|j: int| 0 <= j < encode_utf8(text).len() ==> encode_utf8(text)[j] != mark as u8,
    ensures
        forall|i: int| 0 <= i < text.len() ==> text[i] != mark,
{
    assert forall|i: int| 0 <= i < text.len() implies text[i] != mark by {
        let before = text.take(i);
        let after = text.skip(i);
        assert(text =~= before + after);
        lemma_encoding_of_concat(before, after);
        lemma_first_byte(after, mark);
        let at = encode_utf8(before).len() as int;
        assert(encode_utf8(text)[at] == encode_utf8(after)[0]);
    }
}

/// The encoding of a text that ends with a single-byte character ends with
/// that byte.
pub proof fn lemma_last_byte(text: Seq<char>, mark: char)
    requires
        text.len() > 0,
        is_single_byte(mark),
        text.last() == mark,
    ensures
        encode_utf8(text).len() > 0,
        encode_utf8(text).last() == mark as u8,
{
    let before = text.drop_last();
    let after = seq![mark];
    assert(text =~= before + after);
    lemma_encoding_of_concat(before, after);
    lemma_first_byte(after, mark);
}

/// A text that is encoded in one byte is one character long.
pub proof fn lemma_one_byte_is_one_char(text: Seq<char>)
    requires
        encode_utf8(text).len() == 1,
    ensures
        text.len() == 1,
{
    lemma_encoding_len(text);
}

} // verus!
