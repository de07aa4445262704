use vstd::prelude::*;
use vstd::string::StringSliceAdditionalSpecFns;
use vstd::utf8::*;

verus! {

/// In well-formed UTF-8 a character starts behind every ASCII byte.
pub proof fn lemma_boundary_behind_ascii(bytes: Seq<u8>, index: int)
    requires
        valid_utf8(bytes),
        0 <= index < bytes.len(),
        bytes[index] < 0x80,
    ensures
        is_char_boundary(bytes, index + 1),
    decreases bytes.len(),
{
    reveal_with_fuel(is_char_boundary, 2);
    if index > 0 {
        is_char_boundary_iff_not_is_continuation_byte(bytes, index);
        lemma_boundary_behind_ascii(
            pop_first_scalar(bytes),
            index - length_of_first_scalar(bytes),
        );
    }
}

/// The piece of a text between two ASCII bytes, or between one and either end
/// of the text, as a string of its own.
pub(crate) fn slice_between(source: &str, start: usize, end: usize) -> (text: String)
    requires
        start <= end <= source.spec_bytes().len(),
        start == 0 || source.spec_bytes()[start - 1] < 0x80,
        end == source.spec_bytes().len() || source.spec_bytes()[end as int] < 0x80,
    ensures
        encode_utf8(text@) == source.spec_bytes().subrange(start as int, end as int),
        text@ == decode_utf8(source.spec_bytes().subrange(start as int, end as int)),
{
    broadcast use group_utf8_lib;

    let ghost bytes = source.spec_bytes();
    proof {
        if end < bytes.len() {
            is_char_boundary_iff_not_is_continuation_byte(bytes, end as int);
        }
    }
    let (head, _) = source.split_at(end);
    proof {
        let front = head.spec_bytes();
        assert(front =~= bytes.subrange(0, end as int));
        if 0 < start {
            lemma_boundary_behind_ascii(front, start - 1);
        }
    }
    let (_, body) = head.split_at(start);
    assert(body.spec_bytes() =~= bytes.subrange(start as int, end as int));
    body.to_owned()
}

/// No byte of the encoding of a scalar other than the quote is the quote byte.
proof fn lemma_scalar_without_quote(scalar: u32)
    requires
        scalar != 34,
    ensures
        forall|j: int|
            0 <= j < encode_scalar(scalar).len() ==> #[trigger] encode_scalar(scalar)[j] != 34u8,
{
    assert(scalar <= 0x7F ==> (scalar & 0x7F) as u8 != 34u8) by (bit_vector)
        requires
            scalar != 34,
    ;
    let low = (scalar & 0x3F) as u8;
    let mid = ((scalar >> 6) & 0x3F) as u8;
    let high = ((scalar >> 12) & 0x3F) as u8;
    let two = ((scalar >> 6) & 0x1F) as u8;
    let three = ((scalar >> 12) & 0x0F) as u8;
    let four = ((scalar >> 18) & 0x7) as u8;
    assert((0x80u8 | low) != 34u8) by (bit_vector);
    assert((0x80u8 | mid) != 34u8) by (bit_vector);
    assert((0x80u8 | high) != 34u8) by (bit_vector);
    assert((0xC0u8 | two) != 34u8) by (bit_vector);
    assert((0xE0u8 | three) != 34u8) by (bit_vector);
    assert((0xF0u8 | four) != 34u8) by (bit_vector);
}

/// The encoding of a text that holds no quote holds no quote byte.
pub proof fn lemma_encoding_without_quote(text: Seq<char>)
    requires
        forall|i: int| 0 <= i < text.len() ==> #[trigger] text[i] != '"',
    ensures
        forall|j: int|
            0 <= j < encode_utf8(text).len() ==> #[trigger] encode_utf8(text)[j] != 34u8,
    decreases text.len(),
{
    if text.len() > 0 {
        let head = encode_scalar(text[0] as u32);
        let rest = encode_utf8(text.drop_first());
        assert(text[0] as u32 != 34) by {
            char_u32_cast('"', 34u32);
            char_u32_cast(text[0], text[0] as u32);
        }
        lemma_scalar_without_quote(text[0] as u32);
        assert forall|i: int| 0 <= i < text.drop_first().len() implies #[trigger] text.drop_first()[i]
            != '"' by {
            assert(text.drop_first()[i] == text[i + 1]);
        }
        lemma_encoding_without_quote(text.drop_first());
        assert forall|j: int| 0 <= j < encode_utf8(text).len() implies #[trigger] encode_utf8(
            text,
        )[j] != 34u8 by {
            if j < head.len() {
                assert(encode_utf8(text)[j] == head[j]);
            } else {
                assert(encode_utf8(text)[j] == rest[j - head.len()]);
            }
        }
    }
}

/// A text whose encoding holds no quote byte holds no quote.
pub proof fn lemma_text_without_quote(text: Seq<char>)
    requires
        forall|j: int|
            0 <= j < encode_utf8(text).len() ==> #[trigger] encode_utf8(text)[j] != 34u8,
    ensures
        forall|i: int| 0 <= i < text.len() ==> #[trigger] text[i] != '"',
    decreases text.len(),
{
    if text.len() > 0 {
        let head = encode_scalar(text[0] as u32);
        let rest = encode_utf8(text.drop_first());
        if text[0] == '"' {
            assert((34u32 & 0x7F) as u8 == 34u8) by (bit_vector);
            assert(encode_utf8(text)[0] == head[0]);
        }
        assert forall|j: int| 0 <= j < rest.len() implies #[trigger] rest[j] != 34u8 by {
            assert(encode_utf8(text)[head.len() + j] == rest[j]);
        }
        lemma_text_without_quote(text.drop_first());
        assert forall|i: int| 0 <= i < text.len() implies #[trigger] text[i] != '"' by {
            if i > 0 {
                assert(text.drop_first()[i - 1] == text[i]);
            }
        }
    }
}

} // verus!
