use vstd::prelude::*;
use vstd::utf8::{
    char_is_scalar, char_u32_cast, decode_utf8, decode_utf8_split, encode_scalar, encode_utf8,
    encode_utf8_decode_utf8, encode_utf8_valid_utf8, is_ascii_chars, is_ascii_chars_encode_utf8,
    is_char_boundary, is_char_boundary_iff_not_is_continuation_byte,
    is_char_boundary_start_end_of_seq, valid_utf8, valid_utf8_concat, valid_utf8_split,
};

verus! {

/// The UTF-8 encoding of a text made of two parts is the encoding of the
/// first part followed by that of the second.
pub proof fn lemma_encode_utf8_concat(a: Seq<char>, b: Seq<char>)
    ensures
        encode_utf8(a + b) == encode_utf8(a) + encode_utf8(b),
    decreases a.len(),
{
    if a.len() == 0 {
        assert(a + b == b);
    } else {
        assert((a + b).drop_first() == a.drop_first() + b);
        lemma_encode_utf8_concat(a.drop_first(), b);
    }
}

/// The low seven bits of a value below 128 are the value; the bytes of a
/// longer encoding all have their high bit set.
proof fn lemma_encoding_bits(v: u32)
    by (bit_vector)
    ensures
        v <= 0x7F ==> (v & 0x7F) as u8 == v as u8,
        (0xC0 | ((v >> 6) & 0x1F) as u8) >= 0x80u8,
        (0xE0 | ((v >> 12) & 0x0F) as u8) >= 0x80u8,
        (0xF0 | ((v >> 18) & 0x7) as u8) >= 0x80u8,
        (0x80 | (v & 0x3F) as u8) >= 0x80u8,
        (0x80 | ((v >> 6) & 0x3F) as u8) >= 0x80u8,
        (0x80 | ((v >> 12) & 0x3F) as u8) >= 0x80u8,
{
}

/// An ASCII character is encoded as the one byte with its number; every
/// byte of the encoding of another character is 128 or more.
pub proof fn lemma_encode_scalar_bytes(c: char)
    ensures
        c as u32 <= 0x7F ==> encode_scalar(c as u32) == seq![c as u8],
        c as u32 > 0x7F ==> forall|i: int|
            0 <= i < encode_scalar(c as u32).len() ==> #[trigger] encode_scalar(c as u32)[i]
                >= 0x80,
        encode_scalar(c as u32).len() > 0,
{
    char_is_scalar(c);
    lemma_encoding_bits(c as u32);
}

/// The encoding of a text holds the byte of an ASCII character only where
/// the text holds the character: a text without it is encoded without the
/// byte.
pub proof fn lemma_encode_utf8_lacks(text: Seq<char>, c: char)
    requires
        c as u32 <= 0x7F,
        forall|i: int| 0 <= i < text.len() ==> text[i] != c,
    ensures
        forall|i: int| 0 <= i < encode_utf8(text).len() ==> encode_utf8(text)[i] != c as u8,
    decreases text.len(),
{
    if text.len() > 0 {
        let head = encode_scalar(text[0] as u32);
        let tail = encode_utf8(text.drop_first());
        lemma_encode_scalar_bytes(text[0]);
        lemma_encode_utf8_lacks(text.drop_first(), c);
        assert forall|i: int| 0 <= i < encode_utf8(text).len() implies encode_utf8(text)[i]
            != c as u8 by {
            if i < head.len() {
                assert(encode_utf8(text)[i] == head[i]);
                if text[0] as u32 <= 0x7F {
                    assert(text[0] != c);
                    char_u32_cast(text[0], text[0] as u32);
                    char_u32_cast(c, c as u32);
                    assert(text[0] as u32 != c as u32);
                }
            } else {
                assert(encode_utf8(text)[i] == tail[i - head.len()]);
            }
        }
    }
}

/// The encoding of a single ASCII character is the one byte with its
/// number.
pub proof fn lemma_encode_utf8_ascii(c: char)
    requires
        c as u32 <= 0x7F,
    ensures
        encode_utf8(seq![c]) == seq![c as u8],
{
    lemma_encode_scalar_bytes(c);
    assert(seq![c].drop_first() == Seq::<char>::empty());
    assert(encode_utf8(seq![c]) == encode_scalar(c as u32) + encode_utf8(Seq::<char>::empty()));
}

/// Bytes followed by the encoding of ASCII characters are valid UTF-8
/// exactly if the bytes are, and then they decode to what the bytes decode
/// to, followed by the characters.
pub proof fn lemma_utf8_with_ascii_tail(bytes: Seq<u8>, tail: Seq<char>)
    requires
        is_ascii_chars(tail),
    ensures
        valid_utf8(bytes + encode_utf8(tail)) <==> valid_utf8(bytes),
        valid_utf8(bytes) ==> decode_utf8(bytes + encode_utf8(tail)) == decode_utf8(bytes) + tail,
{
    let end = encode_utf8(tail);
    let whole = bytes + end;
    let at = bytes.len() as int;
    encode_utf8_valid_utf8(tail);
    encode_utf8_decode_utf8(tail);
    is_ascii_chars_encode_utf8(tail);
    assert(whole.subrange(0, at) == bytes);
    assert(whole.subrange(at, whole.len() as int) == end);
    if valid_utf8(bytes) {
        valid_utf8_concat(bytes, end);
    }
    if valid_utf8(whole) {
        if end.len() == 0 {
            assert(whole == bytes);
            is_char_boundary_start_end_of_seq(whole);
        } else {
            assert(whole[at] == end[0]);
            assert(end[0] == tail[0] as u8);
            assert(tail[0] <= '\u{7f}');
            is_char_boundary_iff_not_is_continuation_byte(whole, at);
        }
        assert(is_char_boundary(whole, at));
        valid_utf8_split(whole, at);
        decode_utf8_split(whole, at);
    }
}

} // verus!
