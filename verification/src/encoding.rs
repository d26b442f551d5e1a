//! How the characters of a string lie in its bytes: facts about the UTF-8
//! encoding that allow the functions on text to work on bytes, and to cut a
//! string between two characters.

use vstd::prelude::*;
use vstd::utf8::*;

verus! {

/// A character below 128, which UTF-8 encodes as the one byte of that value.
pub open spec fn is_ascii_char(c: char) -> bool {
    (c as u32) < 0x80
}

/// The encoding of a concatenation is the concatenation of the encodings.
pub proof fn lemma_encode_concat(a: Seq<char>, b: Seq<char>)
    ensures
        encode_utf8(a + b) == encode_utf8(a) + encode_utf8(b),
    decreases a.len(),
{
    if a.len() == 0 {
        assert(a + b =~= b);
        assert(encode_utf8(a) + encode_utf8(b) =~= encode_utf8(b));
    } else {
        assert((a + b).drop_first() =~= a.drop_first() + b);
        lemma_encode_concat(a.drop_first(), b);
        assert(encode_utf8(a + b) =~= encode_utf8(a) + encode_utf8(b));
    }
}

/// Two sequences of characters with the same encoding are the same.
pub proof fn lemma_encode_injective(a: Seq<char>, b: Seq<char>)
    requires
        encode_utf8(a) == encode_utf8(b),
    ensures
        a == b,
{
    encode_utf8_decode_utf8(a);
    encode_utf8_decode_utf8(b);
}

/// An ASCII character alone is encoded as its one byte.
pub proof fn lemma_encode_ascii(c: char)
    requires
        is_ascii_char(c),
    ensures
        encode_utf8(seq![c]) == seq![c as u8],
{
    let v = c as u32;
    assert((v & 0x7F) as u8 == v as u8) by (bit_vector)
        requires
            v < 0x80,
    ;
    assert(seq![c].drop_first() =~= Seq::<char>::empty());
    reveal_with_fuel(encode_utf8, 2);
    assert(encode_utf8(seq![c]) =~= seq![c as u8]);
}

/// Where the encoding of `text` holds the byte of an ASCII character nowhere,
/// `text` does not hold that character.
pub proof fn lemma_byte_absent(text: Seq<char>, c: char)
    requires
        is_ascii_char(c),
        forall|j: int| 0 <= j < encode_utf8(text).len() ==> encode_utf8(text)[j] != c as u8,
    ensures
        forall|k: int| 0 <= k < text.len() ==> text[k] != c,
{
    assert forall|k: int| 0 <= k < text.len() implies text[k] != c by {
        if text[k] == c {
            let before = text.take(k);
            let after = text.skip(k + 1);
            assert(text =~= before + (seq![c] + after));
            lemma_encode_concat(before, seq![c] + after);
            lemma_encode_concat(seq![c], after);
            lemma_encode_ascii(c);
            let at = encode_utf8(before).len() as int;
            assert(encode_utf8(text)[at] == c as u8);
        }
    }
}

/// The encoding of no character is empty, and that of a character or more
/// is not.
pub proof fn lemma_encode_len(text: Seq<char>)
    ensures
        encode_utf8(text).len() == 0 <==> text.len() == 0,
{
    if text.len() > 0 {
        encode_utf8_first_scalar(text);
    }
}

/// A text whose encoding starts with the encoding of another starts with
/// the other.
pub proof fn lemma_encoded_prefix(part: Seq<char>, whole: Seq<char>)
    requires
        encode_utf8(part).is_prefix_of(encode_utf8(whole)),
    ensures
        part.is_prefix_of(whole),
    decreases part.len(),
{
    if part.len() > 0 {
        let short = encode_utf8(part);
        let long = encode_utf8(whole);
        lemma_encode_len(part);
        lemma_encode_len(whole);
        encode_utf8_first_scalar(part);
        encode_utf8_first_scalar(whole);
        let width = length_of_first_scalar(short);
        assert(short[0] == long[0]);
        assert(width == length_of_first_scalar(long));
        assert(width <= short.len());
        assert(forall|i: int| 0 <= i < width ==> short[i] == long[i]);
        assert(decode_first_scalar(short) == decode_first_scalar(long));
        assert(part[0] == whole[0]) by {
            char_u32_cast(part[0], part[0] as u32);
            char_u32_cast(whole[0], whole[0] as u32);
        }
        assert(encode_utf8(part.drop_first()) =~= short.skip(width));
        assert(encode_utf8(whole.drop_first()) =~= long.skip(width));
        lemma_encoded_prefix(part.drop_first(), whole.drop_first());
        assert(part =~= whole.subrange(0, part.len() as int)) by {
            assert forall|i: int| 0 <= i < part.len() implies part[i] == whole[i] by {
                if i > 0 {
                    assert(part.drop_first()[i - 1] == whole.drop_first()[i - 1]);
                }
            }
        }
    }
}

/// A text that starts with another has an encoding that starts with the
/// encoding of the other.
pub proof fn lemma_prefix_encoded(part: Seq<char>, whole: Seq<char>)
    requires
        part.is_prefix_of(whole),
    ensures
        encode_utf8(part).is_prefix_of(encode_utf8(whole)),
{
    assert(whole =~= part + whole.skip(part.len() as int));
    lemma_encode_concat(part, whole.skip(part.len() as int));
}

/// The index of a byte that no character's encoding continues is the length
/// of the encoding of a prefix of the text, and the index of a boundary
/// between characters.
pub proof fn lemma_boundary_splits(text: Seq<char>, mid: int)
    requires
        0 <= mid <= encode_utf8(text).len(),
        mid < encode_utf8(text).len() ==> !is_continuation_byte(encode_utf8(text)[mid]),
    ensures
        is_char_boundary(encode_utf8(text), mid),
        exists|k: int|
            0 <= k <= text.len() && encode_utf8(#[trigger] text.take(k)).len() == mid
                && encode_utf8(text.skip(k)) == encode_utf8(text).skip(mid),
{
    let bytes = encode_utf8(text);
    encode_utf8_valid_utf8(text);
    if mid < bytes.len() {
        is_char_boundary_iff_not_is_continuation_byte(bytes, mid);
    } else {
        is_char_boundary_start_end_of_seq(bytes);
    }
    valid_utf8_split(bytes, mid);
    decode_utf8_split(bytes, mid);
    encode_utf8_decode_utf8(text);
    let left = decode_utf8(bytes.subrange(0, mid));
    let right = decode_utf8(bytes.subrange(mid, bytes.len() as int));
    decode_utf8_encode_utf8(bytes.subrange(0, mid));
    decode_utf8_encode_utf8(bytes.subrange(mid, bytes.len() as int));
    let k = left.len() as int;
    assert(text.take(k) =~= left);
    assert(text.skip(k) =~= right);
    assert(bytes.skip(mid) =~= bytes.subrange(mid, bytes.len() as int));
}

/// Cuts `text` in two at the byte index `mid`.
pub(crate) fn cut<'a>(text: &'a str, mid: usize) -> (parts: (&'a str, &'a str))
    requires
        is_char_boundary(encode_utf8(text@), mid as int),
    ensures
        text@ == parts.0@ + parts.1@,
        encode_utf8(parts.0@) == encode_utf8(text@).subrange(0, mid as int),
        encode_utf8(parts.1@) == encode_utf8(text@).subrange(
            mid as int,
            encode_utf8(text@).len() as int,
        ),
{
    let parts = text.split_at(mid);
    proof {
        let bytes = encode_utf8(text@);
        encode_utf8_valid_utf8(text@);
        decode_utf8_split(bytes, mid as int);
        encode_utf8_decode_utf8(text@);
        encode_utf8_decode_utf8(parts.0@);
        encode_utf8_decode_utf8(parts.1@);
    }
    parts
}

} // verus!
