//! The byte-offset model of UTF-8 text: where each character's encoding
//! starts inside the encoded bytes, and how to decode one character at a
//! known offset.

use vstd::prelude::*;
use vstd::utf8::*;

verus! {

/// The character at position `i` of a text, or `None` when `i` is out of
/// range. This is the whole observable behaviour of a lookup.
pub open spec fn spec_get_char(chars: Seq<char>, i: int) -> Option<char> {
    if 0 <= i < chars.len() {
        Some(chars[i])
    } else {
        None
    }
}

/// Byte offset at which the UTF-8 encoding of `chars[i]` begins; for
/// `i == chars.len()` it is the total encoded length.
pub open spec fn byte_offset(chars: Seq<char>, i: int) -> int
    decreases i,
{
    if i <= 0 {
        0
    } else {
        byte_offset(chars, i - 1) + encode_scalar(chars[i - 1] as u32).len()
    }
}

/// Every character's UTF-8 encoding takes between 1 and 4 bytes.
pub proof fn lemma_encode_scalar_len(c: char)
    ensures
        1 <= encode_scalar(c as u32).len() <= 4,
{
    char_is_scalar(c);
}

/// Encoding a concatenation encodes the parts one after the other.
pub proof fn lemma_encode_utf8_concat(a: Seq<char>, b: Seq<char>)
    ensures
        encode_utf8(a + b) == encode_utf8(a) + encode_utf8(b),
    decreases a.len(),
{
    if a.len() == 0 {
        assert(a + b =~= b);
        assert(encode_utf8(a) + encode_utf8(b) =~= encode_utf8(b));
    } else {
        lemma_encode_utf8_concat(a.drop_first(), b);
        assert((a + b).drop_first() =~= a.drop_first() + b);
        assert((a + b)[0] == a[0]);
        assert(encode_scalar(a[0] as u32) + (encode_utf8(a.drop_first()) + encode_utf8(b)) =~= (
        encode_scalar(a[0] as u32) + encode_utf8(a.drop_first())) + encode_utf8(b));
    }
}

/// `byte_offset(chars, i)` is the encoded length of the first `i` characters.
pub proof fn lemma_byte_offset_is_prefix_len(chars: Seq<char>, i: int)
    requires
        0 <= i <= chars.len(),
    ensures
        byte_offset(chars, i) == encode_utf8(chars.take(i)).len(),
    decreases i,
{
    if i == 0 {
        assert(chars.take(0) =~= Seq::<char>::empty());
    } else {
        lemma_byte_offset_is_prefix_len(chars, i - 1);
        lemma_encode_utf8_concat(chars.take(i - 1), seq![chars[i - 1]]);
        assert(chars.take(i) =~= chars.take(i - 1) + seq![chars[i - 1]]);
        assert(seq![chars[i - 1]].drop_first() =~= Seq::<char>::empty());
        assert(seq![chars[i - 1]][0] == chars[i - 1]);
        assert(encode_utf8(Seq::<char>::empty()) =~= Seq::<u8>::empty());
        assert(encode_utf8(seq![chars[i - 1]]) =~= encode_scalar(chars[i - 1] as u32));
    }
}

/// Byte offsets grow with the character position: each character takes at
/// least one and at most four bytes.
pub proof fn lemma_byte_offset_monotone(chars: Seq<char>, i: int, j: int)
    requires
        0 <= i <= j <= chars.len(),
    ensures
        byte_offset(chars, i) + (j - i) <= byte_offset(chars, j),
        byte_offset(chars, j) <= byte_offset(chars, i) + 4 * (j - i),
    decreases j - i,
{
    if i < j {
        lemma_byte_offset_monotone(chars, i, j - 1);
        lemma_encode_scalar_len(chars[j - 1]);
    }
}

/// What the encoded bytes look like at the offset of character `i`: the
/// bytes from there on encode the remaining characters, they start with a
/// well-formed scalar encoding, and that scalar is `chars[i]`.
pub proof fn lemma_char_encoding_at(chars: Seq<char>, i: int)
    requires
        0 <= i < chars.len(),
    ensures
        ({
            let bytes = encode_utf8(chars);
            let off = byte_offset(chars, i);
            let tail = bytes.subrange(off, bytes.len() as int);
            &&& 0 <= off
            &&& off + encode_scalar(chars[i] as u32).len() <= bytes.len()
            &&& byte_offset(chars, i + 1) == off + encode_scalar(chars[i] as u32).len()
            &&& byte_offset(chars, chars.len() as int) == bytes.len()
            &&& tail == encode_utf8(chars.skip(i))
            &&& tail.len() > 0
            &&& valid_first_scalar(tail)
            &&& decode_first_scalar(tail) == chars[i] as u32
            &&& length_of_first_scalar(tail) == encode_scalar(chars[i] as u32).len()
        }),
{
    let bytes = encode_utf8(chars);
    let off = byte_offset(chars, i);
    lemma_byte_offset_is_prefix_len(chars, i);
    lemma_encode_utf8_concat(chars.take(i), chars.skip(i));
    assert(chars.take(i) + chars.skip(i) =~= chars);
    assert(bytes == encode_utf8(chars.take(i)) + encode_utf8(chars.skip(i)));
    assert(bytes.subrange(off, bytes.len() as int) =~= encode_utf8(chars.skip(i)));
    assert(chars.skip(i)[0] == chars[i]);
    encode_utf8_first_scalar(chars.skip(i));
    lemma_byte_offset_is_prefix_len(chars, chars.len() as int);
    assert(chars.take(chars.len() as int) =~= chars);
    lemma_byte_offset_monotone(chars, i + 1, chars.len() as int);
    assert(encode_utf8(chars.skip(i)).len() > 0) by {
        lemma_encode_scalar_len(chars[i]);
        assert(encode_utf8(chars.skip(i))[0] == encode_scalar(chars[i] as u32)[0]);
    }
}

/// Relies on char::from_u32: for every Unicode scalar value it returns
/// `Some` of the character with exactly that value.
#[verifier::external_body]
fn char_from_scalar(v: u32) -> (c: char)
    requires
        is_scalar(v),
    ensures
        c == v as char,
{
    match char::from_u32(v) {
        Some(c) => c,
        None => '\u{fffd}',
    }
}

/// Decodes the single character whose UTF-8 encoding starts at byte
/// offset `off` of `bytes`, which must be the encoding of `chars`.
pub(crate) fn decode_char_at(
    bytes: &[u8],
    off: usize,
    Ghost(chars): Ghost<Seq<char>>,
    Ghost(i): Ghost<int>,
) -> (c: char)
    requires
        bytes@ == encode_utf8(chars),
        0 <= i < chars.len(),
        off == byte_offset(chars, i),
    ensures
        c == chars[i],
{
    proof {
        lemma_char_encoding_at(chars, i);
        lemma_encode_scalar_len(chars[i]);
        char_is_scalar(chars[i]);
    }
    let ghost tail = bytes@.subrange(off as int, bytes@.len() as int);
    proof {
        assert(tail[0] == bytes@[off as int]);
    }
    let b0 = bytes[off];
    let code: u32 = if b0 < 0x80 {
        proof {
            assert(codepoint_width_1(b0) == b0 as u32) by (bit_vector)
                requires
                    b0 < 0x80,
            ;
        }
        b0 as u32
    } else if b0 < 0xe0 {
        proof {
            assert(is_leading_byte_width_2(tail[0]));
            assert(tail[1] == bytes@[off + 1]);
        }
        let b1 = bytes[off + 1];
        (((b0 & 0x1f) as u32) << 6u32) | ((b1 & 0x3f) as u32)
    } else if b0 < 0xf0 {
        proof {
            assert(is_leading_byte_width_3(tail[0]));
            assert(tail[1] == bytes@[off + 1]);
            assert(tail[2] == bytes@[off + 2]);
        }
        let b1 = bytes[off + 1];
        let b2 = bytes[off + 2];
        (((b0 & 0x0f) as u32) << 12u32) | (((b1 & 0x3f) as u32) << 6u32) | ((b2 & 0x3f) as u32)
    } else {
        proof {
            assert(is_leading_byte_width_4(tail[0]));
            assert(tail[1] == bytes@[off + 1]);
            assert(tail[2] == bytes@[off + 2]);
            assert(tail[3] == bytes@[off + 3]);
        }
        let b1 = bytes[off + 1];
        let b2 = bytes[off + 2];
        let b3 = bytes[off + 3];
        (((b0 & 0x07) as u32) << 18u32) | (((b1 & 0x3f) as u32) << 12u32) | (((b2 & 0x3f) as u32)
            << 6u32) | ((b3 & 0x3f) as u32)
    };
    proof {
        assert(code == chars[i] as u32);
        char_u32_cast(chars[i], code);
    }
    char_from_scalar(code)
}

} // verus!
