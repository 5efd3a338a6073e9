//! Character operands in the bytecode: one byte that gives a length, then
//! that many bytes of UTF-8.

use vstd::prelude::*;
use vstd::utf8::*;

verus! {

/// The operand that stands for `ch`: the length of its UTF-8 encoding, then
/// the encoding.
pub open spec fn char_operand(ch: char) -> Seq<u8> {
    let bytes = encode_scalar(ch as u32);
    seq![bytes.len() as u8] + bytes
}

/// The character operand that starts at `pos`, as the scalar value it
/// encodes and the position behind it. There is none where the length byte
/// is not between 1 and 4, where the operand runs past the end of the code,
/// or where its bytes are not the UTF-8 encoding of exactly one scalar value.
pub open spec fn operand_at(code: Seq<u8>, pos: int) -> Option<(u32, int)> {
    if 0 <= pos < code.len() {
        let n = code[pos] as int;
        let bytes = code.subrange(pos + 1, pos + 1 + n);
        if 1 <= n <= 4 && pos + 1 + n <= code.len() && valid_first_scalar(bytes)
            && length_of_first_scalar(bytes) == n {
            Some((decode_first_scalar(bytes), pos + 1 + n))
        } else {
            None
        }
    } else {
        None
    }
}

/// A character is its scalar value: the value fits 32 bits, reaches at most
/// 0x10FFFF and is no surrogate.
pub proof fn lemma_char_value(ch: char)
    ensures
        ch as u32 as int == ch as int,
        ch as u32 <= 0x10FFFF,
        !(0xD800 <= ch as u32 && ch as u32 <= 0xDFFF),
{
}

/// Appends the operand for `ch` to `buffer`.
pub fn push_char_operand(buffer: &mut Vec<u8>, ch: char)
    ensures
        final(buffer)@ == old(buffer)@ + char_operand(ch),
{
    let c: u32 = ch as u32;
    let ghost before = buffer@;
    if c <= 0x7F {
        assert((c & 0x7F) < 256) by (bit_vector);
        buffer.push(1);
        buffer.push((c & 0x7F) as u8);
        assert(buffer@ =~= before + char_operand(ch));
    } else if c <= 0x7FF {
        assert(((c >> 6) & 0x1F) < 256 && (c & 0x3F) < 256) by (bit_vector);
        buffer.push(2);
        buffer.push(0xC0 | ((c >> 6) & 0x1F) as u8);
        buffer.push(0x80 | (c & 0x3F) as u8);
        assert(buffer@ =~= before + char_operand(ch));
    } else if c <= 0xFFFF {
        assert(((c >> 12) & 0x0F) < 256 && ((c >> 6) & 0x3F) < 256 && (c & 0x3F) < 256)
            by (bit_vector);
        buffer.push(3);
        buffer.push(0xE0 | ((c >> 12) & 0x0F) as u8);
        buffer.push(0x80 | ((c >> 6) & 0x3F) as u8);
        buffer.push(0x80 | (c & 0x3F) as u8);
        assert(buffer@ =~= before + char_operand(ch));
    } else {
        assert(((c >> 18) & 0x7) < 256 && ((c >> 12) & 0x3F) < 256 && ((c >> 6) & 0x3F) < 256 && (c
            & 0x3F) < 256) by (bit_vector);
        buffer.push(4);
        buffer.push(0xF0 | ((c >> 18) & 0x7) as u8);
        buffer.push(0x80 | ((c >> 12) & 0x3F) as u8);
        buffer.push(0x80 | ((c >> 6) & 0x3F) as u8);
        buffer.push(0x80 | (c & 0x3F) as u8);
        assert(buffer@ =~= before + char_operand(ch));
    }
}

/// Reads the character operand at `pos`.
pub fn read_char_operand(code: &Vec<u8>, pos: usize) -> (operand: Option<(u32, usize)>)
    ensures
        match operand {
            Some((scalar, next)) => operand_at(code@, pos as int) == Some((scalar, next as int)),
            None => operand_at(code@, pos as int) is None,
        },
{
    let len = code.len();
    if pos >= len {
        return None;
    }
    let n = code[pos];
    if n < 1 || n > 4 || len - pos - 1 < n as usize {
        return None;
    }
    let ghost bytes = code@.subrange(pos as int + 1, pos as int + 1 + n as int);
    let b1 = code[pos + 1];
    assert(bytes[0] == b1);
    let scalar: u32 = if n == 1 {
        if b1 > 0x7f {
            return None;
        }
        (b1 & 0x7F) as u32
    } else if n == 2 {
        let b2 = code[pos + 2];
        assert(bytes[1] == b2);
        if !(0xc0 <= b1 && b1 <= 0xdf && 0x80 <= b2 && b2 <= 0xbf) {
            return None;
        }
        (((b1 & 0x1F) as u32) << 6) | ((b2 & 0x3f) as u32)
    } else if n == 3 {
        let b2 = code[pos + 2];
        let b3 = code[pos + 3];
        assert(bytes[1] == b2 && bytes[2] == b3);
        if !(0xe0 <= b1 && b1 <= 0xef && 0x80 <= b2 && b2 <= 0xbf && 0x80 <= b3 && b3 <= 0xbf) {
            return None;
        }
        (((b1 & 0x0F) as u32) << 12) | (((b2 & 0x3f) as u32) << 6) | ((b3 & 0x3f) as u32)
    } else {
        let b2 = code[pos + 2];
        let b3 = code[pos + 3];
        let b4 = code[pos + 4];
        assert(bytes[1] == b2 && bytes[2] == b3 && bytes[3] == b4);
        if !(0xf0 <= b1 && b1 <= 0xf7 && 0x80 <= b2 && b2 <= 0xbf && 0x80 <= b3 && b3 <= 0xbf
            && 0x80 <= b4 && b4 <= 0xbf) {
            return None;
        }
        (((b1 & 0x07) as u32) << 18) | (((b2 & 0x3f) as u32) << 12) | (((b3 & 0x3f) as u32) << 6)
            | ((b4 & 0x3f) as u32)
    };
    let overlong = (n == 2 && scalar < 0x80) || (n == 3 && scalar < 0x800) || (n == 4 && (scalar
        < 0x10000 || scalar > 0x10ffff));
    let surrogate = 0xD800 <= scalar && scalar <= 0xDFFF;
    if overlong || surrogate {
        return None;
    }
    Some((scalar, pos + 1 + n as usize))
}

/// Reading back the operand that was written for a character gives the
/// character, wherever in the code the operand stands.
pub proof fn lemma_operand_round_trip(before: Seq<u8>, ch: char, after: Seq<u8>)
    ensures
        operand_at(before + char_operand(ch) + after, before.len() as int) == Some(
            (ch as u32, (before.len() + char_operand(ch).len()) as int),
        ),
        2 <= char_operand(ch).len() <= 5,
{
    let code = before + char_operand(ch) + after;
    let pos = before.len() as int;
    let enc = encode_scalar(ch as u32);
    let one = seq![ch];
    assert(encode_utf8(one.drop_first()) =~= Seq::<u8>::empty());
    assert(encode_utf8(one) =~= enc);
    encode_utf8_first_scalar(one);
    assert(code[pos] == enc.len() as u8);
    assert(code.subrange(pos + 1, pos + 1 + enc.len()) =~= enc);
}

} // verus!
