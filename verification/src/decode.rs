//! Decoding of UTF-8 bytes into scalar values.
//!
//! Well-formedness and the decoded text are those of `vstd::utf8`. Malformed
//! input is never repaired: the decoder stops at the first sequence that is
//! not well formed and reports where it starts and what is wrong with it.

use vstd::prelude::*;
use vstd::utf8::*;

verus! {

/// What is wrong with a byte sequence that does not encode a scalar value.
#[derive(Clone, Copy, Debug, PartialEq, Eq)]
pub enum Malformation {
    /// The first byte cannot start a sequence: it is a continuation byte, or
    /// one of `0xF8..=0xFF`.
    InvalidLead,
    /// The input ends before the sequence that the first byte announces.
    Truncated,
    /// A byte of the sequence after the first is not a continuation byte.
    InvalidContinuation,
    /// The sequence is longer than the value it encodes needs.
    Overlong,
    /// The sequence encodes a surrogate, `U+D800..=U+DFFF`.
    Surrogate,
    /// The sequence encodes a value above `U+10FFFF`.
    OutOfRange,
}

/// The first malformed sequence of an input.
#[derive(Clone, Copy, Debug, PartialEq, Eq)]
pub struct EncodingError {
    /// The offset of the byte at which the malformed sequence starts.
    pub offset: usize,
    /// What is wrong with it.
    pub kind: Malformation,
}

/// The number of bytes of the sequence that `lead` starts, or 0 where `lead`
/// cannot start one.
pub open spec fn announced_width(lead: u8) -> int {
    if is_leading_byte_width_1(lead) {
        1
    } else if is_leading_byte_width_2(lead) {
        2
    } else if is_leading_byte_width_3(lead) {
        3
    } else if is_leading_byte_width_4(lead) {
        4
    } else {
        0
    }
}

/// What is wrong with the bytes `from..width` of the sequence at the start of
/// `rest`, read in order: the first of them that is missing or is no
/// continuation byte decides.
pub open spec fn continuation_defect(rest: Seq<u8>, width: int, from: int) -> Option<Malformation>
    decreases width - from,
{
    if from >= width {
        None
    } else if from >= rest.len() {
        Some(Malformation::Truncated)
    } else if !is_continuation_byte(rest[from]) {
        Some(Malformation::InvalidContinuation)
    } else {
        continuation_defect(rest, width, from + 1)
    }
}

/// What is wrong with the value `codepoint` as the content of a sequence of
/// `width` bytes.
pub open spec fn value_defect(codepoint: u32, width: int) -> Option<Malformation> {
    if width == 2 && codepoint < 0x80 {
        Some(Malformation::Overlong)
    } else if width == 3 && codepoint < 0x800 {
        Some(Malformation::Overlong)
    } else if width == 4 && codepoint < 0x10000 {
        Some(Malformation::Overlong)
    } else if width == 4 && codepoint > 0x10FFFF {
        Some(Malformation::OutOfRange)
    } else if 0xD800 <= codepoint <= 0xDFFF {
        Some(Malformation::Surrogate)
    } else {
        None
    }
}

/// What is wrong with the sequence at the start of the non-empty `rest`, or
/// `None` where it encodes a scalar value.
pub open spec fn defect(rest: Seq<u8>) -> Option<Malformation> {
    let width = announced_width(rest[0]);
    if width == 0 {
        Some(Malformation::InvalidLead)
    } else if continuation_defect(rest, width, 1) is Some {
        continuation_defect(rest, width, 1)
    } else {
        value_defect(decode_first_codepoint(rest), width)
    }
}

/// The bytes before `offset` are well formed and the sequence that starts at
/// `offset` is not.
pub open spec fn malformed_at(bytes: Seq<u8>, offset: int) -> bool {
    &&& 0 <= offset < bytes.len()
    &&& valid_utf8(bytes.subrange(0, offset))
    &&& !valid_first_scalar(bytes.subrange(offset, bytes.len() as int))
}

/// A sequence encodes a scalar value exactly when nothing is wrong with it.
pub proof fn lemma_defect_none_iff_valid(rest: Seq<u8>)
    requires
        rest.len() > 0,
    ensures
        defect(rest) is None <==> valid_first_scalar(rest),
{
    reveal_with_fuel(continuation_defect, 4);
}

/// `char::from_u32` gives the scalar value with the given number, and `None`
/// for a number that is a surrogate or lies above `U+10FFFF`.
pub assume_specification[ char::from_u32 ](value: u32) -> (scalar: Option<char>)
    ensures
        scalar is Some <==> is_scalar(value),
        scalar matches Some(c) ==> c as u32 == value,
;

/// The text of two well-formed byte sequences, one after the other, is the
/// text of the first followed by the text of the second.
pub proof fn lemma_decode_concat(first: Seq<u8>, second: Seq<u8>)
    requires
        valid_utf8(first),
        valid_utf8(second),
    ensures
        valid_utf8(first + second),
        decode_utf8(first + second) == decode_utf8(first) + decode_utf8(second),
    decreases first.len(),
{
    if first.len() == 0 {
        assert(first + second =~= second);
    } else {
        let rest = pop_first_scalar(first);
        lemma_decode_concat(rest, second);
        assert(pop_first_scalar(first + second) =~= rest + second);
        assert(decode_utf8(first + second) =~= decode_utf8(first) + decode_utf8(second));
    }
}

/// What stands behind a well-formed prefix of well-formed bytes is well
/// formed.
proof fn lemma_valid_suffix(first: Seq<u8>, second: Seq<u8>)
    requires
        valid_utf8(first),
        valid_utf8(first + second),
    ensures
        valid_utf8(second),
    decreases first.len(),
{
    if first.len() == 0 {
        assert(first + second =~= second);
    } else {
        let rest = pop_first_scalar(first);
        assert(pop_first_scalar(first + second) =~= rest + second);
        lemma_valid_suffix(rest, second);
    }
}

/// An input has one first malformed sequence: the offset that `decode`
/// reports is the only one before which all is well formed and at which a
/// malformed sequence starts.
pub proof fn lemma_malformed_at_unique(bytes: Seq<u8>, one: int, other: int)
    requires
        malformed_at(bytes, one),
        malformed_at(bytes, other),
    ensures
        one == other,
{
    if one != other {
        let (low, high) = if one < other {
            (one, other)
        } else {
            (other, one)
        };
        let between = bytes.subrange(low, high);
        assert(bytes.subrange(0, low) + between =~= bytes.subrange(0, high));
        lemma_valid_suffix(bytes.subrange(0, low), between);
        assert(valid_first_scalar(between));
        let rest = bytes.subrange(low, bytes.len() as int);
        assert(forall|k: int| 0 <= k < between.len() ==> between[k] == rest[k]);
        assert(valid_first_scalar(rest));
    }
}

/// Reading one more well-formed sequence behind a well-formed prefix adds
/// its scalar value to the text of the prefix.
proof fn lemma_decode_extend(bytes: Seq<u8>, offset: int)
    requires
        0 <= offset < bytes.len(),
        valid_utf8(bytes.subrange(0, offset)),
        valid_first_scalar(bytes.subrange(offset, bytes.len() as int)),
    ensures
        ({
            let rest = bytes.subrange(offset, bytes.len() as int);
            let next = offset + length_of_first_scalar(rest);
            &&& next <= bytes.len()
            &&& valid_utf8(bytes.subrange(0, next))
            &&& decode_utf8(bytes.subrange(0, next)) == decode_utf8(
                bytes.subrange(0, offset),
            ).push(decode_first_scalar(rest) as char)
        }),
{
    let rest = bytes.subrange(offset, bytes.len() as int);
    let width = length_of_first_scalar(rest);
    let one = bytes.subrange(offset, offset + width);
    assert(one =~= rest.subrange(0, width));
    assert(valid_first_scalar(one));
    assert(pop_first_scalar(one) =~= Seq::<u8>::empty());
    assert(valid_utf8(one)) by {
        reveal_with_fuel(valid_utf8, 2);
    }
    assert(decode_utf8(one) =~= seq![decode_first_scalar(rest) as char]) by {
        reveal_with_fuel(decode_utf8, 2);
    }
    lemma_decode_concat(bytes.subrange(0, offset), one);
    assert(bytes.subrange(0, offset) + one =~= bytes.subrange(0, offset + width));
}

/// Reads the sequence that starts at `offset`: its scalar value and its
/// length in bytes, or what is wrong with it.
pub fn decode_scalar_at(bytes: &[u8], offset: usize) -> (result: Result<(char, usize), Malformation>)
    requires
        offset < bytes.len(),
    ensures
        ({
            let rest = bytes@.subrange(offset as int, bytes.len() as int);
            match result {
                Ok((scalar, width)) => {
                    &&& valid_first_scalar(rest)
                    &&& width == length_of_first_scalar(rest)
                    &&& scalar == decode_first_scalar(rest) as char
                },
                Err(kind) => !valid_first_scalar(rest) && defect(rest) == Some(kind),
            }
        }),
{
    let ghost rest = bytes@.subrange(offset as int, bytes.len() as int);
    proof {
        reveal_with_fuel(continuation_defect, 4);
        lemma_defect_none_iff_valid(rest);
    }
    let remaining: usize = bytes.len() - offset;
    let lead: u8 = bytes[offset];
    assert(lead == rest[0]);
    let width: usize = if lead <= 0x7f {
        1
    } else if 0xc0 <= lead && lead <= 0xdf {
        2
    } else if 0xe0 <= lead && lead <= 0xef {
        3
    } else if 0xf0 <= lead && lead <= 0xf7 {
        4
    } else {
        return Err(Malformation::InvalidLead);
    };
    let mut k: usize = 1;
    while k < width
        invariant
            1 <= k <= width <= 4,
            width == announced_width(rest[0]),
            remaining == rest.len(),
            offset + remaining == bytes.len(),
            rest == bytes@.subrange(offset as int, bytes.len() as int),
            forall|j: int| 1 <= j < k ==> j < rest.len() && is_continuation_byte(#[trigger] rest[j]),
            continuation_defect(rest, width as int, 1) == continuation_defect(
                rest,
                width as int,
                k as int,
            ),
        decreases width - k,
    {
        if k >= remaining {
            return Err(Malformation::Truncated);
        }
        let byte: u8 = bytes[offset + k];
        assert(byte == rest[k as int]);
        if !(0x80 <= byte && byte <= 0xbf) {
            return Err(Malformation::InvalidContinuation);
        }
        k += 1;
    }
    assert(continuation_defect(rest, width as int, 1) is None);
    let codepoint: u32 = if width == 1 {
        assert((lead & 0x7f) as u32 <= 0x7f) by (bit_vector);
        (lead & 0x7f) as u32
    } else if width == 2 {
        let second: u8 = bytes[offset + 1];
        assert(second == rest[1]);
        assert((((lead & 0x1f) as u32) << 6) | ((second & 0x3f) as u32) <= 0x7ff) by (bit_vector);
        (((lead & 0x1f) as u32) << 6) | ((second & 0x3f) as u32)
    } else if width == 3 {
        let second: u8 = bytes[offset + 1];
        let third: u8 = bytes[offset + 2];
        assert(second == rest[1] && third == rest[2]);
        assert((((lead & 0x0f) as u32) << 12) | (((second & 0x3f) as u32) << 6) | ((third
            & 0x3f) as u32) <= 0xffff) by (bit_vector);
        (((lead & 0x0f) as u32) << 12) | (((second & 0x3f) as u32) << 6) | ((third & 0x3f) as u32)
    } else {
        let second: u8 = bytes[offset + 1];
        let third: u8 = bytes[offset + 2];
        let fourth: u8 = bytes[offset + 3];
        assert(second == rest[1] && third == rest[2] && fourth == rest[3]);
        (((lead & 0x07) as u32) << 18) | (((second & 0x3f) as u32) << 12) | (((third & 0x3f) as u32)
            << 6) | ((fourth & 0x3f) as u32)
    };
    assert(codepoint == decode_first_codepoint(rest));
    if width == 2 && codepoint < 0x80 {
        return Err(Malformation::Overlong);
    }
    if width == 3 && codepoint < 0x800 {
        return Err(Malformation::Overlong);
    }
    if width == 4 && codepoint < 0x10000 {
        return Err(Malformation::Overlong);
    }
    if width == 4 && codepoint > 0x10FFFF {
        return Err(Malformation::OutOfRange);
    }
    match char::from_u32(codepoint) {
        Some(scalar) => {
            proof {
                char_u32_cast(scalar, codepoint);
            }
            Ok((scalar, width))
        },
        None => Err(Malformation::Surrogate),
    }
}

/// Decodes `bytes` as UTF-8.
///
/// Well-formed input gives its text. Any other input gives the first
/// malformed sequence: the offset at which it starts and what is wrong with
/// it.
pub fn decode(bytes: &[u8]) -> (result: Result<String, EncodingError>)
    ensures
        match result {
            Ok(text) => valid_utf8(bytes@) && text@ == decode_utf8(bytes@),
            Err(error) => {
                &&& !valid_utf8(bytes@)
                &&& malformed_at(bytes@, error.offset as int)
                &&& defect(bytes@.subrange(error.offset as int, bytes.len() as int)) == Some(
                    error.kind,
                )
            },
        },
{
    let mut text = String::new();
    let mut offset: usize = 0;
    while offset < bytes.len()
        invariant
            offset <= bytes.len(),
            valid_utf8(bytes@.subrange(0, offset as int)),
            text@ == decode_utf8(bytes@.subrange(0, offset as int)),
        decreases bytes.len() - offset,
    {
        match decode_scalar_at(bytes, offset) {
            Ok((scalar, width)) => {
                proof {
                    lemma_decode_extend(bytes@, offset as int);
                }
                text.push(scalar);
                offset += width;
            },
            Err(kind) => {
                proof {
                    let rest = bytes@.subrange(offset as int, bytes.len() as int);
                    assert(!valid_utf8(rest));
                    partial_valid_partial_invalid_utf8(bytes@, offset as int);
                }
                return Err(EncodingError { offset, kind });
            },
        }
    }
    assert(bytes@.subrange(0, bytes.len() as int) =~= bytes@);
    Ok(text)
}

} // verus!
