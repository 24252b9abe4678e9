//! Mathematical model of the encodings: UTF-8 comes from `vstd::utf8`, CESU-8 and
//! MUTF-8 are defined here character by character and byte by byte.
use vstd::prelude::*;
use vstd::utf8::*;

verus! {

/// The three bytes of a UTF-16 surrogate code unit, written as if it were a
/// scalar with a three-byte UTF-8 encoding.
pub open spec fn surrogate_bytes(unit: u32) -> Seq<u8> {
    seq![
        (0xE0 | ((unit >> 12) & 0x0F)) as u8,
        (0x80 | ((unit >> 6) & 0x3F)) as u8,
        (0x80 | (unit & 0x3F)) as u8,
    ]
}

/// The leading (high) surrogate of a scalar above U+FFFF.
pub open spec fn high_surrogate(scalar: u32) -> u32 {
    0xD800 | (((scalar - 0x10000) as u32) >> 10)
}

/// The trailing (low) surrogate of a scalar above U+FFFF.
pub open spec fn low_surrogate(scalar: u32) -> u32 {
    0xDC00 | (((scalar - 0x10000) as u32) & 0x3FF)
}

/// The CESU-8 bytes of one character: its UTF-8 bytes up to U+FFFF, and the
/// six bytes of its surrogate pair above.
pub open spec fn cesu8_char(c: char) -> Seq<u8> {
    if (c as u32) <= 0xFFFF {
        encode_scalar(c as u32)
    } else {
        surrogate_bytes(high_surrogate(c as u32)) + surrogate_bytes(low_surrogate(c as u32))
    }
}

/// The CESU-8 encoding of a character sequence.
pub open spec fn cesu8_encode(s: Seq<char>) -> Seq<u8>
    decreases s.len(),
{
    if s.len() == 0 {
        seq![]
    } else {
        cesu8_char(s[0]) + cesu8_encode(s.drop_first())
    }
}

/// Every zero byte replaced by the pair `0xC0 0x80`, all other bytes kept.
pub open spec fn escape_nulls(b: Seq<u8>) -> Seq<u8>
    decreases b.len(),
{
    if b.len() == 0 {
        seq![]
    } else if b[0] == 0 {
        seq![0xC0u8, 0x80u8] + escape_nulls(b.drop_first())
    } else {
        seq![b[0]] + escape_nulls(b.drop_first())
    }
}

/// The inverse of `escape_nulls`: each `0xC0 0x80` becomes a zero byte; a `0xC0`
/// that is not followed by `0x80` makes the whole sequence fail.
pub open spec fn unescape_nulls(b: Seq<u8>) -> Option<Seq<u8>>
    decreases b.len(),
{
    if b.len() == 0 {
        Some(seq![])
    } else if b[0] == 0xC0 {
        if b.len() >= 2 && b[1] == 0x80 {
            prepend(seq![0u8], unescape_nulls(b.subrange(2, b.len() as int)))
        } else {
            None
        }
    } else {
        prepend(seq![b[0]], unescape_nulls(b.drop_first()))
    }
}

/// `p` put in front of a successful result; a failure stays a failure.
pub open spec fn prepend(p: Seq<u8>, r: Option<Seq<u8>>) -> Option<Seq<u8>> {
    match r {
        Some(rest) => Some(p + rest),
        None => None,
    }
}

/// The MUTF-8 encoding of a character sequence: CESU-8 with every null escaped.
pub open spec fn mutf8_encode(s: Seq<char>) -> Seq<u8> {
    escape_nulls(cesu8_encode(s))
}

/// The number of zero bytes in `b`.
pub open spec fn zero_count(b: Seq<u8>) -> nat
    decreases b.len(),
{
    if b.len() == 0 {
        0
    } else {
        (if b[0] == 0 { 1nat } else { 0nat }) + zero_count(b.drop_first())
    }
}

/// No character lies above U+FFFF.
pub open spec fn within_bmp(s: Seq<char>) -> bool {
    forall|i: int| 0 <= i < s.len() ==> (#[trigger] s[i] as u32) <= 0xFFFF
}

/// The UTF-8 bytes of `s` are already its MUTF-8 bytes: no null character and
/// nothing above U+FFFF.
pub open spec fn mutf8_identity(s: Seq<char>) -> bool {
    !s.contains('\0') && within_bmp(s)
}

/// What the CESU-8 decoder makes of `u`: well-formed UTF-8 is read as UTF-8,
/// anything else must be the CESU-8 encoding of `t`.
pub open spec fn cesu8_decodes_to(u: Seq<u8>, t: Seq<char>) -> bool {
    if valid_utf8(u) {
        decode_utf8(u) == t
    } else {
        cesu8_encode(t) == u
    }
}

/// `b` decodes to the text `t`: well-formed UTF-8 is read as it is; otherwise
/// the null escapes must be well formed, and what they leave must decode as
/// CESU-8.
pub open spec fn decodes_to(b: Seq<u8>, t: Seq<char>) -> bool {
    if valid_utf8(b) {
        decode_utf8(b) == t
    } else {
        match unescape_nulls(b) {
            Some(u) => cesu8_decodes_to(u, t),
            None => false,
        }
    }
}

} // verus!
