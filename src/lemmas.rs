//! Facts about the encodings of `model`, and the laws that the codec obeys.
use crate::model::{
    cesu8_char, cesu8_encode, decodes_to, escape_nulls, high_surrogate, low_surrogate,
    mutf8_encode, mutf8_identity, prepend, unescape_nulls, within_bmp, zero_count,
};
use vstd::prelude::*;
use vstd::utf8::*;

verus! {

/// The bytes that UTF-8 gives a scalar, by width.
proof fn lemma_scalar_byte_ranges(c: u32)
    by (bit_vector)
    ensures
        has_width_1_encoding(c) ==> leading_byte_width_1(c) == c,
        has_width_2_encoding(c) ==> 0xC2 <= leading_byte_width_2(c) <= 0xDF,
        has_width_3_encoding(c) ==> 0xE0 <= leading_byte_width_3(c) <= 0xEF,
        has_width_4_encoding(c) ==> 0xF0 <= leading_byte_width_4(c) <= 0xF4,
        0x80 <= last_continuation_byte(c) <= 0xBF,
        0x80 <= second_last_continuation_byte(c) <= 0xBF,
        0x80 <= third_last_continuation_byte(c) <= 0xBF,
        has_width_3_encoding(c) && leading_byte_width_3(c) == 0xED ==> second_last_continuation_byte(c) <= 0x9F,
{
}

/// Equal bytes in the same form come from equal scalars.
proof fn lemma_same_bytes_same_scalar(v: u32, w: u32)
    by (bit_vector)
    ensures
        has_width_2_encoding(v) && has_width_2_encoding(w) && leading_byte_width_2(v)
            == leading_byte_width_2(w) && last_continuation_byte(v) == last_continuation_byte(w)
            ==> v == w,
        has_width_3_encoding(v) && has_width_3_encoding(w) && leading_byte_width_3(v)
            == leading_byte_width_3(w) && second_last_continuation_byte(v)
            == second_last_continuation_byte(w) && last_continuation_byte(v)
            == last_continuation_byte(w) ==> v == w,
        0x10000 <= v <= 0x10FFFF && 0x10000 <= w <= 0x10FFFF
            && (0x80 | ((high_surrogate(v) >> 6) & 0x3F)) as u8
            == (0x80 | ((high_surrogate(w) >> 6) & 0x3F)) as u8
            && (0x80 | (high_surrogate(v) & 0x3F)) as u8
            == (0x80 | (high_surrogate(w) & 0x3F)) as u8
            && (0x80 | ((low_surrogate(v) >> 6) & 0x3F)) as u8
            == (0x80 | ((low_surrogate(w) >> 6) & 0x3F)) as u8
            && (0x80 | (low_surrogate(v) & 0x3F)) as u8
            == (0x80 | (low_surrogate(w) & 0x3F)) as u8 ==> v == w,
{
}

/// The bytes of the surrogate pair of a scalar above U+FFFF.
proof fn lemma_surrogate_byte_ranges(c: u32)
    by (bit_vector)
    requires
        0x10000 <= c <= 0x10FFFF,
    ensures
        (0xE0 | ((high_surrogate(c) >> 12) & 0x0F)) as u8 == 0xED,
        0xA0 <= (0x80 | ((high_surrogate(c) >> 6) & 0x3F)) as u8 <= 0xAF,
        0x80 <= (0x80 | (high_surrogate(c) & 0x3F)) as u8 <= 0xBF,
        (0xE0 | ((low_surrogate(c) >> 12) & 0x0F)) as u8 == 0xED,
        0xB0 <= (0x80 | ((low_surrogate(c) >> 6) & 0x3F)) as u8 <= 0xBF,
        0x80 <= (0x80 | (low_surrogate(c) & 0x3F)) as u8 <= 0xBF,
{
}

/// A byte that can occur in CESU-8: never `0xC0`, `0xC1` or `0xF0` and above.
pub open spec fn cesu8_byte(b: u8) -> bool {
    b < 0xC0 || (0xC2 <= b && b <= 0xEF)
}

/// What one character contributes to the encodings, byte by byte.
pub proof fn lemma_char_bytes(c: char)
    ensures
        c == '\0' ==> cesu8_char(c) == seq![0u8] && encode_scalar(c as u32) == seq![0u8],
        c != '\0' ==> forall|i: int|
            0 <= i < cesu8_char(c).len() ==> #[trigger] cesu8_char(c)[i] != 0,
        c != '\0' ==> forall|i: int|
            0 <= i < encode_scalar(c as u32).len() ==> #[trigger] encode_scalar(c as u32)[i] != 0,
        forall|i: int| 0 <= i < cesu8_char(c).len() ==> cesu8_byte(#[trigger] cesu8_char(c)[i]),
        cesu8_char(c).len() > 0,
        (c as u32) > 0xFFFF ==> encode_scalar(c as u32)[0] >= 0xF0,
{
    let v = c as u32;
    char_is_scalar(c);
    lemma_scalar_byte_ranges(v);
    if v > 0xFFFF {
        lemma_surrogate_byte_ranges(v);
    }
    if c == '\0' {
        assert(v == 0);
    } else {
        assert(v != 0) by {
            char_u32_cast(c, v);
        }
    }
}

/// The CESU-8 bytes of a character are told apart from those of any other
/// character by their first bytes, so a common prefix is a common character.
proof fn lemma_cesu8_char_prefix(c: char, d: char, x: Seq<u8>, y: Seq<u8>)
    requires
        cesu8_char(c) + x == cesu8_char(d) + y,
    ensures
        c == d,
        x == y,
{
    let a = cesu8_char(c);
    let b = cesu8_char(d);
    let v = c as u32;
    let w = d as u32;
    let z = a + x;
    char_is_scalar(c);
    char_is_scalar(d);
    lemma_scalar_byte_ranges(v);
    lemma_scalar_byte_ranges(w);
    if v > 0xFFFF {
        lemma_surrogate_byte_ranges(v);
    }
    if w > 0xFFFF {
        lemma_surrogate_byte_ranges(w);
    }
    assert(z[0] == a[0] && z[0] == b[0]);
    if a.len() >= 2 && b.len() >= 2 {
        assert(z[1] == a[1] && z[1] == b[1]);
    }
    assert(a.len() == b.len());
    assert(a =~= z.subrange(0, a.len() as int));
    assert(b =~= z.subrange(0, b.len() as int));
    assert forall|i: int| 0 <= i < a.len() implies a[i] == b[i] by {
        assert(z[i] == a[i] && z[i] == b[i]);
    }
    lemma_same_bytes_same_scalar(v, w);
    if v > 0xFFFF {
        assert(a[1] == b[1] && a[2] == b[2] && a[4] == b[4] && a[5] == b[5]);
    } else if v > 0x7F {
        assert(a[0] == b[0] && a[1] == b[1]);
    }
    assert(v == w);
    char_u32_cast(c, v);
    char_u32_cast(d, w);
    assert(x =~= z.subrange(a.len() as int, z.len() as int));
    assert(y =~= z.subrange(b.len() as int, z.len() as int));
}

/// Different texts have different CESU-8 encodings.
pub proof fn lemma_cesu8_injective(s: Seq<char>, t: Seq<char>)
    requires
        cesu8_encode(s) == cesu8_encode(t),
    ensures
        s == t,
    decreases s.len(),
{
    if s.len() == 0 {
        if t.len() > 0 {
            lemma_char_bytes(t[0]);
            assert(cesu8_encode(t).len() >= cesu8_char(t[0]).len());
        }
        assert(s =~= t);
    } else {
        lemma_char_bytes(s[0]);
        if t.len() == 0 {
            assert(cesu8_encode(s).len() > 0);
        } else {
            lemma_cesu8_char_prefix(s[0], t[0], cesu8_encode(s.drop_first()), cesu8_encode(t.drop_first()));
            lemma_cesu8_injective(s.drop_first(), t.drop_first());
            assert(s =~= seq![s[0]] + s.drop_first());
            assert(t =~= seq![t[0]] + t.drop_first());
        }
    }
}

pub proof fn lemma_zero_count_concat(a: Seq<u8>, b: Seq<u8>)
    ensures
        zero_count(a + b) == zero_count(a) + zero_count(b),
    decreases a.len(),
{
    if a.len() > 0 {
        assert((a + b).drop_first() =~= a.drop_first() + b);
        lemma_zero_count_concat(a.drop_first(), b);
    } else {
        assert(a + b =~= b);
    }
}

pub proof fn lemma_zero_count_bound(b: Seq<u8>)
    ensures
        zero_count(b) <= b.len(),
    decreases b.len(),
{
    if b.len() > 0 {
        lemma_zero_count_bound(b.drop_first());
    }
}

/// A sequence without zero bytes has a zero count of nought.
pub proof fn lemma_zero_count_none(b: Seq<u8>)
    requires
        forall|i: int| 0 <= i < b.len() ==> #[trigger] b[i] != 0,
    ensures
        zero_count(b) == 0,
    decreases b.len(),
{
    if b.len() > 0 {
        assert(forall|i: int| 0 <= i < b.len() - 1 ==> #[trigger] b.drop_first()[i] == b[i + 1]);
        lemma_zero_count_none(b.drop_first());
    }
}

/// UTF-8 and CESU-8 both hold one zero byte for each null character.
pub proof fn lemma_null_bytes(s: Seq<char>)
    ensures
        zero_count(encode_utf8(s)) == zero_count(cesu8_encode(s)),
        zero_count(encode_utf8(s)) == 0 <==> !s.contains('\0'),
    decreases s.len(),
{
    if s.len() > 0 {
        let c = s[0];
        let rest = s.drop_first();
        lemma_null_bytes(rest);
        lemma_char_bytes(c);
        lemma_zero_count_concat(encode_scalar(c as u32), encode_utf8(rest));
        lemma_zero_count_concat(cesu8_char(c), cesu8_encode(rest));
        if c == '\0' {
            assert(zero_count(seq![0u8]) == 1) by {
                reveal_with_fuel(zero_count, 2);
            }
            assert(s.contains('\0')) by {
                assert(s[0] == '\0');
            }
        } else {
            lemma_zero_count_none(cesu8_char(c));
            lemma_zero_count_none(encode_scalar(c as u32));
            assert(s.contains('\0') <==> rest.contains('\0')) by {
                if s.contains('\0') {
                    let j = choose|j: int| 0 <= j < s.len() && s[j] == '\0';
                    assert(rest[j - 1] == '\0');
                }
                if rest.contains('\0') {
                    let j = choose|j: int| 0 <= j < rest.len() && rest[j] == '\0';
                    assert(s[j + 1] == '\0');
                }
            }
        }
    }
}

/// Each character takes at most twice as many bytes in MUTF-8 as in UTF-8.
proof fn lemma_cesu8_len_bound(s: Seq<char>)
    ensures
        cesu8_encode(s).len() + zero_count(encode_utf8(s)) <= 2 * encode_utf8(s).len(),
    decreases s.len(),
{
    if s.len() > 0 {
        let c = s[0];
        let a = encode_scalar(c as u32);
        lemma_cesu8_len_bound(s.drop_first());
        lemma_char_bytes(c);
        char_is_scalar(c);
        lemma_zero_count_concat(a, encode_utf8(s.drop_first()));
        if c == '\0' {
            assert(zero_count(seq![0u8]) == 1) by {
                reveal_with_fuel(zero_count, 2);
            }
        } else {
            lemma_zero_count_none(a);
        }
    }
}

/// The MUTF-8 encoding is at most twice as long as the UTF-8 one.
pub proof fn lemma_mutf8_len_bound(s: Seq<char>)
    ensures
        mutf8_encode(s).len() <= 2 * encode_utf8(s).len(),
{
    lemma_escape_len(cesu8_encode(s));
    lemma_null_bytes(s);
    lemma_cesu8_len_bound(s);
}

/// Escaping adds one byte for each zero byte.
pub proof fn lemma_escape_len(b: Seq<u8>)
    ensures
        escape_nulls(b).len() == b.len() + zero_count(b),
    decreases b.len(),
{
    if b.len() > 0 {
        lemma_escape_len(b.drop_first());
    }
}

/// Escaping leaves a sequence without zero bytes unchanged.
pub proof fn lemma_escape_no_zero(b: Seq<u8>)
    requires
        zero_count(b) == 0,
    ensures
        escape_nulls(b) == b,
    decreases b.len(),
{
    if b.len() > 0 {
        lemma_escape_no_zero(b.drop_first());
        assert(seq![b[0]] + b.drop_first() =~= b);
    }
}

/// Without characters above U+FFFF, CESU-8 is UTF-8.
pub proof fn lemma_bmp_cesu8_is_utf8(s: Seq<char>)
    requires
        within_bmp(s),
    ensures
        cesu8_encode(s) == encode_utf8(s),
    decreases s.len(),
{
    if s.len() > 0 {
        assert(s[0] as u32 <= 0xFFFF);
        let rest = s.drop_first();
        assert forall|i: int| 0 <= i < rest.len() implies (#[trigger] rest[i] as u32) <= 0xFFFF by {
            assert(rest[i] == s[i + 1]);
        }
        lemma_bmp_cesu8_is_utf8(rest);
    }
}

/// Text without null characters and without characters above U+FFFF has
/// MUTF-8 bytes equal to its UTF-8 bytes.
pub proof fn lemma_identity_encoding(s: Seq<char>)
    requires
        mutf8_identity(s),
    ensures
        mutf8_encode(s) == encode_utf8(s),
{
    lemma_bmp_cesu8_is_utf8(s);
    lemma_null_bytes(s);
    lemma_escape_no_zero(encode_utf8(s));
}

pub proof fn lemma_prepend_assoc(a: Seq<u8>, b: Seq<u8>, r: Option<Seq<u8>>)
    ensures
        prepend(a, prepend(b, r)) == prepend(a + b, r),
{
    if let Some(rest) = r {
        assert(a + (b + rest) =~= (a + b) + rest);
    }
}

/// Every byte of a CESU-8 encoding is one that CESU-8 can hold.
pub proof fn lemma_cesu8_bytes(s: Seq<char>)
    ensures
        forall|i: int| 0 <= i < cesu8_encode(s).len() ==> cesu8_byte(#[trigger] cesu8_encode(s)[i]),
    decreases s.len(),
{
    if s.len() > 0 {
        let a = cesu8_char(s[0]);
        let r = cesu8_encode(s.drop_first());
        lemma_char_bytes(s[0]);
        lemma_cesu8_bytes(s.drop_first());
        assert forall|i: int| 0 <= i < (a + r).len() implies cesu8_byte(#[trigger] (a + r)[i]) by {
            if i >= a.len() {
                assert((a + r)[i] == r[i - a.len()]);
            }
        }
    }
}

/// UTF-8 without a byte from `0xF0` up holds nothing above U+FFFF.
pub proof fn lemma_low_bytes_bmp(t: Seq<char>)
    requires
        forall|i: int| 0 <= i < encode_utf8(t).len() ==> #[trigger] encode_utf8(t)[i] < 0xF0,
    ensures
        within_bmp(t),
    decreases t.len(),
{
    if t.len() > 0 {
        let a = encode_scalar(t[0] as u32);
        let r = encode_utf8(t.drop_first());
        lemma_char_bytes(t[0]);
        char_is_scalar(t[0]);
        assert(encode_utf8(t) == a + r);
        assert(encode_utf8(t)[0] < 0xF0);
        assert((a + r)[0] == a[0]);
        assert forall|i: int| 0 <= i < r.len() implies #[trigger] r[i] < 0xF0 by {
            assert((a + r)[i + a.len()] == r[i]);
            assert(encode_utf8(t)[i + a.len()] < 0xF0);
        }
        lemma_low_bytes_bmp(t.drop_first());
        assert forall|i: int| 0 <= i < t.len() implies (#[trigger] t[i] as u32) <= 0xFFFF by {
            if i > 0 {
                assert(t[i] == t.drop_first()[i - 1]);
            }
        }
    }
}

/// Escaping leaves no zero byte, and adds no byte from `0xF0` up.
pub proof fn lemma_escape_bytes(b: Seq<u8>)
    requires
        forall|i: int| 0 <= i < b.len() ==> #[trigger] b[i] < 0xF0,
    ensures
        zero_count(escape_nulls(b)) == 0,
        forall|i: int| 0 <= i < escape_nulls(b).len() ==> #[trigger] escape_nulls(b)[i] < 0xF0,
    decreases b.len(),
{
    if b.len() > 0 {
        let head = if b[0] == 0 { seq![0xC0u8, 0x80u8] } else { seq![b[0]] };
        let r = escape_nulls(b.drop_first());
        assert forall|i: int| 0 <= i < b.len() - 1 implies #[trigger] b.drop_first()[i] < 0xF0 by {
            assert(b.drop_first()[i] == b[i + 1]);
        }
        lemma_escape_bytes(b.drop_first());
        assert(escape_nulls(b) == head + r);
        lemma_zero_count_concat(head, r);
        lemma_zero_count_none(head);
        assert forall|i: int| 0 <= i < (head + r).len() implies #[trigger] (head + r)[i] < 0xF0 by {
            if i >= head.len() {
                assert((head + r)[i] == r[i - head.len()]);
            }
        }
    }
}

/// Undoing the escapes gives back a sequence that held no `0xC0`.
pub proof fn lemma_unescape_escape(b: Seq<u8>)
    requires
        forall|i: int| 0 <= i < b.len() ==> #[trigger] b[i] != 0xC0,
    ensures
        unescape_nulls(escape_nulls(b)) == Some(b),
    decreases b.len(),
{
    if b.len() > 0 {
        let rest = b.drop_first();
        let e = escape_nulls(b);
        assert forall|i: int| 0 <= i < rest.len() implies #[trigger] rest[i] != 0xC0 by {
            assert(rest[i] == b[i + 1]);
        }
        lemma_unescape_escape(rest);
        if b[0] == 0 {
            assert(e.subrange(2, e.len() as int) =~= escape_nulls(rest));
            assert(seq![0u8] + rest =~= b);
        } else {
            assert(e.drop_first() =~= escape_nulls(rest));
            assert(seq![b[0]] + rest =~= b);
        }
    }
}

/// `0xC0` can only start an overlong two-byte form.
proof fn lemma_c0_overlong(b: u8)
    by (bit_vector)
    ensures
        codepoint_width_2(0xC0, b) < 0x80,
{
}

/// Well-formed UTF-8 holds no `0xC0` byte.
pub proof fn lemma_utf8_no_c0(b: Seq<u8>)
    requires
        valid_utf8(b),
    ensures
        forall|i: int| 0 <= i < b.len() ==> #[trigger] b[i] != 0xC0,
    decreases b.len(),
{
    if b.len() > 0 {
        if b[0] == 0xC0 {
            lemma_c0_overlong(b[1]);
        }
        let k = length_of_first_scalar(b);
        let rest = pop_first_scalar(b);
        lemma_utf8_no_c0(rest);
        assert forall|i: int| 0 <= i < b.len() implies #[trigger] b[i] != 0xC0 by {
            if i >= k {
                assert(b[i] == rest[i - k]);
            }
        }
    }
}

/// Bytes without `0xC0` hold no escape: undoing the escapes changes nothing.
pub proof fn lemma_unescape_no_c0(b: Seq<u8>)
    requires
        forall|i: int| 0 <= i < b.len() ==> #[trigger] b[i] != 0xC0,
    ensures
        unescape_nulls(b) == Some(b),
    decreases b.len(),
{
    if b.len() > 0 {
        let rest = b.drop_first();
        assert forall|i: int| 0 <= i < rest.len() implies #[trigger] rest[i] != 0xC0 by {
            assert(rest[i] == b[i + 1]);
        }
        lemma_unescape_no_c0(rest);
        assert(seq![b[0]] + rest =~= b);
    }
}

/// Undoing the escapes leaves well-formed UTF-8 as it is.
pub proof fn lemma_utf8_unescaped(b: Seq<u8>)
    ensures
        valid_utf8(b) ==> unescape_nulls(b) == Some(b),
{
    if valid_utf8(b) {
        lemma_utf8_no_c0(b);
        lemma_unescape_no_c0(b);
    }
}

/// UTF-8 bytes that equal the CESU-8 bytes of `s` can only be the UTF-8 bytes
/// of `s` itself.
proof fn lemma_utf8_matching_cesu8(s: Seq<char>, t: Seq<char>)
    requires
        encode_utf8(t) == cesu8_encode(s),
    ensures
        t == s,
{
    lemma_cesu8_bytes(s);
    lemma_low_bytes_bmp(t);
    lemma_bmp_cesu8_is_utf8(t);
    lemma_cesu8_injective(t, s);
}

/// A byte sequence decodes to at most one text.
pub proof fn lemma_decodes_to_unique(b: Seq<u8>, t1: Seq<char>, t2: Seq<char>)
    requires
        decodes_to(b, t1),
        decodes_to(b, t2),
    ensures
        t1 == t2,
{
    if !valid_utf8(b) {
        let u = unescape_nulls(b)->Some_0;
        if !valid_utf8(u) {
            lemma_cesu8_injective(t1, t2);
        }
    }
}

/// Decoding the MUTF-8 encoding of any text gives that text back, and nothing
/// else.
pub proof fn lemma_round_trip(s: Seq<char>)
    ensures
        decodes_to(mutf8_encode(s), s),
        forall|t: Seq<char>| #[trigger] decodes_to(mutf8_encode(s), t) ==> t == s,
{
    let u = cesu8_encode(s);
    let m = escape_nulls(u);
    lemma_cesu8_bytes(s);
    assert forall|i: int| 0 <= i < u.len() implies #[trigger] u[i] < 0xF0 && u[i] != 0xC0 by {
        assert(cesu8_byte(u[i]));
    }
    lemma_unescape_escape(u);
    lemma_escape_bytes(u);
    if valid_utf8(m) {
        let t0 = decode_utf8(m);
        decode_utf8_encode_utf8(m);
        lemma_low_bytes_bmp(t0);
        lemma_bmp_cesu8_is_utf8(t0);
        let u0 = cesu8_encode(t0);
        lemma_escape_no_zero(u0);
        lemma_cesu8_bytes(t0);
        assert forall|i: int| 0 <= i < u0.len() implies #[trigger] u0[i] != 0xC0 by {
            assert(cesu8_byte(u0[i]));
        }
        lemma_unescape_escape(u0);
        lemma_cesu8_injective(t0, s);
    } else if valid_utf8(u) {
        decode_utf8_encode_utf8(u);
        lemma_utf8_matching_cesu8(s, decode_utf8(u));
    } else {
        assert forall|t: Seq<char>| #[trigger] decodes_to(m, t) implies t == s by {
            lemma_cesu8_injective(t, s);
        }
    }
}

} // verus!
