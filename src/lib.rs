//! Conversion between MUTF-8 (modified UTF-8) and UTF-8.
//!
//! MUTF-8 is CESU-8 with one change: the null character is written as the two
//! bytes `0xC0 0x80`, so that an encoded string never holds a zero byte.
//! CESU-8 writes every character above U+FFFF as the two three-byte halves of
//! its UTF-16 surrogate pair; that part is left to the `cesu8` crate.
//!
//! Both directions first try the case where the input is already in the target
//! form and then return it borrowed, without copying.
use std::borrow::Cow;
use vstd::prelude::*;
use vstd::utf8::*;

mod cesu;
pub mod error;
pub mod lemmas;
pub mod model;

pub use error::{DecodingError, Error};

use crate::cesu::{cesu8_bytes, cesu8_decode, cesu8_is_valid, cesu8_len, utf8_str};
use crate::lemmas::{
    lemma_escape_len, lemma_identity_encoding, lemma_mutf8_len_bound, lemma_null_bytes,
    lemma_prepend_assoc, lemma_utf8_unescaped, lemma_zero_count_bound,
};
use crate::model::{
    cesu8_encode, decodes_to, escape_nulls, mutf8_encode, mutf8_identity, prepend, unescape_nulls,
    zero_count,
};

verus! {

/// The byte that starts the two-byte form of the null character.
const NULL_PAIR_LEAD: u8 = 0xC0;

/// The byte that ends the two-byte form of the null character.
const NULL_PAIR_TRAIL: u8 = 0x80;

/// The null character as a single byte.
const NULL_CODE_POINT: u8 = 0x00;

/// Converts bytes to text.
///
/// Bytes that are well-formed UTF-8 are returned borrowed, as they are.
/// Otherwise they are read as MUTF-8: each `0xC0 0x80` stands for a null
/// character, and what remains must be CESU-8. Anything else is an `Error`.
/// The text that bytes decode to is unique (`lemmas::lemma_decodes_to_unique`).
pub fn decode(bytes: &[u8]) -> (r: Result<Cow<'_, str>, Error>)
    ensures
        match r {
            Ok(t) => decodes_to(bytes@, t@),
            Err(_) => forall|t: Seq<char>| !#[trigger] decodes_to(bytes@, t),
        },
        r matches Ok(Cow::Borrowed(_)) <==> valid_utf8(bytes@),
{
    match utf8_str(bytes) {
        Some(s) => Ok(Cow::Borrowed(s)),
        None => match decode_mutf8(bytes) {
            Ok(t) => Ok(Cow::Owned(t)),
            Err(e) => Err(e),
        },
    }
}

/// Decodes bytes as MUTF-8: undoes the null escapes, then hands the result to
/// the CESU-8 decoder. Well-formed UTF-8 holds no `0xC0`, so it passes through
/// unchanged and is read as UTF-8.
fn decode_mutf8(bytes: &[u8]) -> (r: Result<String, Error>)
    ensures
        match r {
            Ok(t) => decodes_to(bytes@, t@),
            Err(_) => forall|t: Seq<char>| !#[trigger] decodes_to(bytes@, t),
        },
{
    let n = bytes.len();
    let mut decoded: Vec<u8> = Vec::with_capacity(n);
    let mut i: usize = 0;
    proof {
        assert(bytes@.subrange(0, n as int) =~= bytes@);
        lemma_prepend_assoc(decoded@, seq![], unescape_nulls(bytes@));
        assert(decoded@ + seq![] =~= seq![]);
        assert(prepend(seq![], unescape_nulls(bytes@)) == unescape_nulls(bytes@)) by {
            if let Some(u) = unescape_nulls(bytes@) {
                assert(Seq::<u8>::empty() + u =~= u);
            }
        }
    }
    while i < n
        invariant
            n == bytes@.len(),
            i <= n,
            unescape_nulls(bytes@) == prepend(decoded@, unescape_nulls(bytes@.subrange(i as int, n as int))),
        decreases n - i,
    {
        let byte = bytes[i];
        let rest = Ghost(bytes@.subrange(i as int, n as int));
        if byte == NULL_PAIR_LEAD {
            if i + 1 < n && bytes[i + 1] == NULL_PAIR_TRAIL {
                proof {
                    assert(rest@.subrange(2, rest@.len() as int) =~= bytes@.subrange(i + 2, n as int));
                    lemma_prepend_assoc(decoded@, seq![0u8], unescape_nulls(bytes@.subrange(i + 2, n as int)));
                }
                decoded.push(NULL_CODE_POINT);
                i = i + 2;
            } else {
                proof {
                    assert(rest@[0] == byte);
                    if i + 1 < n {
                        assert(rest@[1] == bytes@[i + 1]);
                    }
                    assert(unescape_nulls(rest@) is None);
                    assert(unescape_nulls(bytes@) is None);
                    lemma_utf8_unescaped(bytes@);
                    assert forall|t: Seq<char>| !#[trigger] decodes_to(bytes@, t) by {}
                }
                return Err(Error);
            }
        } else {
            proof {
                assert(rest@.drop_first() =~= bytes@.subrange(i + 1, n as int));
                lemma_prepend_assoc(decoded@, seq![byte], unescape_nulls(bytes@.subrange(i + 1, n as int)));
            }
            decoded.push(byte);
            i = i + 1;
        }
    }
    proof {
        assert(bytes@.subrange(n as int, n as int) =~= Seq::<u8>::empty());
        assert(decoded@ + Seq::<u8>::empty() =~= decoded@);
        lemma_utf8_unescaped(bytes@);
    }
    match cesu8_decode(decoded.as_slice()) {
        Ok(t) => Ok(t),
        Err(e) => Err(Error::from(e)),
    }
}

/// Converts text to MUTF-8.
///
/// Text whose UTF-8 bytes are already MUTF-8 (no null character, nothing above
/// U+FFFF) is returned borrowed, as its own bytes; other text is encoded into a
/// new buffer. The bound on the input is the one that every `str` meets.
pub fn encode(s: &str) -> (r: Cow<'_, [u8]>)
    requires
        encode_utf8(s@).len() <= isize::MAX,
    ensures
        r@ == mutf8_encode(s@),
        r matches Cow::Borrowed(_) <==> mutf8_identity(s@),
{
    proof {
        lemma_mutf8_len_bound(s@);
    }
    if is_valid(s) {
        proof {
            lemma_identity_encoding(s@);
        }
        Cow::Borrowed(s.as_bytes())
    } else {
        Cow::Owned(encode_mutf8(s))
    }
}

/// Encodes text through CESU-8, expanding every zero byte into `0xC0 0x80`.
fn encode_mutf8(s: &str) -> (r: Vec<u8>)
    requires
        encode_utf8(s@).len() <= isize::MAX,
    ensures
        r@ == mutf8_encode(s@),
{
    proof {
        lemma_escape_len(cesu8_encode(s@));
        lemma_mutf8_len_bound(s@);
    }
    let mut encoded: Vec<u8> = Vec::with_capacity(len(s));
    let cesu = cesu8_bytes(s);
    let n = cesu.len();
    let mut i: usize = 0;
    proof {
        assert(cesu@.subrange(0, n as int) =~= cesu@);
        assert(encoded@ + escape_nulls(cesu@) =~= escape_nulls(cesu@));
    }
    while i < n
        invariant
            n == cesu@.len(),
            i <= n,
            escape_nulls(cesu@) == encoded@ + escape_nulls(cesu@.subrange(i as int, n as int)),
        decreases n - i,
    {
        let byte = cesu[i];
        let ghost before = encoded@;
        proof {
            let rest = cesu@.subrange(i as int, n as int);
            assert(rest.drop_first() =~= cesu@.subrange(i + 1, n as int));
        }
        if byte == NULL_CODE_POINT {
            encoded.push(NULL_PAIR_LEAD);
            encoded.push(NULL_PAIR_TRAIL);
        } else {
            encoded.push(byte);
        }
        proof {
            let tail = escape_nulls(cesu@.subrange(i + 1, n as int));
            if byte == 0 {
                assert(encoded@ + tail =~= before + (seq![0xC0u8, 0x80u8] + tail));
            } else {
                assert(encoded@ + tail =~= before + (seq![byte] + tail));
            }
        }
        i = i + 1;
    }
    proof {
        assert(cesu@.subrange(n as int, n as int) =~= Seq::<u8>::empty());
        assert(encoded@ + Seq::<u8>::empty() =~= encoded@);
    }
    encoded
}

/// The number of bytes of the MUTF-8 encoding of `s`: its CESU-8 length, plus
/// one for every null character.
pub fn len(s: &str) -> (r: usize)
    requires
        encode_utf8(s@).len() <= isize::MAX,
    ensures
        r == mutf8_encode(s@).len(),
{
    proof {
        lemma_escape_len(cesu8_encode(s@));
        lemma_null_bytes(s@);
        lemma_mutf8_len_bound(s@);
    }
    let cesu = cesu8_len(s);
    let nulls = zero_bytes(s.as_bytes());
    cesu + nulls
}

/// True when the UTF-8 bytes of `s` are also its MUTF-8 bytes, so that `encode`
/// can return them unchanged: `s` holds no null character and no character
/// above U+FFFF.
pub fn is_valid(s: &str) -> (r: bool)
    ensures
        r == mutf8_identity(s@),
{
    proof {
        lemma_null_bytes(s@);
    }
    zero_bytes(s.as_bytes()) == 0 && cesu8_is_valid(s)
}

/// Counts the zero bytes of `b`.
fn zero_bytes(b: &[u8]) -> (r: usize)
    ensures
        r == zero_count(b@),
{
    let n = b.len();
    let mut count: usize = 0;
    let mut i: usize = 0;
    proof {
        assert(b@.subrange(0, n as int) =~= b@);
        lemma_zero_count_bound(b@);
    }
    while i < n
        invariant
            n == b@.len(),
            i <= n,
            count <= i,
            count + zero_count(b@.subrange(i as int, n as int)) == zero_count(b@),
            zero_count(b@.subrange(i as int, n as int)) <= n - i,
        decreases n - i,
    {
        proof {
            let rest = b@.subrange(i as int, n as int);
            assert(rest.drop_first() =~= b@.subrange(i + 1, n as int));
            lemma_zero_count_bound(b@.subrange(i + 1, n as int));
        }
        if b[i] == NULL_CODE_POINT {
            count = count + 1;
        }
        i = i + 1;
    }
    proof {
        assert(b@.subrange(n as int, n as int) =~= Seq::<u8>::empty());
    }
    count
}

} // verus!
