//! The outside operations the codec is built on: UTF-8 validation from `core`
//! and the CESU-8 transcoder of the `cesu8` crate.
use crate::model::{cesu8_decodes_to, cesu8_encode, within_bmp};
use cesu8::Error as CesuError;
use vstd::prelude::*;
use vstd::utf8::*;

verus! {

#[verifier::external_type_specification]
#[verifier::external_body]
pub struct ExCesuError(CesuError);

/// Relies on `core::str::from_utf8`: it accepts exactly the well-formed UTF-8
/// sequences and reads them without copying.
#[verifier::external_body]
pub(crate) fn utf8_str(b: &[u8]) -> (r: Option<&str>)
    ensures
        match r {
            Some(s) => valid_utf8(b@) && s@ == decode_utf8(b@),
            None => !valid_utf8(b@),
        },
{
    core::str::from_utf8(b).ok()
}

/// Relies on `cesu8::encode`: the CESU-8 bytes of the text (the text's own
/// bytes when nothing lies above U+FFFF, otherwise each such character written
/// as its surrogate pair).
#[verifier::external_body]
pub(crate) fn cesu8_bytes(s: &str) -> (r: Vec<u8>)
    requires
        cesu8_encode(s@).len() <= usize::MAX,
    ensures
        r@ == cesu8_encode(s@),
{
    cesu8::encode(s).into_owned()
}

/// Relies on `cesu8::len`: the length of the CESU-8 encoding, three bytes per
/// surrogate for each character above U+FFFF.
#[verifier::external_body]
pub(crate) fn cesu8_len(s: &str) -> (r: usize)
    requires
        cesu8_encode(s@).len() <= usize::MAX,
    ensures
        r == cesu8_encode(s@).len(),
{
    cesu8::len(s)
}

/// Relies on `cesu8::is_valid`: true exactly when no lead byte of the text has
/// a four-byte width, that is when no character lies above U+FFFF.
#[verifier::external_body]
pub(crate) fn cesu8_is_valid(s: &str) -> (r: bool)
    ensures
        r == within_bmp(s@),
{
    cesu8::is_valid(s)
}

/// Relies on `cesu8::decode`: well-formed UTF-8 is accepted as it is; any other
/// input is accepted exactly when it is the CESU-8 encoding of some text, and
/// that text is returned.
#[verifier::external_body]
pub(crate) fn cesu8_decode(b: &[u8]) -> (r: Result<String, CesuError>)
    ensures
        match r {
            Ok(t) => cesu8_decodes_to(b@, t@),
            Err(_) => forall|t: Seq<char>| !#[trigger] cesu8_decodes_to(b@, t),
        },
{
    cesu8::decode(b).map(|c| c.into_owned())
}

} // verus!
