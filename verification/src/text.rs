//! The boundary to the text codec. The format stores text as Java's
//! modified form of CESU-8; converting between those bytes and native
//! text is done by the `cesu8` crate, behind the trusted items below.
//! Structural decoding never depends on it: a tree with undecodable
//! text is still a validly parsed tree.

use vstd::prelude::*;

verus! {

/// What decoding modified-UTF-8 bytes yields: the decoded characters,
/// or nothing when the bytes are not valid modified UTF-8. The result
/// depends on the bytes alone.
pub uninterp spec fn java_cesu8_of(b: Seq<u8>) -> Option<Seq<char>>;

/// What encoding text as modified UTF-8 yields. The result depends on
/// the characters alone.
pub uninterp spec fn java_cesu8_bytes_of(s: Seq<char>) -> Seq<u8>;

#[verifier::external_type_specification]
#[verifier::external_body]
pub struct ExCesu8DecodingError(cesu8::Cesu8DecodingError);

/// Relies on cesu8::from_java_cesu8: decodes Java's modified UTF-8 to
/// native text, and fails exactly on bytes that are not valid in that
/// encoding. The result is a function of the bytes alone.
#[verifier::external_body]
pub(crate) fn cesu8_decode(b: &[u8]) -> (r: Result<String, cesu8::Cesu8DecodingError>)
    ensures
        match r {
            Ok(s) => java_cesu8_of(b@) == Some(s@),
            Err(_) => java_cesu8_of(b@) is None,
        },
{
    cesu8::from_java_cesu8(b).map(|c| c.into_owned()).map_err(|e| e)
}

/// Relies on cesu8::to_java_cesu8: encodes native text as Java's
/// modified UTF-8. The result is a function of the characters alone.
#[verifier::external_body]
pub(crate) fn cesu8_encode(s: &str) -> (r: Vec<u8>)
    ensures
        r@ == java_cesu8_bytes_of(s@),
{
    cesu8::to_java_cesu8(s).into_owned()
}

} // verus!
