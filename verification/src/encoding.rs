//! Text forms of bytes: Base32 as the `data-encoding` crate writes it, and
//! UTF-8 as std reads it.

use data_encoding::BASE32;
use vstd::prelude::*;
use vstd::utf8::{decode_utf8, encode_utf8, valid_utf8};

verus! {

/// `data_encoding::DecodeError`, which says where Base32 text went wrong; it
/// is carried in `Base32Error` without being looked into.
#[verifier::external_type_specification]
#[verifier::external_body]
pub struct ExDecodeError(data_encoding::DecodeError);

/// The padded, upper-case Base32 text of `data`.
pub uninterp spec fn base32_encode(data: Seq<u8>) -> Seq<char>;

/// The bytes that the Base32 text `input` stands for, or `None` where
/// `input` is not such text.
pub uninterp spec fn base32_decode(input: Seq<u8>) -> Option<Seq<u8>>;

/// The longest input that can be encoded, in bytes.
pub open spec fn max_encode_input() -> int {
    (usize::MAX / 512) as int
}

/// The longest input that can be decoded, in bytes.
pub open spec fn max_decode_input() -> int {
    (usize::MAX / 8) as int
}

/// Encodes `data` as Base32 text.
///
/// Trusted: calls `data_encoding::BASE32.encode`. Claimed of it: the text is
/// a function of `data`, it has eight bytes for every five of `data`, the
/// last five counted whole, and decoding the bytes of that text gives `data`
/// back. The call may panic on a longer input than `requires` admits.
#[verifier::external_body]
pub(crate) fn to_base32(data: &[u8]) -> (r: String)
    requires
        data@.len() <= max_encode_input(),
    ensures
        r@ == base32_encode(data@),
        encode_utf8(r@).len() == (data@.len() + 4) / 5 * 8,
        base32_decode(encode_utf8(r@)) == Some(data@),
{
    BASE32.encode(data)
}

/// Decodes Base32 text.
///
/// Trusted: calls `data_encoding::BASE32.decode`. Claimed of it: the outcome
/// is a function of `input`. The call may panic on a longer input than
/// `requires` admits.
#[verifier::external_body]
pub(crate) fn from_base32(input: &[u8]) -> (r: Result<Vec<u8>, data_encoding::DecodeError>)
    requires
        input@.len() <= max_decode_input(),
    ensures
        r is Ok <==> base32_decode(input@) is Some,
        r matches Ok(data) ==> base32_decode(input@) == Some(data@),
{
    BASE32.decode(input)
}

/// Reads `bytes` as UTF-8 text.
///
/// Trusted: calls `String::from_utf8`. Claimed of it: it succeeds exactly on
/// valid UTF-8, and the text is then the decoding of `bytes`.
#[verifier::external_body]
pub(crate) fn utf8_text(bytes: Vec<u8>) -> (r: Option<String>)
    ensures
        r is Some <==> valid_utf8(bytes@),
        r matches Some(text) ==> text@ == decode_utf8(bytes@),
{
    match String::from_utf8(bytes) {
        Ok(text) => Some(text),
        Err(_) => None,
    }
}

} // verus!
