//! ChaCha20-Poly1305 sealing and opening, as the `ring` crate performs them.
//!
//! The cipher itself is not modelled. Its two directions are given names, and
//! the two functions below are the only places where the library relies on
//! `ring` for them.

use ring::aead::{Aad, LessSafeKey, Nonce, UnboundKey, CHACHA20_POLY1305};
use vstd::prelude::*;

verus! {

/// Length of a key, in bytes.
pub const KEY_SIZE: usize = 32;

/// Length of a nonce, in bytes.
pub const NONCE_SIZE: usize = 12;

/// Length of the authentication tag that sealing appends, in bytes.
pub const TAG_SIZE: usize = 16;

/// The longest plaintext that can be sealed under one nonce, in bytes.
pub const MAX_SEAL_INPUT: u64 = 274_877_906_880;

/// `ring::error::Unspecified`, the error of every `ring` call; it tells
/// nothing, and is mapped to `CryptoError` where it comes up.
#[verifier::external_type_specification]
#[verifier::external_body]
pub struct ExUnspecified(ring::error::Unspecified);

/// Ciphertext followed by tag: what sealing `plaintext` gives.
pub uninterp spec fn chacha20_poly1305_seal(
    key: Seq<u8>,
    nonce: Seq<u8>,
    aad: Seq<u8>,
    plaintext: Seq<u8>,
) -> Seq<u8>;

/// The plaintext that opening `sealed` gives, or `None` where it is rejected.
pub uninterp spec fn chacha20_poly1305_open(
    key: Seq<u8>,
    nonce: Seq<u8>,
    aad: Seq<u8>,
    sealed: Seq<u8>,
) -> Option<Seq<u8>>;

/// The inputs on which sealing succeeds.
pub open spec fn seal_accepts(key: Seq<u8>, nonce: Seq<u8>, plaintext: Seq<u8>) -> bool {
    &&& key.len() == KEY_SIZE
    &&& nonce.len() == NONCE_SIZE
    &&& plaintext.len() <= MAX_SEAL_INPUT
}

/// Seals `plaintext` and returns ciphertext and tag.
///
/// Trusted: builds a `ring::aead::LessSafeKey` for `CHACHA20_POLY1305` from
/// `key` and calls `seal_in_place_append_tag`. Claimed of it: it fails only
/// on a key that is not 32 bytes, a nonce that is not 12 bytes, or a
/// plaintext over the cipher's limit; the output is 16 bytes longer than the
/// plaintext and is a function of the four inputs; and opening that output
/// under the same key, nonce and associated data gives the plaintext back.
#[verifier::external_body]
pub(crate) fn seal(key: &[u8], nonce: &[u8], aad: &[u8], plaintext: &[u8]) -> (r: Result<
    Vec<u8>,
    ring::error::Unspecified,
>)
    ensures
        r is Ok <==> seal_accepts(key@, nonce@, plaintext@),
        r matches Ok(sealed) ==> {
            &&& sealed@ == chacha20_poly1305_seal(key@, nonce@, aad@, plaintext@)
            &&& sealed@.len() == plaintext@.len() + TAG_SIZE
            &&& chacha20_poly1305_open(key@, nonce@, aad@, sealed@) == Some(plaintext@)
        },
{
    let key = LessSafeKey::new(UnboundKey::new(&CHACHA20_POLY1305, key)?);
    let nonce = Nonce::try_assume_unique_for_key(nonce)?;
    let mut in_out = plaintext.to_vec();
    key.seal_in_place_append_tag(nonce, Aad::from(aad), &mut in_out)?;
    Ok(in_out)
}

/// Opens `sealed` (ciphertext followed by tag) and returns the plaintext.
///
/// Trusted: builds a `ring::aead::LessSafeKey` for `CHACHA20_POLY1305` from
/// `key` and calls `open_in_place`. Claimed of it: the outcome is a function
/// of the four inputs, and a plaintext that comes out is 16 bytes shorter
/// than `sealed`.
#[verifier::external_body]
pub(crate) fn open(key: &[u8], nonce: &[u8], aad: &[u8], sealed: &[u8]) -> (r: Result<
    Vec<u8>,
    ring::error::Unspecified,
>)
    ensures
        r is Ok <==> chacha20_poly1305_open(key@, nonce@, aad@, sealed@) is Some,
        r matches Ok(plaintext) ==> {
            &&& chacha20_poly1305_open(key@, nonce@, aad@, sealed@) == Some(plaintext@)
            &&& plaintext@.len() + TAG_SIZE == sealed@.len()
        },
{
    let key = LessSafeKey::new(UnboundKey::new(&CHACHA20_POLY1305, key)?);
    let nonce = Nonce::try_assume_unique_for_key(nonce)?;
    let mut in_out = sealed.to_vec();
    let plaintext = key.open_in_place(nonce, Aad::from(aad), &mut in_out)?;
    Ok(plaintext.to_vec())
}

} // verus!
