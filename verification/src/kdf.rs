//! Password-based key derivation, as the `ring` crate performs it.

use crate::aead::KEY_SIZE;
use ring::pbkdf2::PBKDF2_HMAC_SHA256;
use std::num::NonZeroU32;
use vstd::prelude::*;

verus! {

/// The longest salt or password that key derivation is handed, in bytes.
pub const MAX_KDF_INPUT: u64 = 0x0fff_ffff_ffff_ffff;

/// The 32-byte key that PBKDF2 with HMAC-SHA256 derives from `secret`.
pub uninterp spec fn pbkdf2_hmac_sha256(iterations: u32, salt: Seq<u8>, secret: Seq<u8>) -> Seq<u8>;

/// Derives a key of `KEY_SIZE` bytes from `secret`.
///
/// Trusted: calls `ring::pbkdf2::derive` with `PBKDF2_HMAC_SHA256` on a
/// zeroed buffer of 32 bytes. Claimed of it: the key is a function of the
/// three inputs. The call panics on a zero iteration count and on inputs too
/// long for the digest, which `requires` leaves out.
#[verifier::external_body]
pub(crate) fn derive_key(iterations: u32, salt: &[u8], secret: &[u8]) -> (key: [u8; KEY_SIZE])
    requires
        iterations > 0,
        salt@.len() <= MAX_KDF_INPUT,
        secret@.len() <= MAX_KDF_INPUT,
    ensures
        key@ == pbkdf2_hmac_sha256(iterations, salt@, secret@),
{
    let mut key = [0u8; KEY_SIZE];
    ring::pbkdf2::derive(PBKDF2_HMAC_SHA256, NonZeroU32::new(iterations).unwrap(), salt, secret, &mut key);
    key
}

} // verus!
