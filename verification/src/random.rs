//! Where fresh bytes come from: the operating system, or one fixed byte for
//! runs that must be reproducible.

use crate::result::Error;
use ring::rand::{SecureRandom, SystemRandom};
use vstd::prelude::*;

verus! {

/// `ring::rand::SystemRandom`, the handle of the operating system's
/// generator; it holds no state of its own.
#[verifier::external_type_specification]
#[verifier::external_body]
pub struct ExSystemRandom(ring::rand::SystemRandom);

/// A source of bytes for salts and nonces.
pub enum RandomSource {
    /// The operating system's generator.
    System(ring::rand::SystemRandom),
    /// Every byte drawn is the given one. For reproducible runs only: two
    /// draws are equal, so no key may seal two messages with it.
    FixedByte(u8),
}

/// `len` bytes, each equal to `byte`.
pub open spec fn repeated(byte: u8, len: nat) -> Seq<u8> {
    Seq::new(len, |i: int| byte)
}

/// Trusted: calls `ring::rand::SystemRandom::new`. The value is carried
/// only, so nothing is claimed of it.
#[verifier::external_body]
fn system_random() -> ring::rand::SystemRandom {
    SystemRandom::new()
}

/// Draws `len` bytes from the operating system.
///
/// Trusted: calls `SecureRandom::fill` of `ring::rand::SystemRandom` on a
/// buffer of `len` bytes. Claimed of it: only the length of what comes back.
#[verifier::external_body]
fn system_bytes(rng: &ring::rand::SystemRandom, len: usize) -> (r: Result<
    Vec<u8>,
    ring::error::Unspecified,
>)
    ensures
        r matches Ok(bytes) ==> bytes@.len() == len,
{
    let mut bytes = vec![0u8; len];
    rng.fill(&mut bytes)?;
    Ok(bytes)
}

/// Draws `len` bytes that all equal `byte`.
///
/// Trusted: calls `SecureRandom::fill` of `ring::test::rand::FixedByteRandom`
/// on a buffer of `len` bytes. Claimed of it: it always succeeds, and every
/// byte of the buffer is then `byte`.
#[allow(deprecated)]
#[verifier::external_body]
fn fixed_bytes(byte: u8, len: usize) -> (r: Result<Vec<u8>, ring::error::Unspecified>)
    ensures
        r is Ok,
        r matches Ok(bytes) ==> bytes@ == repeated(byte, len as nat),
{
    let mut bytes = vec![0u8; len];
    ring::test::rand::FixedByteRandom { byte }.fill(&mut bytes)?;
    Ok(bytes)
}

impl RandomSource {
    /// The operating system's generator.
    pub fn system() -> (r: Self)
        ensures
            r is System,
    {
        RandomSource::System(system_random())
    }

    /// A source whose every byte is `byte`.
    pub fn fixed(byte: u8) -> (r: Self)
        ensures
            r == RandomSource::FixedByte(byte),
    {
        RandomSource::FixedByte(byte)
    }

    /// Whether `bytes` can be what a draw of `len` bytes returns.
    pub open spec fn may_draw(&self, len: nat, bytes: Seq<u8>) -> bool {
        match self {
            RandomSource::System(_) => bytes.len() == len,
            RandomSource::FixedByte(byte) => bytes == repeated(*byte, len),
        }
    }

    /// Draws `len` bytes. A fixed source never fails; the operating system's
    /// may, with `CryptoError`.
    pub fn fill(&self, len: usize) -> (r: Result<Vec<u8>, Error>)
        ensures
            match r {
                Ok(bytes) => self.may_draw(len as nat, bytes@),
                Err(e) => e is CryptoError && self is System,
            },
    {
        let drawn = match self {
            RandomSource::System(rng) => system_bytes(rng, len),
            RandomSource::FixedByte(byte) => fixed_bytes(*byte, len),
        };
        match drawn {
            Ok(bytes) => Ok(bytes),
            Err(_) => Err(Error::CryptoError),
        }
    }
}

} // verus!
