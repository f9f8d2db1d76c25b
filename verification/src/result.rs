//! The error type shared by every operation of the library.

use vstd::prelude::*;

verus! {

/// `std::io::Error`, which backends report and the library carries along
/// without looking inside.
#[verifier::external_type_specification]
#[verifier::external_body]
pub struct ExIoError(std::io::Error);

/// Why an operation failed.
#[derive(Debug)]
pub enum Error {
    /// The storage backend reported a failure; its error is carried unchanged.
    IoError(std::io::Error),
    /// Key construction, sealing or random number generation failed.
    CryptoError,
    /// An encrypted name is not text of the Base32 alphabet.
    Base32Error(data_encoding::DecodeError),
    /// Decoded bytes did not open under the key, or did not hold UTF-8 text.
    InvalidEncodedName,
    /// A plaintext name that cannot be encrypted; it is carried along.
    InvalidPathName(String),
    /// Content that cannot be sealed as a block.
    InvalidInput,
    /// The iteration count is below the floor; it is carried along.
    IterationsNumberTooSmall(u32),
    /// The keys of the configuration have not been derived yet.
    NotUnlocked,
}

} // verus!
