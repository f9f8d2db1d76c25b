//! An encrypted overlay for a storage backend: names and file contents are
//! sealed before the backend sees them.
//!
//! - [`config`] derives the key from a password and keeps the parameters
//!   that are stored beside the vault.
//! - [`fs`] holds the traits that a storage backend implements;
//!   [`fs::encrypted`] encrypts names, paths and blocks of content, and
//!   [`fs::encrypted::file`] gathers what is written into blocks.
//! - [`aead`], [`kdf`], [`encoding`] and [`random`] are where the library
//!   relies on other crates: what is assumed of them is written there.
//!
//! Every function is verified against its contract, but for the few that
//! only call into another crate or into std; those say `Trusted` and what is
//! assumed. What sealing, key derivation and Base32 compute is not modelled:
//! contracts name their results, and say how the library puts them together.

pub mod aead;
pub mod config;
pub mod encoding;
pub mod fs;
pub mod kdf;
pub mod random;
pub mod result;

pub use crate::config::Config;
pub use crate::fs::encrypted::EncryptedFs;
pub use crate::random::RandomSource;
pub use crate::result::Error;
