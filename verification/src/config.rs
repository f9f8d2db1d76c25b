//! Key derivation and the parameters that are kept beside the vault.

use crate::aead::KEY_SIZE;
use crate::fs::{write_all, Filesystem, Sink};
use crate::kdf::{derive_key, pbkdf2_hmac_sha256, MAX_KDF_INPUT};
use crate::random::RandomSource;
use crate::result::Error;
use vstd::prelude::*;
use vstd::utf8::encode_utf8;

verus! {

/// The fewest iterations that key derivation accepts.
pub const MINIMUM_ITERATIONS: u32 = 10_000;

/// Length of the salt, in bytes.
pub const SALT_SIZE: usize = 16;

/// Where the configuration is stored, relative to the root of the vault.
pub const CONFIG_PATH: &'static str = ".rusty-platter.json";

/// The key material in its two roles. Both hold the same 32 bytes.
pub struct Keys {
    /// The key with which blobs are opened.
    pub opening: [u8; KEY_SIZE],
    /// The key with which blobs are sealed.
    pub sealing: [u8; KEY_SIZE],
}

/// Derivation parameters, and the keys once they have been derived.
///
/// A configuration read back from storage holds no keys: it is locked.
pub struct Config {
    salt: [u8; SALT_SIZE],
    iterations: u32,
    keys: Option<Keys>,
}

/// The decimal digits of `n`, as ASCII.
pub open spec fn decimal(n: nat) -> Seq<u8>
    decreases n,
{
    if n < 10 {
        seq![(48 + n) as u8]
    } else {
        decimal(n / 10).push((48 + n % 10) as u8)
    }
}

/// The decimal forms of `values`, separated by commas.
pub open spec fn decimal_list(values: Seq<u8>) -> Seq<u8>
    decreases values.len(),
{
    if values.len() == 0 {
        seq![]
    } else if values.len() == 1 {
        decimal(values[0] as nat)
    } else {
        decimal_list(values.drop_last()) + seq![44u8] + decimal(values.last() as nat)
    }
}

/// The bytes of `{"salt":[`.
pub open spec fn json_head() -> Seq<u8> {
    seq![123u8, 34, 115, 97, 108, 116, 34, 58, 91]
}

/// The bytes of `],"iterations":`.
pub open spec fn json_middle() -> Seq<u8> {
    seq![93u8, 44, 34, 105, 116, 101, 114, 97, 116, 105, 111, 110, 115, 34, 58]
}

/// The stored form of a configuration: a JSON object that holds the salt as
/// an array of numbers and the iteration count, without white space. No key
/// is part of it.
pub open spec fn stored_form(salt: Seq<u8>, iterations: u32) -> Seq<u8> {
    json_head() + decimal_list(salt) + json_middle() + decimal(iterations as nat) + seq![125u8]
}

/// Appends the decimal digits of `n` to `out`.
fn push_decimal(out: &mut Vec<u8>, n: u32)
    ensures
        final(out)@ == old(out)@ + decimal(n as nat),
    decreases n,
{
    if n >= 10 {
        push_decimal(out, n / 10);
    }
    out.push(48 + (n % 10) as u8);
}

/// Appends the fixed bytes `text` to `out`.
fn push_bytes(out: &mut Vec<u8>, text: &[u8])
    ensures
        final(out)@ == old(out)@ + text@,
{
    let mut i: usize = 0;
    while i < text.len()
        invariant
            i <= text.len(),
            out@ == old(out)@ + text@.take(i as int),
        decreases text.len() - i,
    {
        out.push(text[i]);
        i = i + 1;
    }
}

impl Config {
    /// The iteration count is at the floor or above, and the two keys are
    /// one.
    #[verifier::type_invariant]
    spec fn well_formed(&self) -> bool {
        &&& self.iterations >= MINIMUM_ITERATIONS
        &&& self.keys matches Some(keys) ==> keys.opening@ == keys.sealing@
    }

    /// The salt.
    pub closed spec fn salt_bytes(&self) -> Seq<u8> {
        self.salt@
    }

    /// The iteration count.
    pub closed spec fn iteration_count(&self) -> u32 {
        self.iterations
    }

    /// The key, where it has been derived.
    pub closed spec fn key(&self) -> Option<Seq<u8>> {
        match self.keys {
            Some(keys) => Some(keys.sealing@),
            None => None,
        }
    }

    /// A key has `KEY_SIZE` bytes, and a salt `SALT_SIZE`.
    pub proof fn lemma_sizes(&self)
        ensures
            self.salt_bytes().len() == SALT_SIZE,
            self.key() matches Some(key) ==> key.len() == KEY_SIZE,
    {
    }

    /// What holds of a configuration that was derived from `password`: it
    /// holds the iteration count, a salt of `SALT_SIZE` bytes, and the key
    /// that PBKDF2 gives for the three.
    pub open spec fn derived(config: Config, password: Seq<char>, iterations: u32) -> bool {
        &&& iterations >= MINIMUM_ITERATIONS
        &&& config.iteration_count() == iterations
        &&& config.salt_bytes().len() == SALT_SIZE
        &&& config.key() == Some(
            pbkdf2_hmac_sha256(iterations, config.salt_bytes(), encode_utf8(password)),
        )
    }

    /// Derives keys from `password` under a salt drawn from `rand`.
    ///
    /// The iteration count is tested before anything is drawn. Above the
    /// floor, a fixed source always leads to a configuration.
    pub fn derive(password: &str, iterations: u32, rand: &RandomSource) -> (r: Result<Config, Error>)
        ensures
            iterations < MINIMUM_ITERATIONS ==> (r matches Err(Error::IterationsNumberTooSmall(n))
                && n == iterations),
            iterations >= MINIMUM_ITERATIONS && encode_utf8(password@).len() > MAX_KDF_INPUT
                ==> r matches Err(Error::CryptoError),
            iterations >= MINIMUM_ITERATIONS && encode_utf8(password@).len() <= MAX_KDF_INPUT
                ==> match r {
                Ok(config) => {
                    &&& Self::derived(config, password@, iterations)
                    &&& rand.may_draw(SALT_SIZE as nat, config.salt_bytes())
                },
                Err(e) => e is CryptoError && rand is System,
            },
    {
        if iterations < MINIMUM_ITERATIONS {
            return Err(Error::IterationsNumberTooSmall(iterations));
        }
        let secret = password.as_bytes();
        if secret.len() as u64 > MAX_KDF_INPUT {
            return Err(Error::CryptoError);
        }
        let drawn = rand.fill(SALT_SIZE)?;
        let mut salt = [0u8; SALT_SIZE];
        let mut i: usize = 0;
        while i < SALT_SIZE
            invariant
                i <= SALT_SIZE,
                drawn@.len() == SALT_SIZE,
                salt@.take(i as int) == drawn@.take(i as int),
            decreases SALT_SIZE - i,
        {
            salt[i] = drawn[i];
            i = i + 1;
        }
        assert(salt@ == drawn@) by {
            assert(salt@.take(SALT_SIZE as int) == salt@);
            assert(drawn@.take(SALT_SIZE as int) == drawn@);
        }
        let key = derive_key(iterations, &salt, secret);
        Ok(Config { salt, iterations, keys: Some(Keys { opening: key, sealing: key }) })
    }

    /// Derives keys from `password` under a salt from the operating system,
    /// and stores the parameters through `fs`.
    pub fn new(password: &str, iterations: u32, fs: &dyn Filesystem) -> (r: Result<Config, Error>)
        ensures
            iterations < MINIMUM_ITERATIONS ==> (r matches Err(Error::IterationsNumberTooSmall(n))
                && n == iterations),
            r matches Ok(config) ==> Self::derived(config, password@, iterations),
    {
        Self::new_with_custom_random(password, iterations, fs, RandomSource::system())
    }

    /// Derives keys from `password` under a salt drawn from `rand`, and
    /// stores the parameters through `fs`.
    ///
    /// Nothing is drawn and nothing is stored where the iteration count is
    /// below the floor. A configuration that could not be stored is not
    /// returned.
    pub fn new_with_custom_random(
        password: &str,
        iterations: u32,
        fs: &dyn Filesystem,
        rand: RandomSource,
    ) -> (r: Result<Config, Error>)
        ensures
            iterations < MINIMUM_ITERATIONS ==> (r matches Err(Error::IterationsNumberTooSmall(n))
                && n == iterations),
            r matches Ok(config) ==> Self::derived(config, password@, iterations) && rand.may_draw(
                SALT_SIZE as nat,
                config.salt_bytes(),
            ),
    {
        let config = Self::derive(password, iterations, &rand)?;
        config.save(fs)?;
        Ok(config)
    }

    /// Stores the salt and the iteration count under `CONFIG_PATH`: asks
    /// `fs` for a new file there and writes the stored form to it.
    ///
    /// Whether there is a file afterwards, and what it holds, is the
    /// backend's to say, so nothing is promised here; `write_to` says what
    /// the file is handed.
    pub fn save(&self, fs: &dyn Filesystem) -> (r: Result<(), Error>) {
        let mut file = Sink::new(fs.create(CONFIG_PATH)?);
        self.write_to(&mut file)
    }

    /// Writes the stored form of the configuration to `file`.
    ///
    /// On success the backend has taken the stored form, whole and once. On
    /// failure, which is an `IoError`, it has taken some first part of it.
    pub fn write_to(&self, file: &mut Sink) -> (r: Result<(), Error>)
        ensures
            final(file).flushed() == old(file).flushed(),
            match r {
                Ok(_) => final(file).taken() == old(file).taken() + stored_form(
                    self.salt_bytes(),
                    self.iteration_count(),
                ),
                Err(e) => {
                    &&& e is IoError
                    &&& exists|k: int|
                        0 <= k < stored_form(self.salt_bytes(), self.iteration_count()).len()
                            && final(file).taken() == old(file).taken() + #[trigger] stored_form(
                            self.salt_bytes(),
                            self.iteration_count(),
                        ).take(k)
                },
            },
    {
        let stored = self.to_json();
        write_all(file, stored.as_slice())
    }

    /// A locked configuration with the parameters that were stored.
    pub fn locked(salt: [u8; SALT_SIZE], iterations: u32) -> (r: Result<Config, Error>)
        ensures
            iterations < MINIMUM_ITERATIONS ==> (r matches Err(Error::IterationsNumberTooSmall(n))
                && n == iterations),
            iterations >= MINIMUM_ITERATIONS ==> (r matches Ok(config) && config.salt_bytes()
                == salt@ && config.iteration_count() == iterations && config.key() is None),
    {
        if iterations < MINIMUM_ITERATIONS {
            return Err(Error::IterationsNumberTooSmall(iterations));
        }
        Ok(Config { salt, iterations, keys: None })
    }

    /// Derives the keys of a locked configuration from `password`, under
    /// the salt and the iteration count that it holds.
    ///
    /// Nothing tells a wrong password from the right one here: the keys that
    /// come of it open nothing that the right ones sealed.
    pub fn unlock(&mut self, password: &str) -> (r: Result<(), Error>)
        ensures
            final(self).salt_bytes() == old(self).salt_bytes(),
            final(self).iteration_count() == old(self).iteration_count(),
            match r {
                Ok(_) => {
                    &&& encode_utf8(password@).len() <= MAX_KDF_INPUT
                    &&& final(self).key() == Some(
                        pbkdf2_hmac_sha256(
                            old(self).iteration_count(),
                            old(self).salt_bytes(),
                            encode_utf8(password@),
                        ),
                    )
                },
                Err(e) => {
                    &&& e is CryptoError
                    &&& encode_utf8(password@).len() > MAX_KDF_INPUT
                    &&& final(self).key() == old(self).key()
                },
            },
    {
        proof {
            use_type_invariant(&*self);
        }
        let secret = password.as_bytes();
        if secret.len() as u64 > MAX_KDF_INPUT {
            return Err(Error::CryptoError);
        }
        let key = derive_key(self.iterations, &self.salt, secret);
        self.keys = Some(Keys { opening: key, sealing: key });
        Ok(())
    }

    /// The salt.
    pub fn salt(&self) -> (r: &[u8; SALT_SIZE])
        ensures
            r@ == self.salt_bytes(),
    {
        &self.salt
    }

    /// The iteration count, which is never below the floor.
    pub fn iterations(&self) -> (r: u32)
        ensures
            r == self.iteration_count(),
            r >= MINIMUM_ITERATIONS,
    {
        proof {
            use_type_invariant(self);
        }
        self.iterations
    }

    /// The key for sealing, or `NotUnlocked` for a locked configuration.
    pub fn sealing_key(&self) -> (r: Result<&[u8; KEY_SIZE], Error>)
        ensures
            match r {
                Ok(key) => self.key() == Some(key@),
                Err(e) => e is NotUnlocked && self.key() is None,
            },
    {
        match &self.keys {
            Some(keys) => Ok(&keys.sealing),
            None => Err(Error::NotUnlocked),
        }
    }

    /// The key for opening, or `NotUnlocked` for a locked configuration.
    pub fn opening_key(&self) -> (r: Result<&[u8; KEY_SIZE], Error>)
        ensures
            match r {
                Ok(key) => self.key() == Some(key@),
                Err(e) => e is NotUnlocked && self.key() is None,
            },
    {
        proof {
            use_type_invariant(self);
        }
        match &self.keys {
            Some(keys) => Ok(&keys.opening),
            None => Err(Error::NotUnlocked),
        }
    }

    /// The bytes under which the configuration is stored.
    pub fn to_json(&self) -> (r: Vec<u8>)
        ensures
            r@ == stored_form(self.salt_bytes(), self.iteration_count()),
    {
        let mut out: Vec<u8> = Vec::new();
        push_bytes(&mut out, &[123u8, 34, 115, 97, 108, 116, 34, 58, 91]);
        assert(out@ == json_head());
        let ghost head = out@;
        let mut i: usize = 0;
        while i < SALT_SIZE
            invariant
                i <= SALT_SIZE,
                out@ == head + decimal_list(self.salt@.take(i as int)),
            decreases SALT_SIZE - i,
        {
            if i > 0 {
                out.push(44u8);
            }
            push_decimal(&mut out, self.salt[i] as u32);
            assert(self.salt@.take(i + 1).drop_last() == self.salt@.take(i as int));
            i = i + 1;
        }
        assert(self.salt@.take(SALT_SIZE as int) == self.salt@);
        push_bytes(&mut out, &[93u8, 44, 34, 105, 116, 101, 114, 97, 116, 105, 111, 110, 115, 34, 58]);
        push_decimal(&mut out, self.iterations);
        out.push(125u8);
        out
    }
}

} // verus!
