//! Names and contents, sealed before the storage backend sees them.

pub mod file;
pub mod segments;

use crate::aead::{
    chacha20_poly1305_open, chacha20_poly1305_seal, open, seal, seal_accepts, KEY_SIZE,
    MAX_SEAL_INPUT, NONCE_SIZE, TAG_SIZE,
};
use crate::config::Config;
use crate::encoding::{
    base32_decode, base32_encode, from_base32, max_decode_input, max_encode_input, to_base32,
    utf8_text,
};
use crate::fs::encrypted::file::{EncryptedFile, BLOCK_SIZE};
use crate::fs::encrypted::segments::{
    chars_of, cut, in_bounds, lemma_repeated_separator, segments, split,
};
use crate::fs::Filesystem;
use crate::random::{repeated, RandomSource};
use crate::result::Error;
use vstd::prelude::*;
use vstd::slice::{slice_subrange, slice_to_vec};
use vstd::string::{StrSliceExecFns, StringExecFns};
use vstd::utf8::{decode_utf8, encode_utf8, valid_utf8};

verus! {

/// A nonce followed by what sealing `plaintext` under it gives: the stored
/// form of one name or one block of content.
pub open spec fn sealed_blob(key: Seq<u8>, nonce: Seq<u8>, plaintext: Seq<u8>) -> Seq<u8> {
    nonce + chacha20_poly1305_seal(key, nonce, Seq::empty(), plaintext)
}

/// The plaintext that `blob` holds, or `None` where `blob` is too short to
/// hold a nonce or does not open under `key`.
pub open spec fn opened_blob(key: Seq<u8>, blob: Seq<u8>) -> Option<Seq<u8>> {
    if blob.len() < NONCE_SIZE {
        None
    } else {
        chacha20_poly1305_open(
            key,
            blob.take(NONCE_SIZE as int),
            Seq::empty(),
            blob.skip(NONCE_SIZE as int),
        )
    }
}

/// `blob` is `plaintext` sealed under `key` and `nonce`, and opens again.
pub open spec fn is_sealing(key: Seq<u8>, nonce: Seq<u8>, plaintext: Seq<u8>, blob: Seq<u8>) -> bool {
    &&& nonce.len() == NONCE_SIZE
    &&& blob == sealed_blob(key, nonce, plaintext)
    &&& blob.len() == plaintext.len() + NONCE_SIZE + TAG_SIZE
    &&& opened_blob(key, blob) == Some(plaintext)
}

/// The content that the stored bytes `stored` hold: they are read block by
/// block, each of `BLOCK_SIZE` bytes but the last, which is what is left;
/// every block is opened, and the plaintexts follow one another. `None`
/// where a block does not open.
pub open spec fn opened_content(key: Seq<u8>, stored: Seq<u8>) -> Option<Seq<u8>>
    decreases stored.len(),
{
    if stored.len() == 0 {
        Some(Seq::empty())
    } else {
        let len = if stored.len() < BLOCK_SIZE {
            stored.len() as int
        } else {
            BLOCK_SIZE as int
        };
        match (opened_blob(key, stored.take(len)), opened_content(key, stored.skip(len))) {
            (Some(first), Some(rest)) => Some(first + rest),
            _ => None,
        }
    }
}

/// Under one key, two nonces never give the same sealed bytes: a sealed
/// blob shows its nonce.
pub proof fn lemma_sealing_shows_nonce(
    key: Seq<u8>,
    nonce1: Seq<u8>,
    nonce2: Seq<u8>,
    plaintext: Seq<u8>,
    blob1: Seq<u8>,
    blob2: Seq<u8>,
)
    requires
        is_sealing(key, nonce1, plaintext, blob1),
        is_sealing(key, nonce2, plaintext, blob2),
        nonce1 != nonce2,
    ensures
        blob1.take(NONCE_SIZE as int) == nonce1,
        blob2.take(NONCE_SIZE as int) == nonce2,
        blob1 != blob2,
{
    assert(blob1.take(NONCE_SIZE as int) == nonce1);
    assert(blob2.take(NONCE_SIZE as int) == nonce2);
}

/// A name that can be encrypted: not empty, and short enough for its sealed
/// form to be written as text.
pub open spec fn name_fits(name: Seq<char>) -> bool {
    0 < encode_utf8(name).len() <= max_encode_input() - NONCE_SIZE - TAG_SIZE
}

/// The encrypted form of `name` under `key` and `nonce`.
pub open spec fn encrypted_name(key: Seq<u8>, nonce: Seq<u8>, name: Seq<char>) -> Seq<char> {
    base32_encode(sealed_blob(key, nonce, encode_utf8(name)))
}

/// The nonce under which the encrypted name `text` was sealed.
pub open spec fn nonce_of(text: Seq<char>) -> Seq<u8> {
    base32_decode(encode_utf8(text))->0.take(NONCE_SIZE as int)
}

/// `text` is the encrypted form of `name` under `key` and `nonce`: it has
/// eight characters for every five bytes of nonce, name and tag, it can be
/// read back as the sealed bytes, and those open again.
pub open spec fn is_encrypted_name(
    key: Seq<u8>,
    nonce: Seq<u8>,
    name: Seq<char>,
    text: Seq<char>,
) -> bool {
    let blob = sealed_blob(key, nonce, encode_utf8(name));
    &&& text == encrypted_name(key, nonce, name)
    &&& encode_utf8(text).len() == (encode_utf8(name).len() + NONCE_SIZE + TAG_SIZE + 4) / 5 * 8
    &&& encode_utf8(text).len() <= max_decode_input()
    &&& base32_decode(encode_utf8(text)) == Some(blob)
    &&& is_sealing(key, nonce, encode_utf8(name), blob)
}

/// The name that the encrypted name `text` stands for, or `None` where
/// `text` is not an encrypted name under `key`.
pub open spec fn decrypted_name(key: Seq<u8>, text: Seq<char>) -> Option<Seq<char>> {
    if encode_utf8(text).len() > max_decode_input() {
        None
    } else {
        match base32_decode(encode_utf8(text)) {
            Some(blob) => match opened_blob(key, blob) {
                Some(bytes) => if valid_utf8(bytes) {
                    Some(decode_utf8(bytes))
                } else {
                    None
                },
                None => None,
            },
            None => None,
        }
    }
}

/// Decrypting an encrypted name gives the name back.
pub proof fn lemma_name_round_trip(key: Seq<u8>, nonce: Seq<u8>, name: Seq<char>, text: Seq<char>)
    requires
        is_encrypted_name(key, nonce, name, text),
    ensures
        decrypted_name(key, text) == Some(name),
        nonce_of(text) == nonce,
{
    vstd::utf8::encode_utf8_valid_utf8(name);
    vstd::utf8::encode_utf8_decode_utf8(name);
    let blob = sealed_blob(key, nonce, encode_utf8(name));
    assert(blob.take(NONCE_SIZE as int) == nonce);
}

/// Under one key, two nonces never give the same sealed bytes, and so never
/// the same encrypted name.
pub proof fn lemma_nonce_shows(
    key: Seq<u8>,
    nonce1: Seq<u8>,
    nonce2: Seq<u8>,
    name: Seq<char>,
    text1: Seq<char>,
    text2: Seq<char>,
)
    requires
        is_encrypted_name(key, nonce1, name, text1),
        is_encrypted_name(key, nonce2, name, text2),
        nonce1 != nonce2,
    ensures
        sealed_blob(key, nonce1, encode_utf8(name)) != sealed_blob(key, nonce2, encode_utf8(name)),
        text1 != text2,
{
    lemma_name_round_trip(key, nonce1, name, text1);
    lemma_name_round_trip(key, nonce2, name, text2);
    let blob1 = sealed_blob(key, nonce1, encode_utf8(name));
    let blob2 = sealed_blob(key, nonce2, encode_utf8(name));
    assert(blob1.take(NONCE_SIZE as int) == nonce1);
    assert(blob2.take(NONCE_SIZE as int) == nonce2);
}

/// Text without a character holds no byte, and the other way round.
pub proof fn lemma_empty_text(text: Seq<char>)
    ensures
        encode_utf8(text).len() == 0 <==> text.len() == 0,
{
    if text.len() > 0 {
        assert(vstd::utf8::encode_scalar(text[0] as u32).len() > 0);
    }
}

/// `parts`, with `sep` between every two of them.
pub open spec fn joined(parts: Seq<Seq<char>>, sep: Seq<char>) -> Seq<char>
    decreases parts.len(),
{
    if parts.len() == 0 {
        Seq::empty()
    } else if parts.len() == 1 {
        parts[0]
    } else {
        joined(parts.drop_last(), sep) + sep + parts.last()
    }
}

/// The encrypted form of the path `name` where every nonce is `byte`
/// repeated: each segment encrypted by itself, and `sep` between them.
pub open spec fn fixed_path(key: Seq<u8>, byte: u8, name: Seq<char>, sep: Seq<char>) -> Seq<char> {
    joined(
        segments(name, sep).map_values(
            |segment: Seq<char>| encrypted_name(key, repeated(byte, NONCE_SIZE as nat), segment),
        ),
        sep,
    )
}

/// Under fixed nonces, a separator of one character that stands twice in a
/// row changes nothing: `a//b` has the encrypted path of `a/b`.
pub proof fn lemma_fixed_path_drops_empty_segments(
    key: Seq<u8>,
    byte: u8,
    front: Seq<char>,
    back: Seq<char>,
    c: char,
)
    ensures
        fixed_path(key, byte, front + seq![c] + seq![c] + back, seq![c]) == fixed_path(
            key,
            byte,
            front + seq![c] + back,
            seq![c],
        ),
{
    lemma_repeated_separator(front, back, c);
}

/// A storage backend seen through encryption.
pub struct EncryptedFs<'a> {
    fs: &'a dyn Filesystem,
    config: Config,
    random: RandomSource,
    separator: String,
}

impl<'a> EncryptedFs<'a> {
    /// The key in use, where the configuration is unlocked.
    pub closed spec fn key(&self) -> Option<Seq<u8>> {
        self.config.key()
    }

    /// Where nonces come from.
    pub closed spec fn random(&self) -> RandomSource {
        self.random
    }

    /// The text that separates the segments of a path, as the backend named
    /// it when the overlay was made.
    pub closed spec fn separator(&self) -> Seq<char> {
        self.separator@
    }

    /// A key has `KEY_SIZE` bytes.
    pub proof fn lemma_key_size(&self)
        ensures
            self.key() matches Some(key) ==> key.len() == KEY_SIZE,
    {
        self.config.lemma_sizes();
    }

    /// `text` is an encrypted form of `name` that this overlay can give.
    pub open spec fn encrypts(&self, name: Seq<char>, text: Seq<char>) -> bool {
        &&& name_fits(name)
        &&& self.key() matches Some(key)
        &&& self.random().may_draw(NONCE_SIZE as nat, nonce_of(text))
        &&& seal_accepts(key, nonce_of(text), encode_utf8(name))
        &&& is_encrypted_name(key, nonce_of(text), name, text)
    }

    /// `parts` are encrypted forms of `names`, one for one and in order.
    pub open spec fn encrypts_each(&self, names: Seq<Seq<char>>, parts: Seq<Seq<char>>) -> bool {
        &&& parts.len() == names.len()
        &&& forall|i: int| 0 <= i < names.len() ==> self.encrypts(names[i], #[trigger] parts[i])
    }

    /// `path` is an encrypted form of the path `name` that this overlay can
    /// give: its segments encrypted one by one, with `sep` between them.
    pub open spec fn encrypts_path(&self, name: Seq<char>, sep: Seq<char>, path: Seq<char>) -> bool {
        exists|parts: Seq<Seq<char>>|
            #[trigger] self.encrypts_each(segments(name, sep), parts) && path == joined(parts, sep)
    }

    /// A path that cannot be encrypted, whatever nonces are drawn: it has a
    /// segment, and either there is no key, or one of its segments is too
    /// long for a name or for the cipher.
    pub open spec fn refuses_path(&self, name: Seq<char>, sep: Seq<char>) -> bool {
        &&& segments(name, sep).len() > 0
        &&& {
            ||| self.key() is None
            ||| exists|i: int|
                0 <= i < segments(name, sep).len() && !name_fits(#[trigger] segments(name, sep)[i])
            ||| exists|i: int|
                0 <= i < segments(name, sep).len() && encode_utf8(
                    #[trigger] segments(name, sep)[i],
                ).len() > MAX_SEAL_INPUT
        }
    }

    /// What encrypting the path `name` may give: an encrypted form of it,
    /// which is then the only one under fixed nonces; or the refusal of one
    /// of its segments. A path that is not refused, encrypted under fixed
    /// nonces, always gives an encrypted form.
    pub open spec fn path_outcome(
        &self,
        name: Seq<char>,
        sep: Seq<char>,
        r: Result<String, Error>,
    ) -> bool {
        &&& match r {
            Ok(path) => {
                &&& self.encrypts_path(name, sep, path@)
                &&& (self.key(), self.random()) matches (Some(key), RandomSource::FixedByte(byte))
                    ==> path@ == fixed_path(key, byte, name, sep)
            },
            Err(Error::InvalidPathName(refused)) => exists|i: int|
                0 <= i < segments(name, sep).len() && refused@ == #[trigger] segments(name, sep)[i]
                    && !name_fits(refused@),
            Err(Error::NotUnlocked) => self.key() is None && segments(name, sep).len() > 0,
            Err(Error::CryptoError) => {
                &&& self.key() is Some
                &&& self.random() is System || exists|i: int|
                    0 <= i < segments(name, sep).len() && encode_utf8(
                        #[trigger] segments(name, sep)[i],
                    ).len() > MAX_SEAL_INPUT
            },
            Err(_) => false,
        }
        &&& self.refuses_path(name, sep) ==> r is Err
        &&& !self.refuses_path(name, sep) && self.random() is FixedByte ==> r is Ok
    }

    /// Whatever the source of nonces, a separator of one character that
    /// stands twice in a row changes nothing: what can come of encrypting
    /// `a//b` is what can come of encrypting `a/b`.
    pub proof fn lemma_path_drops_empty_segments(
        &self,
        front: Seq<char>,
        back: Seq<char>,
        c: char,
        path: Seq<char>,
    )
        ensures
            self.encrypts_path(front + seq![c] + seq![c] + back, seq![c], path)
                == self.encrypts_path(front + seq![c] + back, seq![c], path),
    {
        lemma_repeated_separator(front, back, c);
    }

    /// With a fixed source of nonces a name has one encrypted form only.
    pub proof fn lemma_fixed_source_repeats(&self, name: Seq<char>, text1: Seq<char>, text2: Seq<char>)
        requires
            self.random() is FixedByte,
            self.encrypts(name, text1),
            self.encrypts(name, text2),
        ensures
            text1 == text2,
    {
    }

    /// An overlay on `fs` that draws its nonces from the operating system.
    /// The backend is asked for its separator once, here.
    pub fn new(fs: &'a dyn Filesystem, config: Config) -> (r: Self)
        ensures
            r.key() == config.key(),
            r.random() is System,
    {
        Self::with_custom_random(fs, config, RandomSource::system())
    }

    /// An overlay on `fs` that draws its nonces from `random`. The backend
    /// is asked for its separator once, here.
    pub fn with_custom_random(fs: &'a dyn Filesystem, config: Config, random: RandomSource) -> (r:
        Self)
        ensures
            r.key() == config.key(),
            r.random() == random,
    {
        let separator = fs.path_separator();
        EncryptedFs { fs, config, random, separator }
    }

    /// The text that separates the segments of a path.
    pub fn path_separator(&self) -> (r: &str)
        ensures
            r@ == self.separator(),
    {
        self.separator.as_str()
    }

    /// Draws the nonce for one sealing.
    pub(crate) fn draw_nonce(&self) -> (r: Result<Vec<u8>, Error>)
        ensures
            match r {
                Ok(nonce) => self.random().may_draw(NONCE_SIZE as nat, nonce@),
                Err(e) => e is CryptoError && self.random() is System,
            },
    {
        self.random.fill(NONCE_SIZE)
    }

    /// Seals `plaintext` under `nonce` and returns the nonce followed by
    /// ciphertext and tag.
    ///
    /// The caller picks the nonce, and answers for its being fresh. Empty
    /// content is refused with `InvalidInput`; a nonce of the wrong length
    /// or content over the cipher's limit, with `CryptoError`.
    pub fn encrypt_data(&self, plaintext: &[u8], nonce: &[u8]) -> (r: Result<Vec<u8>, Error>)
        ensures
            match r {
                Ok(blob) => {
                    &&& plaintext@.len() > 0
                    &&& self.key() matches Some(key)
                    &&& seal_accepts(key, nonce@, plaintext@)
                    &&& is_sealing(key, nonce@, plaintext@, blob@)
                },
                Err(Error::InvalidInput) => plaintext@.len() == 0,
                Err(Error::NotUnlocked) => plaintext@.len() > 0 && self.key() is None,
                Err(Error::CryptoError) => {
                    &&& plaintext@.len() > 0
                    &&& self.key() matches Some(key)
                    &&& !seal_accepts(key, nonce@, plaintext@)
                },
                Err(_) => false,
            },
    {
        if plaintext.len() == 0 {
            return Err(Error::InvalidInput);
        }
        let key = self.config.sealing_key()?;
        let aad: [u8; 0] = [];
        assert(aad@ == Seq::<u8>::empty());
        let mut sealed = match seal(key.as_slice(), nonce, aad.as_slice(), plaintext) {
            Ok(sealed) => sealed,
            Err(_) => {
                return Err(Error::CryptoError);
            },
        };
        let mut blob = slice_to_vec(nonce);
        blob.append(&mut sealed);
        proof {
            let k = self.key()->0;
            assert(blob@.take(NONCE_SIZE as int) == nonce@);
            assert(blob@.skip(NONCE_SIZE as int) == chacha20_poly1305_seal(
                k,
                nonce@,
                Seq::empty(),
                plaintext@,
            ));
        }
        Ok(blob)
    }

    /// Opens a blob that `encrypt_data` made: splits the nonce off its front
    /// and opens the rest.
    ///
    /// Whatever does not open is refused with `InvalidEncodedName`; nothing
    /// of it is returned. What is shorter than a nonce and a tag never opens.
    pub fn decrypt_data(&self, data: &[u8]) -> (r: Result<Vec<u8>, Error>)
        ensures
            match r {
                Ok(plaintext) => {
                    &&& self.key() matches Some(key)
                    &&& opened_blob(key, data@) == Some(plaintext@)
                    &&& plaintext@.len() + NONCE_SIZE + TAG_SIZE == data@.len()
                },
                Err(Error::NotUnlocked) => self.key() is None,
                Err(Error::InvalidEncodedName) => self.key() matches Some(key) && opened_blob(
                    key,
                    data@,
                ) is None,
                Err(_) => false,
            },
    {
        let key = self.config.opening_key()?;
        if data.len() < NONCE_SIZE {
            return Err(Error::InvalidEncodedName);
        }
        let nonce = slice_subrange(data, 0, NONCE_SIZE);
        let sealed = slice_subrange(data, NONCE_SIZE, data.len());
        let aad: [u8; 0] = [];
        assert(aad@ == Seq::<u8>::empty());
        match open(key.as_slice(), nonce, aad.as_slice(), sealed) {
            Ok(plaintext) => Ok(plaintext),
            Err(_) => Err(Error::InvalidEncodedName),
        }
    }

    /// Reads back the content of a file from the bytes that the backend
    /// holds for it: opens them block by block, as they were written, and
    /// returns the plaintexts one after the other.
    ///
    /// A block that does not open fails the whole with `InvalidEncodedName`;
    /// nothing of the content is returned then.
    pub fn decrypt_content(&self, stored: &[u8]) -> (r: Result<Vec<u8>, Error>)
        ensures
            match r {
                Ok(content) => self.key() matches Some(key) && opened_content(key, stored@)
                    == Some(content@),
                Err(Error::NotUnlocked) => self.key() is None,
                Err(Error::InvalidEncodedName) => self.key() matches Some(key) && opened_content(
                    key,
                    stored@,
                ) is None,
                Err(_) => false,
            },
    {
        let _ = self.config.opening_key()?;
        let ghost key = self.key()->0;
        let mut content: Vec<u8> = Vec::new();
        let mut at: usize = 0;
        assert(stored@.skip(0) == stored@);
        while at < stored.len()
            invariant
                at <= stored@.len(),
                self.key() == Some(key),
                opened_content(key, stored@) == match opened_content(key, stored@.skip(at as int)) {
                    Some(rest) => Some(content@ + rest),
                    None => None,
                },
            decreases stored.len() - at,
        {
            let left = stored.len() - at;
            let len = if left < BLOCK_SIZE {
                left
            } else {
                BLOCK_SIZE
            };
            let block = slice_subrange(stored, at, at + len);
            proof {
                let rest = stored@.skip(at as int);
                assert(rest.take(len as int) == block@);
                assert(rest.skip(len as int) == stored@.skip(at + len));
            }
            let mut plain = match self.decrypt_data(block) {
                Ok(plain) => plain,
                Err(e) => {
                    return Err(e);
                },
            };
            let ghost before = content@;
            let ghost opened = plain@;
            content.append(&mut plain);
            proof {
                match opened_content(key, stored@.skip(at + len)) {
                    Some(rest) => {
                        assert(before + (opened + rest) == content@ + rest);
                    },
                    None => {},
                }
            }
            at = at + len;
        }
        assert(content@ + Seq::<u8>::empty() == content@);
        Ok(content)
    }

    /// Encrypts one name: seals its UTF-8 bytes under a nonce drawn for this
    /// call, and writes nonce, ciphertext and tag as Base32 text.
    ///
    /// An empty name is refused with `InvalidPathName`, and so is one too
    /// long to be written as text. With a fixed source of nonces the result
    /// is a function of key and name; with the operating system's, two calls
    /// differ wherever their nonces do.
    pub fn encrypt_name(&self, name: &str) -> (r: Result<String, Error>)
        ensures
            match r {
                Ok(text) => {
                    &&& name_fits(name@)
                    &&& self.key() matches Some(key)
                    &&& self.random().may_draw(NONCE_SIZE as nat, nonce_of(text@))
                    &&& seal_accepts(key, nonce_of(text@), encode_utf8(name@))
                    &&& is_encrypted_name(key, nonce_of(text@), name@, text@)
                    &&& decrypted_name(key, text@) == Some(name@)
                },
                Err(Error::InvalidPathName(refused)) => !name_fits(name@) && refused@ == name@,
                Err(Error::NotUnlocked) => name_fits(name@) && self.key() is None,
                Err(Error::CryptoError) => {
                    &&& name_fits(name@)
                    &&& self.key() is Some
                    &&& self.random() is System || encode_utf8(name@).len() > MAX_SEAL_INPUT
                },
                Err(_) => false,
            },
            name@.len() == 0 ==> r matches Err(Error::InvalidPathName(_)),
            name_fits(name@) && self.key() is Some && self.random() is FixedByte && encode_utf8(
                name@,
            ).len() <= MAX_SEAL_INPUT ==> r is Ok,
    {
        proof {
            lemma_empty_text(name@);
        }
        let bytes = name.as_bytes();
        if bytes.len() == 0 || bytes.len() > usize::MAX / 512 - (NONCE_SIZE + TAG_SIZE) {
            return Err(Error::InvalidPathName(name.to_owned()));
        }
        let _ = self.config.sealing_key()?;
        let nonce = self.draw_nonce()?;
        let blob = self.encrypt_data(bytes, nonce.as_slice())?;
        let text = to_base32(blob.as_slice());
        proof {
            let key = self.key()->0;
            assert(is_encrypted_name(key, nonce@, name@, text@));
            lemma_name_round_trip(key, nonce@, name@, text@);
        }
        Ok(text)
    }

    /// Decrypts one name: reads the Base32 text, opens what it holds, and
    /// reads the plaintext as UTF-8.
    ///
    /// Text that is not Base32 is refused with `Base32Error`. Bytes that do
    /// not open, or that open to something that is not UTF-8, are refused
    /// with `InvalidEncodedName`, which does not tell the two apart.
    pub fn decrypt_name(&self, name: &str) -> (r: Result<String, Error>)
        ensures
            match r {
                Ok(plain) => self.key() matches Some(key) && decrypted_name(key, name@) == Some(
                    plain@,
                ),
                Err(Error::Base32Error(_)) => {
                    &&& encode_utf8(name@).len() <= max_decode_input()
                    &&& base32_decode(encode_utf8(name@)) is None
                },
                Err(Error::NotUnlocked) => {
                    &&& encode_utf8(name@).len() <= max_decode_input()
                    &&& base32_decode(encode_utf8(name@)) is Some
                    &&& self.key() is None
                },
                Err(Error::InvalidEncodedName) => {
                    ||| encode_utf8(name@).len() > max_decode_input()
                    ||| {
                        &&& base32_decode(encode_utf8(name@)) is Some
                        &&& self.key() matches Some(key)
                        &&& decrypted_name(key, name@) is None
                    }
                },
                Err(_) => false,
            },
    {
        let input = name.as_bytes();
        if input.len() > usize::MAX / 8 {
            return Err(Error::InvalidEncodedName);
        }
        let blob = match from_base32(input) {
            Ok(blob) => blob,
            Err(e) => {
                return Err(Error::Base32Error(e));
            },
        };
        let bytes = self.decrypt_data(blob.as_slice())?;
        match utf8_text(bytes) {
            Some(text) => Ok(text),
            None => Err(Error::InvalidEncodedName),
        }
    }

    /// Encrypts the path `name`, whose segments `sep` separates.
    ///
    /// Empty segments are dropped, so that `a//b` is the path `a/b`. Every
    /// other segment is encrypted as a name, under a nonce of its own, and
    /// the results are joined by `sep` again. A path without a segment gives
    /// the empty path.
    pub fn encrypt_path_with(&self, name: &str, sep: &str) -> (r: Result<String, Error>)
        ensures
            self.path_outcome(name@, sep@, r),
    {
        let text = chars_of(name);
        let mark = chars_of(sep);
        let ranges = split(&text, &mark);
        let ghost names = segments(name@, sep@);
        let ghost mut parts: Seq<Seq<char>> = Seq::empty();
        let mut path = String::new();
        let mut i: usize = 0;
        while i < ranges.len()
            invariant
                i <= ranges.len(),
                text@ == name@,
                in_bounds(text@, ranges@),
                cut(text@, ranges@) == names,
                names == segments(name@, sep@),
                parts.len() == i,
                forall|j: int| 0 <= j < i ==> self.encrypts(names[j], #[trigger] parts[j]),
                path@ == joined(parts, sep@),
            decreases ranges.len() - i,
        {
            let start = ranges[i].0;
            let end = ranges[i].1;
            assert(names[i as int] == text@.subrange(start as int, end as int));
            let segment = name.substring_char(start, end);
            let part = match self.encrypt_name(segment) {
                Ok(part) => part,
                Err(e) => {
                    return Err(e);
                },
            };
            if i > 0 {
                path.append(sep);
            }
            path.append(part.as_str());
            proof {
                let before = parts;
                parts = parts.push(part@);
                assert(parts.drop_last() == before);
            }
            i = i + 1;
        }
        proof {
            assert(self.encrypts_each(names, parts));
            assert(!self.refuses_path(name@, sep@)) by {
                assert forall|i: int| 0 <= i < names.len() implies name_fits(#[trigger] names[i])
                    && encode_utf8(names[i]).len() <= MAX_SEAL_INPUT by {
                    assert(self.encrypts(names[i], parts[i]));
                }
            }
            if let Some(key) = self.key() {
                if let RandomSource::FixedByte(byte) = self.random() {
                    let nonce = repeated(byte, NONCE_SIZE as nat);
                    assert(parts == names.map_values(
                        |segment: Seq<char>| encrypted_name(key, nonce, segment),
                    ));
                }
            }
        }
        Ok(path)
    }

    /// Encrypts the path `name`, whose segments the backend's separator
    /// separates.
    pub fn encrypt_path(&self, name: &str) -> (r: Result<String, Error>)
        ensures
            self.path_outcome(name@, self.separator(), r),
    {
        self.encrypt_path_with(name, self.separator.as_str())
    }

    /// Creates the directory `name` under its encrypted path.
    ///
    /// A path that cannot be encrypted is refused before the backend is
    /// asked; otherwise the backend's answer is handed on.
    pub fn mkdir(&self, name: &str) -> (r: Result<(), Error>)
        ensures
            self.refuses_path(name@, self.separator()) ==> r is Err,
            r is Ok ==> exists|path: Seq<char>| #[trigger]
                self.encrypts_path(name@, self.separator(), path),
    {
        let encrypted_path = self.encrypt_path(name)?;
        self.fs.mkdir(encrypted_path.as_str())
    }

    /// Whether the backend holds something under the encrypted path of
    /// `name`. A path that cannot be encrypted is held nowhere.
    pub fn path_exists(&self, name: &str) -> (r: bool)
        ensures
            self.refuses_path(name@, self.separator()) ==> !r,
            r ==> exists|path: Seq<char>| #[trigger]
                self.encrypts_path(name@, self.separator(), path),
    {
        match self.encrypt_path(name) {
            Ok(encrypted_path) => self.fs.path_exists(encrypted_path.as_str()),
            Err(_) => false,
        }
    }

    /// Creates the file `path` in the backend, under the encrypted form of
    /// its name, and returns it ready to be written through encryption.
    ///
    /// The whole of `path` is encrypted as one name.
    pub fn create<'s>(&'s self, path: &str) -> (r: Result<Box<EncryptedFile<'s, 'a>>, Error>)
        ensures
            !name_fits(path@) ==> r matches Err(Error::InvalidPathName(_)),
            name_fits(path@) && self.key() is None ==> r matches Err(Error::NotUnlocked),
            r matches Ok(file) ==> {
                &&& name_fits(path@)
                &&& file.well_formed()
                &&& file.laid_out()
                &&& file.key() == self.key()
                &&& file.key() is Some
                &&& file.random() == self.random()
                &&& !file.is_closed()
                &&& file.content() == Seq::<u8>::empty()
                &&& file.sealed() == Seq::<Seq<u8>>::empty()
                &&& file.written() == Seq::<u8>::empty()
                &&& file.flushed() == 0
                &&& file.intact()
            },
    {
        let encrypted_path = self.encrypt_name(path)?;
        let raw = self.fs.create(encrypted_path.as_str())?;
        let file = EncryptedFile::new(raw, self);
        assert(file.content() == Seq::<u8>::empty()) by {
            assert(crate::fs::encrypted::file::concat(file.plain()) == Seq::<u8>::empty());
        }
        Ok(Box::new(file))
    }
}

} // verus!
