use data_encoding::BASE32;
use ring::aead::{Aad, LessSafeKey, Nonce, UnboundKey, CHACHA20_POLY1305};
use rusty_platter::config::{CONFIG_PATH, MINIMUM_ITERATIONS, SALT_SIZE};
use rusty_platter::fs::encrypted::file::{BLOCK_SIZE, USER_BLOCK_SIZE};
use rusty_platter::fs::{part_write, whole_write, write_all, File, Filesystem, Sink};
use rusty_platter::{Config, EncryptedFs, Error, RandomSource};
use std::cell::{Cell, RefCell};
use std::collections::{BTreeMap, BTreeSet};
use std::rc::Rc;

const PASSWORD: &'static str = "password";
const ITERATIONS: u32 = 10_000;

/// A backend that keeps everything in memory. Writes can be made to fail or
/// to take fewer bytes than they are handed.
struct MemoryFs {
    dirs: RefCell<BTreeSet<String>>,
    files: RefCell<BTreeMap<String, Rc<RefCell<Vec<u8>>>>>,
    separator: String,
    most_per_write: Option<usize>,
    fail_writes: bool,
    fail_create: bool,
    fail_flush: bool,
    claim_too_much: bool,
    flushes: Rc<Cell<usize>>,
}

struct MemoryFile {
    bytes: Rc<RefCell<Vec<u8>>>,
    most_per_write: Option<usize>,
    fail_writes: bool,
    fail_flush: bool,
    claim_too_much: bool,
    flushes: Rc<Cell<usize>>,
}

impl MemoryFs {
    fn new() -> Self {
        MemoryFs {
            dirs: RefCell::new(BTreeSet::new()),
            files: RefCell::new(BTreeMap::new()),
            separator: "/".to_string(),
            most_per_write: None,
            fail_writes: false,
            fail_create: false,
            fail_flush: false,
            claim_too_much: false,
            flushes: Rc::new(Cell::new(0)),
        }
    }

    fn stored(&self, path: &str) -> Vec<u8> {
        self.files.borrow().get(path).unwrap().borrow().clone()
    }

    fn only_file(&self) -> (String, Vec<u8>) {
        let files = self.files.borrow();
        let found: Vec<&String> = files.keys().filter(|k| k.as_str() != CONFIG_PATH).collect();
        assert_eq!(found.len(), 1);
        let bytes = files.get(found[0]).unwrap().borrow().clone();
        (found[0].clone(), bytes)
    }
}

impl File for MemoryFile {
    fn write(&mut self, content: &[u8]) -> Result<usize, std::io::Error> {
        if self.fail_writes {
            return Err(std::io::Error::new(std::io::ErrorKind::Other, "disk full"));
        }
        let take = match self.most_per_write {
            Some(most) => content.len().min(most),
            None => content.len(),
        };
        self.bytes.borrow_mut().extend_from_slice(&content[..take]);
        if self.claim_too_much {
            return Ok(content.len() + 1);
        }
        Ok(take)
    }

    fn flush(&mut self) -> Result<(), std::io::Error> {
        if self.fail_flush {
            return Err(std::io::Error::new(std::io::ErrorKind::Other, "cannot flush"));
        }
        self.flushes.set(self.flushes.get() + 1);
        Ok(())
    }
}

impl Filesystem for MemoryFs {
    fn path_separator(&self) -> String {
        self.separator.clone()
    }

    fn mkdir(&self, path: &str) -> Result<(), Error> {
        if !self.dirs.borrow_mut().insert(path.to_string()) {
            return Err(Error::IoError(std::io::Error::from(std::io::ErrorKind::AlreadyExists)));
        }
        Ok(())
    }

    fn mv(&self, from: &str, to: &str) -> Result<(), Error> {
        let moved = self.files.borrow_mut().remove(from);
        match moved {
            Some(bytes) => {
                self.files.borrow_mut().insert(to.to_string(), bytes);
                Ok(())
            }
            None => Err(Error::IoError(std::io::Error::from(std::io::ErrorKind::NotFound))),
        }
    }

    fn rm(&self, path: &str) -> Result<(), Error> {
        if self.dirs.borrow_mut().remove(path) || self.files.borrow_mut().remove(path).is_some() {
            Ok(())
        } else {
            Err(Error::IoError(std::io::Error::from(std::io::ErrorKind::NotFound)))
        }
    }

    fn path_exists(&self, path: &str) -> bool {
        self.dirs.borrow().contains(path) || self.files.borrow().contains_key(path)
    }

    fn open(&self, path: &str) -> Result<Box<dyn File>, Error> {
        match self.files.borrow().get(path) {
            Some(bytes) => Ok(Box::new(MemoryFile {
                bytes: bytes.clone(),
                most_per_write: self.most_per_write,
                fail_writes: self.fail_writes,
                fail_flush: self.fail_flush,
                claim_too_much: self.claim_too_much,
                flushes: self.flushes.clone(),
            })),
            None => Err(Error::IoError(std::io::Error::from(std::io::ErrorKind::NotFound))),
        }
    }

    fn create(&self, path: &str) -> Result<Box<dyn File>, Error> {
        if self.fail_create {
            return Err(Error::IoError(std::io::Error::from(std::io::ErrorKind::PermissionDenied)));
        }
        let bytes = Rc::new(RefCell::new(Vec::new()));
        self.files.borrow_mut().insert(path.to_string(), bytes.clone());
        Ok(Box::new(MemoryFile {
            bytes,
            most_per_write: self.most_per_write,
            fail_writes: self.fail_writes,
            fail_flush: self.fail_flush,
            claim_too_much: self.claim_too_much,
            flushes: self.flushes.clone(),
        }))
    }
}

fn fixed_config(fs: &MemoryFs) -> Config {
    Config::new_with_custom_random(PASSWORD, ITERATIONS, fs, RandomSource::fixed(0)).unwrap()
}

fn fixed_overlay(fs: &MemoryFs) -> EncryptedFs<'_> {
    EncryptedFs::with_custom_random(fs, fixed_config(fs), RandomSource::fixed(0))
}

fn system_overlay(fs: &MemoryFs) -> EncryptedFs<'_> {
    EncryptedFs::new(fs, fixed_config(fs))
}

/// The key that PBKDF2 gives for the password above and a salt of zeros,
/// computed without the library.
fn expected_key() -> [u8; 32] {
    let mut key = [0u8; 32];
    ring::pbkdf2::derive(
        ring::pbkdf2::PBKDF2_HMAC_SHA256,
        std::num::NonZeroU32::new(ITERATIONS).unwrap(),
        &[0u8; SALT_SIZE],
        PASSWORD.as_bytes(),
        &mut key,
    );
    key
}

/// Nonce, ciphertext and tag of `plaintext`, computed without the library.
fn expected_blob(key: &[u8], nonce: [u8; 12], plaintext: &[u8]) -> Vec<u8> {
    let key = LessSafeKey::new(UnboundKey::new(&CHACHA20_POLY1305, key).unwrap());
    let mut sealed = plaintext.to_vec();
    key.seal_in_place_append_tag(Nonce::assume_unique_for_key(nonce), Aad::empty(), &mut sealed)
        .unwrap();
    let mut blob = nonce.to_vec();
    blob.extend_from_slice(&sealed);
    blob
}

fn pattern(len: usize) -> Vec<u8> {
    (0..len).map(|i| (i % 251) as u8).collect()
}

/// Opens the stored blocks one by one and returns their plaintexts.
fn read_back(overlay: &EncryptedFs<'_>, stored: &[u8]) -> Vec<Vec<u8>> {
    stored.chunks(BLOCK_SIZE).map(|block| overlay.decrypt_data(block).unwrap()).collect()
}

#[test]
fn test_en_decrypt_name() {
    let fs = MemoryFs::new();
    let config =
        Config::new_with_custom_random(PASSWORD, ITERATIONS, &fs, RandomSource::fixed(0)).unwrap();
    let encrypted = EncryptedFs::with_custom_random(&fs, config, RandomSource::fixed(0));
    let data = "path name";
    let encrypted_name = encrypted.encrypt_name(data).unwrap();
    assert_eq!(encrypted.decrypt_name(&*encrypted_name).unwrap(), data);
}

#[test]
fn encrypted_test_mkdir() {
    let fs = MemoryFs::new();
    let config =
        Config::new_with_custom_random(PASSWORD, ITERATIONS, &fs, RandomSource::fixed(0)).unwrap();
    let encrypted = EncryptedFs::with_custom_random(&fs, config, RandomSource::fixed(0));
    encrypted.mkdir("abc").unwrap();
    assert!(encrypted.path_exists("abc"));
}

#[test]
fn encrypted_test_exists() {
    let fs = MemoryFs::new();
    let config =
        Config::new_with_custom_random(PASSWORD, ITERATIONS, &fs, RandomSource::fixed(0)).unwrap();
    let encrypted = EncryptedFs::with_custom_random(&fs, config, RandomSource::fixed(0));
    encrypted.mkdir("abc").unwrap();
    assert!(encrypted.path_exists("abc"));
}

#[test]
fn test_create() {
    let fs = MemoryFs::new();
    let config =
        Config::new_with_custom_random(PASSWORD, ITERATIONS, &fs, RandomSource::fixed(0)).unwrap();
    let encrypted = EncryptedFs::with_custom_random(&fs, config, RandomSource::fixed(0));
    let mut f = encrypted.create("abc").unwrap();
    assert_eq!(f.write("he".as_bytes()).unwrap(), 2);
    assert_eq!(f.write("llo".as_bytes()).unwrap(), 3);
    assert_eq!(
        f.write(" ".repeat(64 * 1024 - 5).as_bytes()).unwrap(),
        64 * 1024 - 5
    );
    assert!(encrypted.path_exists("abc"));
}

#[test]
fn scenario_of_names_and_directories() {
    let fs = MemoryFs::new();
    let encrypted = fixed_overlay(&fs);
    let text = encrypted.encrypt_name("abc").unwrap();
    assert_eq!(encrypted.decrypt_name(&text).unwrap(), "abc");
    encrypted.mkdir("abc").unwrap();
    assert!(encrypted.path_exists("abc"));
    assert!(!encrypted.path_exists("doesnotexist"));
}

#[test]
fn names_round_trip() {
    let fs = MemoryFs::new();
    let fixed = fixed_overlay(&fs);
    let system = system_overlay(&fs);
    let long = "x".repeat(1000);
    for name in ["a", "path name", "gr\u{fc}\u{df}e", "\u{65e5}\u{672c}\u{8a9e}.txt", "a/b", long.as_str()] {
        let text = fixed.encrypt_name(name).unwrap();
        assert_eq!(fixed.decrypt_name(&text).unwrap(), name);
        let text = system.encrypt_name(name).unwrap();
        assert_eq!(system.decrypt_name(&text).unwrap(), name);
        assert_eq!(fixed.decrypt_name(&text).unwrap(), name);
    }
}

#[test]
fn encrypted_name_is_base32_of_nonce_ciphertext_and_tag() {
    let fs = MemoryFs::new();
    let encrypted = fixed_overlay(&fs);
    let text = encrypted.encrypt_name("abc").unwrap();
    let blob = expected_blob(&expected_key(), [0u8; 12], b"abc");
    assert_eq!(blob.len(), 3 + 12 + 16);
    assert_eq!(text, BASE32.encode(&blob));
    assert_eq!(text.len(), 56);
    assert!(text.bytes().all(|b| b.is_ascii_uppercase() || b.is_ascii_digit() || b == b'='));
    assert_ne!(text.as_bytes(), &blob[..]);
}

#[test]
fn decrypt_name_reads_what_others_sealed() {
    let fs = MemoryFs::new();
    let encrypted = fixed_overlay(&fs);
    let blob = expected_blob(&expected_key(), [9u8; 12], "caf\u{e9}".as_bytes());
    assert_eq!(encrypted.decrypt_name(&BASE32.encode(&blob)).unwrap(), "caf\u{e9}");
}

#[test]
fn fixed_source_repeats_and_system_source_does_not() {
    let fs = MemoryFs::new();
    let fixed = fixed_overlay(&fs);
    assert_eq!(fixed.encrypt_name("abc").unwrap(), fixed.encrypt_name("abc").unwrap());
    let system = system_overlay(&fs);
    let one = system.encrypt_name("abc").unwrap();
    let two = system.encrypt_name("abc").unwrap();
    assert_ne!(one, two);
    assert_ne!(BASE32.decode(one.as_bytes()).unwrap()[..12], BASE32.decode(two.as_bytes()).unwrap()[..12]);
}

#[test]
fn another_fixed_byte_gives_another_name() {
    let fs = MemoryFs::new();
    let zeros = fixed_overlay(&fs);
    let sevens = EncryptedFs::with_custom_random(&fs, fixed_config(&fs), RandomSource::fixed(7));
    let text = sevens.encrypt_name("abc").unwrap();
    assert_ne!(text, zeros.encrypt_name("abc").unwrap());
    assert_eq!(text, BASE32.encode(&expected_blob(&expected_key(), [7u8; 12], b"abc")));
    assert_eq!(zeros.decrypt_name(&text).unwrap(), "abc");
}

#[test]
fn tampered_names_are_refused() {
    let fs = MemoryFs::new();
    let encrypted = fixed_overlay(&fs);
    let text = encrypted.encrypt_name("path name").unwrap();
    let blob = BASE32.decode(text.as_bytes()).unwrap();
    for at in 0..blob.len() {
        for bit in 0..8 {
            let mut changed = blob.clone();
            changed[at] ^= 1 << bit;
            let result = encrypted.decrypt_name(&BASE32.encode(&changed));
            assert!(matches!(result, Err(Error::InvalidEncodedName)));
        }
    }
}

#[test]
fn tampered_blocks_are_refused() {
    let fs = MemoryFs::new();
    let encrypted = fixed_overlay(&fs);
    let blob = encrypted.encrypt_data(b"content of a block", &[3u8; 12]).unwrap();
    assert_eq!(encrypted.decrypt_data(&blob).unwrap(), b"content of a block");
    for at in 0..blob.len() {
        let mut changed = blob.clone();
        changed[at] ^= 0x10;
        assert!(matches!(encrypted.decrypt_data(&changed), Err(Error::InvalidEncodedName)));
    }
    assert!(matches!(encrypted.decrypt_data(&blob[..blob.len() - 1]), Err(Error::InvalidEncodedName)));
    assert!(matches!(encrypted.decrypt_data(&blob[..11]), Err(Error::InvalidEncodedName)));
    assert!(matches!(encrypted.decrypt_data(&[]), Err(Error::InvalidEncodedName)));
}

#[test]
fn a_name_under_another_key_is_refused() {
    let fs = MemoryFs::new();
    let encrypted = fixed_overlay(&fs);
    let other_config =
        Config::derive("another password", ITERATIONS, &RandomSource::fixed(0)).unwrap();
    let other = EncryptedFs::with_custom_random(&fs, other_config, RandomSource::fixed(0));
    let text = other.encrypt_name("abc").unwrap();
    assert!(matches!(encrypted.decrypt_name(&text), Err(Error::InvalidEncodedName)));
}

#[test]
fn text_that_is_not_base32_is_refused() {
    let fs = MemoryFs::new();
    let encrypted = fixed_overlay(&fs);
    assert!(matches!(encrypted.decrypt_name("not base32!"), Err(Error::Base32Error(_))));
    assert!(matches!(encrypted.decrypt_name("abcdefgh"), Err(Error::Base32Error(_))));
    match encrypted.decrypt_name("AAAA{AAA") {
        Err(Error::Base32Error(e)) => assert_eq!(e.position, 4),
        _ => panic!("expected a Base32 error"),
    }
}

#[test]
fn short_or_foreign_base32_is_not_a_name() {
    let fs = MemoryFs::new();
    let encrypted = fixed_overlay(&fs);
    assert!(matches!(encrypted.decrypt_name(""), Err(Error::InvalidEncodedName)));
    assert!(matches!(encrypted.decrypt_name("MFRGG==="), Err(Error::InvalidEncodedName)));
}

#[test]
fn sealed_bytes_that_are_not_utf8_are_not_a_name() {
    let fs = MemoryFs::new();
    let encrypted = fixed_overlay(&fs);
    let blob = encrypted.encrypt_data(&[0xff, 0xfe, 0x80], &[1u8; 12]).unwrap();
    assert_eq!(encrypted.decrypt_data(&blob).unwrap(), vec![0xff, 0xfe, 0x80]);
    assert!(matches!(encrypted.decrypt_name(&BASE32.encode(&blob)), Err(Error::InvalidEncodedName)));
}

#[test]
fn empty_name_is_refused() {
    let fs = MemoryFs::new();
    let encrypted = fixed_overlay(&fs);
    match encrypted.encrypt_name("") {
        Err(Error::InvalidPathName(name)) => assert_eq!(name, ""),
        _ => panic!("expected an invalid path name"),
    }
    assert!(matches!(encrypted.create(""), Err(Error::InvalidPathName(_))));
    assert!(fs.files.borrow().keys().all(|k| k == CONFIG_PATH));
}

#[test]
fn encrypt_data_puts_the_nonce_first() {
    let fs = MemoryFs::new();
    let encrypted = fixed_overlay(&fs);
    let nonce = [1u8, 2, 3, 4, 5, 6, 7, 8, 9, 10, 11, 12];
    let blob = encrypted.encrypt_data(b"hello", &nonce).unwrap();
    assert_eq!(blob.len(), 5 + 12 + 16);
    assert_eq!(&blob[..12], &nonce);
    assert_eq!(blob, expected_blob(&expected_key(), nonce, b"hello"));
    assert_ne!(&blob[12..17], b"hello");
    assert_eq!(encrypted.decrypt_data(&blob).unwrap(), b"hello");
}

#[test]
fn encrypt_data_refuses_empty_content_and_bad_nonces() {
    let fs = MemoryFs::new();
    let encrypted = fixed_overlay(&fs);
    assert!(matches!(encrypted.encrypt_data(&[], &[0u8; 12]), Err(Error::InvalidInput)));
    assert!(matches!(encrypted.encrypt_data(b"x", &[0u8; 11]), Err(Error::CryptoError)));
    assert!(matches!(encrypted.encrypt_data(b"x", &[0u8; 13]), Err(Error::CryptoError)));
    assert!(matches!(encrypted.encrypt_data(b"x", &[]), Err(Error::CryptoError)));
    assert!(matches!(encrypted.encrypt_data(&[], &[]), Err(Error::InvalidInput)));
}

#[test]
fn a_locked_configuration_encrypts_nothing() {
    let fs = MemoryFs::new();
    let locked = Config::locked([5u8; SALT_SIZE], ITERATIONS).unwrap();
    assert!(matches!(locked.sealing_key(), Err(Error::NotUnlocked)));
    assert!(matches!(locked.opening_key(), Err(Error::NotUnlocked)));
    assert_eq!(locked.salt(), &[5u8; SALT_SIZE]);
    assert_eq!(locked.iterations(), ITERATIONS);
    let encrypted = EncryptedFs::with_custom_random(&fs, locked, RandomSource::fixed(0));
    assert!(matches!(encrypted.encrypt_name("abc"), Err(Error::NotUnlocked)));
    assert!(matches!(encrypted.encrypt_data(b"abc", &[0u8; 12]), Err(Error::NotUnlocked)));
    assert!(matches!(encrypted.decrypt_data(&[0u8; 40]), Err(Error::NotUnlocked)));
    assert!(matches!(encrypted.decrypt_name("MFRGG==="), Err(Error::NotUnlocked)));
    assert!(matches!(encrypted.decrypt_name("not base32!"), Err(Error::Base32Error(_))));
    assert!(matches!(encrypted.encrypt_path("a/b"), Err(Error::NotUnlocked)));
    assert!(matches!(encrypted.mkdir("a"), Err(Error::NotUnlocked)));
    assert!(!encrypted.path_exists("a"));
    assert!(matches!(encrypted.create("a"), Err(Error::NotUnlocked)));
    assert!(matches!(encrypted.encrypt_name(""), Err(Error::InvalidPathName(_))));
    assert_eq!(encrypted.encrypt_path("//").unwrap(), "");
}

#[test]
fn a_locked_configuration_needs_the_floor_too() {
    assert!(matches!(
        Config::locked([0u8; SALT_SIZE], 9_999),
        Err(Error::IterationsNumberTooSmall(9_999))
    ));
    assert!(Config::locked([0u8; SALT_SIZE], 10_000).is_ok());
}

#[test]
fn iteration_floor() {
    assert_eq!(MINIMUM_ITERATIONS, 10_000);
    let fs = MemoryFs::new();
    for iterations in [0u32, 1, 9_999] {
        let result =
            Config::new_with_custom_random(PASSWORD, iterations, &fs, RandomSource::fixed(0));
        match result {
            Err(Error::IterationsNumberTooSmall(n)) => assert_eq!(n, iterations),
            _ => panic!("expected a refusal"),
        }
        assert!(matches!(
            Config::derive(PASSWORD, iterations, &RandomSource::system()),
            Err(Error::IterationsNumberTooSmall(_))
        ));
        assert!(matches!(
            Config::new(PASSWORD, iterations, &fs),
            Err(Error::IterationsNumberTooSmall(_))
        ));
    }
    assert!(fs.files.borrow().is_empty());
    for iterations in [10_000u32, 10_001] {
        let config =
            Config::new_with_custom_random(PASSWORD, iterations, &fs, RandomSource::fixed(0))
                .unwrap();
        assert_eq!(config.iterations(), iterations);
        assert!(Config::derive(PASSWORD, iterations, &RandomSource::system()).is_ok());
    }
}

#[test]
fn derived_key_is_pbkdf2_of_password_and_salt() {
    let config = Config::derive(PASSWORD, ITERATIONS, &RandomSource::fixed(0)).unwrap();
    assert_eq!(config.salt(), &[0u8; SALT_SIZE]);
    assert_eq!(config.sealing_key().unwrap(), &expected_key());
    assert_eq!(config.opening_key().unwrap(), &expected_key());
    assert_ne!(config.sealing_key().unwrap(), &[0u8; 32]);
    let other = Config::derive(PASSWORD, ITERATIONS, &RandomSource::fixed(3)).unwrap();
    assert_eq!(other.salt(), &[3u8; SALT_SIZE]);
    assert_ne!(other.sealing_key().unwrap(), config.sealing_key().unwrap());
    let more = Config::derive(PASSWORD, ITERATIONS + 1, &RandomSource::fixed(0)).unwrap();
    assert_ne!(more.sealing_key().unwrap(), config.sealing_key().unwrap());
}

#[test]
fn system_salts_differ() {
    let one = Config::derive(PASSWORD, ITERATIONS, &RandomSource::system()).unwrap();
    let two = Config::derive(PASSWORD, ITERATIONS, &RandomSource::system()).unwrap();
    assert_ne!(one.salt(), two.salt());
    assert_ne!(one.sealing_key().unwrap(), two.sealing_key().unwrap());
}

#[test]
fn random_source_fills_what_is_asked() {
    assert_eq!(RandomSource::fixed(9).fill(5).unwrap(), vec![9u8; 5]);
    assert_eq!(RandomSource::fixed(0).fill(0).unwrap(), Vec::<u8>::new());
    let system = RandomSource::system();
    assert_eq!(system.fill(12).unwrap().len(), 12);
    assert_eq!(system.fill(0).unwrap().len(), 0);
    assert_ne!(system.fill(32).unwrap(), system.fill(32).unwrap());
}

#[test]
fn stored_form_is_compact_json() {
    let config = Config::derive(PASSWORD, ITERATIONS, &RandomSource::fixed(0)).unwrap();
    assert_eq!(
        String::from_utf8(config.to_json()).unwrap(),
        "{\"salt\":[0,0,0,0,0,0,0,0,0,0,0,0,0,0,0,0],\"iterations\":10000}"
    );
    let locked = Config::locked(
        [0, 1, 9, 10, 11, 99, 100, 101, 199, 200, 254, 255, 7, 70, 17, 128],
        4_294_967_295,
    )
    .unwrap();
    assert_eq!(
        String::from_utf8(locked.to_json()).unwrap(),
        "{\"salt\":[0,1,9,10,11,99,100,101,199,200,254,255,7,70,17,128],\"iterations\":4294967295}"
    );
}

#[test]
fn stored_form_is_read_by_a_json_parser() {
    let config = Config::derive(PASSWORD, 123_456, &RandomSource::fixed(200)).unwrap();
    let value: serde_json::Value = serde_json::from_slice(&config.to_json()).unwrap();
    let object = value.as_object().unwrap();
    assert_eq!(object.len(), 2);
    assert_eq!(object["iterations"].as_u64(), Some(123_456));
    let salt: Vec<u64> =
        object["salt"].as_array().unwrap().iter().map(|v| v.as_u64().unwrap()).collect();
    assert_eq!(salt, vec![200u64; SALT_SIZE]);
}

#[test]
fn configuration_is_stored_when_it_is_made() {
    let fs = MemoryFs::new();
    let config = fixed_config(&fs);
    assert_eq!(CONFIG_PATH, ".rusty-platter.json");
    assert_eq!(fs.stored(CONFIG_PATH), config.to_json());
    let fs = MemoryFs::new();
    let config = Config::new(PASSWORD, ITERATIONS, &fs).unwrap();
    assert_eq!(fs.stored(CONFIG_PATH), config.to_json());
    assert!(config.sealing_key().is_ok());
}

#[test]
fn configuration_that_cannot_be_stored_is_not_returned() {
    let mut fs = MemoryFs::new();
    fs.fail_create = true;
    assert!(matches!(
        Config::new_with_custom_random(PASSWORD, ITERATIONS, &fs, RandomSource::fixed(0)),
        Err(Error::IoError(_))
    ));
    let mut fs = MemoryFs::new();
    fs.fail_writes = true;
    assert!(matches!(
        Config::new_with_custom_random(PASSWORD, ITERATIONS, &fs, RandomSource::fixed(0)),
        Err(Error::IoError(_))
    ));
    let mut fs = MemoryFs::new();
    fs.most_per_write = Some(0);
    assert!(matches!(
        Config::new_with_custom_random(PASSWORD, ITERATIONS, &fs, RandomSource::fixed(0)),
        Err(Error::IoError(_))
    ));
}

#[test]
fn configuration_is_stored_through_short_writes() {
    let mut fs = MemoryFs::new();
    fs.most_per_write = Some(7);
    let config = fixed_config(&fs);
    assert_eq!(fs.stored(CONFIG_PATH), config.to_json());
}

#[test]
fn write_all_hands_over_everything() {
    let mut fs = MemoryFs::new();
    fs.most_per_write = Some(3);
    let mut file = Sink::new(fs.create("f").unwrap());
    write_all(&mut file, b"0123456789").unwrap();
    write_all(&mut file, b"").unwrap();
    assert_eq!(fs.stored("f"), b"0123456789");
    write_all(&mut file, b"ab").unwrap();
    assert_eq!(fs.stored("f"), b"0123456789ab");
}

#[test]
fn write_all_stops_at_the_first_failure() {
    let mut fs = MemoryFs::new();
    fs.most_per_write = Some(0);
    let mut file = Sink::new(fs.create("none").unwrap());
    match write_all(&mut file, b"abc") {
        Err(Error::IoError(e)) => assert_eq!(e.kind(), std::io::ErrorKind::WriteZero),
        _ => panic!("expected an i/o error"),
    }
    write_all(&mut file, b"").unwrap();
    assert!(fs.stored("none").is_empty());
    let mut fs = MemoryFs::new();
    fs.fail_writes = true;
    let mut file = Sink::new(fs.create("fails").unwrap());
    match write_all(&mut file, b"abc") {
        Err(Error::IoError(e)) => assert_eq!(e.kind(), std::io::ErrorKind::Other),
        _ => panic!("expected an i/o error"),
    }
    assert!(fs.stored("fails").is_empty());
}

#[test]
fn a_sink_hands_on_what_it_is_given_and_says_what_was_taken() {
    let mut fs = MemoryFs::new();
    fs.most_per_write = Some(4);
    let mut file = Sink::new(fs.create("f").unwrap());
    assert_eq!(file.write(b"0123456789").unwrap(), 4);
    assert_eq!(file.write(b"45").unwrap(), 2);
    assert_eq!(file.write(b"").unwrap(), 0);
    assert_eq!(fs.stored("f"), b"012345");
    assert_eq!(fs.flushes.get(), 0);
    file.flush().unwrap();
    assert_eq!(fs.flushes.get(), 1);
    file.flush().unwrap();
    assert_eq!(fs.flushes.get(), 2);
    assert_eq!(fs.stored("f"), b"012345");
}

#[test]
fn a_sink_hands_on_the_backends_errors() {
    let mut fs = MemoryFs::new();
    fs.fail_writes = true;
    fs.fail_flush = true;
    let mut file = Sink::new(fs.create("f").unwrap());
    match file.write(b"abc") {
        Err(Error::IoError(e)) => assert_eq!(e.to_string(), "disk full"),
        _ => panic!("expected an i/o error"),
    }
    match file.flush() {
        Err(Error::IoError(e)) => assert_eq!(e.to_string(), "cannot flush"),
        _ => panic!("expected an i/o error"),
    }
    assert_eq!(fs.flushes.get(), 0);
    let mut fs = MemoryFs::new();
    fs.claim_too_much = true;
    let mut file = Sink::new(fs.create("g").unwrap());
    match file.write(b"abc") {
        Err(Error::IoError(e)) => assert_eq!(e.kind(), std::io::ErrorKind::WriteZero),
        _ => panic!("expected an i/o error"),
    }
    assert!(matches!(write_all(&mut file, b"abc"), Err(Error::IoError(_))));
}

#[test]
fn the_stored_form_is_written_whole() {
    let mut fs = MemoryFs::new();
    fs.most_per_write = Some(5);
    let config = Config::derive(PASSWORD, ITERATIONS, &RandomSource::fixed(1)).unwrap();
    let mut file = Sink::new(fs.create("copy").unwrap());
    config.write_to(&mut file).unwrap();
    assert_eq!(fs.stored("copy"), config.to_json());
    assert_eq!(
        String::from_utf8(fs.stored("copy")).unwrap(),
        "{\"salt\":[1,1,1,1,1,1,1,1,1,1,1,1,1,1,1,1],\"iterations\":10000}"
    );
    config.save(&fs).unwrap();
    assert_eq!(fs.stored(CONFIG_PATH), config.to_json());
    fs.fail_writes = true;
    let mut file = Sink::new(fs.create("not").unwrap());
    assert!(matches!(config.write_to(&mut file), Err(Error::IoError(_))));
    assert!(matches!(config.save(&fs), Err(Error::IoError(_))));
}

#[test]
fn flush_reaches_the_backend_and_seals_nothing() {
    let fs = MemoryFs::new();
    let encrypted = fixed_overlay(&fs);
    let mut f = encrypted.create("abc").unwrap();
    assert_eq!(fs.flushes.get(), 0);
    f.flush().unwrap();
    assert_eq!(fs.flushes.get(), 1);
    assert_eq!(f.write(b"hello").unwrap(), 5);
    f.flush().unwrap();
    assert_eq!(fs.flushes.get(), 2);
    assert!(fs.only_file().1.is_empty());
    assert_eq!(f.write(&pattern(USER_BLOCK_SIZE)).unwrap(), USER_BLOCK_SIZE);
    f.flush().unwrap();
    assert_eq!(fs.flushes.get(), 3);
    assert_eq!(fs.only_file().1.len(), BLOCK_SIZE);
    f.close().unwrap();
    assert_eq!(fs.flushes.get(), 4);
    assert_eq!(fs.only_file().1.len(), BLOCK_SIZE + 5 + 28);
}

#[test]
fn a_failing_flush_is_an_error_and_changes_nothing() {
    let config = Config::derive(PASSWORD, ITERATIONS, &RandomSource::fixed(0)).unwrap();
    let mut fs = MemoryFs::new();
    fs.fail_flush = true;
    let encrypted = EncryptedFs::with_custom_random(&fs, config, RandomSource::fixed(0));
    let mut f = encrypted.create("abc").unwrap();
    assert_eq!(f.write(b"hello").unwrap(), 5);
    match f.flush() {
        Err(Error::IoError(e)) => assert_eq!(e.to_string(), "cannot flush"),
        _ => panic!("expected an i/o error"),
    }
    assert!(fs.only_file().1.is_empty());
    assert_eq!(f.write(b" world").unwrap(), 6);
    assert!(matches!(f.close(), Err(Error::IoError(_))));
    assert_eq!(encrypted.decrypt_content(&fs.only_file().1).unwrap(), b"hello world");
    assert!(matches!(f.write(b"more"), Err(Error::InvalidInput)));
}

#[test]
fn whole_write_wants_every_byte() {
    assert!(whole_write(5, 5).is_ok());
    assert!(whole_write(0, 0).is_ok());
    assert!(matches!(whole_write(4, 5), Err(Error::IoError(_))));
    assert!(matches!(whole_write(6, 5), Err(Error::IoError(_))));
    match whole_write(0, 1) {
        Err(Error::IoError(e)) => assert_eq!(e.kind(), std::io::ErrorKind::WriteZero),
        _ => panic!("expected an i/o error"),
    }
}

#[test]
fn part_write_wants_some_byte_and_no_more_than_handed() {
    assert_eq!(part_write(1, 5).unwrap(), 1);
    assert_eq!(part_write(5, 5).unwrap(), 5);
    assert!(matches!(part_write(0, 5), Err(Error::IoError(_))));
    assert!(matches!(part_write(6, 5), Err(Error::IoError(_))));
    assert!(matches!(part_write(0, 0), Err(Error::IoError(_))));
}

#[test]
fn the_last_nonce_is_kept() {
    let fs = MemoryFs::new();
    let encrypted = EncryptedFs::with_custom_random(&fs, fixed_config(&fs), RandomSource::fixed(6));
    let mut f = encrypted.create("abc").unwrap();
    assert_eq!(f.current_nonce(), &[0u8; 12]);
    assert_eq!(f.write(&pattern(USER_BLOCK_SIZE - 1)).unwrap(), USER_BLOCK_SIZE - 1);
    assert_eq!(f.current_nonce(), &[0u8; 12]);
    assert_eq!(f.write(&[1]).unwrap(), 1);
    assert_eq!(f.current_nonce(), &[6u8; 12]);
    assert_eq!(fs.only_file().1[..12], [6u8; 12]);
    let system = system_overlay(&fs);
    let raw = fs.create("raw").unwrap();
    let mut g = rusty_platter::fs::encrypted::file::EncryptedFile::new(raw, &system);
    assert_eq!(g.write(&pattern(2 * USER_BLOCK_SIZE)).unwrap(), 2 * USER_BLOCK_SIZE);
    assert_eq!(g.current_nonce(), &fs.stored("raw")[BLOCK_SIZE..BLOCK_SIZE + 12]);
}

#[test]
fn paths_are_encrypted_segment_by_segment() {
    let fs = MemoryFs::new();
    let encrypted = fixed_overlay(&fs);
    let a = encrypted.encrypt_name("a").unwrap();
    let b = encrypted.encrypt_name("b").unwrap();
    let long = encrypted.encrypt_name("a longer segment").unwrap();
    assert_eq!(encrypted.encrypt_path("a/b").unwrap(), format!("{}/{}", a, b));
    assert_eq!(encrypted.encrypt_path("a").unwrap(), a);
    assert_eq!(
        encrypted.encrypt_path("a/a longer segment/b").unwrap(),
        format!("{}/{}/{}", a, long, b)
    );
    assert_eq!(encrypted.encrypt_path("").unwrap(), "");
    assert_eq!(encrypted.encrypt_path("/").unwrap(), "");
}

#[test]
fn empty_segments_are_dropped() {
    let fs = MemoryFs::new();
    let encrypted = fixed_overlay(&fs);
    let plain = encrypted.encrypt_path("a/b").unwrap();
    assert_eq!(encrypted.encrypt_path("a//b").unwrap(), plain);
    assert_eq!(encrypted.encrypt_path("/a/b").unwrap(), plain);
    assert_eq!(encrypted.encrypt_path("a/b/").unwrap(), plain);
    assert_eq!(encrypted.encrypt_path("//a////b//").unwrap(), plain);
}

#[test]
fn segments_of_a_path_have_nonces_of_their_own() {
    let fs = MemoryFs::new();
    let system = system_overlay(&fs);
    let path = system.encrypt_path("same/same").unwrap();
    let parts: Vec<&str> = path.split('/').collect();
    assert_eq!(parts.len(), 2);
    assert_ne!(parts[0], parts[1]);
    assert_eq!(system.decrypt_name(parts[0]).unwrap(), "same");
    assert_eq!(system.decrypt_name(parts[1]).unwrap(), "same");
}

#[test]
fn paths_split_at_the_separator_that_is_given() {
    let fs = MemoryFs::new();
    let encrypted = fixed_overlay(&fs);
    let a = encrypted.encrypt_name("a").unwrap();
    let b = encrypted.encrypt_name("b").unwrap();
    let ab = encrypted.encrypt_name("a/b").unwrap();
    let slash = encrypted.encrypt_name("/").unwrap();
    assert_eq!(encrypted.encrypt_path_with("a\\b", "\\").unwrap(), format!("{}\\{}", a, b));
    assert_eq!(encrypted.encrypt_path_with("a/b", "\\").unwrap(), ab);
    assert_eq!(encrypted.encrypt_path_with("a::b", "::").unwrap(), format!("{}::{}", a, b));
    assert_eq!(encrypted.encrypt_path_with("a:::b", "::").unwrap(), {
        let colon_b = encrypted.encrypt_name(":b").unwrap();
        format!("{}::{}", a, colon_b)
    });
    assert_eq!(encrypted.encrypt_path_with("a:b", "::").unwrap(), encrypted.encrypt_name("a:b").unwrap());
    assert_eq!(encrypted.encrypt_path_with("a/b", "").unwrap(), format!("{}{}{}", a, slash, b));
    assert_eq!(encrypted.encrypt_path_with("", "").unwrap(), "");
    let u = encrypted.encrypt_name("\u{fc}").unwrap();
    assert_eq!(encrypted.encrypt_path_with("\u{fc}\u{2192}b", "\u{2192}").unwrap(), format!("{}\u{2192}{}", u, b));
}

#[test]
fn separators_are_found_from_the_left_and_do_not_overlap() {
    let fs = MemoryFs::new();
    let encrypted = fixed_overlay(&fs);
    let name = |s: &str| encrypted.encrypt_name(s).unwrap();
    assert_eq!(
        encrypted.encrypt_path_with("ababaabax", "aba").unwrap(),
        format!("{}aba{}", name("ba"), name("x"))
    );
    assert_eq!(encrypted.encrypt_path_with("ababax", "aba").unwrap(), name("bax"));
    assert_eq!(
        encrypted.encrypt_path_with("aaaa", "aa").unwrap(),
        ""
    );
    assert_eq!(encrypted.encrypt_path_with("aaa", "aa").unwrap(), name("a"));
    let std_split: Vec<&str> = "ababaabax".split("aba").filter(|s| !s.is_empty()).collect();
    assert_eq!(std_split, vec!["ba", "x"]);
}

#[test]
fn the_backend_names_the_separator() {
    let mut fs = MemoryFs::new();
    fs.separator = "\\".to_string();
    let encrypted = fixed_overlay(&fs);
    let a = encrypted.encrypt_name("a").unwrap();
    let b = encrypted.encrypt_name("b").unwrap();
    assert_eq!(encrypted.encrypt_path("a\\\\b").unwrap(), format!("{}\\{}", a, b));
    encrypted.mkdir("a\\b").unwrap();
    assert!(fs.dirs.borrow().contains(&format!("{}\\{}", a, b)));
}

#[test]
fn directories_are_made_under_encrypted_paths() {
    let fs = MemoryFs::new();
    let encrypted = fixed_overlay(&fs);
    encrypted.mkdir("abc").unwrap();
    let stored = encrypted.encrypt_path("abc").unwrap();
    assert!(fs.dirs.borrow().contains(&stored));
    assert!(!fs.dirs.borrow().contains("abc"));
    assert!(matches!(encrypted.mkdir("abc"), Err(Error::IoError(_))));
    assert!(encrypted.path_exists("abc"));
    assert!(encrypted.path_exists("/abc/"));
    assert!(!encrypted.path_exists("abd"));
}

#[test]
fn files_are_made_under_the_encrypted_name() {
    let fs = MemoryFs::new();
    let encrypted = fixed_overlay(&fs);
    let file = encrypted.create("a/b").unwrap();
    drop(file);
    let (name, bytes) = fs.only_file();
    assert_eq!(name, encrypted.encrypt_name("a/b").unwrap());
    assert!(bytes.is_empty());
    let mut failing = MemoryFs::new();
    let config = fixed_config(&failing);
    failing.fail_create = true;
    let encrypted = EncryptedFs::with_custom_random(&failing, config, RandomSource::fixed(0));
    assert!(matches!(encrypted.create("abc"), Err(Error::IoError(_))));
}

#[test]
fn block_sizes() {
    assert_eq!(USER_BLOCK_SIZE, 65_536);
    assert_eq!(BLOCK_SIZE, 65_564);
    assert_eq!(BLOCK_SIZE - USER_BLOCK_SIZE, 28);
}

#[test]
fn nothing_is_handed_over_before_a_block_is_full() {
    let fs = MemoryFs::new();
    let encrypted = fixed_overlay(&fs);
    let mut f = encrypted.create("abc").unwrap();
    assert_eq!(f.write(&pattern(USER_BLOCK_SIZE - 1)).unwrap(), USER_BLOCK_SIZE - 1);
    f.flush().unwrap();
    assert!(fs.only_file().1.is_empty());
    assert_eq!(f.write(&[]).unwrap(), 0);
    assert!(fs.only_file().1.is_empty());
    assert_eq!(f.write(&[77]).unwrap(), 1);
    let stored = fs.only_file().1;
    assert_eq!(stored.len(), BLOCK_SIZE);
    let mut written = pattern(USER_BLOCK_SIZE - 1);
    written.push(77);
    assert_eq!(read_back(&encrypted, &stored), vec![written.clone()]);
    assert_eq!(stored, expected_blob(&expected_key(), [0u8; 12], &written));
}

#[test]
fn one_block_in_two_writes_is_one_block_in_one() {
    let fs = MemoryFs::new();
    let encrypted = fixed_overlay(&fs);
    let data = pattern(USER_BLOCK_SIZE);
    let mut twice = encrypted.create("twice").unwrap();
    assert_eq!(twice.write(&data[..40 * 1024]).unwrap(), 40 * 1024);
    assert_eq!(twice.write(&data[40 * 1024..]).unwrap(), 24 * 1024);
    let mut once = encrypted.create("once").unwrap();
    assert_eq!(once.write(&data).unwrap(), 64 * 1024);
    let twice_stored = fs.stored(&encrypted.encrypt_name("twice").unwrap());
    let once_stored = fs.stored(&encrypted.encrypt_name("once").unwrap());
    assert_eq!(twice_stored.len(), BLOCK_SIZE);
    assert_eq!(once_stored.len(), BLOCK_SIZE);
    assert_eq!(twice_stored, once_stored);
    assert_eq!(read_back(&encrypted, &once_stored), vec![data]);
}

#[test]
fn layout_does_not_depend_on_the_writes_under_system_nonces() {
    let fs = MemoryFs::new();
    let encrypted = system_overlay(&fs);
    let data = pattern(2 * USER_BLOCK_SIZE + 100);
    let mut pieces = encrypted.create("pieces").unwrap();
    let mut at = 0;
    for len in [1usize, 65_535, 1, 7, 65_536, 3, 89] {
        assert_eq!(pieces.write(&data[at..at + len]).unwrap(), len);
        at += len;
    }
    assert_eq!(at, data.len());
    let mut whole = encrypted.create("whole").unwrap();
    assert_eq!(whole.write(&data).unwrap(), data.len());
    let mut stored: Vec<Vec<u8>> = fs
        .files
        .borrow()
        .iter()
        .filter(|(k, _)| k.as_str() != CONFIG_PATH)
        .map(|(_, v)| v.borrow().clone())
        .collect();
    assert_eq!(stored.len(), 2);
    let one = stored.pop().unwrap();
    let two = stored.pop().unwrap();
    assert_eq!(one.len(), 2 * BLOCK_SIZE);
    assert_eq!(two.len(), 2 * BLOCK_SIZE);
    assert_ne!(one, two);
    assert_ne!(one[..12], one[BLOCK_SIZE..BLOCK_SIZE + 12]);
    assert_eq!(read_back(&encrypted, &one), read_back(&encrypted, &two));
    assert_eq!(read_back(&encrypted, &one).concat(), &data[..2 * USER_BLOCK_SIZE]);
}

#[test]
fn content_round_trips_through_blocks() {
    let fs = MemoryFs::new();
    for (i, len) in [0usize, 1, 5, 65_535, 65_536, 65_537, 131_072, 200_000].into_iter().enumerate() {
        let encrypted = EncryptedFs::with_custom_random(&fs, fixed_config(&fs), RandomSource::system());
        let name = format!("file{}", i);
        let data = pattern(len);
        let mut f = encrypted.create(&name).unwrap();
        assert_eq!(f.write(&data).unwrap(), len);
        f.close().unwrap();
        let stored: Vec<u8> = fs
            .files
            .borrow()
            .iter()
            .filter(|(k, _)| encrypted.decrypt_name(k).ok().as_deref() == Some(name.as_str()))
            .map(|(_, v)| v.borrow().clone())
            .next()
            .unwrap();
        let blocks = (len + USER_BLOCK_SIZE - 1) / USER_BLOCK_SIZE;
        assert_eq!(stored.len(), len + 28 * blocks);
        let plain = read_back(&encrypted, &stored);
        assert_eq!(plain.len(), blocks);
        assert_eq!(plain.concat(), data);
        assert_eq!(encrypted.decrypt_content(&stored).unwrap(), data);
    }
}

#[test]
fn content_is_read_back_block_by_block() {
    let fs = MemoryFs::new();
    let encrypted = fixed_overlay(&fs);
    assert_eq!(encrypted.decrypt_content(&[]).unwrap(), Vec::<u8>::new());
    let first = pattern(USER_BLOCK_SIZE);
    let mut stored = encrypted.encrypt_data(&first, &[1u8; 12]).unwrap();
    assert_eq!(stored.len(), BLOCK_SIZE);
    assert_eq!(encrypted.decrypt_content(&stored).unwrap(), first);
    stored.extend_from_slice(&encrypted.encrypt_data(b"tail", &[2u8; 12]).unwrap());
    let mut all = first.clone();
    all.extend_from_slice(b"tail");
    assert_eq!(encrypted.decrypt_content(&stored).unwrap(), all);
    let mut changed = stored.clone();
    changed[BLOCK_SIZE + 20] ^= 1;
    assert!(matches!(encrypted.decrypt_content(&changed), Err(Error::InvalidEncodedName)));
    let mut changed = stored.clone();
    changed[100] ^= 1;
    assert!(matches!(encrypted.decrypt_content(&changed), Err(Error::InvalidEncodedName)));
    assert!(matches!(
        encrypted.decrypt_content(&stored[..stored.len() - 1]),
        Err(Error::InvalidEncodedName)
    ));
    assert!(matches!(encrypted.decrypt_content(&stored[1..]), Err(Error::InvalidEncodedName)));
    assert!(matches!(encrypted.decrypt_content(&[0u8; 5]), Err(Error::InvalidEncodedName)));
    let short_then_full: Vec<u8> = [
        encrypted.encrypt_data(b"tail", &[2u8; 12]).unwrap(),
        encrypted.encrypt_data(&first, &[1u8; 12]).unwrap(),
    ]
    .concat();
    assert!(matches!(encrypted.decrypt_content(&short_then_full), Err(Error::InvalidEncodedName)));
    let locked = Config::locked([0u8; SALT_SIZE], ITERATIONS).unwrap();
    let closed = EncryptedFs::with_custom_random(&fs, locked, RandomSource::fixed(0));
    assert!(matches!(closed.decrypt_content(&stored), Err(Error::NotUnlocked)));
    assert!(matches!(closed.decrypt_content(&[]), Err(Error::NotUnlocked)));
}

#[test]
fn close_seals_the_short_last_block() {
    let fs = MemoryFs::new();
    let encrypted = fixed_overlay(&fs);
    let mut f = encrypted.create("abc").unwrap();
    assert_eq!(f.write(b"hello").unwrap(), 5);
    f.flush().unwrap();
    assert!(fs.only_file().1.is_empty());
    f.close().unwrap();
    let stored = fs.only_file().1;
    assert_eq!(stored.len(), 5 + 28);
    assert_eq!(stored, expected_blob(&expected_key(), [0u8; 12], b"hello"));
    f.close().unwrap();
    assert_eq!(fs.only_file().1, stored);
    assert!(matches!(f.write(b"more"), Err(Error::InvalidInput)));
    assert!(matches!(f.write(b""), Err(Error::InvalidInput)));
    assert_eq!(fs.only_file().1, stored);
}

#[test]
fn closing_an_empty_file_seals_nothing() {
    let fs = MemoryFs::new();
    let encrypted = fixed_overlay(&fs);
    let mut f = encrypted.create("abc").unwrap();
    f.close().unwrap();
    assert!(fs.only_file().1.is_empty());
    let mut g = encrypted.create("full").unwrap();
    assert_eq!(g.write(&pattern(USER_BLOCK_SIZE)).unwrap(), USER_BLOCK_SIZE);
    g.close().unwrap();
    assert_eq!(fs.stored(&encrypted.encrypt_name("full").unwrap()).len(), BLOCK_SIZE);
}

#[test]
fn a_failing_backend_fails_the_write_and_keeps_what_waits() {
    let config = Config::derive(PASSWORD, ITERATIONS, &RandomSource::fixed(0)).unwrap();
    let mut fs = MemoryFs::new();
    fs.fail_writes = true;
    let encrypted = EncryptedFs::with_custom_random(&fs, config, RandomSource::fixed(0));
    let mut f = encrypted.create("abc").unwrap();
    assert_eq!(f.write(&pattern(100)).unwrap(), 100);
    assert!(matches!(f.write(&pattern(USER_BLOCK_SIZE)), Err(Error::IoError(_))));
    assert!(matches!(f.close(), Err(Error::IoError(_))));
    assert_eq!(f.write(&pattern(10)).unwrap(), 10);
    assert!(fs.only_file().1.is_empty());
}

#[test]
fn a_short_write_of_a_block_is_an_error() {
    let config = Config::derive(PASSWORD, ITERATIONS, &RandomSource::fixed(0)).unwrap();
    let mut fs = MemoryFs::new();
    fs.most_per_write = Some(BLOCK_SIZE - 1);
    let encrypted = EncryptedFs::with_custom_random(&fs, config, RandomSource::fixed(0));
    let mut f = encrypted.create("abc").unwrap();
    match f.write(&pattern(USER_BLOCK_SIZE)) {
        Err(Error::IoError(e)) => assert_eq!(e.kind(), std::io::ErrorKind::WriteZero),
        _ => panic!("expected an i/o error"),
    }
    assert_eq!(f.write(&pattern(USER_BLOCK_SIZE - 1)).unwrap(), USER_BLOCK_SIZE - 1);
}

#[test]
fn a_write_that_fails_midway_keeps_the_blocks_before() {
    let config = Config::derive(PASSWORD, ITERATIONS, &RandomSource::fixed(0)).unwrap();
    let locked = Config::locked([0u8; SALT_SIZE], ITERATIONS).unwrap();
    let fs = MemoryFs::new();
    let encrypted = EncryptedFs::with_custom_random(&fs, config, RandomSource::fixed(0));
    let raw = fs.create("raw").unwrap();
    let closed = EncryptedFs::with_custom_random(&fs, locked, RandomSource::fixed(0));
    let mut f = rusty_platter::fs::encrypted::file::EncryptedFile::new(raw, &closed);
    assert_eq!(f.write(&pattern(USER_BLOCK_SIZE - 1)).unwrap(), USER_BLOCK_SIZE - 1);
    assert!(matches!(f.write(&[1, 2]), Err(Error::NotUnlocked)));
    assert!(matches!(f.close(), Err(Error::NotUnlocked)));
    assert!(fs.stored("raw").is_empty());
    drop(f);
    let raw = fs.create("raw2").unwrap();
    let mut g = rusty_platter::fs::encrypted::file::EncryptedFile::new(raw, &encrypted);
    assert_eq!(g.write(&pattern(3 * USER_BLOCK_SIZE + 1)).unwrap(), 3 * USER_BLOCK_SIZE + 1);
    assert_eq!(fs.stored("raw2").len(), 3 * BLOCK_SIZE);
}

#[test]
fn known_answers() {
    let fs = MemoryFs::new();
    let config = fixed_config(&fs);
    assert_eq!(
        config.sealing_key().unwrap(),
        &[
            126, 170, 162, 19, 237, 160, 70, 60, 119, 68, 107, 102, 105, 3, 181, 3, 92, 132, 7,
            92, 95, 124, 186, 206, 16, 170, 197, 74, 45, 214, 103, 79
        ]
    );
    let encrypted = EncryptedFs::with_custom_random(&fs, config, RandomSource::fixed(0));
    assert_eq!(
        encrypted.encrypt_name("abc").unwrap(),
        "AAAAAAAAAAAAAAAAAAAI3OS4UOIMSERUPM7IBW2OMP2TQUDEI4======"
    );
    assert_eq!(
        encrypted.encrypt_name("path name").unwrap(),
        "AAAAAAAAAAAAAAAAAAAJZOKLVZ57Y75XWQKVVD45WPY5YAFLLRIAQFUH5VCA===="
    );
    assert_eq!(
        encrypted
            .decrypt_name("AAAAAAAAAAAAAAAAAAAJZOKLVZ57Y75XWQKVVD45WPY5YAFLLRIAQFUH5VCA====")
            .unwrap(),
        "path name"
    );
    assert_eq!(
        encrypted.encrypt_data(b"hello", &[1, 2, 3, 4, 5, 6, 7, 8, 9, 10, 11, 12]).unwrap(),
        vec![
            1, 2, 3, 4, 5, 6, 7, 8, 9, 10, 11, 12, 12, 73, 122, 27, 208, 191, 99, 220, 109, 126,
            135, 158, 208, 218, 252, 225, 193, 248, 122, 200, 221
        ]
    );
    assert_eq!(
        encrypted
            .decrypt_data(&[
                1, 2, 3, 4, 5, 6, 7, 8, 9, 10, 11, 12, 12, 73, 122, 27, 208, 191, 99, 220, 109,
                126, 135, 158, 208, 218, 252, 225, 193, 248, 122, 200, 221
            ])
            .unwrap(),
        b"hello"
    );
    assert_eq!(
        encrypted.encrypt_path("a//b").unwrap(),
        "AAAAAAAAAAAAAAAAAAAI26QID22WWO7NN42R6WMLLX3GP5Q=/AAAAAAAAAAAAAAAAAAAI5SKPW3QQZPP7BSI5KQVO7N2YT7Y="
    );
}

#[test]
fn unlocking_gives_the_keys_of_the_password() {
    let fs = MemoryFs::new();
    let made = fixed_config(&fs);
    let mut read = Config::locked(*made.salt(), made.iterations()).unwrap();
    assert!(read.sealing_key().is_err());
    read.unlock(PASSWORD).unwrap();
    assert_eq!(read.sealing_key().unwrap(), made.sealing_key().unwrap());
    assert_eq!(read.opening_key().unwrap(), &expected_key());
    assert_eq!(read.salt(), made.salt());
    assert_eq!(read.iterations(), ITERATIONS);
    let encrypted = EncryptedFs::with_custom_random(&fs, made, RandomSource::fixed(0));
    let text = encrypted.encrypt_name("abc").unwrap();
    let reopened = EncryptedFs::new(&fs, read);
    assert_eq!(reopened.decrypt_name(&text).unwrap(), "abc");
    let mut wrong = Config::locked([0u8; SALT_SIZE], ITERATIONS).unwrap();
    wrong.unlock("not the password").unwrap();
    let other = EncryptedFs::new(&fs, wrong);
    assert!(matches!(other.decrypt_name(&text), Err(Error::InvalidEncodedName)));
}
