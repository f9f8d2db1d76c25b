//! The local disk as a storage backend: how its paths are formed.

use vstd::prelude::*;

verus! {

/// `std::path::PathBuf`, a path as the operating system takes it; carried
/// without being looked into.
#[verifier::external_type_specification]
#[verifier::external_body]
pub struct ExPathBuf(std::path::PathBuf);

/// A directory of the local disk, under which everything is stored.
#[derive(Debug)]
pub struct LocalFileSystem<'a> {
    /// The directory, as the caller named it.
    pub base_path: &'a str,
}

/// Trusted: reads `std::path::MAIN_SEPARATOR`. Claimed of it: it is `/` or
/// `\`, whichever the platform uses.
#[verifier::external_body]
fn main_separator() -> (c: char)
    ensures
        c == '/' || c == '\\',
{
    std::path::MAIN_SEPARATOR
}

/// Trusted: calls `String::from` on a `char`. Claimed of it: the text holds
/// that character and nothing else.
#[verifier::external_body]
fn text_of_char(c: char) -> (r: String)
    ensures
        r@ == seq![c],
{
    String::from(c)
}

/// Trusted: calls `std::path::Path::join` on `base` and `path`. The value
/// is carried only, so nothing is claimed of it.
#[verifier::external_body]
fn joined(base: &str, path: &str) -> std::path::PathBuf {
    std::path::Path::new(base).join(path)
}

/// Trusted: calls `std::path::Path::exists`, which asks the disk, so nothing
/// is claimed of the answer.
#[verifier::external_body]
fn on_disk(path: &std::path::PathBuf) -> bool {
    path.exists()
}

impl<'a> LocalFileSystem<'a> {
    /// A backend rooted at `base_path`.
    pub fn new(base_path: &'a str) -> (r: Self)
        ensures
            r.base_path == base_path,
    {
        LocalFileSystem { base_path }
    }

    /// The platform's separator, as text of one character.
    pub fn path_separator(&self) -> (r: String)
        ensures
            r@ == seq!['/'] || r@ == seq!['\\'],
    {
        text_of_char(main_separator())
    }

    /// Where `path` lies on disk: `base_path` joined with it.
    pub fn real_path(&self, path: &str) -> std::path::PathBuf {
        joined(self.base_path, path)
    }

    /// Whether the disk holds something under `path`.
    pub fn path_exists(&self, path: &str) -> bool {
        on_disk(&self.real_path(path))
    }
}

} // verus!
