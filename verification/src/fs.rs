//! The storage backend, as the library sees it.
//!
//! Both traits are implemented by whoever provides the storage. Nothing is
//! known of an implementation, so no contract here promises anything of one.
//! What can be said of a backend file follows from its answers alone, and a
//! `Sink` keeps the record of them.

pub mod encrypted;
pub mod local;

use crate::result::Error;
use vstd::prelude::*;

verus! {

/// A handle that takes bytes in order.
pub trait File {
    /// Takes some leading part of `content` and says how many bytes it took.
    fn write(&mut self, content: &[u8]) -> Result<usize, std::io::Error>;

    /// Hands on what has been taken so far.
    fn flush(&mut self) -> Result<(), std::io::Error>;
}

/// A hierarchical store of directories and files.
pub trait Filesystem {
    /// The text that separates the segments of a path.
    fn path_separator(&self) -> String;

    /// Creates a directory.
    fn mkdir(&self, path: &str) -> Result<(), Error>;

    /// Moves a file or directory.
    fn mv(&self, from: &str, to: &str) -> Result<(), Error>;

    /// Removes a file, or a directory with what it holds.
    fn rm(&self, path: &str) -> Result<(), Error>;

    /// Whether something is stored under `path`.
    fn path_exists(&self, path: &str) -> bool;

    /// Opens what is stored under `path`.
    fn open(&self, path: &str) -> Result<Box<dyn File>, Error>;

    /// Creates a file under `path`, empty.
    fn create(&self, path: &str) -> Result<Box<dyn File>, Error>;
}

/// The error for a backend file that took fewer bytes than it was handed.
///
/// Trusted: calls `std::io::Error::from` on `ErrorKind::WriteZero`; the
/// result is carried only, so nothing is claimed of it.
#[verifier::external_body]
fn write_zero() -> std::io::Error {
    std::io::Error::from(std::io::ErrorKind::WriteZero)
}

/// What a backend file's answer to one `write` of `handed` bytes means when
/// the whole buffer had to be taken: success exactly when `taken == handed`.
pub fn whole_write(taken: usize, handed: usize) -> (r: Result<(), Error>)
    ensures
        r is Ok <==> taken == handed,
        r matches Err(e) ==> e is IoError,
{
    if taken == handed {
        Ok(())
    } else {
        Err(Error::IoError(write_zero()))
    }
}

/// What a backend file's answer to one `write` of `handed` bytes means when
/// any part of the buffer may be taken: the count is accepted exactly when
/// it is more than nothing and no more than was handed.
pub fn part_write(taken: usize, handed: usize) -> (r: Result<usize, Error>)
    ensures
        r is Ok <==> 0 < taken <= handed,
        r matches Ok(n) ==> n == taken,
        r matches Err(e) ==> e is IoError,
{
    if taken == 0 || taken > handed {
        Err(Error::IoError(write_zero()))
    } else {
        Ok(taken)
    }
}

/// A file of the backend, together with a record of what has passed
/// through it: the bytes that the backend said it took, in order, and how
/// many of them it had taken when it last said that all were handed on.
///
/// Nothing is known of the backend but its answers, and the record holds
/// what follows from them.
pub struct Sink {
    file: Box<dyn File>,
    taken: Ghost<Seq<u8>>,
    flushed: Ghost<nat>,
}

impl Sink {
    /// The bytes that the backend has taken, in order.
    pub closed spec fn taken(&self) -> Seq<u8> {
        self.taken@
    }

    /// How many bytes the backend had taken when it last answered a flush
    /// with success.
    pub closed spec fn flushed(&self) -> nat {
        self.flushed@
    }

    /// A record for `file`, through which nothing has passed yet.
    pub fn new(file: Box<dyn File>) -> (r: Sink)
        ensures
            r.taken() == Seq::<u8>::empty(),
            r.flushed() == 0,
    {
        Sink { file, taken: Ghost(Seq::empty()), flushed: Ghost(0) }
    }

    /// Hands `content` to the backend once, and says how many of its first
    /// bytes the backend took. They are added to the record.
    ///
    /// The backend's error is handed on as `IoError`, and so is a count
    /// above what was handed over; nothing is recorded then.
    pub fn write(&mut self, content: &[u8]) -> (r: Result<usize, Error>)
        ensures
            final(self).flushed() == old(self).flushed(),
            match r {
                Ok(n) => n <= content@.len() && final(self).taken() == old(self).taken()
                    + content@.take(n as int),
                Err(e) => e is IoError && final(self).taken() == old(self).taken(),
            },
    {
        match self.file.write(content) {
            Ok(n) => {
                if n > content.len() {
                    Err(Error::IoError(write_zero()))
                } else {
                    self.taken = Ghost(self.taken@ + content@.take(n as int));
                    Ok(n)
                }
            },
            Err(e) => Err(Error::IoError(e)),
        }
    }

    /// Asks the backend to hand on what it has taken. Where it says that it
    /// did, all that was taken so far counts as handed on.
    pub fn flush(&mut self) -> (r: Result<(), Error>)
        ensures
            final(self).taken() == old(self).taken(),
            match r {
                Ok(_) => final(self).flushed() == old(self).taken().len(),
                Err(e) => e is IoError && final(self).flushed() == old(self).flushed(),
            },
    {
        match self.file.flush() {
            Ok(()) => {
                self.flushed = Ghost(self.taken@.len());
                Ok(())
            },
            Err(e) => Err(Error::IoError(e)),
        }
    }
}

/// Hands all of `content` to `file`, in as many writes as it takes: after
/// every write, what the backend did not take is handed to it again.
///
/// On success the backend has taken all of `content`, in order and once.
/// The first write that fails, or that takes nothing, ends the attempt with
/// `IoError`; the backend has then taken some first part of `content`, and
/// not all of it. Nothing is written, and nothing fails, where `content` is
/// empty.
pub fn write_all(file: &mut Sink, content: &[u8]) -> (r: Result<(), Error>)
    ensures
        final(file).flushed() == old(file).flushed(),
        match r {
            Ok(_) => final(file).taken() == old(file).taken() + content@,
            Err(e) => {
                &&& e is IoError
                &&& exists|k: int|
                    0 <= k < content@.len() && final(file).taken() == old(file).taken()
                        + #[trigger] content@.take(k)
            },
        },
        content@.len() == 0 ==> r is Ok,
{
    let mut done: usize = 0;
    assert(file.taken() == old(file).taken() + content@.take(0));
    while done < content.len()
        invariant
            done <= content@.len(),
            file.flushed() == old(file).flushed(),
            file.taken() == old(file).taken() + content@.take(done as int),
        decreases content.len() - done,
    {
        let rest = vstd::slice::slice_subrange(content, done, content.len());
        let taken = match file.write(rest) {
            Ok(taken) => taken,
            Err(e) => {
                return Err(e);
            },
        };
        assert(content@.take(done as int) + rest@.take(taken as int) == content@.take(
            done + taken,
        ));
        let taken = match part_write(taken, content.len() - done) {
            Ok(taken) => taken,
            Err(e) => {
                assert(taken == 0);
                return Err(e);
            },
        };
        done = done + taken;
    }
    assert(content@.take(done as int) == content@);
    Ok(())
}

} // verus!
