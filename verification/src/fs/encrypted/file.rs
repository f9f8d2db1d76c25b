//! A file whose content is sealed block by block as it is written.

use crate::aead::{NONCE_SIZE, TAG_SIZE};
use crate::fs::encrypted::{is_sealing, opened_blob, opened_content, EncryptedFs};
use crate::fs::{whole_write, File, Sink};
use crate::random::{repeated, RandomSource};
use crate::result::Error;
use vstd::prelude::*;
use vstd::slice::slice_subrange;

verus! {

/// Length of the plaintext of one full block, in bytes.
pub const USER_BLOCK_SIZE: usize = 64 * 1024;

/// Length of one full block as it is stored: nonce, ciphertext and tag.
pub const BLOCK_SIZE: usize = USER_BLOCK_SIZE + NONCE_SIZE + TAG_SIZE;

/// `blocks` one after the other.
pub open spec fn concat(blocks: Seq<Seq<u8>>) -> Seq<u8>
    decreases blocks.len(),
{
    if blocks.len() == 0 {
        Seq::empty()
    } else {
        concat(blocks.drop_last()) + blocks.last()
    }
}

/// Blocks one after the other begin with the first of them.
pub proof fn lemma_concat_front(blocks: Seq<Seq<u8>>)
    requires
        blocks.len() > 0,
    ensures
        concat(blocks) == blocks[0] + concat(blocks.drop_first()),
    decreases blocks.len(),
{
    if blocks.len() == 1 {
        assert(concat(blocks.drop_last()) == Seq::<u8>::empty());
        assert(concat(blocks.drop_first()) == Seq::<u8>::empty());
    } else {
        lemma_concat_front(blocks.drop_last());
        assert(blocks.drop_last().drop_first() == blocks.drop_first().drop_last());
        assert(blocks.drop_last()[0] == blocks[0]);
        assert(blocks.drop_first().last() == blocks.last());
    }
}

/// Stored blocks are told apart by their length alone: where every sealed
/// block but the last has `BLOCK_SIZE` bytes, and each opens to its
/// plaintext, the sealed blocks one after the other are read back as the
/// plaintexts one after the other.
pub proof fn lemma_blocks_open(key: Seq<u8>, plain: Seq<Seq<u8>>, sealed: Seq<Seq<u8>>)
    requires
        plain.len() == sealed.len(),
        forall|i: int|
            0 <= i < sealed.len() ==> opened_blob(key, #[trigger] sealed[i]) == Some(plain[i]),
        forall|i: int| 0 <= i < sealed.len() ==> 0 < (#[trigger] sealed[i]).len() <= BLOCK_SIZE,
        forall|i: int| 0 <= i < sealed.len() - 1 ==> (#[trigger] sealed[i]).len() == BLOCK_SIZE,
    ensures
        opened_content(key, concat(sealed)) == Some(concat(plain)),
    decreases sealed.len(),
{
    if sealed.len() == 0 {
        assert(concat(sealed) == Seq::<u8>::empty());
        assert(concat(plain) == Seq::<u8>::empty());
    } else {
        let stored = concat(sealed);
        let later = sealed.drop_first();
        lemma_concat_front(sealed);
        lemma_concat_front(plain);
        assert forall|i: int| 0 <= i < later.len() implies opened_blob(key, #[trigger] later[i])
            == Some(plain.drop_first()[i]) by {
            assert(later[i] == sealed[i + 1]);
            assert(plain.drop_first()[i] == plain[i + 1]);
        }
        assert forall|i: int| 0 <= i < later.len() implies 0 < (#[trigger] later[i]).len()
            <= BLOCK_SIZE by {
            assert(later[i] == sealed[i + 1]);
        }
        assert forall|i: int| 0 <= i < later.len() - 1 implies (#[trigger] later[i]).len()
            == BLOCK_SIZE by {
            assert(later[i] == sealed[i + 1]);
        }
        lemma_blocks_open(key, plain.drop_first(), later);
        let len = if stored.len() < BLOCK_SIZE {
            stored.len() as int
        } else {
            BLOCK_SIZE as int
        };
        if sealed.len() == 1 {
            assert(concat(later) == Seq::<u8>::empty());
        }
        assert(len == sealed[0].len());
        assert(stored.take(len) == sealed[0]);
        assert(stored.skip(len) == concat(later));
    }
}

/// Every one of `blocks` is full.
pub open spec fn all_full(blocks: Seq<Seq<u8>>) -> bool {
    forall|i: int| 0 <= i < blocks.len() ==> (#[trigger] blocks[i]).len() == USER_BLOCK_SIZE
}

/// Full blocks one after the other: block `i` stands at `i` times the
/// length of a block.
pub proof fn lemma_concat_full(blocks: Seq<Seq<u8>>)
    requires
        all_full(blocks),
    ensures
        concat(blocks).len() == blocks.len() * USER_BLOCK_SIZE,
        forall|i: int|
            0 <= i < blocks.len() ==> concat(blocks).subrange(
                i * USER_BLOCK_SIZE,
                (i + 1) * USER_BLOCK_SIZE,
            ) == #[trigger] blocks[i],
    decreases blocks.len(),
{
    if blocks.len() > 0 {
        let front = blocks.drop_last();
        assert(all_full(front)) by {
            assert forall|i: int| 0 <= i < front.len() implies (#[trigger] front[i]).len()
                == USER_BLOCK_SIZE by {
                assert(front[i] == blocks[i]);
            }
        }
        lemma_concat_full(front);
        let whole = concat(blocks);
        assert(whole == concat(front) + blocks.last());
        assert forall|i: int| 0 <= i < blocks.len() implies whole.subrange(
            i * USER_BLOCK_SIZE,
            (i + 1) * USER_BLOCK_SIZE,
        ) == #[trigger] blocks[i] by {
            if i < front.len() {
                assert(front[i] == blocks[i]);
                assert(whole.subrange(i * USER_BLOCK_SIZE, (i + 1) * USER_BLOCK_SIZE) == concat(
                    front,
                ).subrange(i * USER_BLOCK_SIZE, (i + 1) * USER_BLOCK_SIZE));
            } else {
                assert(whole.subrange(i * USER_BLOCK_SIZE, (i + 1) * USER_BLOCK_SIZE)
                    == blocks.last());
            }
        }
    }
}

/// Content decides its layout: where full blocks are followed by less than
/// a block, their number is the content's length divided by the length of a
/// block, and each block and the rest are the content's bytes at their
/// place. So it does not matter in how many writes the content came.
pub proof fn lemma_layout(blocks: Seq<Seq<u8>>, rest: Seq<u8>)
    requires
        all_full(blocks),
        rest.len() < USER_BLOCK_SIZE,
    ensures
        blocks.len() == (concat(blocks) + rest).len() / (USER_BLOCK_SIZE as nat),
        rest.len() == (concat(blocks) + rest).len() % (USER_BLOCK_SIZE as nat),
        forall|i: int|
            0 <= i < blocks.len() ==> #[trigger] blocks[i] == (concat(blocks) + rest).subrange(
                i * USER_BLOCK_SIZE,
                (i + 1) * USER_BLOCK_SIZE,
            ),
        rest == (concat(blocks) + rest).skip(blocks.len() * USER_BLOCK_SIZE),
{
    lemma_concat_full(blocks);
    let content = concat(blocks) + rest;
    assert forall|i: int| 0 <= i < blocks.len() implies #[trigger] blocks[i] == content.subrange(
        i * USER_BLOCK_SIZE,
        (i + 1) * USER_BLOCK_SIZE,
    ) by {
        assert(content.subrange(i * USER_BLOCK_SIZE, (i + 1) * USER_BLOCK_SIZE) == concat(
            blocks,
        ).subrange(i * USER_BLOCK_SIZE, (i + 1) * USER_BLOCK_SIZE));
    }
    assert(rest == content.skip(blocks.len() * USER_BLOCK_SIZE));
}

/// Two layouts of the same content are the same layout.
pub proof fn lemma_layout_unique(one: Seq<Seq<u8>>, rest1: Seq<u8>, two: Seq<Seq<u8>>, rest2: Seq<u8>)
    requires
        all_full(one),
        all_full(two),
        rest1.len() < USER_BLOCK_SIZE,
        rest2.len() < USER_BLOCK_SIZE,
        concat(one) + rest1 == concat(two) + rest2,
    ensures
        one == two,
        rest1 == rest2,
{
    lemma_layout(one, rest1);
    lemma_layout(two, rest2);
    assert(one =~= two);
}

/// Overwrites `target` from index `at` on with `source`.
fn copy_into(target: &mut Vec<u8>, at: usize, source: &[u8])
    requires
        at + source@.len() <= old(target)@.len(),
    ensures
        final(target)@ == old(target)@.take(at as int) + source@ + old(target)@.skip(
            at + source@.len(),
        ),
{
    let mut i: usize = 0;
    while i < source.len()
        invariant
            i <= source.len(),
            at + source@.len() <= target@.len(),
            target@.len() == old(target)@.len(),
            target@ == old(target)@.take(at as int) + source@.take(i as int) + old(target)@.skip(
                at + i,
            ),
        decreases source.len() - i,
    {
        assert(at + i < target.len());
        target.set(at + i, source[i]);
        i = i + 1;
    }
}

/// A file of the backend, written through encryption.
///
/// Bytes are gathered until they fill a block; the block is then sealed
/// under a nonce of its own and handed to the backend. What does not fill a
/// block waits, and is sealed as a last, shorter block when the file is
/// closed.
pub struct EncryptedFile<'a, 'b> {
    filesystem: &'a EncryptedFs<'b>,
    file: Sink,
    buffer: Vec<u8>,
    buffer_filled_length: usize,
    current_nonce: Vec<u8>,
    closed: bool,
    log: Ghost<Seq<(Seq<u8>, Seq<u8>)>>,
}

impl<'a, 'b> EncryptedFile<'a, 'b> {
    /// Where the nonces of the blocks come from.
    pub closed spec fn random(&self) -> RandomSource {
        self.filesystem.random()
    }

    /// The key under which blocks are sealed.
    pub closed spec fn key(&self) -> Option<Seq<u8>> {
        self.filesystem.key()
    }

    /// The bytes that wait for their block to fill.
    pub closed spec fn pending(&self) -> Seq<u8> {
        self.buffer@.take(self.buffer_filled_length as int)
    }

    /// The plaintext of every block that the backend has taken, in order.
    pub closed spec fn plain(&self) -> Seq<Seq<u8>> {
        Seq::new(self.log@.len(), |i: int| self.log@[i].0)
    }

    /// Every block that the backend has taken, as it was handed over.
    pub closed spec fn sealed(&self) -> Seq<Seq<u8>> {
        Seq::new(self.log@.len(), |i: int| self.log@[i].1)
    }

    /// Whether the file has been closed.
    pub closed spec fn is_closed(&self) -> bool {
        self.closed
    }

    /// The bytes that the backend has taken for this file, in order.
    pub closed spec fn written(&self) -> Seq<u8> {
        self.file.taken()
    }

    /// How many bytes the backend had taken when it last answered a flush
    /// with success.
    pub closed spec fn flushed(&self) -> nat {
        self.file.flushed()
    }

    /// The backend holds the sealed blocks, one after the other, and nothing
    /// else. This is so until the backend takes a block in part only.
    pub open spec fn intact(&self) -> bool {
        self.written() == concat(self.sealed())
    }

    /// The whole buffer: what waits, and behind it what earlier blocks left.
    pub closed spec fn buffer_bytes(&self) -> Seq<u8> {
        self.buffer@
    }

    /// The nonce that was drawn last.
    pub closed spec fn last_nonce(&self) -> Seq<u8> {
        self.current_nonce@
    }

    /// Everything that has been written: the blocks taken, then what waits.
    pub open spec fn content(&self) -> Seq<u8> {
        concat(self.plain()) + self.pending()
    }

    /// Block `i` opens to its plaintext under the key, its nonce is one that
    /// the source of nonces gives, and it is full unless it is the last of a
    /// closed file.
    pub open spec fn block_laid_out(&self, i: int) -> bool {
        &&& self.key() matches Some(key)
        &&& is_sealing(
            key,
            self.sealed()[i].take(NONCE_SIZE as int),
            self.plain()[i],
            self.sealed()[i],
        )
        &&& self.random().may_draw(NONCE_SIZE as nat, self.sealed()[i].take(NONCE_SIZE as int))
        &&& 0 < self.plain()[i].len() <= USER_BLOCK_SIZE
        &&& self.plain()[i].len() < USER_BLOCK_SIZE ==> self.is_closed() && i == self.plain().len()
            - 1
    }

    /// How content lies in blocks: every block that was taken is laid out,
    /// less than a block waits, and nothing waits in a closed file.
    pub open spec fn laid_out(&self) -> bool {
        &&& self.plain().len() == self.sealed().len()
        &&& self.pending().len() < USER_BLOCK_SIZE
        &&& self.is_closed() ==> self.pending().len() == 0
        &&& forall|i: int| 0 <= i < self.plain().len() ==> #[trigger] self.block_laid_out(i)
    }

    /// What holds of every file that the library hands out, and what every
    /// method keeps: the buffer is one block long and not full, and content
    /// is laid out in blocks.
    pub closed spec fn well_formed(&self) -> bool {
        &&& self.buffer@.len() == USER_BLOCK_SIZE
        &&& self.buffer_filled_length < USER_BLOCK_SIZE
        &&& self.current_nonce@.len() == NONCE_SIZE
        &&& self.sealed().len() > 0 ==> self.current_nonce@ == self.sealed().last().take(
            NONCE_SIZE as int,
        )
        &&& self.laid_out()
    }

    /// The nonce of the block that was sealed last.
    pub fn current_nonce(&self) -> (r: &[u8])
        requires
            self.well_formed(),
        ensures
            r@ == self.last_nonce(),
            r@.len() == NONCE_SIZE,
            self.sealed().len() > 0 ==> r@ == self.sealed().last().take(NONCE_SIZE as int),
    {
        self.current_nonce.as_slice()
    }

    /// A file with the blocks of a laid out one, and with no more waiting
    /// than a block holds, is laid out too.
    proof fn lemma_same_blocks(&self, other: &Self)
        requires
            other.laid_out(),
            self.plain() == other.plain(),
            self.sealed() == other.sealed(),
            self.key() == other.key(),
            self.random() == other.random(),
            other.is_closed() ==> self.is_closed(),
            self.pending().len() < USER_BLOCK_SIZE,
            self.is_closed() ==> self.pending().len() == 0,
        ensures
            self.laid_out(),
    {
        assert forall|i: int| 0 <= i < self.plain().len() implies #[trigger] self.block_laid_out(
            i,
        ) by {
            assert(other.block_laid_out(i));
        }
    }

    /// The blocks of the file that are full: all of them, or all but the
    /// last of a closed file where that one is shorter.
    pub open spec fn full_blocks(&self) -> Seq<Seq<u8>> {
        if self.plain().len() > 0 && self.plain().last().len() < USER_BLOCK_SIZE {
            self.plain().drop_last()
        } else {
            self.plain()
        }
    }

    /// What follows the full blocks: the shorter last block of a closed
    /// file, or else what waits.
    pub open spec fn tail(&self) -> Seq<u8> {
        if self.plain().len() > 0 && self.plain().last().len() < USER_BLOCK_SIZE {
            self.plain().last()
        } else {
            self.pending()
        }
    }

    /// The content of a laid out file is its full blocks and its tail, and
    /// the tail is shorter than a block.
    pub proof fn lemma_full_blocks(&self)
        requires
            self.laid_out(),
        ensures
            all_full(self.full_blocks()),
            self.tail().len() < USER_BLOCK_SIZE,
            self.content() == concat(self.full_blocks()) + self.tail(),
    {
        let blocks = self.full_blocks();
        assert forall|i: int| 0 <= i < blocks.len() implies (#[trigger] blocks[i]).len()
            == USER_BLOCK_SIZE by {
            assert(self.block_laid_out(i));
            assert(blocks[i] == self.plain()[i]);
        }
        if self.plain().len() > 0 && self.plain().last().len() < USER_BLOCK_SIZE {
            assert(self.block_laid_out(self.plain().len() - 1));
            assert(self.pending() == Seq::<u8>::empty());
            assert(concat(self.plain()) + self.pending() == concat(self.plain()));
        }
    }

    /// Where the content lies: the full blocks are as many as the content's
    /// length divided by the length of a block, block `i` holds the content's
    /// bytes from `i` blocks on, and the tail is the remainder. In an open
    /// file the tail waits and every sealed block has `BLOCK_SIZE` bytes; in
    /// a closed file the tail, unless it is empty, is the last block.
    pub proof fn lemma_layout_of_content(&self)
        requires
            self.laid_out(),
        ensures
            self.full_blocks().len() == self.content().len() / (USER_BLOCK_SIZE as nat),
            self.tail().len() == self.content().len() % (USER_BLOCK_SIZE as nat),
            forall|i: int|
                0 <= i < self.full_blocks().len() ==> #[trigger] self.plain()[i]
                    == self.content().subrange(i * USER_BLOCK_SIZE, (i + 1) * USER_BLOCK_SIZE),
            forall|i: int|
                0 <= i < self.full_blocks().len() ==> (#[trigger] self.sealed()[i]).len()
                    == BLOCK_SIZE,
            self.tail() == self.content().skip(self.full_blocks().len() * USER_BLOCK_SIZE),
            !self.is_closed() ==> self.plain() == self.full_blocks() && self.pending()
                == self.tail(),
            self.is_closed() ==> self.plain() == (if self.tail().len() > 0 {
                self.full_blocks().push(self.tail())
            } else {
                self.full_blocks()
            }),
    {
        self.lemma_full_blocks();
        lemma_layout(self.full_blocks(), self.tail());
        let n = self.plain().len() as int;
        if n > 0 {
            assert(self.block_laid_out(n - 1));
        }
        assert forall|i: int| 0 <= i < self.full_blocks().len() implies #[trigger] self.plain()[i]
            == self.content().subrange(i * USER_BLOCK_SIZE, (i + 1) * USER_BLOCK_SIZE) by {
            assert(self.plain()[i] == self.full_blocks()[i]);
        }
        assert forall|i: int| 0 <= i < self.full_blocks().len() implies (
        #[trigger] self.sealed()[i]).len() == BLOCK_SIZE by {
            assert(self.block_laid_out(i));
            assert(self.plain()[i] == self.full_blocks()[i]);
        }
        if n > 0 && self.plain().last().len() < USER_BLOCK_SIZE {
            assert(self.plain() == self.full_blocks().push(self.tail()));
        }
    }

    /// Reading back what was written: every block that the backend took is
    /// a nonce and a tag longer than its plaintext and opens to it under the
    /// key, and the plaintexts one after the other, followed by what waits,
    /// are the content. For a closed file nothing waits, so the plaintexts
    /// alone are all that was written.
    pub proof fn lemma_content_round_trip(&self)
        requires
            self.laid_out(),
        ensures
            self.sealed().len() == self.plain().len(),
            forall|i: int|
                0 <= i < self.sealed().len() ==> {
                    &&& self.key() matches Some(key)
                    &&& opened_blob(key, #[trigger] self.sealed()[i]) == Some(
                        self.plain()[i],
                    )
                    &&& self.sealed()[i].len() == self.plain()[i].len() + NONCE_SIZE + TAG_SIZE
                },
            self.content() == concat(self.plain()) + self.pending(),
            self.is_closed() ==> self.content() == concat(self.plain()),
    {
        assert forall|i: int| 0 <= i < self.sealed().len() implies {
            &&& self.key() matches Some(key)
            &&& opened_blob(key, #[trigger] self.sealed()[i]) == Some(
                self.plain()[i],
            )
            &&& self.sealed()[i].len() == self.plain()[i].len() + NONCE_SIZE + TAG_SIZE
        } by {
            assert(self.block_laid_out(i));
        }
        if self.is_closed() {
            assert(self.pending() == Seq::<u8>::empty());
            assert(concat(self.plain()) + self.pending() == concat(self.plain()));
        }
    }

    /// What the backend holds of a file is read back as its blocks of
    /// plaintext; of a closed file, as all that was written. Where the
    /// backend took every block whole, what it holds is what it has taken.
    pub proof fn lemma_stored_content_opens(&self)
        requires
            self.laid_out(),
        ensures
            self.key() matches Some(key) ==> opened_content(key, concat(self.sealed())) == Some(
                concat(self.plain()),
            ),
            self.is_closed() ==> concat(self.plain()) == self.content(),
            self.intact() && self.is_closed() ==> (self.key() matches Some(key)
                ==> opened_content(key, self.written()) == Some(self.content())),
    {
        self.lemma_content_round_trip();
        if let Some(key) = self.key() {
            assert forall|i: int| 0 <= i < self.sealed().len() implies 0 < (
            #[trigger] self.sealed()[i]).len() <= BLOCK_SIZE by {
                assert(self.block_laid_out(i));
            }
            assert forall|i: int| 0 <= i < self.sealed().len() - 1 implies (
            #[trigger] self.sealed()[i]).len() == BLOCK_SIZE by {
                assert(self.block_laid_out(i));
            }
            lemma_blocks_open(key, self.plain(), self.sealed());
        }
    }

    /// The layout follows from the content alone: two files that hold the
    /// same content, both open or both closed, hold it in the same blocks of
    /// plaintext, have handed over as many sealed blocks of the same lengths,
    /// and have the same bytes waiting, in however many writes each took it.
    pub proof fn lemma_same_content_same_layout(&self, other: &Self)
        requires
            self.laid_out(),
            other.laid_out(),
            self.is_closed() == other.is_closed(),
            self.content() == other.content(),
        ensures
            self.plain() == other.plain(),
            self.pending() == other.pending(),
            self.sealed().len() == other.sealed().len(),
            forall|i: int|
                0 <= i < self.sealed().len() ==> (#[trigger] self.sealed()[i]).len()
                    == other.sealed()[i].len(),
            !self.is_closed() ==> forall|i: int|
                0 <= i < self.sealed().len() ==> (#[trigger] self.sealed()[i]).len() == BLOCK_SIZE,
    {
        self.lemma_full_blocks();
        other.lemma_full_blocks();
        lemma_layout_unique(self.full_blocks(), self.tail(), other.full_blocks(), other.tail());
        let n = self.plain().len() as int;
        let m = other.plain().len() as int;
        if n > 0 {
            assert(self.block_laid_out(n - 1));
        }
        if m > 0 {
            assert(other.block_laid_out(m - 1));
        }
        if n > 0 && self.plain().last().len() < USER_BLOCK_SIZE {
            assert(self.plain() == self.full_blocks().push(self.tail()));
            assert(other.plain() == other.full_blocks().push(other.tail()));
        }
        assert(self.plain() == other.plain());
        assert forall|i: int| 0 <= i < self.sealed().len() implies (#[trigger] self.sealed()[i]).len()
            == other.sealed()[i].len() by {
            assert(self.block_laid_out(i));
            assert(other.block_laid_out(i));
        }
        if !self.is_closed() {
            assert forall|i: int| 0 <= i < self.sealed().len() implies (
            #[trigger] self.sealed()[i]).len() == BLOCK_SIZE by {
                assert(self.block_laid_out(i));
            }
        }
    }

    /// A file with nothing written, over the backend's `file`. Its buffer
    /// and its nonce hold zeros.
    pub fn new(file: Box<dyn File>, filesystem: &'a EncryptedFs<'b>) -> (r: Self)
        ensures
            r.key() == filesystem.key(),
            r.random() == filesystem.random(),
            r.written() == Seq::<u8>::empty(),
            r.flushed() == 0,
            r.intact(),
            r.buffer_bytes() == repeated(0u8, USER_BLOCK_SIZE as nat),
            r.last_nonce() == repeated(0u8, NONCE_SIZE as nat),
            r.pending() == Seq::<u8>::empty(),
            r.plain() == Seq::<Seq<u8>>::empty(),
            r.sealed() == Seq::<Seq<u8>>::empty(),
            !r.is_closed(),
            r.well_formed(),
            r.laid_out(),
    {
        let r = EncryptedFile {
            filesystem,
            file: Sink::new(file),
            buffer: vec![0u8; USER_BLOCK_SIZE],
            buffer_filled_length: 0,
            current_nonce: vec![0u8; NONCE_SIZE],
            closed: false,
            log: Ghost(Seq::empty()),
        };
        r
    }

    /// Takes one chunk of at most a block: gathers it, and where it fills
    /// the block, seals the block and hands it to the backend.
    ///
    /// Nothing of the chunk is taken where that fails.
    fn write_chunk(&mut self, chunk: &[u8]) -> (r: Result<usize, Error>)
        requires
            old(self).well_formed(),
            chunk@.len() <= USER_BLOCK_SIZE,
            !old(self).is_closed(),
        ensures
            final(self).well_formed(),
            final(self).key() == old(self).key(),
            final(self).random() == old(self).random(),
            !final(self).is_closed(),
            final(self).laid_out(),
            final(self).flushed() == old(self).flushed(),
            old(self).written().is_prefix_of(final(self).written()),
            old(self).intact() && !(r matches Err(Error::IoError(_))) ==> final(self).intact(),
            match r {
                Ok(n) => {
                    let all = old(self).pending() + chunk@;
                    &&& n == chunk@.len()
                    &&& final(self).content() == old(self).content() + chunk@
                    &&& if all.len() < USER_BLOCK_SIZE {
                        &&& final(self).pending() == all
                        &&& final(self).plain() == old(self).plain()
                        &&& final(self).sealed() == old(self).sealed()
                        &&& final(self).written() == old(self).written()
                    } else {
                        &&& final(self).pending() == all.skip(USER_BLOCK_SIZE as int)
                        &&& final(self).plain() == old(self).plain().push(
                            all.take(USER_BLOCK_SIZE as int),
                        )
                        &&& final(self).sealed().drop_last() == old(self).sealed()
                        &&& final(self).written() == old(self).written()
                            + final(self).sealed().last()
                    }
                },
                Err(e) => {
                    &&& !(e is IoError) ==> final(self).written() == old(self).written()
                    &&& final(self).pending() == old(self).pending()
                    &&& final(self).plain() == old(self).plain()
                    &&& final(self).sealed() == old(self).sealed()
                    &&& old(self).pending().len() + chunk@.len() >= USER_BLOCK_SIZE
                    &&& match e {
                        Error::NotUnlocked => old(self).key() is None,
                        Error::CryptoError => old(self).random() is System,
                        Error::IoError(_) => old(self).key() is Some,
                        _ => false,
                    }
                },
            },
    {
        let filled = self.buffer_filled_length;
        let room = USER_BLOCK_SIZE - filled;
        if chunk.len() < room {
            copy_into(&mut self.buffer, filled, chunk);
            self.buffer_filled_length = filled + chunk.len();
            proof {
                assert(self.pending() == old(self).pending() + chunk@);
                self.lemma_same_blocks(old(self));
            }
            return Ok(chunk.len());
        }
        let head = slice_subrange(chunk, 0, room);
        let rest = slice_subrange(chunk, room, chunk.len());
        copy_into(&mut self.buffer, filled, head);
        proof {
            assert(self.pending() == old(self).pending());
            assert(self.buffer@ == (old(self).pending() + chunk@).take(USER_BLOCK_SIZE as int));
            self.lemma_same_blocks(old(self));
        }
        let nonce = self.filesystem.draw_nonce()?;
        proof {
            self.filesystem.lemma_key_size();
        }
        let blob = self.filesystem.encrypt_data(self.buffer.as_slice(), nonce.as_slice())?;
        let ghost sealing = *self;
        let answer = self.file.write(blob.as_slice());
        proof {
            self.lemma_same_blocks(&sealing);
        }
        let taken = match answer {
            Ok(taken) => taken,
            Err(e) => {
                return Err(e);
            },
        };
        whole_write(taken, blob.len())?;
        assert(blob@.take(NONCE_SIZE as int) == nonce@);
        assert(blob@.take(taken as int) == blob@);
        let ghost before = self.buffer@;
        self.current_nonce = nonce;
        self.log = Ghost(self.log@.push((self.buffer@, blob@)));
        self.buffer_filled_length = 0;
        copy_into(&mut self.buffer, 0, rest);
        self.buffer_filled_length = rest.len();
        proof {
            let all = old(self).pending() + chunk@;
            assert(self.pending() == all.skip(USER_BLOCK_SIZE as int));
            assert(self.plain() == old(self).plain().push(all.take(USER_BLOCK_SIZE as int)));
            assert(self.sealed().drop_last() == old(self).sealed());
            assert(self.plain().drop_last() == old(self).plain());
            assert(all.take(USER_BLOCK_SIZE as int) + all.skip(USER_BLOCK_SIZE as int) == all);
            assert(self.content() == old(self).content() + chunk@);
            assert forall|i: int| 0 <= i < self.plain().len() implies #[trigger]
                self.block_laid_out(i) by {
                if i < old(self).plain().len() {
                    assert(old(self).block_laid_out(i));
                    assert(self.plain()[i] == old(self).plain()[i]);
                    assert(self.sealed()[i] == old(self).sealed()[i]);
                } else {
                    assert(self.plain()[i] == before);
                    assert(self.sealed()[i] == blob@);
                }
            }
        }
        Ok(chunk.len())
    }

    /// Takes all of `buf`, block by block, and says how many bytes it took:
    /// all of them, unless sealing or the backend failed on the way.
    ///
    /// Every block that fills is sealed and handed to the backend at once;
    /// what does not fill a block waits for more, or for `close`. A write
    /// that fills no block cannot fail. A closed file takes nothing.
    pub fn write(&mut self, buf: &[u8]) -> (r: Result<usize, Error>)
        requires
            old(self).well_formed(),
        ensures
            final(self).well_formed(),
            final(self).laid_out(),
            final(self).key() == old(self).key(),
            final(self).random() == old(self).random(),
            final(self).is_closed() == old(self).is_closed(),
            old(self).sealed().is_prefix_of(final(self).sealed()),
            final(self).flushed() == old(self).flushed(),
            old(self).written().is_prefix_of(final(self).written()),
            old(self).intact() && !(r matches Err(Error::IoError(_))) ==> final(self).intact(),
            match r {
                Ok(n) => {
                    &&& !old(self).is_closed()
                    &&& n == buf@.len()
                    &&& final(self).content() == old(self).content() + buf@
                },
                Err(e) => {
                    &&& exists|k: int|
                        0 <= k <= buf@.len() && final(self).content() == old(self).content()
                            + #[trigger] buf@.take(k)
                    &&& match e {
                        Error::InvalidInput => old(self).is_closed(),
                        Error::NotUnlocked => !old(self).is_closed() && old(self).key() is None,
                        Error::CryptoError => !old(self).is_closed() && old(self).random() is System,
                        Error::IoError(_) => !old(self).is_closed() && old(self).key() is Some,
                        _ => false,
                    }
                },
            },
            !old(self).is_closed() && old(self).pending().len() + buf@.len() < USER_BLOCK_SIZE
                ==> r is Ok && final(self).pending() == old(self).pending() + buf@,
    {
        if self.closed {
            proof {
                assert(buf@.take(0) == Seq::<u8>::empty());
                assert(self.content() == old(self).content() + buf@.take(0));
            }
            return Err(Error::InvalidInput);
        }
        let mut done: usize = 0;
        proof {
            assert(buf@.take(0) == Seq::<u8>::empty());
            assert(self.content() == old(self).content() + buf@.take(0));
        }
        while done < buf.len()
            invariant
                done <= buf@.len(),
                self.well_formed(),
                old(self).well_formed(),
                !self.is_closed(),
                !old(self).is_closed(),
                self.key() == old(self).key(),
                self.random() == old(self).random(),
                self.content() == old(self).content() + buf@.take(done as int),
                old(self).sealed().is_prefix_of(self.sealed()),
                self.flushed() == old(self).flushed(),
                old(self).written().is_prefix_of(self.written()),
                old(self).intact() ==> self.intact(),
                old(self).pending().len() + buf@.len() < USER_BLOCK_SIZE ==> self.pending() == old(
                    self,
                ).pending() + buf@.take(done as int),
            decreases buf.len() - done,
        {
            let left = buf.len() - done;
            let len = if left < USER_BLOCK_SIZE {
                left
            } else {
                USER_BLOCK_SIZE
            };
            let chunk = slice_subrange(buf, done, done + len);
            let ghost before = *self;
            match self.write_chunk(chunk) {
                Ok(_) => {},
                Err(e) => {
                    proof {
                        assert(self.content() == before.content());
                    }
                    return Err(e);
                },
            }
            proof {
                assert(buf@.take(done as int) + chunk@ == buf@.take(done + len));
                assert(before.sealed().is_prefix_of(self.sealed())) by {
                    if self.sealed() != before.sealed() {
                        assert(self.sealed().drop_last() == before.sealed());
                    }
                }
            }
            done = done + len;
        }
        proof {
            assert(buf@.take(done as int) == buf@);
        }
        Ok(done)
    }

    /// Asks the backend to hand on what it has taken. Where the backend says
    /// that it did, all the bytes it has taken for this file count as handed
    /// on; where it fails, none more than before. What waits for its block
    /// to fill stays where it is: only `close` seals a short block.
    pub fn flush(&mut self) -> (r: Result<(), Error>)
        requires
            old(self).well_formed(),
        ensures
            final(self).well_formed(),
            final(self).laid_out(),
            final(self).key() == old(self).key(),
            final(self).random() == old(self).random(),
            final(self).is_closed() == old(self).is_closed(),
            final(self).pending() == old(self).pending(),
            final(self).plain() == old(self).plain(),
            final(self).sealed() == old(self).sealed(),
            final(self).written() == old(self).written(),
            match r {
                Ok(_) => final(self).flushed() == old(self).written().len(),
                Err(e) => e is IoError && final(self).flushed() == old(self).flushed(),
            },
    {
        let answer = self.file.flush();
        proof {
            self.lemma_same_blocks(old(self));
        }
        answer
    }

    /// Ends the file: seals what waits as a last block, shorter than the
    /// others, and asks the backend to hand everything on.
    ///
    /// Where sealing or handing over the last block fails, the file stays
    /// open and unchanged. Closing a closed file only asks the backend
    /// again.
    pub fn close(&mut self) -> (r: Result<(), Error>)
        requires
            old(self).well_formed(),
        ensures
            final(self).well_formed(),
            final(self).laid_out(),
            final(self).key() == old(self).key(),
            final(self).random() == old(self).random(),
            final(self).content() == old(self).content(),
            old(self).sealed().is_prefix_of(final(self).sealed()),
            old(self).written().is_prefix_of(final(self).written()),
            old(self).intact() && final(self).is_closed() ==> final(self).intact(),
            final(self).is_closed() ==> final(self).written() == (if old(self).pending().len()
                > 0 {
                old(self).written() + final(self).sealed().last()
            } else {
                old(self).written()
            }),
            old(self).is_closed() ==> final(self).is_closed(),
            final(self).is_closed() ==> final(self).plain() == (if old(self).pending().len() > 0 {
                old(self).plain().push(old(self).pending())
            } else {
                old(self).plain()
            }),
            !final(self).is_closed() ==> {
                &&& final(self).pending() == old(self).pending()
                &&& final(self).plain() == old(self).plain()
                &&& final(self).sealed() == old(self).sealed()
            },
            match r {
                Ok(_) => {
                    &&& final(self).is_closed()
                    &&& final(self).flushed() == final(self).written().len()
                },
                Err(Error::NotUnlocked) => {
                    &&& !final(self).is_closed()
                    &&& old(self).key() is None
                    &&& final(self).written() == old(self).written()
                    &&& final(self).flushed() == old(self).flushed()
                },
                Err(Error::CryptoError) => {
                    &&& !final(self).is_closed()
                    &&& old(self).random() is System
                    &&& final(self).written() == old(self).written()
                    &&& final(self).flushed() == old(self).flushed()
                },
                Err(Error::IoError(_)) => final(self).flushed() == old(self).flushed(),
                Err(_) => false,
            },
    {
        let filled = self.buffer_filled_length;
        if filled > 0 {
            let nonce = self.filesystem.draw_nonce()?;
            proof {
                self.filesystem.lemma_key_size();
            }
            let tail = slice_subrange(self.buffer.as_slice(), 0, filled);
            let blob = self.filesystem.encrypt_data(tail, nonce.as_slice())?;
            let ghost sealing = *self;
            let answer = self.file.write(blob.as_slice());
            proof {
                self.lemma_same_blocks(&sealing);
            }
            let taken = match answer {
                Ok(taken) => taken,
                Err(e) => {
                    return Err(e);
                },
            };
            whole_write(taken, blob.len())?;
            assert(blob@.take(NONCE_SIZE as int) == nonce@);
            assert(blob@.take(taken as int) == blob@);
            self.current_nonce = nonce;
            self.log = Ghost(self.log@.push((tail@, blob@)));
            self.buffer_filled_length = 0;
        }
        self.closed = true;
        proof {
            assert(self.pending() == Seq::<u8>::empty());
            if filled > 0 {
                assert(self.plain() == old(self).plain().push(old(self).pending()));
                assert(self.plain().drop_last() == old(self).plain());
                assert(self.sealed().drop_last() == old(self).sealed());
            } else {
                assert(self.plain() == old(self).plain());
                assert(self.sealed() == old(self).sealed());
            }
            assert forall|i: int| 0 <= i < self.plain().len() implies #[trigger]
                self.block_laid_out(i) by {
                if i < old(self).plain().len() {
                    assert(old(self).block_laid_out(i));
                    assert(self.plain()[i] == old(self).plain()[i]);
                    assert(self.sealed()[i] == old(self).sealed()[i]);
                }
            }
        }
        let ghost sealed = *self;
        let answer = self.file.flush();
        proof {
            self.lemma_same_blocks(&sealed);
        }
        answer
    }
}

} // verus!
