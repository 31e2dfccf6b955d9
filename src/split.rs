use vstd::prelude::*;

use crate::chunks::{ceil_div, chunked, concat_blocks, lemma_chunk_count, lemma_last_block_size};
use crate::crypto::{context_of, sha256_of, Cachet, KeyTree};
use crate::error::LockBlockError;
use crate::source::ByteSource;

verus! {

/// A splitter has yielded one pair per block size of the bytes it has read,
/// rounded up; every block is full but the last, which holds the rest.
///
/// Once it has ended without a failed read, those bytes are all of its
/// source.
pub proof fn lemma_split_counts<'a, R: ByteSource>(s: Split<'a, R>)
    requires
        s.wf(),
    ensures
        s.is_done() && !s.failed() ==> s.consumed() == s.input(),
        s.yielded().len() == ceil_div(s.consumed().len(), s.block_size()),
        s.blocks().len() > 0 ==> s.blocks().last().len() == (if s.consumed().len() % s.block_size()
            == 0 {
            s.block_size()
        } else {
            s.consumed().len() % s.block_size()
        }),
{
    lemma_chunk_count(s.blocks(), s.block_size());
    if s.is_done() && !s.failed() {
        assert(s.consumed() + s.source().remaining() =~= s.consumed());
    }
    if s.blocks().len() > 0 {
        lemma_last_block_size(s.blocks(), s.block_size());
    }
}

/// Reads a byte source in blocks of a fixed size and yields, for each block,
/// its content hash and its ciphertext under the key derived from that hash.
///
/// The sequence ends, and stays ended, once the source signals the end of its
/// data or a read fails.
pub struct Split<'a, R: ByteSource> {
    key: &'a KeyTree,
    read: R,
    size: usize,
    done: bool,
    failed: Ghost<bool>,
    input: Ghost<Seq<u8>>,
    blocks: Ghost<Seq<Seq<u8>>>,
    yielded: Ghost<Seq<([u8; 32], Cachet)>>,
}

impl<'a, R: ByteSource> Split<'a, R> {
    /// The key service that blocks are encrypted under.
    pub closed spec fn key(&self) -> KeyTree {
        *self.key
    }

    /// The block size.
    pub closed spec fn block_size(&self) -> nat {
        self.size as nat
    }

    /// The byte source in its present state.
    pub closed spec fn source(&self) -> R {
        self.read
    }

    /// What the source held when the splitter was made.
    pub closed spec fn input(&self) -> Seq<u8> {
        self.input@
    }

    /// Whether a read of the source has failed.
    pub closed spec fn failed(&self) -> bool {
        self.failed@
    }

    /// Whether the sequence has ended.
    pub closed spec fn is_done(&self) -> bool {
        self.done
    }

    /// The plaintext blocks yielded so far, in order.
    pub closed spec fn blocks(&self) -> Seq<Seq<u8>> {
        self.blocks@
    }

    /// The pairs yielded so far, in order.
    pub closed spec fn yielded(&self) -> Seq<([u8; 32], Cachet)> {
        self.yielded@
    }

    /// The bytes of all blocks yielded so far.
    pub open spec fn consumed(&self) -> Seq<u8> {
        concat_blocks(self.blocks())
    }

    /// The blocks so far cut the input by the block size, a short block ends
    /// the sequence, and each pair yielded decrypts to its block; until a
    /// read fails, the blocks and what the source still holds make up the
    /// input, and the sequence ends only once the source is empty.
    pub open spec fn wf(&self) -> bool {
        &&& self.blocks_wf()
        &&& self.failed() ==> self.is_done()
        &&& !self.failed() ==> self.consumed() + self.source().remaining() == self.input()
        &&& self.is_done() && !self.failed() ==> self.source().remaining().len() == 0
    }

    /// The blocks so far cut the stream by the block size, a short block
    /// ends the sequence, and each pair yielded decrypts to its block.
    pub open spec fn blocks_wf(&self) -> bool {
        &&& self.block_size() > 0
        &&& self.yielded().len() == self.blocks().len()
        &&& forall|i: int|
            0 <= i < self.blocks().len() ==> self.key().opens(
                #[trigger] self.yielded()[i].0@,
                self.yielded()[i].1,
            ) == Some(self.blocks()[i])
        &&& chunked(self.blocks(), self.block_size())
        &&& self.blocks().len() > 0 && self.blocks().last().len() < self.block_size()
            ==> self.is_done()
    }

    /// A splitter over `read` with blocks of `size` bytes; a size of zero is
    /// refused.
    pub fn new(key: &'a KeyTree, read: R, size: usize) -> (r: Result<Self, LockBlockError>)
        ensures
            size == 0 <==> r is Err,
            r matches Err(e) ==> e is ConfigurationError,
            r matches Ok(s) ==> {
                &&& s.wf()
                &&& s.key() == *key
                &&& s.block_size() == size
                &&& s.source() == read
                &&& s.input() == read.remaining()
                &&& !s.failed()
                &&& !s.is_done()
                &&& s.blocks() == Seq::<Seq<u8>>::empty()
                &&& s.yielded() == Seq::<([u8; 32], Cachet)>::empty()
            },
    {
        if size == 0 {
            return Err(LockBlockError::ConfigurationError);
        }
        let ghost input = read.remaining();
        let r = Split {
            key,
            read,
            size,
            done: false,
            failed: Ghost(false),
            input: Ghost(input),
            blocks: Ghost(Seq::empty()),
            yielded: Ghost(Seq::empty()),
        };
        assert(r.consumed() + input =~= input);
        Ok(r)
    }

    /// Hashes `data` and encrypts it under the key derived from its hash.
    pub fn encrypt(key: &KeyTree, data: &[u8]) -> (r: Result<([u8; 32], Cachet), LockBlockError>)
        ensures
            r matches Ok((context, c)) && context@ == sha256_of(data@) && key.opens(context@, c)
                == Some(data@),
    {
        let hash = context_of(data);
        let cachet = key.derive_and_encrypt(&hash, data);
        Ok((hash, cachet))
    }
}

impl<'a, R: ByteSource> Split<'a, R> {
    /// Hashes and encrypts a block that the reads have filled, and records
    /// it; an empty block ends the sequence instead.
    fn yield_block(&mut self, block: Vec<u8>) -> (r: Option<Result<([u8; 32], Cachet), LockBlockError>>)
        requires
            old(self).blocks_wf(),
            !old(self).is_done(),
            !old(self).failed(),
            block@.len() <= old(self).block_size(),
            old(self).consumed() + block@ + old(self).source().remaining() == old(self).input(),
            block@.len() < old(self).block_size() ==> old(self).source().remaining().len() == 0,
        ensures
            final(self).wf(),
            final(self).key() == old(self).key(),
            final(self).block_size() == old(self).block_size(),
            final(self).source() == old(self).source(),
            final(self).input() == old(self).input(),
            !final(self).failed(),
            block@.len() == 0 <==> r is None,
            r is None ==> final(self).is_done() && final(self).blocks() == old(self).blocks()
                && final(self).yielded() == old(self).yielded(),
            block@.len() > 0 ==> (r matches Some(Ok((context, c))) && {
                &&& context@ == sha256_of(block@)
                &&& final(self).key().opens(context@, c) == Some(block@)
                &&& final(self).blocks() == old(self).blocks().push(block@)
                &&& final(self).yielded() == old(self).yielded().push((context, c))
                &&& final(self).is_done() == (block@.len() < old(self).block_size())
            }),
    {
        if block.len() == 0 {
            self.done = true;
            assert(old(self).consumed() + block@ =~= old(self).consumed());
            return None;
        }
        let (context, c) = match Self::encrypt(self.key, block.as_slice()) {
            Ok(pair) => pair,
            Err(e) => {
                return Some(Err(e));
            },
        };
        self.done = block.len() < self.size;
        proof {
            let b = block@;
            let old_blocks = self.blocks@;
            let old_yielded = self.yielded@;
            self.blocks = Ghost(old_blocks.push(b));
            self.yielded = Ghost(old_yielded.push((context, c)));
            assert(self.blocks@.last() == b);
            assert(self.blocks@.drop_last() =~= old_blocks);
            assert forall|i: int| 0 <= i < self.blocks@.len() - 1 implies #[trigger] self.blocks@[i].len()
                == self.size by {
                assert(self.blocks@[i] == old_blocks[i]);
                if i == old_blocks.len() - 1 {
                    assert(old_blocks.last() == old_blocks[i]);
                }
            }
            assert forall|i: int| 0 <= i < self.blocks@.len() implies 0 < #[trigger] self.blocks@[i].len()
                <= self.size by {
                if i < old_blocks.len() {
                    assert(self.blocks@[i] == old_blocks[i]);
                }
            }
            assert forall|i: int| 0 <= i < self.blocks@.len() implies (*self.key).opens(
                #[trigger] self.yielded@[i].0@,
                self.yielded@[i].1,
            ) == Some(self.blocks@[i]) by {
                if i < old_blocks.len() {
                    assert(self.yielded@[i] == old_yielded[i]);
                    assert(self.blocks@[i] == old_blocks[i]);
                }
            }
        }
        Some(Ok((context, c)))
    }

    /// Reads the next block, reading until it is full or the source ends, and
    /// yields its hash and ciphertext; `None` once the source has ended.
    ///
    /// Where no read fails, the block is the next `min(size, remaining)`
    /// bytes of the source, and `None` comes exactly when none remain.
    pub fn next(&mut self) -> (r: Option<Result<([u8; 32], Cachet), LockBlockError>>)
        requires
            old(self).wf(),
        ensures
            final(self).wf(),
            final(self).key() == old(self).key(),
            final(self).block_size() == old(self).block_size(),
            final(self).input() == old(self).input(),
            old(self).is_done() ==> {
                &&& r is None
                &&& final(self).is_done()
                &&& final(self).failed() == old(self).failed()
                &&& final(self).source() == old(self).source()
                &&& final(self).blocks() == old(self).blocks()
                &&& final(self).yielded() == old(self).yielded()
            },
            !old(self).is_done() ==> ({
                let rem = old(self).source().remaining();
                let k = if rem.len() < old(self).block_size() {
                    rem.len()
                } else {
                    old(self).block_size()
                };
                let b = rem.take(k as int);
                match r {
                    None => {
                        &&& rem.len() == 0
                        &&& final(self).is_done()
                        &&& !final(self).failed()
                        &&& final(self).blocks() == old(self).blocks()
                        &&& final(self).yielded() == old(self).yielded()
                    },
                    Some(Ok((context, c))) => {
                        &&& rem.len() > 0
                        &&& context@ == sha256_of(b)
                        &&& final(self).key().opens(context@, c) == Some(b)
                        &&& final(self).blocks() == old(self).blocks().push(b)
                        &&& final(self).yielded() == old(self).yielded().push((context, c))
                        &&& final(self).source().remaining() == rem.skip(k as int)
                        &&& final(self).is_done() == (rem.len() < old(self).block_size())
                    },
                    Some(Err(e)) => {
                        &&& e is IOError
                        &&& final(self).is_done()
                        &&& final(self).failed()
                        &&& final(self).blocks() == old(self).blocks()
                        &&& final(self).yielded() == old(self).yielded()
                    },
                }
            }),
    {
        if self.done {
            return None;
        }
        let ghost rem = self.read.remaining();
        let mut buffer: Vec<u8> = Vec::new();
        let mut i: usize = 0;
        while i < self.size
            invariant
                buffer.len() == i,
                i <= self.size,
            decreases self.size - i,
        {
            buffer.push(0u8);
            i = i + 1;
        }
        let mut filled: usize = 0;
        let mut ended = false;
        loop
            invariant
                buffer.len() == self.size,
                filled <= self.size,
                filled <= rem.len(),
                buffer@.take(filled as int) == rem.take(filled as int),
                self.read.remaining() == rem.skip(filled as int),
                ended ==> filled == rem.len(),
                self.key == old(self).key,
                self.size == old(self).size,
                self.blocks == old(self).blocks,
                self.yielded == old(self).yielded,
                self.input == old(self).input,
                self.failed == old(self).failed,
                !self.done,
                !old(self).done,
                old(self).wf(),
                rem == old(self).read.remaining(),
            ensures
                filled == self.size || ended,
            decreases self.size - filled,
        {
            if filled == self.size || ended {
                break;
            }
            let ghost before = buffer@;
            match self.read.read_into(&mut buffer, filled) {
                Ok(n) => {
                    if n == 0 {
                        ended = true;
                        assert(rem.skip(filled as int).len() == 0);
                        break;
                    }
                    assert(buffer@.take(filled as int) =~= before.take(filled as int)) by {
                        assert(buffer@.subrange(0, filled as int) == before.subrange(0, filled as int));
                    }
                    assert(rem.skip(filled as int).take(n as int) =~= rem.subrange(filled as int, filled + n));
                    assert(rem.skip(filled as int).skip(n as int) =~= rem.skip(filled + n));
                    assert(buffer@.take(filled + n) =~= buffer@.take(filled as int) + buffer@.subrange(
                        filled as int,
                        filled + n,
                    ));
                    assert(rem.take(filled + n) =~= rem.take(filled as int) + rem.subrange(
                        filled as int,
                        filled + n,
                    ));
                    filled = filled + n;
                },
                Err(e) => {
                    self.done = true;
                    self.failed = Ghost(true);
                    return Some(Err(LockBlockError::IOError(e)));
                },
            }
        }
        buffer.truncate(filled);
        proof {
            assert(buffer@ =~= rem.take(filled as int));
            assert(old(self).consumed() + rem == self.input@);
            assert(rem =~= rem.take(filled as int) + rem.skip(filled as int));
            assert(old(self).consumed() + buffer@ + self.read.remaining() =~= self.input@);
        }
        self.yield_block(buffer)
    }
}

} // verus!
