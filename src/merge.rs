use vstd::prelude::*;

use crate::chunks::{concat_blocks, lemma_concat_first};
use crate::crypto::{Cachet, KeyTree};
use crate::error::LockBlockError;
use crate::source::ByteSource;
use crate::split::Split;

verus! {

/// A block's context and its ciphertext.
pub type Pair = ([u8; 32], Cachet);

/// The bytes that `pairs` decrypt to under `key`, joined in order, up to the
/// first pair that does not decrypt.
pub open spec fn stream_of(key: KeyTree, pairs: Seq<Pair>) -> Seq<u8>
    decreases pairs.len(),
{
    if pairs.len() == 0 {
        Seq::empty()
    } else {
        match key.opens(pairs[0].0@, pairs[0].1) {
            Some(p) => p + stream_of(key, pairs.drop_first()),
            None => Seq::empty(),
        }
    }
}

/// Whether some pair of `pairs` does not decrypt under `key`.
pub open spec fn fails_in(key: KeyTree, pairs: Seq<Pair>) -> bool
    decreases pairs.len(),
{
    if pairs.len() == 0 {
        false
    } else {
        match key.opens(pairs[0].0@, pairs[0].1) {
            Some(p) => fails_in(key, pairs.drop_first()),
            None => true,
        }
    }
}

/// How many bytes a buffer with room for `room` gets when `avail` are
/// pending.
pub open spec fn fill_count(avail: nat, room: nat) -> nat {
    if room <= avail {
        room
    } else {
        avail
    }
}

/// Pairs that decrypt one by one to the blocks of a stream merge back into
/// that stream, with nothing failing ahead.
pub proof fn lemma_round_trip(key: KeyTree, pairs: Seq<Pair>, blocks: Seq<Seq<u8>>)
    requires
        pairs.len() == blocks.len(),
        forall|i: int|
            0 <= i < pairs.len() ==> key.opens(#[trigger] pairs[i].0@, pairs[i].1) == Some(blocks[i]),
    ensures
        stream_of(key, pairs) == concat_blocks(blocks),
        !fails_in(key, pairs),
    decreases pairs.len(),
{
    if pairs.len() == 0 {
        assert(concat_blocks(blocks) =~= Seq::<u8>::empty());
    } else {
        let rest = pairs.drop_first();
        assert forall|i: int| 0 <= i < rest.len() implies key.opens(#[trigger] rest[i].0@, rest[i].1)
            == Some(blocks.drop_first()[i]) by {
            assert(rest[i] == pairs[i + 1]);
        }
        assert(key.opens(pairs[0].0@, pairs[0].1) == Some(blocks[0]));
        lemma_round_trip(key, rest, blocks.drop_first());
        lemma_concat_first(blocks);
    }
}

/// Merging the pairs a splitter has yielded, in that order, gives back
/// every byte it has read into blocks, with nothing failing; once it has
/// ended without a failed read, that is all its source held.
pub proof fn lemma_split_round_trip<'a, R: ByteSource>(s: Split<'a, R>)
    requires
        s.wf(),
    ensures
        stream_of(s.key(), s.yielded()) == s.consumed(),
        !fails_in(s.key(), s.yielded()),
        s.is_done() && !s.failed() ==> stream_of(s.key(), s.yielded()) == s.input(),
{
    lemma_round_trip(s.key(), s.yielded(), s.blocks());
    if s.is_done() && !s.failed() {
        assert(s.consumed() + s.source().remaining() =~= s.consumed());
    }
}

/// Once nothing is pending, what a merger has delivered, over however many
/// reads into buffers of whatever sizes, is the whole stream of its pairs;
/// for the pairs of a splitter that has ended without a failed read, that
/// is all its source held.
pub proof fn lemma_merge_complete(m: Merge)
    requires
        m.wf(),
        m.pending().len() == 0,
    ensures
        m.delivered() == stream_of(m.key(), m.pairs()),
{
    assert(m.delivered() + m.pending() =~= m.delivered());
}

/// Two mergers of the same pairs under the same key service, read through
/// buffers of whatever sizes until nothing is pending, have delivered the
/// same bytes.
pub proof fn lemma_destination_sizes(m1: Merge, m2: Merge)
    requires
        m1.wf(),
        m2.wf(),
        m1.key() == m2.key(),
        m1.pairs() == m2.pairs(),
        m1.pending().len() == 0,
        m2.pending().len() == 0,
    ensures
        m1.delivered() == m2.delivered(),
{
    lemma_merge_complete(m1);
    lemma_merge_complete(m2);
}

/// Splitting a source and merging the pairs, in order and under the same
/// key service, until nothing is pending gives back exactly what the source
/// held, once the splitter has ended without a failed read.
pub proof fn lemma_pipeline<'a, R: ByteSource>(s: Split<'a, R>, m: Merge)
    requires
        s.wf(),
        s.is_done(),
        !s.failed(),
        m.wf(),
        m.key() == s.key(),
        m.pairs() == s.yielded(),
        m.pending().len() == 0,
    ensures
        m.delivered() == s.input(),
{
    lemma_split_round_trip(s);
    lemma_merge_complete(m);
}

/// Decrypts a sequence of pairs one at a time and hands out the plaintext
/// bytes, joined in order, to buffers of any size.
pub struct Merge<'a> {
    key: &'a KeyTree,
    src: &'a [Pair],
    next: usize,
    curr: Vec<u8>,
    cidx: usize,
    out: Ghost<Seq<u8>>,
}

impl<'a> Merge<'a> {
    /// The key service that pairs are decrypted under.
    pub closed spec fn key(&self) -> KeyTree {
        *self.key
    }

    /// The pairs being merged.
    pub closed spec fn pairs(&self) -> Seq<Pair> {
        self.src@
    }

    /// The bytes written into buffers so far, in order.
    pub closed spec fn delivered(&self) -> Seq<u8> {
        self.out@
    }

    /// The pairs not yet decrypted.
    pub closed spec fn rest(&self) -> Seq<Pair> {
        self.src@.skip(self.next as int)
    }

    /// What is left of the block being handed out.
    pub closed spec fn current(&self) -> Seq<u8> {
        self.curr@.skip(self.cidx as int)
    }

    /// The bytes still to be handed out, up to the first pair that does not
    /// decrypt.
    pub open spec fn pending(&self) -> Seq<u8> {
        self.current() + stream_of(self.key(), self.rest())
    }

    /// Whether a pair that does not decrypt lies ahead.
    pub open spec fn failing(&self) -> bool {
        fails_in(self.key(), self.rest())
    }

    /// The cursors stay within the pairs and the current block, and what
    /// was delivered and what is pending make up the stream of the pairs.
    pub closed spec fn wf(&self) -> bool {
        &&& self.next <= self.src.len()
        &&& self.cidx <= self.curr.len()
        &&& self.out@ + self.pending() == stream_of(*self.key, self.src@)
    }

    /// A merger of `pairs`, nothing handed out yet.
    pub fn new(key: &'a KeyTree, pairs: &'a [Pair]) -> (r: Self)
        ensures
            r.wf(),
            r.key() == *key,
            r.pairs() == pairs@,
            r.pending() == stream_of(*key, pairs@),
            r.failing() == fails_in(*key, pairs@),
            r.delivered() == Seq::<u8>::empty(),
    {
        let r = Merge { key, src: pairs, next: 0, curr: Vec::new(), cidx: 0, out: Ghost(Seq::empty()) };
        assert(r.src@.skip(0) == r.src@);
        assert(r.curr@.skip(0) + stream_of(*key, pairs@) == stream_of(*key, pairs@));
        assert(r.out@ + r.pending() =~= stream_of(*key, pairs@));
        r
    }

    /// Decrypts one pair under the key derived from its context.
    pub fn decrypt(key: &KeyTree, context: &[u8; 32], cachet: &Cachet) -> (r: Result<
        Vec<u8>,
        LockBlockError,
    >)
        ensures
            match r {
                Ok(p) => key.opens(context@, *cachet) == Some(p@),
                Err(e) => e is DecryptionError && key.opens(context@, *cachet) is None,
            },
    {
        match key.derive_and_decrypt(context, cachet) {
            Some(p) => Ok(p),
            None => Err(LockBlockError::DecryptionError),
        }
    }

    /// Fills `buff` with the next pending bytes, decrypting pairs as needed,
    /// and returns how many it wrote. Fewer than `buff.len()` means the pairs
    /// are used up (zero once nothing is left). A pair that does not decrypt
    /// gives `DecryptionError` once the bytes before it are written; it stays
    /// next, so every later call fails the same way.
    pub fn read(&mut self, buff: &mut [u8]) -> (r: Result<usize, LockBlockError>)
        requires
            old(self).wf(),
        ensures
            final(self).wf(),
            final(self).key() == old(self).key(),
            final(self).pairs() == old(self).pairs(),
            final(buff)@.len() == old(buff)@.len(),
            ({
                let p = old(self).pending();
                let n = fill_count(p.len(), old(buff)@.len());
                &&& final(buff)@.take(n as int) == p.take(n as int)
                &&& final(buff)@.skip(n as int) == old(buff)@.skip(n as int)
                &&& final(self).pending() == p.skip(n as int)
                &&& final(self).delivered() == old(self).delivered() + p.take(n as int)
                &&& final(self).failing() == old(self).failing()
                &&& (n < old(buff)@.len() ==> final(self).pending().len() == 0)
                &&& match r {
                    Ok(k) => k == n && (n < old(buff)@.len() ==> !old(self).failing()),
                    Err(e) => e is DecryptionError && n < old(buff)@.len() && old(
                        self,
                    ).failing(),
                }
            }),
    {
        let ghost p = self.pending();
        let mut bidx: usize = 0;
        loop
            invariant
                self.wf(),
                self.key == old(self).key,
                self.src == old(self).src,
                p == old(self).pending(),
                buff@.len() == old(buff)@.len(),
                bidx <= buff@.len(),
                bidx <= p.len(),
                buff@.take(bidx as int) == p.take(bidx as int),
                buff@.skip(bidx as int) == old(buff)@.skip(bidx as int),
                self.pending() == p.skip(bidx as int),
                self.out@ == old(self).out@ + p.take(bidx as int),
                self.failing() == old(self).failing(),
            decreases (buff@.len() - bidx) + (self.src@.len() - self.next),
        {
            if bidx == buff.len() {
                return Ok(bidx);
            }
            if self.cidx == self.curr.len() {
                assert(self.current() =~= Seq::<u8>::empty());
                if self.next == self.src.len() {
                    assert(self.rest() =~= Seq::<Pair>::empty());
                    return Ok(bidx);
                }
                let ghost rest = self.rest();
                assert(rest[0] == self.src@[self.next as int]);
                assert(rest.drop_first() =~= self.src@.skip(self.next + 1));
                let pair = &self.src[self.next];
                match Self::decrypt(self.key, &pair.0, &pair.1) {
                    Ok(plain) => {
                        self.curr = plain;
                        self.cidx = 0;
                        self.next = self.next + 1;
                        assert(self.current() =~= self.curr@);
                    },
                    Err(e) => {
                        return Err(e);
                    },
                }
            } else {
                let ghost before = self.pending();
                let ghost prev = buff@;
                buff[bidx] = self.curr[self.cidx];
                self.cidx = self.cidx + 1;
                bidx = bidx + 1;
                proof {
                    let d = self.out@;
                    self.out = Ghost(d.push(before[0]));
                    assert(p.take(bidx as int) =~= p.take(bidx - 1).push(before[0]));
                    assert(self.out@ + self.pending() =~= d + before);
                }
                assert(before[0] == buff@[bidx - 1]);
                assert(self.pending() =~= before.drop_first());
                assert(buff@.take(bidx as int) =~= p.take(bidx as int));
                assert(buff@.skip(bidx as int) =~= prev.skip(bidx as int));
                assert(prev.skip(bidx as int) =~= prev.skip(bidx - 1).drop_first());
                assert(old(buff)@.skip(bidx as int) =~= old(buff)@.skip(bidx - 1).drop_first());
            }
        }
    }
}

} // verus!
