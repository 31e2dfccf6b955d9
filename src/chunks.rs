use vstd::prelude::*;

use vstd::arithmetic::div_mod::lemma_fundamental_div_mod_converse;

verus! {

/// The blocks joined end to end.
pub open spec fn concat_blocks(blocks: Seq<Seq<u8>>) -> Seq<u8>
    decreases blocks.len(),
{
    if blocks.len() == 0 {
        Seq::empty()
    } else {
        concat_blocks(blocks.drop_last()) + blocks.last()
    }
}

/// Joining blocks starts with the first block.
pub proof fn lemma_concat_first(blocks: Seq<Seq<u8>>)
    requires
        blocks.len() > 0,
    ensures
        concat_blocks(blocks) == blocks[0] + concat_blocks(blocks.drop_first()),
    decreases blocks.len(),
{
    if blocks.len() == 1 {
        assert(blocks.drop_last() =~= Seq::<Seq<u8>>::empty());
        assert(blocks.drop_first() =~= Seq::<Seq<u8>>::empty());
        assert(concat_blocks(blocks.drop_last()) =~= Seq::<u8>::empty());
        assert(blocks.last() == blocks[0]);
        assert(concat_blocks(blocks) =~= blocks[0]);
        assert(blocks[0] + concat_blocks(blocks.drop_first()) =~= blocks[0]);
    } else {
        let init = blocks.drop_last();
        lemma_concat_first(init);
        assert(init.drop_first() =~= blocks.drop_first().drop_last());
        assert(blocks.drop_first().last() == blocks.last());
        assert(concat_blocks(blocks) =~= blocks[0] + concat_blocks(blocks.drop_first()));
    }
}

/// Blocks as a stream is cut into with block size `size`: none empty, none
/// longer than `size`, and all but the last exactly `size` long.
pub open spec fn chunked(blocks: Seq<Seq<u8>>, size: nat) -> bool {
    &&& forall|i: int| 0 <= i < blocks.len() ==> 0 < #[trigger] blocks[i].len() <= size
    &&& forall|i: int| 0 <= i < blocks.len() - 1 ==> #[trigger] blocks[i].len() == size
}

/// `n / d` rounded up.
pub open spec fn ceil_div(n: nat, d: nat) -> nat
    recommends
        d > 0,
{
    ((n + d - 1) as nat / d) as nat
}

proof fn lemma_concat_full(blocks: Seq<Seq<u8>>, size: nat)
    requires
        forall|i: int| 0 <= i < blocks.len() ==> #[trigger] blocks[i].len() == size,
    ensures
        concat_blocks(blocks).len() == blocks.len() * size,
    decreases blocks.len(),
{
    if blocks.len() > 0 {
        let init = blocks.drop_last();
        assert forall|i: int| 0 <= i < init.len() implies #[trigger] init[i].len() == size by {
            assert(init[i] == blocks[i]);
        }
        lemma_concat_full(init, size);
        assert(blocks.len() * size == (blocks.len() - 1) * size + size) by (nonlinear_arith);
    }
}

/// The length of chunked blocks joined: all but the last are full.
proof fn lemma_concat_chunked(blocks: Seq<Seq<u8>>, size: nat)
    requires
        chunked(blocks, size),
        blocks.len() > 0,
    ensures
        concat_blocks(blocks).len() == (blocks.len() - 1) * size + blocks.last().len(),
{
    let init = blocks.drop_last();
    assert forall|i: int| 0 <= i < init.len() implies #[trigger] init[i].len() == size by {
        assert(init[i] == blocks[i]);
    }
    lemma_concat_full(init, size);
}

/// A stream of `n` bytes cut into blocks of size `size` gives `n / size`
/// blocks rounded up: none for an empty stream.
pub proof fn lemma_chunk_count(blocks: Seq<Seq<u8>>, size: nat)
    requires
        size > 0,
        chunked(blocks, size),
    ensures
        blocks.len() == ceil_div(concat_blocks(blocks).len(), size),
{
    let total = concat_blocks(blocks).len();
    if blocks.len() == 0 {
        lemma_fundamental_div_mod_converse((size - 1) as int, size as int, 0, (size - 1) as int);
    } else {
        lemma_concat_chunked(blocks, size);
        let last = blocks.last().len();
        assert(0 < last <= size) by {
            assert(blocks.last() == blocks[blocks.len() - 1]);
        }
        let q = blocks.len() as int;
        let r = last + size - 1 - size;
        assert(total + size - 1 == q * size + r) by (nonlinear_arith)
            requires
                total == (q - 1) * size + last,
                r == last + size - 1 - size,
        ;
        lemma_fundamental_div_mod_converse(total + size - 1, size as int, q, r);
    }
}

/// Every block is `size` long but the last, whose length is that of the
/// stream modulo `size`, or `size` where that is zero.
pub proof fn lemma_last_block_size(blocks: Seq<Seq<u8>>, size: nat)
    requires
        size > 0,
        chunked(blocks, size),
        blocks.len() > 0,
    ensures
        forall|i: int| 0 <= i < blocks.len() - 1 ==> #[trigger] blocks[i].len() == size,
        blocks.last().len() == (if concat_blocks(blocks).len() % size == 0 {
            size
        } else {
            concat_blocks(blocks).len() % size
        }),
{
    let total = concat_blocks(blocks).len();
    lemma_concat_chunked(blocks, size);
    let last = blocks.last().len();
    assert(0 < last <= size) by {
        assert(blocks.last() == blocks[blocks.len() - 1]);
    }
    let n = blocks.len() as int;
    if last == size {
        assert(total == n * size + 0) by (nonlinear_arith)
            requires
                total == (n - 1) * size + last,
                last == size,
        ;
        lemma_fundamental_div_mod_converse(total as int, size as int, n, 0);
    } else {
        lemma_fundamental_div_mod_converse(total as int, size as int, n - 1, last as int);
    }
}

} // verus!
