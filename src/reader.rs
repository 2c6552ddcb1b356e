use vstd::prelude::*;

use crate::bits::{bit, lemma_bits_determine, lemma_extract_bit, lemma_push_bit};
use crate::block::{
    block_order, block_order_spec, channel_bit, is_block_permutation, lemma_carrier_pos_bounds, carrier_pos,
};
use crate::embed::EmbedAlgorithm;
use crate::placement::lemma_div_mod_of;
use crate::source::ByteSource;

verus! {

/// `b` is byte `m` of the hidden channel: its bit `t` is channel bit `8 * m + t`.
pub open spec fn is_channel_byte(b: u8, data: Seq<u8>, order: Seq<usize>, block_size: nat, n: nat, m: nat) -> bool {
    forall|t: u8| t < 8 ==> bit(b, t) == #[trigger] channel_bit(data, order, block_size, n, (8 * m + t) as nat)
}

/// Byte `m` of the hidden channel.
pub open spec fn channel_byte(data: Seq<u8>, order: Seq<usize>, block_size: nat, n: nat, m: nat) -> u8 {
    choose|b: u8| is_channel_byte(b, data, order, block_size, n, m)
}

/// Whole bytes that the blocks of `order` carry, `n` bits per carrier byte.
pub open spec fn channel_len(order_len: nat, block_size: nat, n: nat) -> nat {
    (order_len * block_size * n) / 8
}

/// The hidden channel read as bytes: every whole byte carried by the blocks of
/// `order`, in order; bits left over after the last whole byte are dropped.
pub open spec fn channel_stream(data: Seq<u8>, order: Seq<usize>, block_size: nat, n: nat) -> Seq<u8> {
    Seq::new(
        channel_len(order.len(), block_size, n),
        |m: int| channel_byte(data, order, block_size, n, m as nat),
    )
}

/// A byte whose bits are the channel's bits is the channel byte.
pub proof fn lemma_channel_byte_unique(b: u8, data: Seq<u8>, order: Seq<usize>, block_size: nat, n: nat, m: nat)
    requires
        is_channel_byte(b, data, order, block_size, n, m),
    ensures
        channel_byte(data, order, block_size, n, m) == b,
{
    let c = channel_byte(data, order, block_size, n, m);
    assert(is_channel_byte(c, data, order, block_size, n, m));
    assert(bit(c, 0) == bit(b, 0) && bit(c, 1) == bit(b, 1) && bit(c, 2) == bit(b, 2) && bit(c, 3)
        == bit(b, 3)) by {
        assert(channel_bit(data, order, block_size, n, (8 * m + 0u8) as nat) == bit(b, 0));
        assert(channel_bit(data, order, block_size, n, (8 * m + 1u8) as nat) == bit(b, 1));
        assert(channel_bit(data, order, block_size, n, (8 * m + 2u8) as nat) == bit(b, 2));
        assert(channel_bit(data, order, block_size, n, (8 * m + 3u8) as nat) == bit(b, 3));
    }
    assert(bit(c, 4) == bit(b, 4) && bit(c, 5) == bit(b, 5) && bit(c, 6) == bit(b, 6) && bit(c, 7)
        == bit(b, 7)) by {
        assert(channel_bit(data, order, block_size, n, (8 * m + 4u8) as nat) == bit(b, 4));
        assert(channel_bit(data, order, block_size, n, (8 * m + 5u8) as nat) == bit(b, 5));
        assert(channel_bit(data, order, block_size, n, (8 * m + 6u8) as nat) == bit(b, 6));
        assert(channel_bit(data, order, block_size, n, (8 * m + 7u8) as nat) == bit(b, 7));
    }
    lemma_bits_determine(c, b);
}

/// Reads the bytes hidden in a carrier, block after block in the keyed order.
///
/// The reader cannot tell where the payload ends: past the frame it yields
/// whatever the carrier holds, until the blocks are exhausted.
pub struct BlockPlacementIterator<'a> {
    algorithm: EmbedAlgorithm,
    data: &'a [u8],
    block_size: usize,
    blocks: Vec<usize>,
    /// Bytes yielded so far.
    index: usize,
    /// Position of the next bit: byte of the write order, bit within it.
    byte_pos: usize,
    bit_pos: u8,
    /// Whole bytes the blocks carry.
    available: usize,
}

impl<'a> BlockPlacementIterator<'a> {
    /// The whole byte stream of the channel.
    pub closed spec fn stream(&self) -> Seq<u8> {
        channel_stream(self.data@, self.blocks@, self.block_size as nat, self.algorithm.bits())
    }

    /// Bytes not yet yielded.
    pub closed spec fn pending(&self) -> Seq<u8> {
        self.stream().skip(self.index as int)
    }

    pub closed spec fn wf(&self) -> bool {
        let n = self.algorithm.bits();
        let len = self.blocks@.len() * self.block_size;
        &&& self.algorithm.wf()
        &&& self.block_size > 0
        &&& is_block_permutation(self.blocks@, self.data@.len() / (self.block_size as nat))
        &&& self.available == channel_len(self.blocks@.len(), self.block_size as nat, n)
        &&& self.index <= self.available
        &&& self.byte_pos * n + self.bit_pos == 8 * self.index
        &&& self.bit_pos < n
    }

    /// Creates a reader over `data` for blocks of `block_size` bytes visited in
    /// the order that `key` gives.
    pub fn new(algorithm: &EmbedAlgorithm, data: &'a [u8], block_size: usize, key: &[u8; 32]) -> (r: Self)
        requires
            algorithm.wf(),
            block_size > 0,
        ensures
            r.wf(),
            r.pending() == channel_stream(
                data@,
                block_order_spec(data@.len() / (block_size as nat), key@),
                block_size as nat,
                algorithm.bits(),
            ),
    {
        let max_blocks = data.len() / block_size;
        let blocks = block_order(max_blocks, key);
        BlockPlacementIterator::with_order(algorithm, data, block_size, blocks)
    }

    /// Creates a reader over `data` for blocks of `block_size` bytes visited in
    /// the given order, a permutation of all the carrier's whole blocks.
    pub fn with_order(algorithm: &EmbedAlgorithm, data: &'a [u8], block_size: usize, blocks: Vec<usize>) -> (r: Self)
        requires
            algorithm.wf(),
            block_size > 0,
            is_block_permutation(blocks@, data@.len() / (block_size as nat)),
        ensures
            r.wf(),
            r.pending() == channel_stream(data@, blocks@, block_size as nat, algorithm.bits()),
    {
        let max_blocks = data.len() / block_size;
        let n = algorithm.bits_per_byte();
        proof {
            crate::embed::lemma_whole_blocks_fit(block_size as nat, data@.len());
            assert(max_blocks * block_size == block_size * max_blocks) by (nonlinear_arith);
        }
        let usable = max_blocks * block_size;
        proof {
            assert((usable as u128) * (n as u128) <= 7 * (usize::MAX as u128)) by (nonlinear_arith)
                requires
                    n <= 7,
            ;
        }
        let total = (usable as u128) * (n as u128);
        proof {
            assert(total <= 7 * (usize::MAX as u128)) by (nonlinear_arith)
                requires
                    total == usable * n,
                    n <= 7,
            ;
        }
        let available = (total / 8) as usize;
        let r = BlockPlacementIterator {
            algorithm: *algorithm,
            data,
            block_size,
            blocks,
            index: 0,
            byte_pos: 0,
            bit_pos: 0,
            available,
        };
        proof {
            assert(r.blocks@.len() == max_blocks);
            assert(total == max_blocks * block_size * algorithm.bits());
            assert(r.byte_pos * algorithm.bits() == 0);
        }
        assert(r.pending() =~= r.stream());
        r
    }

    /// Gets the next hidden byte, or `None` once the blocks are exhausted.
    pub fn next(&mut self) -> (r: Option<u8>)
        requires
            old(self).wf(),
        ensures
            final(self).wf(),
            old(self).pending().len() == 0 ==> r is None && final(self).pending() == old(self).pending(),
            old(self).pending().len() > 0 ==> r == Some(old(self).pending()[0]) && final(self).pending()
                == old(self).pending().drop_first(),
    {
        if self.index >= self.available {
            return None;
        }
        let n = self.algorithm.bits_per_byte();
        let bs = self.block_size;
        let ghost nn = n as nat;
        let ghost bsn = bs as nat;
        let ghost m = self.index as nat;
        let ghost len = self.blocks@.len() * bsn;
        proof {
            crate::embed::lemma_le_div8((m + 1) as nat, len * nn);
            crate::embed::lemma_whole_blocks_fit(bsn, self.data@.len());
            assert(len <= (self.data@.len() / bsn) * bsn);
            assert((self.data@.len() / bsn) * bsn == bsn * (self.data@.len() / bsn)) by (nonlinear_arith);
        }
        let dlen = self.data.len();
        let ghost s0 = *self;
        let mut byte: u8 = 0;
        let mut t: u8 = 0;
        assert(byte >> t == 0) by (bit_vector)
            requires
                byte == 0,
                t == 0,
        ;
        while t < 8
            invariant
                s0.wf(),
                self.algorithm == s0.algorithm,
                self.data == s0.data,
                self.block_size == s0.block_size,
                self.blocks == s0.blocks,
                self.available == s0.available,
                self.index == s0.index,
                self.index == m,
                n as nat == self.algorithm.bits(),
                nn == n,
                bs == self.block_size,
                bsn == bs,
                len == self.blocks@.len() * bsn,
                len <= self.data@.len(),
                dlen == self.data@.len(),
                8 * (m + 1) <= len * nn,
                t <= 8,
                t < 8 ==> byte >> t == 0,
                self.byte_pos * nn + self.bit_pos == (8 * m + t) as nat,
                self.bit_pos < nn,
                forall|s: u8|
                    s < t ==> bit(byte, s) == #[trigger] channel_bit(
                        self.data@,
                        self.blocks@,
                        bsn,
                        nn,
                        (8 * m + s) as nat,
                    ),
            decreases 8 - t,
        {
            let ghost i = (8 * m + t) as nat;
            proof {
                assert(self.byte_pos < len) by (nonlinear_arith)
                    requires
                        self.byte_pos * nn + self.bit_pos == i,
                        i < len * nn,
                        nn > 0,
                ;
                lemma_carrier_pos_bounds(
                    self.blocks@,
                    self.data@.len() / bsn,
                    bsn,
                    self.byte_pos as nat,
                );
                vstd::arithmetic::div_mod::lemma_fundamental_div_mod(self.byte_pos as int, bs as int);
                vstd::arithmetic::div_mod::lemma_mod_pos_bound(self.byte_pos as int, bs as int);
                let q = (self.byte_pos / bs) as int;
                assert(carrier_pos(self.blocks@, bsn, self.byte_pos as nat) == self.blocks@[q] * bsn + (
                self.byte_pos % bs) as int);
                lemma_div_mod_of(self.byte_pos as nat, nn, self.bit_pos as nat);
                assert((self.data@.len() / bsn) * bsn <= dlen);
                assert(self.blocks@[q] * bsn <= dlen);
            }
            let pos = self.blocks[self.byte_pos / bs] * bs + self.byte_pos % bs;
            let carrier = self.data[pos];
            let x = (carrier >> self.bit_pos) & 1;
            proof {
                lemma_extract_bit(carrier, self.bit_pos);
                assert(channel_bit(self.data@, self.blocks@, bsn, nn, i) == bit(carrier, self.bit_pos));
                assert forall|s: u8| s < t + 1 implies bit(byte | (x << t), s) == #[trigger] channel_bit(
                    self.data@,
                    self.blocks@,
                    bsn,
                    nn,
                    (8 * m + s) as nat,
                ) by {
                    lemma_push_bit(byte, x, t, s);
                }
                lemma_push_bit(byte, x, t, 0);
            }
            byte = byte | (x << t);
            if self.bit_pos + 1 == n {
                proof {
                    assert((self.byte_pos + 1) * nn == self.byte_pos * nn + nn) by (nonlinear_arith);
                }
                self.bit_pos = 0;
                self.byte_pos = self.byte_pos + 1;
            } else {
                self.bit_pos = self.bit_pos + 1;
            }
            t = t + 1;
        }
        self.index = self.index + 1;
        proof {
            assert(is_channel_byte(byte, self.data@, self.blocks@, bsn, nn, m));
            lemma_channel_byte_unique(byte, self.data@, self.blocks@, bsn, nn, m);
            assert(self.pending() =~= old(self).pending().drop_first());
        }
        Some(byte)
    }
}

impl<'a> ByteSource for BlockPlacementIterator<'a> {
    open spec fn inv(&self) -> bool {
        self.wf()
    }

    open spec fn pending(&self) -> Seq<u8> {
        BlockPlacementIterator::pending(self)
    }

    fn next_byte(&mut self) -> (r: Option<u8>) {
        self.next()
    }
}

} // verus!
