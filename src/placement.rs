use vstd::arithmetic::div_mod::{lemma_fundamental_div_mod_converse};
use vstd::prelude::*;

use crate::bits::{bit, lemma_extract_bit, lemma_masked_write, lemma_push_bit, low_mask};
use crate::block::{
    block_order, block_order_spec, carrier_pos, is_block_permutation, channel_bit, distinct_blocks, lemma_carrier_pos_bounds,
    lemma_carrier_pos_injective, stream_bit,
};
use crate::embed::{blocks_needed, ceil_div, lemma_capacity_boundary, lemma_ceil_div, lemma_ceil_div_le, EmbedAlgorithm};
use crate::error::CodecError;

verus! {

/// The blocks of a carrier chosen to hold one framed payload, in write order.
#[derive(Debug)]
pub struct BlockPlacement {
    pub algorithm: EmbedAlgorithm,
    pub block_size: usize,
    /// Whole blocks in the carrier.
    pub max_blocks: usize,
    /// Bytes of the framed payload.
    pub embed_size: usize,
    /// Indices of the blocks that receive the payload, in write order.
    pub blocks: Vec<usize>,
}

/// `(q * d + r) / d == q` and `(q * d + r) % d == r` for `r < d`.
pub proof fn lemma_div_mod_of(q: nat, d: nat, r: nat)
    requires
        r < d,
    ensures
        (q * d + r) / d == q,
        (q * d + r) % d == r,
{
    lemma_fundamental_div_mod_converse((q * d + r) as int, d as int, q as int, r as int);
}

impl BlockPlacement {
    pub open spec fn bits(&self) -> nat {
        self.algorithm.bits()
    }

    /// Bytes of the write order that receive payload bits.
    pub open spec fn written_len(&self) -> nat {
        self.algorithm.embedded_size_spec(self.embed_size as nat)
    }

    /// Carrier byte that receives the `k`-th written byte.
    pub open spec fn written_pos(&self, k: nat) -> int {
        carrier_pos(self.blocks@, self.block_size as nat, k)
    }

    /// Carrier byte `p` receives payload bits.
    pub open spec fn is_written(&self, p: int) -> bool {
        exists|k: nat| k < self.written_len() && #[trigger] self.written_pos(k) == p
    }

    pub open spec fn wf(&self) -> bool {
        &&& self.algorithm.wf()
        &&& self.block_size > 0
        &&& distinct_blocks(self.blocks@, self.max_blocks as nat)
        &&& self.blocks.len() <= self.max_blocks
        &&& self.blocks.len() == blocks_needed(
            self.algorithm,
            self.embed_size as nat,
            self.block_size as nat,
        )
    }

    /// The written bytes fit in the chosen blocks.
    pub proof fn lemma_written_fit(&self)
        requires
            self.wf(),
        ensures
            self.written_len() <= self.blocks.len() * self.block_size,
            self.embed_size * 8 <= self.written_len() * self.bits(),
    {
        let c = self.written_len();
        lemma_ceil_div_le(c, self.block_size as nat, self.blocks.len() as nat);
        lemma_ceil_div_le((self.embed_size * 8) as nat, self.bits(), c);
        assert(self.blocks.len() * self.block_size == self.block_size * self.blocks.len()) by (nonlinear_arith);
        assert(c * self.bits() == self.bits() * c) by (nonlinear_arith);
    }

    /// `after` is `before` with `embed` written: the channel's bits over the
    /// written bytes are the payload's bits, then zeros; the written bytes keep
    /// their high bits; every other byte is unchanged.
    pub open spec fn writes(&self, before: Seq<u8>, after: Seq<u8>, embed: Seq<u8>) -> bool {
        let n = self.bits();
        &&& after.len() == before.len()
        &&& forall|i: nat|
            i < self.written_len() * n ==> #[trigger] channel_bit(
                after,
                self.blocks@,
                self.block_size as nat,
                n,
                i,
            ) == (i < embed.len() * 8 && stream_bit(embed, i))
        &&& forall|k: nat|
            k < self.written_len() ==> #[trigger] (after[self.written_pos(k)] >> (n as u8))
                == before[self.written_pos(k)] >> (n as u8)
        &&& forall|p: int|
            0 <= p < before.len() && !self.is_written(p) ==> #[trigger] after[p] == before[p]
    }

    /// The channel's first bits in `data` are the bits of `embed`.
    pub open spec fn carries(&self, data: Seq<u8>, embed: Seq<u8>) -> bool {
        forall|i: nat|
            i < embed.len() * 8 ==> #[trigger] channel_bit(
                data,
                self.blocks@,
                self.block_size as nat,
                self.bits(),
                i,
            ) == stream_bit(embed, i)
    }

    /// Written bytes carry the payload.
    pub proof fn lemma_writes_carries(&self, before: Seq<u8>, after: Seq<u8>, embed: Seq<u8>)
        requires
            self.wf(),
            embed.len() == self.embed_size,
            self.writes(before, after, embed),
        ensures
            self.carries(after, embed),
    {
        self.lemma_written_fit();
        assert forall|i: nat| i < embed.len() * 8 implies #[trigger] channel_bit(
            after,
            self.blocks@,
            self.block_size as nat,
            self.bits(),
            i,
        ) == stream_bit(embed, i) by {
            assert(i < self.written_len() * self.bits());
        }
    }

    /// Attempts to create a new block placement: the first blocks of the keyed
    /// order, as many as a framed payload of `embed_size` bytes needs.
    ///
    /// # Errors
    ///
    /// Fails when the carrier is too small to hold all the blocks.
    pub fn new(
        algorithm: &EmbedAlgorithm,
        data: &[u8],
        block_size: usize,
        embed_size: usize,
        key: &[u8; 32],
    ) -> (r: Result<BlockPlacement, CodecError>)
        requires
            algorithm.wf(),
            block_size > 0,
        ensures
            r is Ok <==> embed_size <= algorithm.max_size_spec(block_size as nat, data@.len()),
            r is Err ==> r == Err::<BlockPlacement, CodecError>(
                CodecError::Capacity {
                    size: embed_size,
                    max_size: algorithm.max_size_spec(block_size as nat, data@.len()) as usize,
                },
            ),
            r matches Ok(p) ==> {
                &&& p.wf()
                &&& p.algorithm == *algorithm
                &&& p.block_size == block_size
                &&& p.max_blocks == data@.len() / (block_size as nat)
                &&& p.embed_size == embed_size
                &&& p.blocks@ == block_order_spec(p.max_blocks as nat, key@).take(
                    p.blocks@.len() as int,
                )
                &&& is_block_permutation(
                    block_order_spec(p.max_blocks as nat, key@),
                    p.max_blocks as nat,
                )
            },
    {
        let max_blocks = data.len() / block_size;
        let max_size = algorithm.max_size(block_size, data.len());
        if embed_size > max_size {
            return Err(CodecError::Capacity { size: embed_size, max_size });
        }
        proof {
            lemma_capacity_boundary(*algorithm, embed_size as nat, block_size as nat, data@.len());
        }
        let n = algorithm.bits_per_byte() as u128;
        let bits = (embed_size as u128) * 8;
        let embedded = if bits % n == 0 {
            bits / n
        } else {
            bits / n + 1
        };
        proof {
            lemma_ceil_div(bits as nat, n as nat);
        }
        let bs = block_size as u128;
        let blocks_num = if embedded % bs == 0 {
            embedded / bs
        } else {
            embedded / bs + 1
        };
        proof {
            lemma_ceil_div(embedded as nat, bs as nat);
        }
        let mut blocks = block_order(max_blocks, key);
        let ghost order = blocks@;
        blocks.truncate(blocks_num as usize);
        proof {
            assert(blocks@ =~= order.take(blocks_num as int));
            assert forall|i: int, j: int|
                0 <= i < blocks@.len() && 0 <= j < blocks@.len() && i != j implies blocks@[i]
                != blocks@[j] by {
                assert(blocks@[i] == order[i] && blocks@[j] == order[j]);
            }
            assert forall|i: int| 0 <= i < blocks@.len() implies (#[trigger] blocks@[i]) < max_blocks by {
                assert(blocks@[i] == order[i]);
            }
        }
        Ok(BlockPlacement {
            algorithm: *algorithm,
            block_size,
            max_blocks,
            embed_size,
            blocks,
        })
    }

    /// Embeds the framed payload `embed` in the carrier: the `k`-th byte of the
    /// write order gets its `n` low bits replaced by the next `n` bits of the
    /// payload (zero bits once the payload is exhausted).
    pub fn write_embed(&self, data: &mut Vec<u8>, embed: &Vec<u8>)
        requires
            self.wf(),
            self.max_blocks * self.block_size <= old(data)@.len(),
            embed@.len() == self.embed_size,
        ensures
            self.writes(old(data)@, final(data)@, embed@),
    {
        let n = self.algorithm.bits_per_byte();
        let bs = self.block_size;
        let top: u8 = 1u8 << n;
        proof {
            assert(top >= 1) by (bit_vector)
                requires
                    top == 1u8 << n,
                    1 <= n <= 7,
            ;
        }
        let mask: u8 = top - 1;
        proof {
            self.lemma_written_fit();
            assert(mask == low_mask(n)) by (bit_vector)
                requires
                    mask == (top - 1) as u8,
                    top == 1u8 << n,
                    1 <= n <= 7,
            ;
            assert(1u8 << n >= 1) by (bit_vector)
                requires
                    1 <= n <= 7,
            ;
        }
        let ghost nn = n as nat;
        let ghost total = embed@.len() * 8;
        let ghost w = self.written_len();
        let ghost bsn = bs as nat;
        let ghost old_data = data@;
        let len = data.len();
        let mut sb: usize = 0;
        let mut st: u8 = 0;
        let mut k: usize = 0;
        while sb < embed.len()
            invariant
                self.wf(),
                self.max_blocks * self.block_size <= old_data.len(),
                embed@.len() == self.embed_size,
                n as nat == self.bits(),
                bs == self.block_size,
                nn == n,
                bsn == bs,
                mask == low_mask(n),
                total == embed@.len() * 8,
                w == self.written_len(),
                total <= w * nn,
                w <= self.blocks.len() * bs,
                data@.len() == old_data.len(),
                len == old_data.len(),
                st < 8,
                sb <= embed@.len(),
                sb == embed@.len() ==> st == 0,
                k * nn <= total ==> 8 * sb + st == k * nn,
                k * nn > total ==> sb == embed@.len(),
                k == 0 || (k - 1) * nn < total,
                forall|i: nat|
                    i < k * nn ==> #[trigger] channel_bit(data@, self.blocks@, bsn, nn, i) == (i
                        < total && stream_bit(embed@, i)),
                forall|j: nat|
                    j < k ==> #[trigger] (data@[self.written_pos(j)] >> n) == old_data[self.written_pos(
                        j,
                    )] >> n,
                forall|p: int|
                    0 <= p < old_data.len() && (forall|j: nat|
                        j < k ==> #[trigger] self.written_pos(j) != p) ==> #[trigger] data@[p]
                        == old_data[p],
            decreases total - (8 * sb + st),
        {
            let ghost i0 = k * nn;
            proof {
                assert(i0 < total);
                lemma_ceil_div_le(total, nn, k as nat);
                assert(nn * k == k * nn) by (nonlinear_arith);
                assert(k < w);
                assert(self.blocks.len() * bsn <= self.max_blocks * bsn) by (nonlinear_arith)
                    requires
                        self.blocks.len() <= self.max_blocks,
                ;
                assert(k < len);
                lemma_carrier_pos_bounds(self.blocks@, self.max_blocks as nat, bsn, k as nat);
                vstd::arithmetic::div_mod::lemma_fundamental_div_mod(k as int, bs as int);
                vstd::arithmetic::div_mod::lemma_mod_pos_bound(k as int, bs as int);
                assert(data@.len() == len);
                let q = (k / bs) as int;
                assert(carrier_pos(self.blocks@, bsn, k as nat) == self.blocks@[q] * bsn + (k % bs) as int);
                assert(self.blocks@[q] * bsn + (k % bs) as int <= usize::MAX);
                assert(self.blocks@[q] * bsn <= usize::MAX);
            }
            let pos = self.blocks[k / bs] * bs + k % bs;
            assert(pos == self.written_pos(k as nat));
            let mut v: u8 = 0;
            let mut t: u8 = 0;
            assert(v >> t == 0) by (bit_vector)
                requires
                    v == 0,
                    t == 0,
            ;
            while t < n
                invariant
                    1 <= n <= 7,
                    nn == n,
                    t <= n,
                    v >> t == 0,
                    st < 8,
                    sb <= embed@.len(),
                    sb == embed@.len() ==> st == 0,
                    total == embed@.len() * 8,
                    i0 < total,
                    i0 + t <= total ==> 8 * sb + st == i0 + t,
                    i0 + t > total ==> sb == embed@.len(),
                    forall|s: u8|
                        s < t ==> #[trigger] bit(v, s) == (i0 + s < total && stream_bit(
                            embed@,
                            (i0 + s) as nat,
                        )),
                decreases n - t,
            {
                let b: u8 = if sb < embed.len() {
                    let byte = embed[sb];
                    let x = (byte >> st) & 1;
                    proof {
                        lemma_extract_bit(byte, st);
                        lemma_div_mod_of(sb as nat, 8, st as nat);
                        assert(8 * sb + st == sb * 8 + st);
                    }
                    if st == 7 {
                        st = 0;
                        sb = sb + 1;
                    } else {
                        st = st + 1;
                    }
                    x
                } else {
                    0
                };
                proof {
                    assert forall|s: u8| s < t + 1 implies #[trigger] bit(v | (b << t), s) == (i0 + s
                        < total && stream_bit(embed@, (i0 + s) as nat)) by {
                        lemma_push_bit(v, b, t, s);
                    }
                    lemma_push_bit(v, b, t, 0);
                }
                v = v | (b << t);
                t = t + 1;
            }
            let old_byte = data[pos];
            let new_byte = (old_byte & !mask) | v;
            proof {
                assert forall|s: u8| s < n implies #[trigger] bit(new_byte, s) == bit(v, s) by {
                    lemma_masked_write(old_byte, v, n, s);
                }
                lemma_masked_write(old_byte, v, n, 0);
            }
            let ghost prev = data@;
            proof {
                assert forall|j: nat| j < k implies #[trigger] self.written_pos(j) != pos by {
                    lemma_carrier_pos_injective(
                        self.blocks@,
                        self.max_blocks as nat,
                        bsn,
                        j,
                        k as nat,
                    );
                }
                assert(old_byte == old_data[pos as int]);
            }
            data.set(pos, new_byte);
            proof {
                assert forall|i: nat| i < (k + 1) * nn implies #[trigger] channel_bit(
                    data@,
                    self.blocks@,
                    bsn,
                    nn,
                    i,
                ) == (i < total && stream_bit(embed@, i)) by {
                    vstd::arithmetic::div_mod::lemma_fundamental_div_mod(i as int, nn as int);
                    vstd::arithmetic::div_mod::lemma_mod_pos_bound(i as int, nn as int);
                    let q = i / nn;
                    let r = i % nn;
                    assert((k + 1) * nn == k * nn + nn) by (nonlinear_arith);
                    if q < k {
                        assert(i < k * nn) by (nonlinear_arith)
                            requires
                                i == nn * q + r,
                                q < k,
                                r < nn,
                        ;
                        lemma_carrier_pos_injective(
                            self.blocks@,
                            self.max_blocks as nat,
                            bsn,
                            q,
                            k as nat,
                        );
                        lemma_carrier_pos_bounds(self.blocks@, self.max_blocks as nat, bsn, q);
                        assert(data@[carrier_pos(self.blocks@, bsn, q)] == prev[carrier_pos(
                            self.blocks@,
                            bsn,
                            q,
                        )]);
                        assert(channel_bit(data@, self.blocks@, bsn, nn, i) == channel_bit(
                            prev,
                            self.blocks@,
                            bsn,
                            nn,
                            i,
                        ));
                    } else {
                        assert(q == k) by (nonlinear_arith)
                            requires
                                i == nn * q + r,
                                q >= k,
                                r < nn,
                                i < k * nn + nn,
                        ;
                        assert(i == i0 + r) by (nonlinear_arith)
                            requires
                                i == nn * q + r,
                                q == k,
                                i0 == k * nn,
                        ;
                        assert(data@[carrier_pos(self.blocks@, bsn, q)] == new_byte);
                        let rs = r as u8;
                        assert(rs < n);
                        assert(bit(new_byte, rs) == bit(v, rs));
                        assert(i0 + rs == i);
                    }
                }
                assert forall|j: nat| j < k + 1 implies #[trigger] (data@[self.written_pos(j)] >> n)
                    == old_data[self.written_pos(j)] >> n by {
                    if j < k {
                        assert(self.written_pos(j) != pos);
                        lemma_carrier_pos_bounds(self.blocks@, self.max_blocks as nat, bsn, j);
                        assert(data@[self.written_pos(j)] == prev[self.written_pos(j)]);
                    } else {
                        assert(j == k);
                        assert(data@[self.written_pos(j)] == new_byte);
                    }
                }
                assert forall|p: int|
                    0 <= p < old_data.len() && (forall|j: nat|
                        j < k + 1 ==> #[trigger] self.written_pos(j) != p) implies #[trigger] data@[p]
                    == old_data[p] by {
                    assert(self.written_pos(k as nat) != p);
                }
                assert((k + 1) * nn == k * nn + nn) by (nonlinear_arith);
            }
            k = k + 1;
        }
        proof {
            lemma_ceil_div_le(total, nn, k as nat);
            assert(nn * k == k * nn) by (nonlinear_arith);
            if k > 0 {
                lemma_ceil_div_le(total, nn, (k - 1) as nat);
                assert(nn * (k - 1) == (k - 1) * nn) by (nonlinear_arith);
            }
            assert(k == w);
            assert forall|p: int| 0 <= p < old_data.len() && !self.is_written(p) implies #[trigger] data@[p]
                == old_data[p] by {
                assert forall|j: nat| j < k implies #[trigger] self.written_pos(j) != p by {
                    if self.written_pos(j) == p {
                        assert(self.is_written(p));
                    }
                }
            }
        }
    }

    /// `after` is `before` with every byte of the whole blocks that the payload
    /// does not reach replaced by the filler byte at the same position; the
    /// bytes past the last whole block stay as they were.
    pub open spec fn fills(&self, before: Seq<u8>, after: Seq<u8>, filler: Seq<u8>) -> bool {
        &&& after.len() == before.len()
        &&& forall|p: int|
            0 <= p < before.len() ==> #[trigger] after[p] == if self.is_written(p) || p
                >= self.max_blocks * self.block_size {
                before[p]
            } else {
                filler[p]
            }
    }

    /// Overwrites every byte of the carrier's whole blocks that the payload does
    /// not reach (unselected blocks and the tail of the last selected one) with
    /// the filler byte at the same position. The bytes past the last whole
    /// block are never written.
    pub fn fill_unused(&self, data: &mut Vec<u8>, filler: &[u8])
        requires
            self.wf(),
            self.max_blocks * self.block_size <= old(data)@.len(),
            filler@.len() == old(data)@.len(),
        ensures
            self.fills(old(data)@, final(data)@, filler@),
    {
        let len = data.len();
        let bs = self.block_size;
        let ghost bsn = bs as nat;
        let n = self.algorithm.bits_per_byte() as u128;
        let bits = (self.embed_size as u128) * 8;
        let w128 = if bits % n == 0 {
            bits / n
        } else {
            bits / n + 1
        };
        proof {
            lemma_ceil_div(bits as nat, n as nat);
            self.lemma_written_fit();
            assert(self.blocks.len() * bsn <= self.max_blocks * bsn) by (nonlinear_arith)
                requires
                    self.blocks.len() <= self.max_blocks,
            ;
        }
        let w = w128 as usize;
        let mut written: Vec<bool> = Vec::new();
        let mut i: usize = 0;
        while i < len
            invariant
                i <= len,
                written@.len() == i,
                forall|p: int| 0 <= p < i ==> !(#[trigger] written@[p]),
            decreases len - i,
        {
            written.push(false);
            i = i + 1;
        }
        let mut k: usize = 0;
        while k < w
            invariant
                self.wf(),
                self.max_blocks * self.block_size <= len,
                bs == self.block_size,
                bsn == bs,
                w == self.written_len(),
                w <= self.blocks.len() * bs,
                k <= w,
                written@.len() == len,
                forall|p: int|
                    0 <= p < len ==> (#[trigger] written@[p] <==> exists|j: nat|
                        j < k && #[trigger] self.written_pos(j) == p),
            decreases w - k,
        {
            proof {
                lemma_carrier_pos_bounds(self.blocks@, self.max_blocks as nat, bsn, k as nat);
                vstd::arithmetic::div_mod::lemma_fundamental_div_mod(k as int, bs as int);
                vstd::arithmetic::div_mod::lemma_mod_pos_bound(k as int, bs as int);
                let q = (k / bs) as int;
                assert(carrier_pos(self.blocks@, bsn, k as nat) == self.blocks@[q] * bsn + (k % bs) as int);
            }
            let pos = self.blocks[k / bs] * bs + k % bs;
            let ghost before = written@;
            written.set(pos, true);
            proof {
                assert forall|p: int|
                    0 <= p < len implies (#[trigger] written@[p] <==> exists|j: nat|
                        j < k + 1 && #[trigger] self.written_pos(j) == p) by {
                    if p == pos {
                        assert(self.written_pos(k as nat) == p);
                    } else {
                        if written@[p] {
                            let j = choose|j: nat| j < k && #[trigger] self.written_pos(j) == p;
                            assert(j < k + 1 && self.written_pos(j) == p);
                        }
                        if exists|j: nat| j < k + 1 && #[trigger] self.written_pos(j) == p {
                            let j = choose|j: nat| j < k + 1 && #[trigger] self.written_pos(j) == p;
                            assert(j != k);
                            assert(j < k && self.written_pos(j) == p);
                        }
                    }
                }
            }
            k = k + 1;
        }
        let ghost old_data = data@;
        let usable = self.max_blocks * bs;
        let mut p: usize = 0;
        while p < usable
            invariant
                p <= usable,
                usable == self.max_blocks * self.block_size,
                usable <= len,
                data@.len() == len,
                old_data.len() == len,
                filler@.len() == len,
                written@.len() == len,
                w == self.written_len(),
                forall|q: int|
                    0 <= q < len ==> (#[trigger] written@[q] <==> exists|j: nat|
                        j < w && #[trigger] self.written_pos(j) == q),
                forall|q: int|
                    0 <= q < len ==> #[trigger] data@[q] == if q < p && !self.is_written(q) {
                        filler@[q]
                    } else {
                        old_data[q]
                    },
            decreases usable - p,
        {
            if !written[p] {
                data.set(p, filler[p]);
            }
            proof {
                assert(written@[p as int] == self.is_written(p as int));
            }
            p = p + 1;
        }
    }
}

/// Filling leaves the bytes that carry the payload as they were.
pub proof fn lemma_fill_keeps_carried(placement: BlockPlacement, mid: Seq<u8>, after: Seq<u8>, filler: Seq<u8>, embed: Seq<u8>)
    requires
        placement.wf(),
        placement.max_blocks * placement.block_size <= mid.len(),
        embed.len() == placement.embed_size,
        placement.carries(mid, embed),
        placement.fills(mid, after, filler),
    ensures
        placement.carries(after, embed),
{
    placement.lemma_written_fit();
    let n = placement.bits();
    let bsn = placement.block_size as nat;
    assert forall|i: nat| i < embed.len() * 8 implies #[trigger] channel_bit(
        after,
        placement.blocks@,
        bsn,
        n,
        i,
    ) == stream_bit(embed, i) by {
        let k = i / n;
        vstd::arithmetic::div_mod::lemma_fundamental_div_mod(i as int, n as int);
        vstd::arithmetic::div_mod::lemma_mod_pos_bound(i as int, n as int);
        assert(k < placement.written_len()) by (nonlinear_arith)
            requires
                i == n * k + i % n,
                0 <= i % n,
                i < embed.len() * 8,
                embed.len() * 8 <= placement.written_len() * n,
                n > 0,
        ;
        lemma_carrier_pos_bounds(placement.blocks@, placement.max_blocks as nat, bsn, k);
        assert(placement.is_written(placement.written_pos(k)));
        assert(after[placement.written_pos(k)] == mid[placement.written_pos(k)]);
        assert(channel_bit(mid, placement.blocks@, bsn, n, i) == stream_bit(embed, i));
    }
}

} // verus!
