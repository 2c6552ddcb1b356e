use vstd::arithmetic::div_mod::{lemma_fundamental_div_mod, lemma_fundamental_div_mod_converse, lemma_mod_pos_bound};
use vstd::arithmetic::power2::pow2;
use vstd::bits::{lemma_usize_pow2_no_overflow, lemma_usize_shl_is_mul};
use crate::embed::{decimal_value, is_digit, lemma_decimal_monotone};
use rand::seq::SliceRandom;
use rand::SeedableRng;
use rand_chacha::ChaCha8Rng;
use vstd::prelude::*;
use vstd::string::*;

verus! {

/// Smallest and largest block-size exponents considered.
pub const MIN_BLOCK_EXP: usize = 4;

pub const MAX_BLOCK_EXP: usize = 15;

/// `p` is the exponent whose block size `2^p` leaves the smallest remainder of
/// `len`, the largest such exponent when several tie.
pub open spec fn is_best_exponent(len: nat, p: nat) -> bool {
    &&& MIN_BLOCK_EXP <= p <= MAX_BLOCK_EXP
    &&& forall|q: nat|
        MIN_BLOCK_EXP <= q <= MAX_BLOCK_EXP ==> #[trigger] (len as nat % pow2(q)) >= len % pow2(p)
    &&& forall|q: nat| p < q <= MAX_BLOCK_EXP ==> #[trigger] (len as nat % pow2(q)) > len % pow2(p)
}

fn best_exponent(len: usize) -> (r: usize)
    ensures
        is_best_exponent(len as nat, r as nat),
{
    let mut best_remainder = len;
    let mut best_p: usize = 0;
    let mut p: usize = MIN_BLOCK_EXP;
    while p <= MAX_BLOCK_EXP
        invariant
            MIN_BLOCK_EXP <= p <= MAX_BLOCK_EXP + 1,
            p == MIN_BLOCK_EXP ==> best_remainder == len,
            p > MIN_BLOCK_EXP ==> {
                &&& MIN_BLOCK_EXP <= best_p < p
                &&& best_remainder == len as nat % pow2(best_p as nat)
                &&& forall|q: nat|
                    MIN_BLOCK_EXP <= q < p ==> #[trigger] (len as nat % pow2(q)) >= best_remainder
                &&& forall|q: nat| best_p < q < p ==> #[trigger] (len as nat % pow2(q)) > best_remainder
            },
        decreases MAX_BLOCK_EXP + 1 - p,
    {
        proof {
            lemma_usize_pow2_no_overflow(p as nat);
            lemma_usize_shl_is_mul(1, p);
            vstd::arithmetic::power2::lemma_pow2_pos(p as nat);
        }
        let block = 1usize << p;
        let remainder = len % block;
        if p == MIN_BLOCK_EXP {
            assert(remainder <= len) by {
                vstd::arithmetic::div_mod::lemma_mod_decreases(len as nat, block as nat);
            }
        }
        if remainder <= best_remainder {
            best_remainder = remainder;
            best_p = p;
        }
        p = p + 1;
    }
    best_p
}

/// Only one exponent is the best for a given length.
pub proof fn lemma_best_exponent_unique(len: nat, p1: nat, p2: nat)
    requires
        is_best_exponent(len, p1),
        is_best_exponent(len, p2),
    ensures
        p1 == p2,
{
    if p1 < p2 {
        assert(len % pow2(p2) > len % pow2(p1));
        assert(len % pow2(p1) >= len % pow2(p2));
    } else if p2 < p1 {
        assert(len % pow2(p1) > len % pow2(p2));
        assert(len % pow2(p2) >= len % pow2(p1));
    }
}

/// The block size chosen for a carrier of `len` bytes.
pub open spec fn block_size_for(len: nat) -> nat {
    pow2(choose|p: nat| is_best_exponent(len, p))
}

/// Gets the best block size (i.e. the one that minimizes the remaining space) for
/// a carrier of `len` bytes. The block size is a power of two in `[16, 32768]`.
pub fn best_blocksize(len: usize) -> (r: usize)
    ensures
        exists|p: nat| is_best_exponent(len as nat, p) && r == pow2(p),
        r == block_size_for(len as nat),
        16 <= r <= 32768,
{
    let p = best_exponent(len);
    proof {
        let c = choose|q: nat| is_best_exponent(len as nat, q);
        lemma_best_exponent_unique(len as nat, p as nat, c);
        if p > 4 {
            vstd::arithmetic::power2::lemma_pow2_strictly_increases(4, p as nat);
        }
        if p < 15 {
            vstd::arithmetic::power2::lemma_pow2_strictly_increases(p as nat, 15);
        }
        vstd::arithmetic::power2::lemma2_to64();
    }
    proof {
        lemma_usize_pow2_no_overflow(p as nat);
        lemma_usize_shl_is_mul(1, p);
    }
    1usize << p
}

/// What rand's Fisher-Yates shuffle, driven by a ChaCha8 generator seeded with
/// `key`, makes of `items`.
pub uninterp spec fn keyed_shuffle(items: Seq<usize>, key: Seq<u8>) -> Seq<usize>;

/// Relies on `rand::seq::SliceRandom::shuffle` over `rand_chacha::ChaCha8Rng::from_seed`:
/// the generator is deterministic in its seed, and the shuffle only swaps
/// elements, so the result is a permutation that depends on the items and the
/// key alone.
#[verifier::external_body]
fn shuffle_with_key(items: &mut Vec<usize>, key: &[u8; 32])
    ensures
        final(items)@ == keyed_shuffle(old(items)@, key@),
        final(items)@.to_multiset() == old(items)@.to_multiset(),
{
    let mut rng = ChaCha8Rng::from_seed(*key);
    items.shuffle(&mut rng);
}

/// The block indices `0, 1, ..., max_blocks - 1` in natural order.
pub open spec fn natural_order(max_blocks: nat) -> Seq<usize> {
    Seq::new(max_blocks, |i: int| i as usize)
}

/// The order in which blocks are visited, for a carrier of `max_blocks` blocks
/// and a 256-bit key.
pub open spec fn block_order_spec(max_blocks: nat, key: Seq<u8>) -> Seq<usize> {
    keyed_shuffle(natural_order(max_blocks), key)
}

/// `order` lists distinct block indices below `max_blocks`.
pub open spec fn distinct_blocks(order: Seq<usize>, max_blocks: nat) -> bool {
    &&& order.no_duplicates()
    &&& forall|i: int| 0 <= i < order.len() ==> (#[trigger] order[i]) < max_blocks
}

/// `order` is a permutation of `0 .. max_blocks`.
pub open spec fn is_block_permutation(order: Seq<usize>, max_blocks: nat) -> bool {
    &&& order.len() == max_blocks
    &&& distinct_blocks(order, max_blocks)
}

/// Computes the keyed permutation of the blocks `0 .. max_blocks`.
pub fn block_order(max_blocks: usize, key: &[u8; 32]) -> (r: Vec<usize>)
    ensures
        r@ == block_order_spec(max_blocks as nat, key@),
        is_block_permutation(r@, max_blocks as nat),
{
    let mut blocks: Vec<usize> = Vec::new();
    let mut i: usize = 0;
    while i < max_blocks
        invariant
            i <= max_blocks,
            blocks@ == natural_order(i as nat),
        decreases max_blocks - i,
    {
        blocks.push(i);
        i = i + 1;
        assert(blocks@ =~= natural_order(i as nat));
    }
    let ghost before = blocks@;
    proof {
        assert(before.no_duplicates());
        before.lemma_multiset_has_no_duplicates();
    }
    shuffle_with_key(&mut blocks, key);
    proof {
        let after = blocks@;
        broadcast use vstd::seq_lib::group_to_multiset_ensures;

        assert forall|x: usize| after.to_multiset().contains(x) implies after.to_multiset().count(
            x,
        ) == 1 by {
            assert(before.to_multiset().contains(x));
        }
        after.lemma_multiset_has_no_duplicates_conv();
        assert(after.len() == after.to_multiset().len());
        assert(before.len() == before.to_multiset().len());
        assert forall|j: int| 0 <= j < after.len() implies (#[trigger] after[j]) < max_blocks by {
            let x = after[j];
            assert(after.contains(x));
            assert(before.to_multiset().count(x) > 0);
            assert(before.contains(x));
            let idx = choose|i: int| 0 <= i < before.len() && before[i] == x;
            assert(x == idx);
        }
    }
    blocks
}

/// Carrier byte that holds the `k`-th byte of the write order: blocks are
/// visited in `order`, bytes within a block from first to last.
pub open spec fn carrier_pos(order: Seq<usize>, block_size: nat, k: nat) -> int {
    order[(k / block_size) as int] * block_size + (k % block_size) as int
}

/// Bit `i` of the hidden channel: `n` low bits of each carrier byte, bytes taken
/// in write order, bits from the least significant one up.
pub open spec fn channel_bit(data: Seq<u8>, order: Seq<usize>, block_size: nat, n: nat, i: nat) -> bool {
    crate::bits::bit(data[carrier_pos(order, block_size, i / n)], (i % n) as u8)
}

/// Bit `i` of a byte sequence, least significant bit of each byte first.
pub open spec fn stream_bit(s: Seq<u8>, i: nat) -> bool {
    crate::bits::bit(s[(i / 8) as int], (i % 8) as u8)
}

/// Bytes in write order stay inside the blocks of `order`, and the blocks stay
/// inside the carrier.
pub proof fn lemma_carrier_pos_bounds(order: Seq<usize>, max_blocks: nat, block_size: nat, k: nat)
    requires
        block_size > 0,
        distinct_blocks(order, max_blocks),
        k < order.len() * block_size,
    ensures
        k / block_size < order.len(),
        0 <= carrier_pos(order, block_size, k) < max_blocks * block_size,
{
    let q = k / block_size;
    let r = k % block_size;
    lemma_fundamental_div_mod(k as int, block_size as int);
    lemma_mod_pos_bound(k as int, block_size as int);
    assert(q < order.len()) by (nonlinear_arith)
        requires
            k == block_size * q + r,
            0 <= r,
            k < order.len() * block_size,
            block_size > 0,
    ;
    let b = order[q as int];
    assert(b < max_blocks);
    assert(b * block_size + r < max_blocks * block_size) by (nonlinear_arith)
        requires
            b < max_blocks,
            r < block_size,
    ;
}

/// Distinct bytes of the write order land on distinct carrier bytes.
pub proof fn lemma_carrier_pos_injective(order: Seq<usize>, max_blocks: nat, block_size: nat, k1: nat, k2: nat)
    requires
        block_size > 0,
        distinct_blocks(order, max_blocks),
        k1 < order.len() * block_size,
        k2 < order.len() * block_size,
        k1 != k2,
    ensures
        carrier_pos(order, block_size, k1) != carrier_pos(order, block_size, k2),
{
    lemma_carrier_pos_bounds(order, max_blocks, block_size, k1);
    lemma_carrier_pos_bounds(order, max_blocks, block_size, k2);
    let q1 = k1 / block_size;
    let q2 = k2 / block_size;
    let r1 = k1 % block_size;
    let r2 = k2 % block_size;
    lemma_fundamental_div_mod(k1 as int, block_size as int);
    lemma_fundamental_div_mod(k2 as int, block_size as int);
    lemma_mod_pos_bound(k1 as int, block_size as int);
    lemma_mod_pos_bound(k2 as int, block_size as int);
    let b1 = order[q1 as int];
    let b2 = order[q2 as int];
    if carrier_pos(order, block_size, k1) == carrier_pos(order, block_size, k2) {
        let x = b1 * block_size + r1;
        lemma_fundamental_div_mod_converse(x as int, block_size as int, b1 as int, r1 as int);
        lemma_fundamental_div_mod_converse(x as int, block_size as int, b2 as int, r2 as int);
        assert(b1 == b2 && r1 == r2);
        assert(q1 == q2);
        assert(k1 == k2);
    }
}

/// Block mode for embedded data: the block length and the length of a
/// per-block checksum (zero when there is none).
#[derive(Debug, Clone, Copy, PartialEq, Eq, Structural)]
pub struct BlockMode {
    pub len: usize,
    pub crc_len: usize,
}

impl BlockMode {
    /// Gets the best [`BlockMode`] for a carrier of `len` bytes.
    pub fn from_length(len: usize, crc: bool) -> (r: BlockMode)
        ensures
            exists|p: nat|
                {
                    &&& is_best_exponent(len as nat, p)
                    &&& r.len == pow2(p)
                    &&& r.crc_len == if crc {
                        p / 4
                    } else {
                        0
                    }
                },
    {
        let p = best_exponent(len);
        proof {
            lemma_usize_pow2_no_overflow(p as nat);
            lemma_usize_shl_is_mul(1, p);
        }
        let crc_len = if crc {
            p / 4
        } else {
            0
        };
        BlockMode { len: 1usize << p, crc_len }
    }

    /// Packs the mode in a byte: bit 0 tells whether a per-block checksum is
    /// used, the bits above hold one more than the number of leading zeros of
    /// the block length's low byte.
    pub fn to_data(&self) -> (r: u8)
        ensures
            r & 1 == (if self.crc_len != 0 {
                1u8
            } else {
                0u8
            }),
            r >> 1u8 == vstd::std_specs::bits::u8_leading_zeros(self.len as u8) + 1,
    {
        let flag: u8 = if self.crc_len != 0 {
            1
        } else {
            0
        };
        let zeros = (self.len as u8).leading_zeros();
        proof {
            vstd::std_specs::bits::axiom_u8_leading_zeros(self.len as u8);
            lemma_mode_byte(flag, (zeros + 1) as u32);
        }
        flag | ((zeros + 1) << 1u32) as u8
    }

    /// Reads a mode packed as in [`BlockMode::to_data`]: bit 0 is the checksum
    /// flag and the bits above are the block length's exponent.
    pub fn from_byte(byte: u8) -> (r: BlockMode)
        requires
            byte >> 1u8 < 32,
        ensures
            r.len == pow2((byte >> 1u8) as nat),
            r.crc_len == (byte & 1) * (byte >> 1u8),
    {
        let crc = byte & 1;
        let len = byte >> 1;
        proof {
            lemma_usize_pow2_no_overflow(len as nat);
            lemma_usize_shl_is_mul(1, len as usize);
            assert(crc <= 1) by (bit_vector)
                requires
                    crc == byte & 1,
            ;
            assert(len < 128) by (bit_vector)
                requires
                    len == byte >> 1u8,
            ;
            assert(crc * len < 128) by (nonlinear_arith)
                requires
                    crc <= 1,
                    len < 128,
            ;
        }
        BlockMode { len: 1usize << len, crc_len: (crc * len) as usize }
    }
}

/// Why a block size was refused.
#[derive(Debug, Clone, Copy, PartialEq, Eq, Structural)]
pub enum BlockModeError {
    /// The text is not a decimal number that fits a `usize`.
    BadNumber,
    /// The exponent is outside `[6, 16]`.
    OutOfRange(usize),
}

/// `s` without a leading `+`.
pub open spec fn unsigned_digits(s: Seq<char>) -> Seq<char> {
    if s.len() > 0 && s[0] == '+' {
        s.drop_first()
    } else {
        s
    }
}

/// What `str::parse::<usize>` accepts: an optional `+`, then one or more
/// decimal digits whose value fits.
pub open spec fn usize_text(s: Seq<char>) -> Option<nat> {
    let digits = unsigned_digits(s);
    if digits.len() > 0 && (forall|i: int| 0 <= i < digits.len() ==> is_digit(#[trigger] digits[i]))
        && decimal_value(digits) <= usize::MAX {
        Some(decimal_value(digits))
    } else {
        None
    }
}

/// What a block size text stands for: the exponent `p` of the block length
/// `2^p`, between 6 and 16, which is also the checksum length.
pub open spec fn block_mode_spec(s: Seq<char>) -> Result<BlockMode, BlockModeError> {
    match usize_text(s) {
        None => Err(BlockModeError::BadNumber),
        Some(p) => if p < 6 || p > 16 {
            Err(BlockModeError::OutOfRange(p as usize))
        } else {
            Ok(BlockMode { len: pow2(p) as usize, crc_len: p as usize })
        },
    }
}

/// Reads a block size given as the exponent of the block length.
pub fn parse_block_mode(s: &str) -> (r: Result<BlockMode, BlockModeError>)
    ensures
        r == block_mode_spec(s@),
{
    let len = s.unicode_len();
    let start: usize = if len > 0 && s.get_char(0) == '+' {
        1
    } else {
        0
    };
    let ghost digits = s@.skip(start as int);
    proof {
        if len > 0 && s@[0] == '+' {
            assert(digits =~= s@.drop_first());
        } else {
            assert(digits =~= s@);
        }
    }
    if start == len {
        return Err(BlockModeError::BadNumber);
    }
    let mut value: usize = 0;
    let mut i: usize = start;
    while i < len
        invariant
            start <= i <= len,
            start < len,
            len == s@.len(),
            digits == s@.skip(start as int),
            digits == unsigned_digits(s@),
            forall|j: int| 0 <= j < i - start ==> is_digit(#[trigger] digits[j]),
            value == decimal_value(digits.take(i - start)),
        decreases len - i,
    {
        let c = s.get_char(i);
        if !(c >= '0' && c <= '9') {
            assert(c == digits[i - start]);
            assert(!(forall|j: int| 0 <= j < digits.len() ==> is_digit(#[trigger] digits[j])));
            return Err(BlockModeError::BadNumber);
        }
        let digit = (c as u32 - '0' as u32) as usize;
        proof {
            assert(c == digits[i - start]);
            assert(digits.take(i - start + 1).drop_last() =~= digits.take(i - start));
            assert(digits.take(i - start + 1).last() == c);
        }
        if value > (usize::MAX - digit) / 10 {
            proof {
                assert(value * 10 + digit > usize::MAX) by (nonlinear_arith)
                    requires
                        value > (usize::MAX - digit) / 10,
                        digit <= 9,
                ;
                if forall|j: int| 0 <= j < digits.len() ==> is_digit(#[trigger] digits[j]) {
                    lemma_decimal_monotone(digits, i - start + 1);
                }
            }
            return Err(BlockModeError::BadNumber);
        }
        proof {
            assert(value * 10 + digit <= usize::MAX) by (nonlinear_arith)
                requires
                    value <= (usize::MAX - digit) / 10,
                    digit <= 9,
            ;
        }
        value = value * 10 + digit;
        i = i + 1;
    }
    assert(digits.take(i - start) =~= digits);
    if value < 6 || value > 16 {
        return Err(BlockModeError::OutOfRange(value));
    }
    proof {
        lemma_usize_pow2_no_overflow(value as nat);
        lemma_usize_shl_is_mul(1, value);
    }
    Ok(BlockMode { len: 1usize << value, crc_len: value })
}

impl std::str::FromStr for BlockMode {
    type Err = BlockModeError;

    fn from_str(s: &str) -> Result<BlockMode, BlockModeError> {
        parse_block_mode(s)
    }
}

proof fn lemma_mode_byte(flag: u8, exp: u32)
    by (bit_vector)
    requires
        flag <= 1,
        1 <= exp <= 9,
    ensures
        (flag | ((exp << 1u32) as u8)) & 1 == flag,
        (flag | ((exp << 1u32) as u8)) >> 1u8 == exp,
{
}

} // verus!
