use vstd::prelude::*;

use crate::bits::bit;
use crate::block::{
    best_blocksize, block_order_spec, block_size_for, carrier_pos, channel_bit, is_block_permutation,
    stream_bit,
};
use crate::embed::EmbedAlgorithm;
use crate::error::CodecError;
use crate::key::{argon2_key, seed_salt};
use crate::header::{
    cksum, comment_bytes, crc32_cksum, header_bytes, lemma_parse_header_bytes, parse_header, Decode,
    push_bytes, stored_comment, Encode, Header, HeaderView, Version,
};
use crate::placement::{lemma_div_mod_of, lemma_fill_keeps_carried, BlockPlacement};
use crate::reader::{channel_stream, lemma_channel_byte_unique, BlockPlacementIterator};
use crate::source::{ByteSource, SliceSource};

verus! {

/// The characters of an optional comment.
pub open spec fn comment_view(comment: Option<String>) -> Option<Seq<char>> {
    match comment {
        Some(c) => Some(c@),
        None => None,
    }
}

/// The header framed before `payload`.
pub open spec fn frame_header(payload: Seq<u8>, comment: Option<Seq<char>>) -> HeaderView {
    HeaderView {
        version: Version::VERSION_1,
        data_len: payload.len() as u32,
        data_crc: cksum(payload),
        comment,
    }
}

/// The bytes hidden in the carrier: the header, then the payload.
pub open spec fn frame(payload: Seq<u8>, comment: Option<Seq<char>>) -> Seq<u8> {
    header_bytes(frame_header(payload, comment)) + payload
}

/// The byte stream hidden in `carrier` for the algorithm and key.
pub open spec fn carrier_stream(carrier: Seq<u8>, algorithm: EmbedAlgorithm, key: Seq<u8>) -> Seq<u8> {
    let bs = block_size_for(carrier.len());
    channel_stream(carrier, block_order_spec(carrier.len() / bs, key), bs, algorithm.bits())
}

/// `p` is the placement of `size` bytes in a carrier of `len` bytes, for the
/// algorithm and key.
pub open spec fn placed(p: BlockPlacement, len: nat, algorithm: EmbedAlgorithm, key: Seq<u8>, size: nat) -> bool {
    let bs = block_size_for(len);
    let m = len / bs;
    &&& p.wf()
    &&& p.algorithm == algorithm
    &&& p.block_size == bs
    &&& p.max_blocks == m
    &&& p.embed_size == size
    &&& is_block_permutation(block_order_spec(m, key), m)
    &&& p.blocks@ == block_order_spec(m, key).take(p.blocks@.len() as int)
}

/// `after` is `before` with `framed` embedded through placement `p`, made for
/// the algorithm and key.
pub open spec fn embedded(
    before: Seq<u8>,
    after: Seq<u8>,
    algorithm: EmbedAlgorithm,
    key: Seq<u8>,
    framed: Seq<u8>,
    p: BlockPlacement,
) -> bool {
    &&& placed(p, before.len(), algorithm, key, framed.len())
    &&& p.writes(before, after, framed)
}

/// What extraction from a carrier whose hidden stream is `s` gives: the header
/// and the payload, or why there are none.
pub open spec fn extract_spec(s: Seq<u8>) -> Result<(HeaderView, Seq<u8>), CodecError> {
    match parse_header(s) {
        Err(e) => Err(e),
        Ok((h, used)) => {
            if s.len() < used + h.data_len {
                Err(CodecError::Truncated)
            } else {
                let d = s.subrange(used as int, used + h.data_len);
                if cksum(d) != h.data_crc {
                    Err(CodecError::ChecksumMismatch { expected: h.data_crc, actual: cksum(d) })
                } else {
                    Ok((h, d))
                }
            }
        },
    }
}

/// Embeds `payload`, framed with a header that holds `comment`, in `carrier`,
/// in the blocks that `key` picks. The placement is returned so that the bytes
/// left unused can be filled afterwards.
///
/// # Errors
///
/// Fails, leaving the carrier untouched, when the payload or the comment is too
/// long for the header, or the framed payload too large for the carrier.
pub fn encode(
    carrier: &mut Vec<u8>,
    algorithm: &EmbedAlgorithm,
    key: &[u8; 32],
    payload: &[u8],
    comment: Option<String>,
) -> (r: Result<BlockPlacement, CodecError>)
    requires
        algorithm.wf(),
    ensures
        ({
            let len = old(carrier)@.len();
            let bs = block_size_for(len);
            let cv = comment_view(comment);
            let framed = frame(payload@, cv);
            let max = algorithm.max_size_spec(bs, len);
            &&& payload@.len() > u32::MAX ==> r == Err::<BlockPlacement, CodecError>(
                CodecError::DataTooLong,
            )
            &&& payload@.len() <= u32::MAX && comment_bytes(cv).len() > u16::MAX ==> r == Err::<
                BlockPlacement,
                CodecError,
            >(CodecError::CommentTooLong)
            &&& payload@.len() <= u32::MAX && comment_bytes(cv).len() <= u16::MAX && framed.len()
                > max ==> r == Err::<BlockPlacement, CodecError>(
                CodecError::Capacity { size: framed.len() as usize, max_size: max as usize },
            )
            &&& r is Ok <==> payload@.len() <= u32::MAX && comment_bytes(cv).len() <= u16::MAX
                && framed.len() <= max
            &&& r is Err ==> final(carrier)@ == old(carrier)@
            &&& r matches Ok(p) ==> embedded(old(carrier)@, final(carrier)@, *algorithm, key@, framed, p)
            &&& r is Ok ==> extract_spec(carrier_stream(final(carrier)@, *algorithm, key@)) == Ok::<
                (HeaderView, Seq<u8>),
                CodecError,
            >(
                (
                    HeaderView {
                        version: Version::VERSION_1,
                        data_len: payload@.len() as u32,
                        data_crc: cksum(payload@),
                        comment: stored_comment(cv),
                    },
                    payload@,
                ),
            )
        }),
{
    let ghost cv = comment_view(comment);
    let header = match Header::new(Version::VERSION_1, payload, comment) {
        Ok(h) => h,
        Err(e) => {
            return Err(e);
        },
    };
    let mut stream: Vec<u8> = Vec::new();
    header.encode(&mut stream);
    push_bytes(&mut stream, payload);
    proof {
        assert(header@ == frame_header(payload@, cv));
        assert(stream@ =~= frame(payload@, cv));
    }
    let block_size = best_blocksize(carrier.len());
    let placement = match BlockPlacement::new(
        algorithm,
        carrier.as_slice(),
        block_size,
        stream.len(),
        key,
    ) {
        Ok(p) => p,
        Err(e) => {
            return Err(e);
        },
    };
    proof {
        crate::embed::lemma_whole_blocks_fit(block_size as nat, carrier@.len());
        assert(placement.max_blocks * block_size == block_size * placement.max_blocks) by (nonlinear_arith);
    }
    let ghost before = carrier@;
    placement.write_embed(carrier, &stream);
    proof {
        lemma_round_trip(before, carrier@, *algorithm, key@, payload@, cv, placement);
    }
    Ok(placement)
}

/// Checks extracted payload bytes against the header: `actual_crc` is the
/// checksum computed over them.
pub fn check_payload(header: &Header, actual_crc: u32) -> (r: Result<(), CodecError>)
    ensures
        r is Ok <==> actual_crc == header.data_crc,
        r is Err ==> r == Err::<(), CodecError>(
            CodecError::ChecksumMismatch { expected: header.data_crc, actual: actual_crc },
        ),
{
    if actual_crc != header.data_crc {
        Err(CodecError::ChecksumMismatch { expected: header.data_crc, actual: actual_crc })
    } else {
        Ok(())
    }
}

/// Reads only the header hidden in `carrier`.
pub fn decode_header(carrier: &[u8], algorithm: &EmbedAlgorithm, key: &[u8; 32]) -> (r: Result<Header, CodecError>)
    requires
        algorithm.wf(),
    ensures
        match parse_header(carrier_stream(carrier@, *algorithm, key@)) {
            Ok((h, _)) => r matches Ok(x) && x@ == h,
            Err(e) => r == Err::<Header, CodecError>(e),
        },
{
    let block_size = best_blocksize(carrier.len());
    let mut it = BlockPlacementIterator::new(algorithm, carrier, block_size, key);
    Header::decode(&mut it)
}

/// Reads a frame from the bytes of `it`: the header, then as many payload
/// bytes as the header announces, checked against the header's checksum.
fn extract<S: ByteSource>(it: &mut S) -> (r: Result<(Header, Vec<u8>), CodecError>)
    requires
        old(it).inv(),
    ensures
        match extract_spec(old(it).pending()) {
            Ok((h, d)) => r matches Ok((x, v)) && x@ == h && v@ == d,
            Err(e) => r == Err::<(Header, Vec<u8>), CodecError>(e),
        },
{
    let ghost s = it.pending();
    let header = match Header::decode(it) {
        Ok(h) => h,
        Err(e) => {
            return Err(e);
        },
    };
    let ghost used = s.len() - it.pending().len();
    let mut data: Vec<u8> = Vec::new();
    while data.len() < header.data_len as usize
        invariant
            it.inv(),
            s == old(it).pending(),
            parse_header(s) is Ok,
            used == parse_header(s)->Ok_0.1,
            used + data@.len() <= s.len(),
            header@ == parse_header(s)->Ok_0.0,
            data@.len() <= header.data_len,
            it.pending() == s.skip(used + data@.len()),
            data@ == s.subrange(used as int, used + data@.len()),
        decreases header.data_len - data@.len(),
    {
        match it.next_byte() {
            Some(b) => {
                data.push(b);
                assert(data@ =~= s.subrange(used as int, used + data@.len()));
                assert(it.pending() =~= s.skip(used + data@.len()));
            },
            None => {
                assert(s.skip(used + data@.len()).len() == 0);
                assert(s.len() < used + header.data_len);
                return Err(CodecError::Truncated);
            },
        }
    }
    let actual = crc32_cksum(data.as_slice());
    match check_payload(&header, actual) {
        Ok(()) => Ok((header, data)),
        Err(e) => Err(e),
    }
}

/// Extracts the header and the payload hidden in `carrier`.
///
/// # Errors
///
/// Fails when the hidden stream ends before the frame does, when the header is
/// not understood, or when the payload's checksum differs from the header's.
pub fn decode(carrier: &[u8], algorithm: &EmbedAlgorithm, key: &[u8; 32]) -> (r: Result<(Header, Vec<u8>), CodecError>)
    requires
        algorithm.wf(),
    ensures
        match extract_spec(carrier_stream(carrier@, *algorithm, key@)) {
            Ok((h, d)) => r matches Ok((x, v)) && x@ == h && v@ == d,
            Err(e) => r == Err::<(Header, Vec<u8>), CodecError>(e),
        },
{
    let block_size = best_blocksize(carrier.len());
    let mut it = BlockPlacementIterator::new(algorithm, carrier, block_size, key);
    extract(&mut it)
}

/// Frames `payload` for storage as plain bytes: the header, then the payload.
///
/// # Errors
///
/// Fails when the payload or the comment is too long for the header.
pub fn frame_raw(payload: &[u8], comment: Option<String>) -> (r: Result<Vec<u8>, CodecError>)
    ensures
        ({
            let cv = comment_view(comment);
            &&& payload@.len() > u32::MAX ==> r == Err::<Vec<u8>, CodecError>(CodecError::DataTooLong)
            &&& payload@.len() <= u32::MAX && comment_bytes(cv).len() > u16::MAX ==> r == Err::<
                Vec<u8>,
                CodecError,
            >(CodecError::CommentTooLong)
            &&& r is Ok <==> payload@.len() <= u32::MAX && comment_bytes(cv).len() <= u16::MAX
            &&& r matches Ok(v) ==> v@ == frame(payload@, cv)
        }),
{
    let ghost cv = comment_view(comment);
    let header = match Header::new(Version::VERSION_1, payload, comment) {
        Ok(h) => h,
        Err(e) => {
            return Err(e);
        },
    };
    let mut bytes: Vec<u8> = Vec::new();
    header.encode(&mut bytes);
    push_bytes(&mut bytes, payload);
    proof {
        assert(header@ == frame_header(payload@, cv));
        assert(bytes@ =~= frame(payload@, cv));
    }
    Ok(bytes)
}

/// Reads a frame stored as plain bytes at the start of `bytes`; whatever
/// follows the frame is ignored.
pub fn decode_raw(bytes: &[u8]) -> (r: Result<(Header, Vec<u8>), CodecError>)
    ensures
        match extract_spec(bytes@) {
            Ok((h, d)) => r matches Ok((x, v)) && x@ == h && v@ == d,
            Err(e) => r == Err::<(Header, Vec<u8>), CodecError>(e),
        },
{
    let mut source = SliceSource::new(bytes);
    extract(&mut source)
}

/// A frame stored as plain bytes reads back as its payload and header,
/// whatever follows it.
pub proof fn lemma_raw_round_trip(payload: Seq<u8>, comment: Option<Seq<char>>, rest: Seq<u8>)
    requires
        payload.len() <= u32::MAX,
        comment_bytes(comment).len() <= u16::MAX,
    ensures
        extract_spec(frame(payload, comment) + rest) == Ok::<(HeaderView, Seq<u8>), CodecError>(
            (
                HeaderView {
                    version: Version::VERSION_1,
                    data_len: payload.len() as u32,
                    data_crc: cksum(payload),
                    comment: stored_comment(comment),
                },
                payload,
            ),
        ),
{
    let fh = frame_header(payload, comment);
    let s = frame(payload, comment) + rest;
    assert(s =~= header_bytes(fh) + (payload + rest));
    lemma_parse_header_bytes(fh, payload + rest);
    let used = header_bytes(fh).len();
    assert(s.subrange(used as int, (used + payload.len()) as int) =~= payload);
}

/// A carrier whose channel, through the first blocks of `order`, carries
/// `embed` yields `embed` as the first bytes of the stream read over all of
/// `order`.
pub proof fn lemma_carried_stream(data: Seq<u8>, order: Seq<usize>, embed: Seq<u8>, p: BlockPlacement)
    requires
        p.wf(),
        p.max_blocks == data.len() / (p.block_size as nat),
        p.embed_size == embed.len(),
        is_block_permutation(order, p.max_blocks as nat),
        p.blocks@ == order.take(p.blocks@.len() as int),
        p.carries(data, embed),
    ensures
        ({
            let s = channel_stream(data, order, p.block_size as nat, p.bits());
            &&& embed.len() <= s.len()
            &&& s.take(embed.len() as int) == embed
        }),
{
    let bs = p.block_size as nat;
    let m = p.max_blocks as nat;
    let n = p.bits();
    let e = embed.len();
    let s = channel_stream(data, order, bs, n);
    p.lemma_written_fit();
    // The channel holds at least the embedded bytes.
    assert(e * 8 <= m * bs * n) by (nonlinear_arith)
        requires
            e * 8 <= p.written_len() * n,
            p.written_len() <= p.blocks@.len() * bs,
            p.blocks@.len() <= m,
    ;
    assert(order.len() == m);
    crate::embed::lemma_le_div8(e, m * bs * n);
    assert(e <= s.len());
    // Its first bytes are the embedded ones.
    assert forall|j: int| 0 <= j < e implies #[trigger] s[j] == embed[j] by {
        let jj = j as nat;
        assert forall|t: u8| t < 8 implies bit(embed[j], t) == #[trigger] channel_bit(
            data,
            order,
            bs,
            n,
            (8 * jj + t) as nat,
        ) by {
            let i = (8 * jj + t) as nat;
            lemma_div_mod_of(jj, 8, t as nat);
            assert(i == jj * 8 + t);
            assert(i < e * 8);
            let k = i / n;
            vstd::arithmetic::div_mod::lemma_fundamental_div_mod(i as int, n as int);
            vstd::arithmetic::div_mod::lemma_mod_pos_bound(i as int, n as int);
            assert(k < p.written_len()) by (nonlinear_arith)
                requires
                    i == n * k + i % n,
                    0 <= i % n,
                    i < e * 8,
                    e * 8 <= p.written_len() * n,
                    n > 0,
            ;
            vstd::arithmetic::div_mod::lemma_fundamental_div_mod(k as int, bs as int);
            vstd::arithmetic::div_mod::lemma_mod_pos_bound(k as int, bs as int);
            assert(k / bs < p.blocks@.len()) by (nonlinear_arith)
                requires
                    k == bs * (k / bs) + k % bs,
                    0 <= k % bs,
                    k < p.blocks@.len() * bs,
                    bs > 0,
            ;
            assert(p.blocks@[(k / bs) as int] == order[(k / bs) as int]);
            assert(carrier_pos(order, bs, k) == carrier_pos(p.blocks@, bs, k));
            assert(channel_bit(data, p.blocks@, bs, n, i) == stream_bit(embed, i));
        }
        lemma_channel_byte_unique(embed[j], data, order, bs, n, jj);
    }
    assert(s.take(e as int) =~= embed);
}

/// Any bytes written through a placement that `BlockPlacement::new` made for a
/// key come back, in order, as the first bytes that a reader created with the
/// same key and block size yields (see `BlockPlacementIterator::new`).
pub proof fn lemma_write_read_round_trip(
    before: Seq<u8>,
    after: Seq<u8>,
    key: Seq<u8>,
    embed: Seq<u8>,
    p: BlockPlacement,
)
    requires
        p.wf(),
        p.max_blocks == before.len() / (p.block_size as nat),
        p.embed_size == embed.len(),
        is_block_permutation(block_order_spec(p.max_blocks as nat, key), p.max_blocks as nat),
        p.blocks@ == block_order_spec(p.max_blocks as nat, key).take(p.blocks@.len() as int),
        p.writes(before, after, embed),
    ensures
        ({
            let s = channel_stream(
                after,
                block_order_spec(after.len() / (p.block_size as nat), key),
                p.block_size as nat,
                p.bits(),
            );
            &&& embed.len() <= s.len()
            &&& s.take(embed.len() as int) == embed
        }),
{
    p.lemma_writes_carries(before, after, embed);
    lemma_carried_stream(after, block_order_spec(p.max_blocks as nat, key), embed, p);
}

/// A carrier whose channel starts with the frame of `payload` gives back the
/// payload and its header.
pub proof fn lemma_carried_extracts(
    data: Seq<u8>,
    algorithm: EmbedAlgorithm,
    key: Seq<u8>,
    payload: Seq<u8>,
    comment: Option<Seq<char>>,
    p: BlockPlacement,
)
    requires
        payload.len() <= u32::MAX,
        comment_bytes(comment).len() <= u16::MAX,
        placed(p, data.len(), algorithm, key, frame(payload, comment).len()),
        p.carries(data, frame(payload, comment)),
    ensures
        extract_spec(carrier_stream(data, algorithm, key)) == Ok::<(HeaderView, Seq<u8>), CodecError>(
            (
                HeaderView {
                    version: Version::VERSION_1,
                    data_len: payload.len() as u32,
                    data_crc: cksum(payload),
                    comment: stored_comment(comment),
                },
                payload,
            ),
        ),
{
    let bs = block_size_for(data.len());
    let m = data.len() / bs;
    let order = block_order_spec(m, key);
    let n = algorithm.bits();
    let framed = frame(payload, comment);
    let e = framed.len();
    let s = carrier_stream(data, algorithm, key);
    let fh = frame_header(payload, comment);
    lemma_carried_stream(data, order, framed, p);
    assert(s =~= framed + s.skip(e as int));
    // The header parses, then the payload follows.
    let rest = payload + s.skip(e as int);
    assert(s =~= header_bytes(fh) + rest);
    lemma_parse_header_bytes(fh, rest);
    let used = header_bytes(fh).len();
    assert(s.subrange(used as int, (used + payload.len()) as int) =~= payload);
}

/// Extraction gives back what embedding hid: the payload, and the header framed
/// with it.
pub proof fn lemma_round_trip(
    before: Seq<u8>,
    after: Seq<u8>,
    algorithm: EmbedAlgorithm,
    key: Seq<u8>,
    payload: Seq<u8>,
    comment: Option<Seq<char>>,
    p: BlockPlacement,
)
    requires
        payload.len() <= u32::MAX,
        comment_bytes(comment).len() <= u16::MAX,
        embedded(before, after, algorithm, key, frame(payload, comment), p),
    ensures
        extract_spec(carrier_stream(after, algorithm, key)) == Ok::<(HeaderView, Seq<u8>), CodecError>(
            (
                HeaderView {
                    version: Version::VERSION_1,
                    data_len: payload.len() as u32,
                    data_crc: cksum(payload),
                    comment: stored_comment(comment),
                },
                payload,
            ),
        ),
{
    p.lemma_writes_carries(before, after, frame(payload, comment));
    lemma_carried_extracts(after, algorithm, key, payload, comment, p);
}

/// Filling the bytes that the payload does not reach, after embedding, leaves
/// what extraction gives unchanged: the payload and its header.
pub proof fn lemma_fill_keeps_payload(
    before: Seq<u8>,
    mid: Seq<u8>,
    after: Seq<u8>,
    algorithm: EmbedAlgorithm,
    key: Seq<u8>,
    payload: Seq<u8>,
    comment: Option<Seq<char>>,
    p: BlockPlacement,
    filler: Seq<u8>,
)
    requires
        payload.len() <= u32::MAX,
        comment_bytes(comment).len() <= u16::MAX,
        embedded(before, mid, algorithm, key, frame(payload, comment), p),
        p.fills(mid, after, filler),
    ensures
        forall|q: int| 0 <= q < mid.len() && p.is_written(q) ==> #[trigger] after[q] == mid[q],
        extract_spec(carrier_stream(after, algorithm, key)) == Ok::<(HeaderView, Seq<u8>), CodecError>(
            (
                HeaderView {
                    version: Version::VERSION_1,
                    data_len: payload.len() as u32,
                    data_crc: cksum(payload),
                    comment: stored_comment(comment),
                },
                payload,
            ),
        ),
{
    let framed = frame(payload, comment);
    let bs = block_size_for(before.len());
    p.lemma_writes_carries(before, mid, framed);
    crate::embed::lemma_whole_blocks_fit(bs, before.len());
    assert(p.max_blocks * p.block_size == bs * (before.len() / bs)) by (nonlinear_arith)
        requires
            p.max_blocks == before.len() / bs,
            p.block_size == bs,
    ;
    lemma_fill_keeps_carried(p, mid, after, filler, framed);
    lemma_carried_extracts(after, algorithm, key, payload, comment, p);
}

/// The block order depends on the block count and the seed alone: orders
/// computed for the same count from keys derived from the same seed are
/// identical, whatever was computed before.
pub proof fn lemma_order_deterministic(
    max_blocks: nat,
    seed: Seq<u8>,
    key1: Seq<u8>,
    key2: Seq<u8>,
    order1: Seq<usize>,
    order2: Seq<usize>,
)
    requires
        key1 == argon2_key(seed, seed_salt()),
        key2 == argon2_key(seed, seed_salt()),
        order1 == block_order_spec(max_blocks, key1),
        order2 == block_order_spec(max_blocks, key2),
    ensures
        order1 == order2,
{
}

/// The byte range of block `b` of size `block_size`.
pub open spec fn in_block(x: int, b: nat, block_size: nat) -> bool {
    b * block_size <= x < (b + 1) * block_size
}

/// The first `needed` blocks of a block order cover pairwise disjoint byte
/// ranges, all inside the carrier.
pub proof fn lemma_blocks_disjoint(
    order: Seq<usize>,
    carrier_len: nat,
    block_size: nat,
    needed: nat,
    a: int,
    b: int,
    x: int,
)
    requires
        block_size > 0,
        is_block_permutation(order, carrier_len / block_size),
        needed <= carrier_len / block_size,
        0 <= a < needed,
        0 <= b < needed,
        a != b,
    ensures
        !(in_block(x, order[a] as nat, block_size) && in_block(x, order[b] as nat, block_size)),
        (order[a] + 1) * block_size <= carrier_len,
{
    let m = carrier_len / block_size;
    let oa = order[a] as nat;
    let ob = order[b] as nat;
    assert(oa != ob);
    assert(oa < m);
    crate::embed::lemma_whole_blocks_fit(block_size, carrier_len);
    assert((oa + 1) * block_size <= m * block_size) by (nonlinear_arith)
        requires
            oa < m,
    ;
    assert(m * block_size == block_size * m) by (nonlinear_arith);
    if oa < ob {
        assert((oa + 1) * block_size <= ob * block_size) by (nonlinear_arith)
            requires
                oa < ob,
        ;
    } else {
        assert((ob + 1) * block_size <= oa * block_size) by (nonlinear_arith)
            requires
                ob < oa,
        ;
    }
}

} // verus!
