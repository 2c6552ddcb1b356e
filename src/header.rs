use vstd::prelude::*;
use vstd::utf8::{decode_utf8, encode_utf8, valid_utf8};

use crate::error::CodecError;
use crate::source::ByteSource;

verus! {

/// Length of the fixed part of the header, in bytes.
pub const FIXED_HEADER_LEN: usize = 12;

/// The format version, kept for compatibility.
#[allow(non_camel_case_types)]
#[derive(Debug, Clone, Copy, PartialEq, Eq, Structural)]
pub enum Version {
    VERSION_1,
}

impl Version {
    /// The number that stands for the version in the header.
    pub open spec fn code(self) -> u16 {
        match self {
            Version::VERSION_1 => 0,
        }
    }

    pub fn to_u16(&self) -> (r: u16)
        ensures
            r == self.code(),
    {
        match self {
            Version::VERSION_1 => 0,
        }
    }

    /// The version that `value` stands for.
    pub fn try_from(value: u16) -> (r: Result<Version, CodecError>)
        ensures
            value == 0 ==> r == Ok::<Version, CodecError>(Version::VERSION_1),
            value != 0 ==> r == Err::<Version, CodecError>(CodecError::UnknownVersion(value)),
    {
        match value {
            0 => Ok(Version::VERSION_1),
            ver => Err(CodecError::UnknownVersion(ver)),
        }
    }
}

/// The CRC-32 (CKSUM variant) of `data`.
pub uninterp spec fn cksum(data: Seq<u8>) -> u32;

/// Relies on `crc::Crc::<u32>::checksum` with `crc::CRC_32_CKSUM`: the
/// checksum depends on the bytes alone.
#[verifier::external_body]
pub(crate) fn crc32_cksum(data: &[u8]) -> (r: u32)
    ensures
        r == cksum(data@),
{
    crc::Crc::<u32>::new(&crc::CRC_32_CKSUM).checksum(data)
}

/// Relies on `String::from_utf8`: it accepts exactly the valid UTF-8 byte
/// sequences, and the string holds the characters they encode.
#[verifier::external_body]
fn utf8_string(bytes: Vec<u8>) -> (r: Option<String>)
    ensures
        r is Some <==> valid_utf8(bytes@),
        r matches Some(s) ==> s@ == decode_utf8(bytes@),
{
    String::from_utf8(bytes).ok()
}

/// Two bytes, least significant first.
pub open spec fn u16_le(x: u16) -> Seq<u8> {
    seq![(x % 256) as u8, (x / 256) as u8]
}

/// Four bytes, least significant first.
pub open spec fn u32_le(x: u32) -> Seq<u8> {
    seq![(x % 256) as u8, ((x / 256) % 256) as u8, ((x / 65536) % 256) as u8, (x / 16777216) as u8]
}

/// The 16-bit number stored little-endian at `at`.
pub open spec fn read_u16_le(s: Seq<u8>, at: int) -> u16 {
    (s[at] + s[at + 1] * 256) as u16
}

/// The 32-bit number stored little-endian at `at`.
pub open spec fn read_u32_le(s: Seq<u8>, at: int) -> u32 {
    (s[at] + s[at + 1] * 256 + s[at + 2] * 65536 + s[at + 3] * 16777216) as u32
}

/// The UTF-8 bytes of an optional comment; none when it is absent.
pub open spec fn comment_bytes(comment: Option<Seq<char>>) -> Seq<u8> {
    match comment {
        Some(c) => encode_utf8(c),
        None => Seq::empty(),
    }
}

/// What a header holds, with the comment as characters.
pub struct HeaderView {
    pub version: Version,
    pub data_len: u32,
    pub data_crc: u32,
    pub comment: Option<Seq<char>>,
}

/// The header bytes: version, payload length, payload checksum and comment
/// length, each little-endian, then the comment's bytes.
pub open spec fn header_bytes(h: HeaderView) -> Seq<u8> {
    let c = comment_bytes(h.comment);
    u16_le(h.version.code()) + u32_le(h.data_len) + u32_le(h.data_crc) + u16_le(c.len() as u16) + c
}

/// Reads a header at the start of `s`: the header and the number of bytes it
/// takes, or why there is none.
pub open spec fn parse_header(s: Seq<u8>) -> Result<(HeaderView, nat), CodecError> {
    if s.len() < FIXED_HEADER_LEN {
        Err(CodecError::Truncated)
    } else {
        let clen = read_u16_le(s, 10) as nat;
        let total = (FIXED_HEADER_LEN + clen) as nat;
        let cb = s.subrange(FIXED_HEADER_LEN as int, total as int);
        let version = read_u16_le(s, 0);
        if s.len() < total {
            Err(CodecError::Truncated)
        } else if clen != 0 && !valid_utf8(cb) {
            Err(CodecError::InvalidComment)
        } else if version != 0 {
            Err(CodecError::UnknownVersion(version))
        } else {
            Ok(
                (
                    HeaderView {
                        version: Version::VERSION_1,
                        data_len: read_u32_le(s, 2),
                        data_crc: read_u32_le(s, 6),
                        comment: if clen == 0 {
                            None
                        } else {
                            Some(decode_utf8(cb))
                        },
                    },
                    total,
                ),
            )
        }
    }
}

/// The comment a header keeps once read back: an empty comment reads as none.
pub open spec fn stored_comment(comment: Option<Seq<char>>) -> Option<Seq<char>> {
    if comment_bytes(comment).len() == 0 {
        None
    } else {
        comment
    }
}

/// Little-endian bytes read back give the number.
pub proof fn lemma_le_round_trip(x16: u16, x32: u32)
    ensures
        read_u16_le(u16_le(x16), 0) == x16,
        read_u32_le(u32_le(x32), 0) == x32,
{
    let b = u32_le(x32);
    let a1 = x32 / 256;
    let a2 = a1 / 256;
    let a3 = a2 / 256;
    vstd::arithmetic::div_mod::lemma_fundamental_div_mod(x32 as int, 256);
    vstd::arithmetic::div_mod::lemma_fundamental_div_mod(a1 as int, 256);
    vstd::arithmetic::div_mod::lemma_fundamental_div_mod(a2 as int, 256);
    vstd::arithmetic::div_mod::lemma_div_denominator(x32 as int, 256, 256);
    vstd::arithmetic::div_mod::lemma_div_denominator(x32 as int, 65536, 256);
    vstd::arithmetic::div_mod::lemma_fundamental_div_mod(x16 as int, 256);
}

/// A header's bytes, whatever follows them, read back as the header, with an
/// empty comment read as none.
pub proof fn lemma_parse_header_bytes(h: HeaderView, rest: Seq<u8>)
    requires
        h.version == Version::VERSION_1,
        comment_bytes(h.comment).len() <= u16::MAX,
    ensures
        parse_header(header_bytes(h) + rest) == Ok::<(HeaderView, nat), CodecError>(
            (
                HeaderView {
                    version: h.version,
                    data_len: h.data_len,
                    data_crc: h.data_crc,
                    comment: stored_comment(h.comment),
                },
                header_bytes(h).len(),
            ),
        ),
{
    let c = comment_bytes(h.comment);
    let clen = c.len() as u16;
    let hb = header_bytes(h);
    let x = hb + rest;
    let v = u16_le(h.version.code());
    let l = u32_le(h.data_len);
    let k = u32_le(h.data_crc);
    let cl = u16_le(clen);
    lemma_le_round_trip(h.version.code(), h.data_len);
    lemma_le_round_trip(clen, h.data_crc);
    assert(hb.len() == FIXED_HEADER_LEN + c.len());
    assert(read_u16_le(x, 0) == read_u16_le(v, 0));
    assert(read_u32_le(x, 2) == read_u32_le(l, 0));
    assert(read_u32_le(x, 6) == read_u32_le(k, 0));
    assert(read_u16_le(x, 10) == read_u16_le(cl, 0));
    assert(x.subrange(FIXED_HEADER_LEN as int, FIXED_HEADER_LEN + c.len()) =~= c);
    match h.comment {
        Some(chars) => {
            vstd::utf8::encode_utf8_valid_utf8(chars);
            vstd::utf8::encode_utf8_decode_utf8(chars);
        },
        None => {},
    }
}

/// Encodes a value into bytes.
pub trait Encode {
    /// The value can be encoded.
    spec fn encodable(&self) -> bool;

    /// The bytes that encode the value.
    spec fn encoding(&self) -> Seq<u8>;

    /// Encode the data at the end of `vec`.
    fn encode(&self, vec: &mut Vec<u8>)
        requires
            self.encodable(),
        ensures
            final(vec)@ == old(vec)@ + self.encoding(),
    ;
}

/// Metadata framed before the payload.
#[derive(Debug)]
pub struct Header {
    pub version: Version,
    pub data_len: u32,
    pub data_crc: u32,
    pub comment: Option<String>,
}

impl View for Header {
    type V = HeaderView;

    open spec fn view(&self) -> HeaderView {
        HeaderView {
            version: self.version,
            data_len: self.data_len,
            data_crc: self.data_crc,
            comment: match self.comment {
                Some(c) => Some(c@),
                None => None,
            },
        }
    }
}

pub(crate) fn push_bytes(vec: &mut Vec<u8>, bytes: &[u8])
    ensures
        final(vec)@ == old(vec)@ + bytes@,
{
    let mut i: usize = 0;
    while i < bytes.len()
        invariant
            i <= bytes@.len(),
            vec@ == old(vec)@ + bytes@.take(i as int),
        decreases bytes@.len() - i,
    {
        vec.push(bytes[i]);
        i = i + 1;
        assert(vec@ =~= old(vec)@ + bytes@.take(i as int));
    }
    assert(bytes@.take(i as int) =~= bytes@);
}

fn push_u16_le(vec: &mut Vec<u8>, x: u16)
    ensures
        final(vec)@ == old(vec)@ + u16_le(x),
{
    vec.push((x % 256) as u8);
    vec.push((x / 256) as u8);
    assert(vec@ =~= old(vec)@ + u16_le(x));
}

fn push_u32_le(vec: &mut Vec<u8>, x: u32)
    ensures
        final(vec)@ == old(vec)@ + u32_le(x),
{
    vec.push((x % 256) as u8);
    vec.push(((x / 256) % 256) as u8);
    vec.push(((x / 65536) % 256) as u8);
    vec.push((x / 16777216) as u8);
    assert(vec@ =~= old(vec)@ + u32_le(x));
}

/// Takes the next byte of the source, failing when it is exhausted.
fn next_or_truncated<S: ByteSource>(it: &mut S) -> (r: Result<u8, CodecError>)
    requires
        old(it).inv(),
    ensures
        final(it).inv(),
        old(it).pending().len() == 0 ==> r == Err::<u8, CodecError>(CodecError::Truncated),
        old(it).pending().len() > 0 ==> r == Ok::<u8, CodecError>(old(it).pending()[0])
            && final(it).pending() == old(it).pending().drop_first(),
{
    match it.next_byte() {
        Some(b) => Ok(b),
        None => Err(CodecError::Truncated),
    }
}

impl Header {
    /// Construct a new header for the payload `data`.
    pub fn new(version: Version, data: &[u8], comment: Option<String>) -> (r: Result<Header, CodecError>)
        ensures
            data@.len() > u32::MAX ==> r == Err::<Header, CodecError>(CodecError::DataTooLong),
            data@.len() <= u32::MAX && comment_bytes(
                match comment {
                    Some(c) => Some(c@),
                    None => None,
                },
            ).len() > u16::MAX ==> r == Err::<Header, CodecError>(CodecError::CommentTooLong),
            r is Ok <==> data@.len() <= u32::MAX && comment_bytes(
                match comment {
                    Some(c) => Some(c@),
                    None => None,
                },
            ).len() <= u16::MAX,
            r matches Ok(h) ==> {
                &&& h.version == version
                &&& h.data_len == data@.len()
                &&& h.data_crc == cksum(data@)
                &&& h.comment == comment
                &&& h.encodable()
            },
    {
        if data.len() > u32::MAX as usize {
            return Err(CodecError::DataTooLong);
        }
        match &comment {
            Some(c) => {
                if c.as_str().as_bytes().len() > u16::MAX as usize {
                    return Err(CodecError::CommentTooLong);
                }
            },
            None => {},
        }
        Ok(Header {
            version,
            data_len: data.len() as u32,
            data_crc: crc32_cksum(data),
            comment,
        })
    }
}

/// Decodes a value from a sequence of bytes.
pub trait Decode: Sized {
    /// Decoding `before` gives `r` and leaves `after` unread.
    spec fn decodes(before: Seq<u8>, after: Seq<u8>, r: Result<Self, CodecError>) -> bool;

    /// Decode the data from the bytes of `it`.
    fn decode<S: ByteSource>(it: &mut S) -> (r: Result<Self, CodecError>)
        requires
            old(it).inv(),
        ensures
            final(it).inv(),
            Self::decodes(old(it).pending(), final(it).pending(), r),
    ;
}

impl Decode for Header {
    /// What `parse_header` reads: on success the header, with the bytes after
    /// it left unread.
    open spec fn decodes(before: Seq<u8>, after: Seq<u8>, r: Result<Header, CodecError>) -> bool {
        match parse_header(before) {
            Ok((h, used)) => r matches Ok(x) && x@ == h && after == before.skip(used as int),
            Err(e) => r == Err::<Header, CodecError>(e),
        }
    }

    /// Decode a header from the bytes of `it`, leaving the bytes after it.
    ///
    /// # Errors
    ///
    /// Fails when the source ends inside the header, when the comment is not
    /// UTF-8, or when the version is unknown.
    fn decode<S: ByteSource>(it: &mut S) -> (r: Result<Header, CodecError>) {
        let ghost s = it.pending();
        let mut fixed: Vec<u8> = Vec::new();
        let mut i: usize = 0;
        while i < FIXED_HEADER_LEN
            invariant
                it.inv(),
                s == old(it).pending(),
                i <= FIXED_HEADER_LEN,
                i <= s.len(),
                fixed@ == s.take(i as int),
                it.pending() == s.skip(i as int),
            decreases FIXED_HEADER_LEN - i,
        {
            let b = next_or_truncated(it);
            match b {
                Ok(b) => {
                    fixed.push(b);
                    i = i + 1;
                    assert(fixed@ =~= s.take(i as int));
                    assert(it.pending() =~= s.skip(i as int));
                },
                Err(e) => {
                    assert(s.skip(i as int).len() == 0);
                    assert(s.len() == i);
                    return Err(e);
                },
            }
        }
        let version = fixed[0] as u16 + (fixed[1] as u16) * 256;
        let data_len = fixed[2] as u32 + (fixed[3] as u32) * 256 + (fixed[4] as u32) * 65536 + (
        fixed[5] as u32) * 16777216;
        let data_crc = fixed[6] as u32 + (fixed[7] as u32) * 256 + (fixed[8] as u32) * 65536 + (
        fixed[9] as u32) * 16777216;
        let comment_length = fixed[10] as u16 + (fixed[11] as u16) * 256;
        assert(comment_length == read_u16_le(s, 10));
        let comment = if comment_length != 0 {
            let mut comment_data: Vec<u8> = Vec::new();
            let mut j: u16 = 0;
            while j < comment_length
                invariant
                    it.inv(),
                    s == old(it).pending(),
                    j <= comment_length,
                    FIXED_HEADER_LEN + j <= s.len(),
                    FIXED_HEADER_LEN <= s.len(),
                    comment_length == read_u16_le(s, 10),
                    comment_data@ == s.subrange(FIXED_HEADER_LEN as int, FIXED_HEADER_LEN + j),
                    it.pending() == s.skip(FIXED_HEADER_LEN + j),
                decreases comment_length - j,
            {
                let b = next_or_truncated(it);
                match b {
                    Ok(b) => {
                        comment_data.push(b);
                        j = j + 1;
                        assert(comment_data@ =~= s.subrange(
                            FIXED_HEADER_LEN as int,
                            FIXED_HEADER_LEN + j,
                        ));
                        assert(it.pending() =~= s.skip(FIXED_HEADER_LEN + j));
                    },
                    Err(e) => {
                        assert(s.skip(FIXED_HEADER_LEN + j).len() == 0);
                        assert(s.len() == FIXED_HEADER_LEN + j);
                        return Err(e);
                    },
                }
            }
            match utf8_string(comment_data) {
                Some(c) => Some(c),
                None => {
                    return Err(CodecError::InvalidComment);
                },
            }
        } else {
            None
        };
        let version = Version::try_from(version)?;
        Ok(Header { version, data_len, data_crc, comment })
    }
}

impl Encode for Header {
    open spec fn encodable(&self) -> bool {
        comment_bytes(self@.comment).len() <= u16::MAX
    }

    open spec fn encoding(&self) -> Seq<u8> {
        header_bytes(self@)
    }

    fn encode(&self, vec: &mut Vec<u8>) {
        push_u16_le(vec, self.version.to_u16());
        push_u32_le(vec, self.data_len);
        push_u32_le(vec, self.data_crc);
        match &self.comment {
            Some(c) => {
                let bytes = c.as_str().as_bytes();
                push_u16_le(vec, bytes.len() as u16);
                push_bytes(vec, bytes);
            },
            None => {
                push_u16_le(vec, 0);
            },
        }
        assert(vec@ =~= old(vec)@ + header_bytes(self@));
    }
}

} // verus!
