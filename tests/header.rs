use png_embed::error::CodecError;
use png_embed::header::{Decode, Encode, Header, Version};
use png_embed::source::SliceSource;

#[test]
fn header_layout() {
    let header = Header::new(Version::VERSION_1, b"123456789", Some("ab".to_string())).unwrap();
    // CRC-32/CKSUM check value.
    assert_eq!(header.data_crc, 0x765E_7680);
    let mut bytes = vec![0xEE];
    header.encode(&mut bytes);
    assert_eq!(
        bytes,
        vec![0xEE, 0, 0, 9, 0, 0, 0, 0x80, 0x76, 0x5E, 0x76, 2, 0, b'a', b'b']
    );
}

#[test]
fn header_round_trip() {
    let header = Header::new(Version::VERSION_1, &[0u8; 300], Some("comment".to_string())).unwrap();
    let mut bytes = Vec::new();
    header.encode(&mut bytes);
    bytes.extend_from_slice(&[1, 2, 3]);
    let mut source = SliceSource::new(&bytes);
    let decoded = Header::decode(&mut source).unwrap();
    assert_eq!(decoded.data_len, 300);
    assert_eq!(decoded.data_crc, header.data_crc);
    assert_eq!(decoded.comment.as_deref(), Some("comment"));
    assert_eq!(decoded.version, Version::VERSION_1);
}

#[test]
fn header_errors() {
    let short = [0u8; 11];
    assert_eq!(Header::decode(&mut SliceSource::new(&short)).unwrap_err(), CodecError::Truncated);

    let cut_comment = [0u8, 0, 0, 0, 0, 0, 0, 0, 0, 0, 3, 0, b'a'];
    assert_eq!(
        Header::decode(&mut SliceSource::new(&cut_comment)).unwrap_err(),
        CodecError::Truncated
    );

    let bad_utf8 = [0u8, 0, 0, 0, 0, 0, 0, 0, 0, 0, 2, 0, 0xC3, 0x28];
    assert_eq!(
        Header::decode(&mut SliceSource::new(&bad_utf8)).unwrap_err(),
        CodecError::InvalidComment
    );

    let bad_version = [1u8, 0, 0, 0, 0, 0, 0, 0, 0, 0, 0, 0];
    assert_eq!(
        Header::decode(&mut SliceSource::new(&bad_version)).unwrap_err(),
        CodecError::UnknownVersion(1)
    );

    assert_eq!(Version::try_from(0), Ok(Version::VERSION_1));
    assert_eq!(Version::try_from(7), Err(CodecError::UnknownVersion(7)));
}

#[test]
fn header_crc_of_empty() {
    let header = Header::new(Version::VERSION_1, &[], None).unwrap();
    assert_eq!(header.data_len, 0);
    // CRC-32/CKSUM of no bytes.
    assert_eq!(header.data_crc, 0xFFFF_FFFF);
}
