use png_embed::placement::BlockPlacement;
use png_embed::reader::BlockPlacementIterator;
use png_embed::codec::{decode_raw, frame_raw};
use png_embed::block::best_blocksize;
use png_embed::codec::{check_payload, decode, decode_header, encode};
use png_embed::embed::EmbedAlgorithm;
use png_embed::error::CodecError;
use png_embed::header::{Header, Version};
use png_embed::key::derive_seed;

fn carrier(len: usize) -> Vec<u8> {
    (0..len).map(|i| ((i * 37 + 11) % 251) as u8).collect()
}

fn payload(len: usize) -> Vec<u8> {
    (0..len).map(|i| ((i * 91 + 3) % 256) as u8).collect()
}

#[test]
fn scenario_demo_comment() {
    let mut data = carrier(1024);
    let algorithm = EmbedAlgorithm::Lo(3);
    let key = derive_seed("4x4").unwrap();
    let content: Vec<u8> = vec![1, 2, 3, 4, 5, 6, 7, 8, 9, 10];
    let placement =
        encode(&mut data, &algorithm, &key, &content, Some("demo".to_string())).unwrap();
    // 16 header bytes and 10 payload bytes need ceil(26 * 8 / 3) = 70 carrier
    // bytes, one block of 1024.
    assert_eq!(placement.block_size, 1024);
    assert_eq!(placement.embed_size, 26);
    assert_eq!(placement.blocks.len(), 1);
    assert_eq!(algorithm.embedded_size(26), 70);

    let (header, decoded) = decode(&data, &algorithm, &key).unwrap();
    assert_eq!(decoded, content);
    assert_eq!(header.comment.as_deref(), Some("demo"));
    assert_eq!(header.data_len, 10);
    assert_eq!(header.version, Version::VERSION_1);
}

#[test]
fn round_trip_every_density() {
    let key = [9u8; 32];
    for bits in 1..8u8 {
        for size in [0usize, 1, 17, 200] {
            let original = carrier(4096);
            let mut data = original.clone();
            let algorithm = EmbedAlgorithm::Lo(bits);
            let content = payload(size);
            encode(&mut data, &algorithm, &key, &content, None).unwrap();
            let (header, decoded) = decode(&data, &algorithm, &key).unwrap();
            assert_eq!(decoded, content);
            assert_eq!(header.comment, None);
            assert_eq!(data.len(), original.len());
        }
    }
}

#[test]
fn empty_comment_reads_as_none() {
    let key = [3u8; 32];
    let mut data = carrier(2048);
    let algorithm = EmbedAlgorithm::Lo(2);
    encode(&mut data, &algorithm, &key, &[5, 6], Some(String::new())).unwrap();
    let header = decode_header(&data, &algorithm, &key).unwrap();
    assert_eq!(header.comment, None);
    assert_eq!(header.data_len, 2);
}

#[test]
fn unicode_comment_round_trip() {
    let key = [4u8; 32];
    let mut data = carrier(4096);
    let algorithm = EmbedAlgorithm::Lo(4);
    let comment = "héllo wörld ✓".to_string();
    encode(&mut data, &algorithm, &key, &[1, 2, 3], Some(comment.clone())).unwrap();
    let (header, decoded) = decode(&data, &algorithm, &key).unwrap();
    assert_eq!(header.comment, Some(comment));
    assert_eq!(decoded, vec![1, 2, 3]);
}

#[test]
fn capacity_boundary() {
    let len = 1000;
    let algorithm = EmbedAlgorithm::Lo(3);
    let block_size = best_blocksize(len);
    assert_eq!(block_size, 32);
    let max = algorithm.max_size(block_size, len);
    assert_eq!(max, 32 * 31 * 3 / 8);
    let key = [1u8; 32];

    let mut data = carrier(len);
    let content = payload(max - 12);
    assert!(encode(&mut data, &algorithm, &key, &content, None).is_ok());
    let (_, decoded) = decode(&data, &algorithm, &key).unwrap();
    assert_eq!(decoded, content);

    let original = carrier(len);
    let mut data = original.clone();
    let content = payload(max - 11);
    assert_eq!(
        encode(&mut data, &algorithm, &key, &content, None).unwrap_err(),
        CodecError::Capacity { size: max + 1, max_size: max }
    );
    assert_eq!(data, original);
}

#[test]
fn comment_too_long() {
    let mut data = carrier(1 << 20);
    let original = data.clone();
    let comment = "x".repeat(65536);
    assert_eq!(
        encode(&mut data, &EmbedAlgorithm::Lo(7), &[0u8; 32], &[1], Some(comment)).unwrap_err(),
        CodecError::CommentTooLong
    );
    assert_eq!(data, original);
    let comment = "x".repeat(65535);
    assert!(encode(&mut data, &EmbedAlgorithm::Lo(7), &[0u8; 32], &[1], Some(comment)).is_ok());
}

#[test]
fn checksum_detects_flipped_bit() {
    let key = [8u8; 32];
    let algorithm = EmbedAlgorithm::Lo(2);
    let n = 2usize;
    let content = payload(40);
    let original = carrier(4096);
    let mut clean = original.clone();
    let placement = encode(&mut clean, &algorithm, &key, &content, None).unwrap();
    for payload_bit in [0usize, 7, 100, 319] {
        let mut data = clean.clone();
        // Header is 12 bytes; the payload's bits follow.
        let i = 12 * 8 + payload_bit;
        let k = i / n;
        let pos = placement.blocks[k / placement.block_size] * placement.block_size
            + k % placement.block_size;
        data[pos] ^= 1 << (i % n);
        match decode(&data, &algorithm, &key) {
            Err(CodecError::ChecksumMismatch { expected, actual }) => assert_ne!(expected, actual),
            other => panic!("expected a checksum mismatch, got {:?}", other.map(|r| r.1)),
        }
    }
}

#[test]
fn wrong_key_is_not_silent() {
    let algorithm = EmbedAlgorithm::Lo(3);
    // 8000 bytes are 125 blocks of 64: the key decides which hold the frame.
    let mut data = carrier(8000);
    let content = payload(64);
    encode(&mut data, &algorithm, &[1u8; 32], &content, Some("c".to_string())).unwrap();
    assert!(decode(&data, &algorithm, &[2u8; 32]).map(|r| r.1) != Ok(content));
}

#[test]
fn truncated_carrier() {
    // 20 bytes are a single block of 16 (remainder 4): 16 * 1 / 8 = 2 hidden bytes.
    let data = carrier(20);
    assert_eq!(
        decode(&data, &EmbedAlgorithm::Lo(1), &[0u8; 32]).unwrap_err(),
        CodecError::Truncated
    );
    assert_eq!(decode_header(&[], &EmbedAlgorithm::Lo(1), &[0u8; 32]).unwrap_err(), CodecError::Truncated);
}

#[test]
fn payload_cut_short() {
    // Header promises more data than the carrier holds.
    let key = [6u8; 32];
    let algorithm = EmbedAlgorithm::Lo(7);
    let mut data = carrier(256);
    encode(&mut data, &algorithm, &key, &[], None).unwrap();
    let header = decode_header(&data, &algorithm, &key).unwrap();
    assert_eq!(header.data_len, 0);
    assert_eq!(decode(&data, &algorithm, &key).unwrap().1, Vec::<u8>::new());
}

#[test]
fn filler_keeps_payload() {
    let key = [10u8; 32];
    let algorithm = EmbedAlgorithm::Lo(3);
    let content = payload(100);
    let mut data = carrier(4096);
    let placement = encode(&mut data, &algorithm, &key, &content, Some("f".to_string())).unwrap();
    let written = data.clone();
    let filler: Vec<u8> = (0..data.len()).map(|i| (i % 7) as u8 + 200).collect();
    placement.fill_unused(&mut data, &filler);
    let (header, decoded) = decode(&data, &algorithm, &key).unwrap();
    assert_eq!(decoded, content);
    assert_eq!(header.comment.as_deref(), Some("f"));
    let changed = data.iter().zip(written.iter()).filter(|(a, b)| a != b).count();
    // ceil(117 * 8 / 3) = 312 bytes carry the frame; every other byte is filler.
    assert!(changed > 4096 - 312 - 600);
    let kept = data.iter().zip(filler.iter()).filter(|(a, b)| a == b).count();
    assert!(kept >= 4096 - 312);
}

#[test]
fn check_payload_cases() {
    let header = Header::new(Version::VERSION_1, &[1, 2, 3], None).unwrap();
    assert_eq!(check_payload(&header, header.data_crc), Ok(()));
    assert_eq!(
        check_payload(&header, header.data_crc ^ 1),
        Err(CodecError::ChecksumMismatch { expected: header.data_crc, actual: header.data_crc ^ 1 })
    );
}

#[test]
fn derive_seed_is_stable() {
    let a = derive_seed("4x4").unwrap();
    let b = derive_seed("4x4").unwrap();
    let c = derive_seed("4x5").unwrap();
    assert_eq!(a, b);
    assert_ne!(a, c);
    assert_ne!(&a[..3], b"4x4");
    assert_ne!(a, [0u8; 32]);
}

#[test]
fn raw_frame_round_trip() {
    let content = payload(33);
    let mut bytes = frame_raw(&content, Some("(.tar)".to_string())).unwrap();
    assert_eq!(bytes.len(), 12 + 6 + 33);
    bytes.extend_from_slice(&[9, 9, 9]);
    let (header, decoded) = decode_raw(&bytes).unwrap();
    assert_eq!(decoded, content);
    assert_eq!(header.comment.as_deref(), Some("(.tar)"));

    bytes[12 + 6] ^= 0x10;
    assert!(matches!(decode_raw(&bytes), Err(CodecError::ChecksumMismatch { .. })));
    assert_eq!(decode_raw(&bytes[..20]).unwrap_err(), CodecError::Truncated);
}

#[test]
fn order_from_seed_is_reproducible() {
    let first = png_embed::block::block_order(61, &derive_seed("640x480").unwrap());
    let _other = png_embed::block::block_order(61, &derive_seed("other").unwrap());
    let second = png_embed::block::block_order(61, &derive_seed("640x480").unwrap());
    assert_eq!(first, second);
}

#[test]
fn filler_leaves_bytes_past_last_block() {
    // 1000 bytes are 31 blocks of 32; the last 8 bytes belong to no block.
    let key = [12u8; 32];
    let algorithm = EmbedAlgorithm::Lo(2);
    let original = carrier(1000);
    let mut data = original.clone();
    let placement = encode(&mut data, &algorithm, &key, &payload(20), None).unwrap();
    assert_eq!(placement.max_blocks * placement.block_size, 992);
    let filler = vec![0xAAu8; data.len()];
    placement.fill_unused(&mut data, &filler);
    assert_eq!(&data[992..], &original[992..]);
    assert_eq!(decode(&data, &algorithm, &key).unwrap().1, payload(20));
}

#[test]
fn write_then_read_any_bytes() {
    let key = [13u8; 32];
    for bits in 1..8u8 {
        let algorithm = EmbedAlgorithm::Lo(bits);
        let embed = payload(50);
        let mut data = carrier(3000);
        let placement = BlockPlacement::new(&algorithm, &data, 64, embed.len(), &key).unwrap();
        placement.write_embed(&mut data, &embed);
        let mut it = BlockPlacementIterator::new(&algorithm, &data, 64, &key);
        for b in &embed {
            assert_eq!(it.next(), Some(*b));
        }
    }
}

#[test]
fn derive_seed_accepts_empty_and_long_seeds() {
    assert!(derive_seed("").is_ok());
    assert!(derive_seed(&"s".repeat(10_000)).is_ok());
}
