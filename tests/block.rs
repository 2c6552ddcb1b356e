use png_embed::block::{best_blocksize, block_order, parse_block_mode, BlockMode, BlockModeError};
use png_embed::embed::EmbedAlgorithm;
use png_embed::placement::BlockPlacement;
use png_embed::reader::BlockPlacementIterator;
use rand::seq::SliceRandom;
use rand::SeedableRng;
use rand_chacha::ChaCha8Rng;

#[test]
fn test_write() {
    let algorithm = EmbedAlgorithm::Lo(2);

    let mut data = vec![0u8; 8];
    let embed = vec![0xFF, 0xFF];

    let key = [1u8; 32];
    let placement = BlockPlacement::new(&algorithm, data.as_slice(), 4, embed.len(), &key).unwrap();
    placement.write_embed(&mut data, &embed);

    assert_eq!(data, vec![0b00000011; 8]);
}

#[test]
fn block_block_iterator() {
    let algorithm = EmbedAlgorithm::Lo(3);
    let data = vec![
        0b10111000, 0b11111001, 0b01101010, 0b00111011, 0b11011100, 0b11100110, 0b01100111,
        0b01100000,
    ];

    // A single block of eight bytes: every key gives the same order.
    let mut it = BlockPlacementIterator::new(&algorithm, &data, 8, &[0u8; 32]);

    assert_eq!(it.next(), Some(0b10_001_000));
    assert_eq!(it.next(), Some(0b0100_0110));
    assert_eq!(it.next(), Some(0b0001_1111));
    assert_eq!(it.next(), None);
}

#[test]
fn block_blockplacement_iterator() {
    let algorithm = EmbedAlgorithm::Lo(4);
    let data: Vec<u8> = vec![
        0x00, 0x01, 0x02, 0x03, 0x04, 0x05, 0x06, 0x07, 0x08, 0x09, 0x0a, 0x0b, 0x0c, 0x0d, 0x0e,
        0x0f, 0x10, 0x11, 0x12, 0x13, 0x14, 0x15, 0x16, 0x17, 0x18, 0x19, 0x1a, 0x1b, 0x1c, 0x1d,
        0x1e, 0x1f,
    ];

    let mut it = BlockPlacementIterator::new(&algorithm, &data, 4, &[1u8; 32]);

    let mut rand = ChaCha8Rng::from_seed([1u8; 32]);
    let mut positions = (0..8).collect::<Vec<usize>>();
    positions.shuffle(&mut rand);

    assert_eq!(block_order(8, &[1u8; 32]), positions);
    for i in 0..8 {
        let base = positions[i] * 4;
        // Four bits per carrier byte: two carrier bytes per hidden byte.
        let first = (data[base] & 0x0f) | ((data[base + 1] & 0x0f) << 4);
        let second = (data[base + 2] & 0x0f) | ((data[base + 3] & 0x0f) << 4);
        assert_eq!(it.next(), Some(first));
        assert_eq!(it.next(), Some(second));
    }
    assert_eq!(it.next(), None);
}

#[test]
fn block_order_is_a_permutation() {
    let order = block_order(100, &[7u8; 32]);
    let mut sorted = order.clone();
    sorted.sort();
    assert_eq!(sorted, (0..100).collect::<Vec<usize>>());
    assert_ne!(order, (0..100).collect::<Vec<usize>>());
}

#[test]
fn block_order_is_deterministic() {
    let key = [42u8; 32];
    assert_eq!(block_order(257, &key), block_order(257, &key));
    assert_ne!(block_order(257, &key), block_order(257, &[43u8; 32]));
    assert_eq!(block_order(0, &key), Vec::<usize>::new());
}

#[test]
fn best_blocksize_values() {
    assert_eq!(best_blocksize(1024), 1024);
    assert_eq!(best_blocksize(1000), 32);
    assert_eq!(best_blocksize(0), 32768);
    assert_eq!(best_blocksize(7), 32768);
    assert_eq!(best_blocksize(24), 16);
    assert_eq!(best_blocksize(65536), 32768);
    assert_eq!(best_blocksize(3 * 4096), 4096);
}

#[test]
fn block_mode_round_values() {
    let mode = BlockMode::from_length(1024, true);
    assert_eq!(mode.len, 1024);
    assert_eq!(mode.crc_len, 2);
    let mode = BlockMode::from_length(1000, false);
    assert_eq!(mode.len, 32);
    assert_eq!(mode.crc_len, 0);

    let mode = BlockMode { len: 16, crc_len: 1 };
    assert_eq!(mode.to_data(), 0b1001);
    let mode = BlockMode { len: 64, crc_len: 0 };
    assert_eq!(mode.to_data(), 0b0100);

    let mode = BlockMode::from_byte(0b1011);
    assert_eq!(mode.len, 32);
    assert_eq!(mode.crc_len, 5);
    let mode = BlockMode::from_byte(0b1010);
    assert_eq!(mode.len, 32);
    assert_eq!(mode.crc_len, 0);
}

#[test]
fn placement_capacity_error() {
    let algorithm = EmbedAlgorithm::Lo(2);
    let data = vec![0u8; 8];
    // Two blocks of four bytes hold 2 * 4 * 2 / 8 = 2 bytes.
    assert!(BlockPlacement::new(&algorithm, data.as_slice(), 4, 2, &[0u8; 32]).is_ok());
    assert_eq!(
        BlockPlacement::new(&algorithm, data.as_slice(), 4, 3, &[0u8; 32]).unwrap_err(),
        png_embed::error::CodecError::Capacity { size: 3, max_size: 2 }
    );
}

#[test]
fn write_keeps_high_bits_and_other_blocks() {
    let algorithm = EmbedAlgorithm::Lo(3);
    let mut data = vec![0xF0u8; 64];
    let embed = vec![0xAB];
    let key = [5u8; 32];
    let placement = BlockPlacement::new(&algorithm, data.as_slice(), 16, embed.len(), &key).unwrap();
    assert_eq!(placement.blocks.len(), 1);
    placement.write_embed(&mut data, &embed);
    let block = placement.blocks[0];
    for (p, b) in data.iter().enumerate() {
        assert_eq!(b & 0xF8, 0xF0);
        if p / 16 != block || p % 16 >= 3 {
            assert_eq!(*b, 0xF0);
        }
    }
    // 0xAB = 1 1 0 1 0 1 0 1 from the lowest bit: 011 (3), 101 (5), 10 then 0.
    let base = block * 16;
    assert_eq!(data[base], 0xF0 | 0b011);
    assert_eq!(data[base + 1], 0xF0 | 0b101);
    assert_eq!(data[base + 2], 0xF0 | 0b010);
}

#[test]
fn block_mode_from_str() {
    assert_eq!("6".parse::<BlockMode>(), Ok(BlockMode { len: 64, crc_len: 6 }));
    assert_eq!("+16".parse::<BlockMode>(), Ok(BlockMode { len: 65536, crc_len: 16 }));
    assert_eq!(parse_block_mode("010"), Ok(BlockMode { len: 1024, crc_len: 10 }));
    assert_eq!(parse_block_mode("5"), Err(BlockModeError::OutOfRange(5)));
    assert_eq!(parse_block_mode("17"), Err(BlockModeError::OutOfRange(17)));
    assert_eq!(parse_block_mode(""), Err(BlockModeError::BadNumber));
    assert_eq!(parse_block_mode("+"), Err(BlockModeError::BadNumber));
    assert_eq!(parse_block_mode("-6"), Err(BlockModeError::BadNumber));
    assert_eq!(parse_block_mode("6a"), Err(BlockModeError::BadNumber));
    assert_eq!(parse_block_mode("99999999999999999999999"), Err(BlockModeError::BadNumber));
}

#[test]
fn reader_with_explicit_order() {
    let algorithm = EmbedAlgorithm::Lo(4);
    let data: Vec<u8> = (0..16).map(|i| i as u8).collect();
    // Blocks of four bytes, read last block first.
    let mut it = BlockPlacementIterator::with_order(&algorithm, &data, 4, vec![3, 2, 1, 0]);
    assert_eq!(it.next(), Some(0xDC));
    assert_eq!(it.next(), Some(0xFE));
    assert_eq!(it.next(), Some(0x98));
}
