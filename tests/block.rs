use noodles::block::{decode_block, encode_block, frame_block, BlockError, MAX_ENCODE_LEN};

const EOF_MARKER: [u8; 28] = [
    0x1f, 0x8b, 0x08, 0x04, 0x00, 0x00, 0x00, 0x00, 0x00, 0xff, 0x06, 0x00, 0x42, 0x43, 0x02, 0x00,
    0x1b, 0x00, 0x03, 0x00, 0x00, 0x00, 0x00, 0x00, 0x00, 0x00, 0x00, 0x00,
];

#[test]
fn round_trip() {
    let data = b"noodles block codec round trip: ACGTACGTACGTACGT".to_vec();
    let block = encode_block(&data).unwrap();
    assert_ne!(block, data);
    let decoded = decode_block(&block).unwrap();
    assert_eq!(decoded.data, data);
    assert_eq!(decoded.len, block.len());
    assert!(!decoded.is_eof());
}

#[test]
fn round_trip_largest_payload() {
    let data: Vec<u8> = (0..MAX_ENCODE_LEN).map(|i| (i * 7 % 251) as u8).collect();
    let block = encode_block(&data).unwrap();
    assert_eq!(decode_block(&block).unwrap().data, data);
}

#[test]
fn oversized_payload_is_refused() {
    let data = vec![0u8; MAX_ENCODE_LEN + 1];
    assert_eq!(encode_block(&data), Err(BlockError::InputTooLarge));
}

#[test]
fn empty_payload_encodes_to_the_eof_marker() {
    assert_eq!(encode_block(&[]).unwrap(), EOF_MARKER.to_vec());
    let decoded = decode_block(&EOF_MARKER).unwrap();
    assert!(decoded.is_eof());
    assert_eq!(decoded.len, 28);
}

#[test]
fn header_declares_block_size() {
    let block = encode_block(b"abc").unwrap();
    let bsize = u16::from_le_bytes([block[16], block[17]]) as usize;
    assert_eq!(bsize + 1, block.len());
    let crc = u32::from_le_bytes([block[block.len() - 8], block[block.len() - 7], block[block.len() - 6], block[block.len() - 5]]);
    assert_eq!(crc, 0x352441c2);
    let isize = u32::from_le_bytes([block[block.len() - 4], block[block.len() - 3], block[block.len() - 2], block[block.len() - 1]]);
    assert_eq!(isize, 3);
}

#[test]
fn corrupted_checksum_is_detected() {
    let block = encode_block(b"checksum me").unwrap();
    let n = block.len();
    for i in n - 8..n - 4 {
        let mut bad = block.clone();
        bad[i] ^= 0x01;
        assert_eq!(decode_block(&bad).unwrap_err(), BlockError::ChecksumMismatch);
    }
}

#[test]
fn wrong_size_is_detected() {
    let mut block = encode_block(b"size").unwrap();
    let n = block.len();
    block[n - 4] = 5;
    assert_eq!(decode_block(&block).unwrap_err(), BlockError::SizeMismatch);
}

#[test]
fn truncated_block_is_detected() {
    let block = encode_block(b"truncate").unwrap();
    assert_eq!(decode_block(&block[..10]).unwrap_err(), BlockError::Truncated);
    assert_eq!(decode_block(&block[..block.len() - 1]).unwrap_err(), BlockError::Truncated);
}

#[test]
fn bad_magic_is_detected() {
    let mut block = encode_block(b"magic").unwrap();
    block[0] = 0x1e;
    assert_eq!(decode_block(&block).unwrap_err(), BlockError::InvalidHeader);
}

#[test]
fn bad_payload_is_detected() {
    let block = frame_block(&[0xff, 0xff, 0xff], 0, 0).unwrap();
    assert_eq!(decode_block(&block).unwrap_err(), BlockError::InvalidData);
}

#[test]
fn frame_block_refuses_oversized_payload() {
    assert_eq!(
        frame_block(&vec![0u8; 65536 - 25], 0, 0),
        Err(BlockError::CompressionFailed)
    );
    assert!(frame_block(&vec![0u8; 65536 - 26], 0, 0).is_ok());
}
