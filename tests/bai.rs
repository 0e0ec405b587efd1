use noodles::bai::write_index;
use noodles::chunk::Chunk;
use noodles::index::Index;
use noodles::virtual_position::VirtualPosition;

#[test]
fn empty_index_layout() {
    let index = Index::new(0);
    let bytes = write_index(&index).unwrap();
    assert_eq!(bytes, vec![b'B', b'A', b'I', 1, 0, 0, 0, 0, 0, 0, 0, 0, 0, 0, 0, 0]);
}

#[test]
fn index_layout() {
    let mut index = Index::new(2);
    let chunk = Chunk::new(VirtualPosition::from(0x10), VirtualPosition::from(0x20));
    index.add_record(1, 100, 200, chunk).unwrap();
    index.add_unplaced_record();
    let bytes = write_index(&index).unwrap();

    let mut expected = b"BAI\x01".to_vec();
    expected.extend_from_slice(&2i32.to_le_bytes());
    // Reference 0: no bins, no tiles.
    expected.extend_from_slice(&0i32.to_le_bytes());
    expected.extend_from_slice(&0i32.to_le_bytes());
    // Reference 1: bin 4681 with one chunk, one tile.
    expected.extend_from_slice(&1i32.to_le_bytes());
    expected.extend_from_slice(&4681u32.to_le_bytes());
    expected.extend_from_slice(&1i32.to_le_bytes());
    expected.extend_from_slice(&0x10u64.to_le_bytes());
    expected.extend_from_slice(&0x20u64.to_le_bytes());
    expected.extend_from_slice(&1i32.to_le_bytes());
    expected.extend_from_slice(&0x10u64.to_le_bytes());
    // Records placed on no reference sequence.
    expected.extend_from_slice(&1u64.to_le_bytes());

    assert_eq!(bytes, expected);
}

use noodles::bai_reader::{read_index, ReadIndexError};

#[test]
fn written_index_reads_back() {
    let mut index = Index::new(2);
    let c1 = Chunk::new(VirtualPosition::from(0x10), VirtualPosition::from(0x20));
    let c2 = Chunk::new(VirtualPosition::from(0x20), VirtualPosition::from(0x30));
    index.add_record(1, 100, 200, c1).unwrap();
    index.add_record(1, 20_000, 40_000, c2).unwrap();
    let bytes = write_index(&index).unwrap();
    let read = read_index(&bytes).unwrap();
    assert_eq!(read.reference_count(), 2);
    let r1 = read.reference(1).unwrap();
    let original = index.reference(1).unwrap();
    assert_eq!(r1.bins().len(), original.bins().len());
    for (a, b) in r1.bins().iter().zip(original.bins()) {
        assert_eq!(a.id, b.id);
        assert_eq!(a.chunks, b.chunks);
    }
    assert_eq!(r1.linear_index(), original.linear_index());
    assert_eq!(write_index(&read).unwrap(), bytes);
    assert_eq!(
        read.query(1, 150, 160).unwrap(),
        vec![Chunk::new(VirtualPosition::from(0x10), VirtualPosition::from(0x30))]
    );
}

#[test]
fn absent_unplaced_count_reads_as_zero() {
    let bytes = write_index(&Index::new(1)).unwrap();
    let read = read_index(&bytes[..bytes.len() - 8]).unwrap();
    assert_eq!(read.unplaced_unmapped_record_count(), 0);
    assert_eq!(read.reference_count(), 1);
}

#[test]
fn metadata_bin_is_kept() {
    let mut bytes = b"BAI\x01".to_vec();
    bytes.extend_from_slice(&1i32.to_le_bytes());
    bytes.extend_from_slice(&1i32.to_le_bytes());
    bytes.extend_from_slice(&37450u32.to_le_bytes());
    bytes.extend_from_slice(&2i32.to_le_bytes());
    for v in [0x10u64, 0x30, 7, 0] {
        bytes.extend_from_slice(&v.to_le_bytes());
    }
    bytes.extend_from_slice(&0i32.to_le_bytes());
    let read = read_index(&bytes).unwrap();
    assert_eq!(read.reference(0).unwrap().bins()[0].id, 37450);
    bytes.extend_from_slice(&0u64.to_le_bytes());
    assert_eq!(write_index(&read).unwrap(), bytes);
}

#[test]
fn malformed_index_files_are_refused() {
    assert_eq!(read_index(b"BAI").err(), Some(ReadIndexError::Malformed));
    assert_eq!(read_index(b"BAM\x01\0\0\0\0").err(), Some(ReadIndexError::Malformed));
    let mut bytes = write_index(&Index::new(1)).unwrap();
    bytes.push(0);
    assert_eq!(read_index(&bytes).err(), Some(ReadIndexError::Malformed));
    let mut short = b"BAI\x01".to_vec();
    short.extend_from_slice(&1i32.to_le_bytes());
    short.extend_from_slice(&1i32.to_le_bytes());
    assert_eq!(read_index(&short).err(), Some(ReadIndexError::Malformed));
}

#[test]
fn invalid_bins_are_refused() {
    let mut bytes = b"BAI\x01".to_vec();
    bytes.extend_from_slice(&1i32.to_le_bytes());
    bytes.extend_from_slice(&2i32.to_le_bytes());
    for _ in 0..2 {
        bytes.extend_from_slice(&4681u32.to_le_bytes());
        bytes.extend_from_slice(&0i32.to_le_bytes());
    }
    bytes.extend_from_slice(&0i32.to_le_bytes());
    assert_eq!(read_index(&bytes).err(), Some(ReadIndexError::InvalidBins));

    let mut bytes = b"BAI\x01".to_vec();
    bytes.extend_from_slice(&1i32.to_le_bytes());
    bytes.extend_from_slice(&1i32.to_le_bytes());
    bytes.extend_from_slice(&4681u32.to_le_bytes());
    bytes.extend_from_slice(&1i32.to_le_bytes());
    bytes.extend_from_slice(&5u64.to_le_bytes());
    bytes.extend_from_slice(&5u64.to_le_bytes());
    bytes.extend_from_slice(&0i32.to_le_bytes());
    assert_eq!(read_index(&bytes).err(), Some(ReadIndexError::InvalidBins));
}
