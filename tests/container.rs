use noodles::container::{
    Block, CompressionMethod, Container, ContainerError, ContentType, DataContainer, Header,
    ReferenceSequenceId, Slice,
};

fn raw_block(content_type: ContentType, data: Vec<u8>) -> Block {
    let n = data.len() as i32;
    Block::new(CompressionMethod::Raw, content_type, 1, n, data, 0)
}

#[test]
fn eof_container() {
    let container = Container::eof();
    assert!(container.is_eof());
    assert_eq!(container.blocks().len(), 1);
    assert_eq!(container.header().crc32, 0x4fd9_bd05);
    assert_eq!(container.blocks()[0].data, vec![1, 0, 1, 0, 1, 0]);
    assert_eq!(container.blocks()[0].crc32, Block::eof().crc32);
    assert_eq!(container.header().start_position, Header::eof().start_position);
}

#[test]
fn other_headers_are_not_eof() {
    let header = Header::new(0, ReferenceSequenceId::Unplaced, 0, 0, 0, 0, 0, 1, Vec::new(), 0);
    assert!(!Container::new(header, Vec::new()).is_eof());
}

#[test]
fn block_sizes() {
    assert_eq!(Block::eof().len(), 2 + 1 + 1 + 1 + 6 + 4);
    let big = raw_block(ContentType::ExternalData, vec![0; 200]);
    assert_eq!(big.len(), 2 + 1 + 2 + 2 + 200 + 4);
}

#[test]
fn container_from_data_container() {
    let slice = Slice {
        core_data_block: raw_block(ContentType::CoreData, vec![1, 2, 3]),
        external_blocks: vec![
            raw_block(ContentType::ExternalData, vec![4; 10]),
            raw_block(ContentType::ExternalData, vec![5; 20]),
        ],
    };
    let slice2 = Slice {
        core_data_block: raw_block(ContentType::CoreData, vec![6]),
        external_blocks: Vec::new(),
    };
    let data_container = DataContainer { compression_header: vec![9; 5], slices: vec![slice, slice2] };
    let container = Container::try_from_data_container(&data_container).unwrap();
    let blocks = container.blocks();
    assert_eq!(blocks.len(), 5);
    assert_eq!(blocks[0].content_type, ContentType::CompressionHeader);
    assert_eq!(blocks[0].data, vec![9; 5]);
    assert_eq!(blocks[2].data, vec![4; 10]);
    assert_eq!(container.header().block_count, 5);
    // 2 + 1 + 1 + 1 + 5 + 4 = 14; slice one: 12 + 19 + 29 = 60; slice two: 12.
    assert_eq!(container.header().landmarks, vec![14, 74, 84]);
    assert!(!container.is_eof());
}

#[test]
fn container_from_empty_data_container() {
    let data_container = DataContainer { compression_header: Vec::new(), slices: Vec::new() };
    let container = Container::try_from_data_container(&data_container).unwrap();
    assert_eq!(container.blocks().len(), 1);
    assert_eq!(container.header().landmarks, vec![9]);
    let _ = ContainerError::Overflow;
}
