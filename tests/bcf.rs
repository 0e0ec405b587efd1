use noodles::bcf::{file_format, Writer};

#[test]
fn test_write_file_format() {
    let expected = [
        b'B', b'C', b'F', // magic
        0x02, // major
        0x02, // minor
    ];
    assert_eq!(file_format(), expected);
}

#[test]
fn writer_holds_its_sink() {
    let mut writer = Writer::from(Vec::<u8>::new());
    writer.get_mut().push(1);
    assert_eq!(writer.get_ref(), &vec![1]);
    assert_eq!(writer.into_inner(), vec![1]);
}

#[test]
fn new_wraps_in_a_block_compressed_stream() {
    let writer = Writer::new(Vec::<u8>::new());
    assert!(writer.get_ref().get_ref().is_empty());
}
