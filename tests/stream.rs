use noodles::block::encode_block;
use noodles::stream::{Reader, StreamError, Writer};
use noodles::virtual_position::VirtualPosition;

fn written(data: &[u8]) -> Vec<u8> {
    let mut writer = Writer::new(());
    writer.write(data).unwrap();
    writer.finish().unwrap();
    writer.take_output()
}

#[test]
fn write_then_read_back() {
    let data: Vec<u8> = (0..200_000u32).map(|i| (i % 253) as u8).collect();
    let out = written(&data);
    let mut reader = Reader::new(out);
    let got = reader.read(data.len()).unwrap();
    assert_eq!(got, data);
}

#[test]
fn reading_past_the_end_gives_end_of_stream() {
    let out = written(b"hello");
    let mut reader = Reader::new(out);
    assert_eq!(reader.read(100).unwrap(), b"hello".to_vec());
    assert_eq!(reader.read(100).unwrap(), Vec::<u8>::new());
    assert_eq!(reader.read(1).unwrap(), Vec::<u8>::new());
}

#[test]
fn empty_stream_is_just_the_eof_marker() {
    let out = written(b"");
    assert_eq!(out, encode_block(&[]).unwrap());
    let mut reader = Reader::new(out);
    assert_eq!(reader.read(10).unwrap(), Vec::<u8>::new());
}

#[test]
fn truncated_stream_is_an_error() {
    let block = encode_block(b"first block").unwrap();
    let mut reader = Reader::new(block);
    assert_eq!(reader.read(11).unwrap(), b"first block".to_vec());
    assert_eq!(reader.read(1), Err(StreamError::Truncated));
}

#[test]
fn missing_source_is_an_error() {
    let mut reader = Reader::new(Vec::new());
    assert_eq!(reader.read(1), Err(StreamError::Truncated));
}

#[test]
fn finish_is_idempotent() {
    let mut writer = Writer::new(());
    writer.write(b"abc").unwrap();
    writer.finish().unwrap();
    let first = writer.take_output();
    writer.finish().unwrap();
    assert!(writer.take_output().is_empty());
    assert_eq!(writer.write(b"x"), Err(StreamError::Finished));
    let mut reader = Reader::new(first);
    assert_eq!(reader.read(10).unwrap(), b"abc".to_vec());
}

#[test]
fn virtual_positions_and_seek() {
    let first = encode_block(b"0123456789").unwrap();
    let second = encode_block(b"abcdef").unwrap();
    let eof = encode_block(&[]).unwrap();
    let second_start = first.len() as u64;
    let mut src = first.clone();
    src.extend_from_slice(&second);
    src.extend_from_slice(&eof);

    let mut reader = Reader::new(src);
    assert_eq!(u64::from(reader.virtual_position()), 0);
    assert_eq!(reader.read(3).unwrap(), b"012".to_vec());
    assert_eq!(reader.virtual_position(), VirtualPosition::new(0, 3).unwrap());
    assert_eq!(reader.read(7).unwrap(), b"3456789".to_vec());
    assert_eq!(reader.virtual_position(), VirtualPosition::new(second_start, 0).unwrap());

    reader.seek(VirtualPosition::new(second_start, 2).unwrap()).unwrap();
    assert_eq!(reader.read(100).unwrap(), b"cdef".to_vec());

    reader.seek(VirtualPosition::new(0, 8).unwrap()).unwrap();
    assert_eq!(reader.read(4).unwrap(), b"89ab".to_vec());

    assert_eq!(reader.seek(VirtualPosition::new(1, 0).unwrap()), Err(StreamError::InvalidSeek));
    assert_eq!(reader.seek(VirtualPosition::new(0, 11).unwrap()), Err(StreamError::InvalidSeek));
    assert_eq!(reader.read(2).unwrap(), b"cd".to_vec());
}

#[test]
fn writer_positions_follow_blocks() {
    let mut writer = Writer::new(Vec::<u8>::new());
    assert_eq!(u64::from(writer.virtual_position()), 0);
    writer.write(b"abc").unwrap();
    assert_eq!(writer.virtual_position(), VirtualPosition::new(0, 3).unwrap());
    let big = vec![7u8; 70_000];
    writer.write(&big).unwrap();
    let pos = writer.virtual_position();
    assert!(pos.compressed() > 0);
    writer.finish().unwrap();
    let out = writer.take_output();
    writer.get_mut().extend_from_slice(&out);
    let sink = writer.into_inner();
    let mut reader = Reader::new(sink);
    let got = reader.read(70_003).unwrap();
    assert_eq!(&got[..3], b"abc");
    assert_eq!(&got[3..], &big[..]);
    reader.seek(pos).unwrap();
    assert_eq!(reader.read(10).unwrap(), Vec::<u8>::new());
}

#[test]
fn corrupted_block_is_reported() {
    let mut src = encode_block(b"payload").unwrap();
    src.extend_from_slice(&encode_block(&[]).unwrap());
    src[0] = 0;
    let mut reader = Reader::new(src);
    assert_eq!(
        reader.read(1),
        Err(StreamError::Block(noodles::block::BlockError::InvalidHeader))
    );
}
