use noodles::chunk::Chunk;
use noodles::index::Index;
use noodles::indexed_reader::{reference_sequence_id, IndexedReader, IndexedStream, ReadError};
use noodles::stream::{Reader, Writer};
use noodles::virtual_position::VirtualPosition;

fn compress(parts: &[&[u8]]) -> (Vec<u8>, Vec<VirtualPosition>) {
    let mut writer = Writer::new(());
    let mut positions = Vec::new();
    for part in parts {
        positions.push(writer.virtual_position());
        writer.write(part).unwrap();
    }
    positions.push(writer.virtual_position());
    writer.finish().unwrap();
    (writer.take_output(), positions)
}

#[test]
fn bcf_header_is_read() {
    let mut header = b"BCF\x02\x02".to_vec();
    header.extend_from_slice(&5u32.to_le_bytes());
    header.extend_from_slice(b"##x\n\0");
    let (src, _) = compress(&[&header, b"rest"]);
    let stream = IndexedStream::new(Reader::new(src), Index::new(1));
    let mut reader = IndexedReader::Bcf(stream);
    assert_eq!(reader.read_header().unwrap(), b"##x\n\0".to_vec());
}

#[test]
fn bcf_header_with_bad_magic_is_refused() {
    let (src, _) = compress(&[b"BAM\x01rest of it"]);
    let mut reader = IndexedReader::Bcf(IndexedStream::new(Reader::new(src), Index::new(0)));
    assert_eq!(reader.read_header(), Err(ReadError::InvalidHeader));
}

#[test]
fn vcf_header_is_read() {
    let text = b"##fileformat=VCFv4.3\n#CHROM\tPOS\tID\n";
    let (src, _) = compress(&[text, b"sq0\t1\t.\n"]);
    let mut reader = IndexedReader::Vcf(IndexedStream::new(Reader::new(src), Index::new(1)));
    assert_eq!(reader.read_header().unwrap(), text.to_vec());
}

#[test]
fn vcf_without_header_end_is_refused() {
    let (src, _) = compress(&[b"##fileformat=VCFv4.3\n"]);
    let mut reader = IndexedReader::Vcf(IndexedStream::new(Reader::new(src), Index::new(1)));
    assert_eq!(reader.read_header(), Err(ReadError::InvalidHeader));
}

#[test]
fn query_reads_the_chunks_of_intersecting_records() {
    let records: [&[u8]; 3] = [b"r0:100-200\n", b"r1:500-600\n", b"r2:550-700\n"];
    let (src, pos) = compress(&records);
    let mut index = Index::new(1);
    let spans = [(100, 200), (500, 600), (550, 700)];
    for (i, (start, end)) in spans.iter().enumerate() {
        index.add_record(0, *start, *end, Chunk::new(pos[i], pos[i + 1])).unwrap();
    }
    let mut reader = IndexedReader::Vcf(IndexedStream::new(Reader::new(src), index));
    let found = reader.query(0, 580, 590).unwrap();
    assert_eq!(found.len(), 1);
    assert_eq!(found[0].0, Chunk::new(pos[0], pos[3]));
    assert_eq!(found[0].1, b"r0:100-200\nr1:500-600\nr2:550-700\n".to_vec());
    assert_eq!(reader.query(1, 0, 10), Err(ReadError::InvalidReferenceSequenceId));
    assert_eq!(reader.query(0, 10, 10), Ok(vec![]));
}

#[test]
fn vcf_records_are_lines() {
    let text = b"##fileformat=VCFv4.3\n#CHROM\tPOS\n";
    let (src, _) = compress(&[text, b"sq0\t1\nsq0\t2\n"]);
    let mut reader = IndexedReader::Vcf(IndexedStream::new(Reader::new(src), Index::new(1)));
    reader.read_header().unwrap();
    assert_eq!(
        reader.records().unwrap(),
        vec![b"sq0\t1".to_vec(), b"sq0\t2".to_vec()]
    );
}

#[test]
fn bcf_records_are_length_framed() {
    let mut header = b"BCF\x02\x02".to_vec();
    header.extend_from_slice(&1u32.to_le_bytes());
    header.push(0);
    let mut record = Vec::new();
    record.extend_from_slice(&3u32.to_le_bytes());
    record.extend_from_slice(&1u32.to_le_bytes());
    record.extend_from_slice(&[1, 2, 3, 4]);
    let (src, _) = compress(&[&header, &record, &record]);
    let mut reader = IndexedReader::Bcf(IndexedStream::new(Reader::new(src), Index::new(1)));
    assert_eq!(reader.read_header().unwrap(), vec![0]);
    assert_eq!(reader.records().unwrap(), vec![record.clone(), record]);
}

#[test]
fn cut_bcf_record_is_refused() {
    let (src, _) = compress(&[&[5, 0, 0, 0, 0, 0, 0, 0, 1]]);
    let mut reader = IndexedReader::Bcf(IndexedStream::new(Reader::new(src), Index::new(1)));
    assert_eq!(reader.records(), Err(ReadError::InvalidRecord));
}

#[test]
fn records_of_a_truncated_stream_are_refused() {
    let src = noodles::block::encode_block(b"sq0\t1\n").unwrap();
    let mut reader = IndexedReader::Vcf(IndexedStream::new(Reader::new(src), Index::new(1)));
    assert_eq!(reader.records(), Err(ReadError::Stream(noodles::stream::StreamError::Truncated)));
}

#[test]
fn region_names_resolve_to_ids() {
    let names = vec![String::from("sq0"), String::from("sq1"), String::from("sq1")];
    assert_eq!(reference_sequence_id(&names, "sq1"), Ok(1));
    assert_eq!(reference_sequence_id(&names, "sq0"), Ok(0));
    assert_eq!(reference_sequence_id(&names, "sq2"), Err(ReadError::InvalidRegion));
    assert_eq!(reference_sequence_id(&names, "sq"), Err(ReadError::InvalidRegion));
}

#[test]
fn query_by_region_name() {
    let records: [&[u8]; 3] = [b"r1\n", b"r2\n", b"r3\n"];
    let (src, pos) = compress(&records);
    let mut index = Index::new(1);
    let spans = [(100, 200), (500, 600), (150, 250)];
    for (i, (start, end)) in spans.iter().enumerate() {
        index.add_record(0, *start, *end, Chunk::new(pos[i], pos[i + 1])).unwrap();
    }
    let names = vec![String::from("sq0")];
    let mut reader = IndexedReader::Vcf(IndexedStream::new(Reader::new(src), index));
    let found = reader.query_region(&names, "sq0", 120, 180).unwrap();
    let bytes: Vec<u8> = found.into_iter().flat_map(|(_, b)| b).collect();
    assert_eq!(bytes, b"r1\nr2\nr3\n".to_vec());
    assert_eq!(reader.query_region(&names, "sq9", 120, 180), Err(ReadError::InvalidRegion));
    assert_eq!(reader.query_region(&names, "sq0", 180, 120), Ok(vec![]));
}
