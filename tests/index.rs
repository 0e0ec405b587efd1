use noodles::binning::{region_to_bin, region_to_bins};
use noodles::chunk::{merge_chunks, sort_chunks, Chunk};
use noodles::index::{Index, IndexError, ReferenceIndex};
use noodles::virtual_position::VirtualPosition;

fn vp(v: u64) -> VirtualPosition {
    VirtualPosition::from(v)
}

fn chunk(a: u64, b: u64) -> Chunk {
    Chunk::new(vp(a), vp(b))
}

fn covers(chunks: &[Chunk], c: Chunk) -> bool {
    chunks.iter().any(|x| x.start() <= c.start() && c.end() <= x.end())
}

#[test]
fn bins_of_intervals() {
    assert_eq!(region_to_bin(0, 1), 4681);
    assert_eq!(region_to_bin(16383, 16384), 4681);
    assert_eq!(region_to_bin(16384, 16385), 4682);
    assert_eq!(region_to_bin(16383, 16385), 585);
    assert_eq!(region_to_bin(0, 1 << 29), 0);
    assert_eq!(region_to_bin(100, 200), 4681);
}

#[test]
fn candidate_bins_of_a_region() {
    let mut bins = region_to_bins(0, 1);
    bins.sort();
    assert_eq!(bins, vec![0, 1, 9, 73, 585, 4681]);
    let bins = region_to_bins(0, 16385);
    assert!(bins.contains(&4681) && bins.contains(&4682));
    assert_eq!(bins.len(), 7);
}

#[test]
fn sort_and_merge() {
    let sorted = sort_chunks(&vec![chunk(50, 60), chunk(10, 20), chunk(15, 30), chunk(30, 40)]);
    assert_eq!(sorted, vec![chunk(10, 20), chunk(15, 30), chunk(30, 40), chunk(50, 60)]);
    assert_eq!(merge_chunks(&sorted), vec![chunk(10, 40), chunk(50, 60)]);
    assert_eq!(merge_chunks(&vec![]), vec![]);
}

#[test]
fn three_records_scenario() {
    let mut index = Index::new(1);
    let records = [(100, 200, chunk(1000, 1100)), (500, 600, chunk(1100, 1200)), (150, 250, chunk(1200, 1300))];
    for (start, end, c) in records {
        index.add_record(0, start, end, c).unwrap();
    }
    let chunks = index.query(0, 120, 180).unwrap();
    // Scan the chunks in order, then keep the records that intersect.
    let mut found = Vec::new();
    for (i, (start, end, c)) in records.iter().enumerate() {
        if covers(&chunks, *c) && *start < 180 && 120 < *end {
            found.push(i);
        }
    }
    assert_eq!(found, vec![0, 2]);
}

#[test]
fn sorted_records_are_all_found() {
    let mut index = Index::new(2);
    let mut records = Vec::new();
    let mut pos = 100u64;
    for i in 0..200u64 {
        let start = i * 1000;
        let end = start + 150 + (i % 7) * 5000;
        let c = chunk(pos, pos + 40);
        pos += 40;
        index.add_record(1, start, end, c).unwrap();
        records.push((start, end, c));
    }
    for (a, b) in [(0, 1), (5000, 5001), (30_000, 90_000), (150_000, 400_000), (17_000, 17_001)] {
        let chunks = index.query(1, a, b).unwrap();
        for w in chunks.windows(2) {
            assert!(w[0].end() < w[1].start());
        }
        for (start, end, c) in &records {
            if *start < b && a < *end {
                assert!(covers(&chunks, *c), "record [{start}, {end}) missing for [{a}, {b})");
            }
        }
    }
}

#[test]
fn linear_index_prunes_earlier_chunks() {
    let mut reference = ReferenceIndex::new();
    reference.add_record(0, 32768, chunk(5, 10)).unwrap();
    reference.add_record(0, 100, chunk(10, 20)).unwrap();
    reference.add_record(49152, 49162, chunk(20, 30)).unwrap();
    reference.add_record(49157, 81920, chunk(30, 40)).unwrap();
    assert_eq!(reference.linear_index(), &[vp(5), vp(5), vp(0), vp(20), vp(30)]);
    assert_eq!(reference.query(49152, 49153), vec![chunk(20, 40)]);
    assert_eq!(reference.query(65536, 65537), vec![chunk(30, 40)]);
    assert_eq!(reference.query(0, 1), vec![chunk(5, 20), chunk(30, 40)]);
}

#[test]
fn empty_interval_and_unknown_reference() {
    let mut index = Index::new(1);
    index.add_record(0, 10, 20, chunk(1, 2)).unwrap();
    assert_eq!(index.query(0, 15, 15), Ok(vec![]));
    assert_eq!(index.query(0, 20, 10), Ok(vec![]));
    assert_eq!(index.query(1, 0, 100), Err(IndexError::InvalidReferenceSequenceId));
    assert_eq!(index.query(0, 0, 100), Ok(vec![chunk(1, 2)]));
}

#[test]
fn query_outside_records_is_empty() {
    let mut index = Index::new(1);
    index.add_record(0, 10, 20, chunk(1, 2)).unwrap();
    assert_eq!(index.query(0, 1 << 20, 1 << 21), Ok(vec![]));
}

#[test]
fn invalid_records_are_refused() {
    let mut index = Index::new(1);
    assert_eq!(index.add_record(0, 20, 20, chunk(1, 2)), Err(IndexError::InvalidInterval));
    assert_eq!(index.add_record(0, 0, (1 << 29) + 1, chunk(1, 2)), Err(IndexError::InvalidInterval));
    assert_eq!(index.add_record(0, 0, 10, chunk(2, 2)), Err(IndexError::InvalidChunk));
    assert_eq!(index.add_record(3, 0, 10, chunk(1, 2)), Err(IndexError::InvalidReferenceSequenceId));
    assert_eq!(index.reference(0).unwrap().bins().len(), 0);
}

#[test]
fn unplaced_records_are_counted() {
    let mut index = Index::new(0);
    assert_eq!(index.unplaced_unmapped_record_count(), 0);
    index.add_unplaced_record();
    index.add_unplaced_record();
    assert_eq!(index.unplaced_unmapped_record_count(), 2);
    assert_eq!(index.reference_count(), 0);
}
