use ziponline::chunk_by::EvenChunkBy;

fn ranges(size: u64, chunks: u64) -> Vec<(u64, u64)> {
    let mut chunked = EvenChunkBy::new(size, chunks);
    let mut ranges = vec![];
    while let Some(range) = chunked.next() {
        ranges.push(range);
    }
    ranges
}

#[test]
fn iterate_chunks() {
    let mut chunks = EvenChunkBy::new(29, 5);
    assert_eq!(chunks.next(), Some((0, 5)));
    assert_eq!(chunks.next(), Some((6, 11)));
    assert_eq!(chunks.next(), Some((12, 17)));
    assert_eq!(chunks.next(), Some((18, 23)));
    assert_eq!(chunks.next(), Some((24, 28)));
    assert_eq!(chunks.next(), None);
}

#[test]
fn one_chunk_is_all_of_it() {
    assert_eq!(ranges(29, 1), vec![(0, 28)]);
}

#[test]
fn as_many_chunks_as_bytes() {
    assert_eq!(ranges(3, 3), vec![(0, 0), (1, 1), (2, 2)]);
}

#[test]
fn remainder_goes_to_the_first_chunks() {
    assert_eq!(
        ranges(10, 6),
        vec![(0, 1), (2, 3), (4, 5), (6, 7), (8, 8), (9, 9)]
    );
}

#[test]
fn largest_size_is_divided() {
    assert_eq!(
        ranges(u64::MAX, 2),
        vec![(0, u64::MAX / 2), (u64::MAX / 2 + 1, u64::MAX - 1)]
    );
}

#[test]
fn chunks_cover_the_size_evenly() {
    for size in 1..60 {
        for chunks in 1..=size {
            let ranges = ranges(size, chunks);
            assert_eq!(ranges.len() as u64, chunks);
            assert_eq!(ranges[0].0, 0);
            assert_eq!(ranges[ranges.len() - 1].1, size - 1);
            for i in 1..ranges.len() {
                assert_eq!(ranges[i - 1].1 + 1, ranges[i].0);
                let before = ranges[i - 1].1 - ranges[i - 1].0;
                let here = ranges[i].1 - ranges[i].0;
                assert!(before == here || before == here + 1);
            }
            let (first, last) = (ranges[0], ranges[ranges.len() - 1]);
            assert!(first.1 - first.0 <= last.1 - last.0 + 1);
        }
    }
}
