use chunked_rle::partition::{partition, ChunkRange};

fn range(start: usize, end: usize) -> ChunkRange {
    ChunkRange { start, end }
}

#[test]
fn length_not_a_multiple() {
    assert_eq!(partition(10, 4), vec![range(0, 4), range(4, 8), range(8, 10)]);
    assert_eq!(partition(6, 4), vec![range(0, 4), range(4, 6)]);
}

#[test]
fn length_a_multiple() {
    assert_eq!(partition(8, 4), vec![range(0, 4), range(4, 8)]);
    assert_eq!(partition(4, 4), vec![range(0, 4)]);
}

#[test]
fn length_below_chunk_size() {
    assert_eq!(partition(3, 4), vec![range(0, 3)]);
    assert_eq!(partition(1, 4096), vec![range(0, 1)]);
}

#[test]
fn length_zero_gives_no_ranges() {
    assert_eq!(partition(0, 1), Vec::new());
    assert_eq!(partition(0, 4096), Vec::new());
}

#[test]
fn chunk_size_one() {
    assert_eq!(partition(3, 1), vec![range(0, 1), range(1, 2), range(2, 3)]);
}

#[test]
fn chunk_size_near_the_limit() {
    assert_eq!(partition(usize::MAX, usize::MAX), vec![range(0, usize::MAX)]);
    assert_eq!(
        partition(usize::MAX, usize::MAX - 1),
        vec![range(0, usize::MAX - 1), range(usize::MAX - 1, usize::MAX)]
    );
}

#[test]
fn ranges_cover_the_buffer_once() {
    for len in 0usize..200 {
        for chunk_size in 1usize..20 {
            let ranges = partition(len, chunk_size);
            assert_eq!(ranges.len(), (len + chunk_size - 1) / chunk_size);
            let mut next = 0;
            for (i, r) in ranges.iter().enumerate() {
                assert_eq!(r.start, next);
                assert_eq!(r.start, i * chunk_size);
                assert!(r.start < r.end);
                if i + 1 < ranges.len() {
                    assert_eq!(r.end - r.start, chunk_size);
                }
                next = r.end;
            }
            assert_eq!(next, len);
            if let Some(last) = ranges.last() {
                let rest = len % chunk_size;
                let expected = if rest != 0 { rest } else { chunk_size };
                assert_eq!(last.end - last.start, expected);
            }
        }
    }
}
