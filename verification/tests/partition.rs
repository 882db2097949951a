use parallel_sum::partition::{chunk_size, effective_workers, partition, Chunk, MIN_CHUNK_SIZE};

fn assert_cover(chunks: &[Chunk], length: usize) {
    let mut next = 0;
    for chunk in chunks {
        assert_eq!(chunk.start, next);
        assert!(chunk.start < chunk.end);
        next = chunk.end;
    }
    assert_eq!(next, length);
}

#[test]
fn empty_range_has_no_chunks_and_no_workers() {
    for requested in [0u32, 1, 4, 50, u32::MAX] {
        let (workers, chunks) = partition(0, requested);
        assert_eq!(workers, 0);
        assert!(chunks.is_empty());
    }
}

#[test]
fn no_workers_requested_gives_no_chunks() {
    let (workers, chunks) = partition(1_000_000, 0);
    assert_eq!(workers, 0);
    assert!(chunks.is_empty());
}

#[test]
fn short_range_runs_sequentially() {
    let (workers, chunks) = partition(MIN_CHUNK_SIZE - 1, 8);
    assert_eq!(workers, 0);
    assert!(chunks.is_empty());
    let (workers, chunks) = partition(MIN_CHUNK_SIZE, 8);
    assert_eq!(workers, 1);
    assert_eq!(chunks, vec![Chunk { start: 0, end: 100_000 }]);
}

#[test]
fn quarter_million_for_three_workers_uses_two() {
    let (workers, chunks) = partition(250_000, 3);
    assert_eq!(workers, 2);
    assert_eq!(
        chunks,
        vec![Chunk { start: 0, end: 125_000 }, Chunk { start: 125_000, end: 250_000 }]
    );
}

#[test]
fn one_million_for_four_workers_is_four_equal_chunks() {
    let (workers, chunks) = partition(1_000_000, 4);
    assert_eq!(workers, 4);
    assert_eq!(chunks.len(), 4);
    let mut covered = 0;
    for (i, chunk) in chunks.iter().enumerate() {
        assert_eq!(chunk.end - chunk.start, 250_000);
        assert_eq!(chunk.start, i * 250_000);
        covered += chunk.end - chunk.start;
    }
    assert_eq!(covered, 1_000_000);
    assert_cover(&chunks, 1_000_000);
}

#[test]
fn remainder_shrinks_only_the_last_chunk() {
    let (workers, chunks) = partition(300_001, 3);
    assert_eq!(workers, 3);
    assert_eq!(
        chunks,
        vec![
            Chunk { start: 0, end: 100_001 },
            Chunk { start: 100_001, end: 200_002 },
            Chunk { start: 200_002, end: 300_001 },
        ]
    );
}

#[test]
fn rounding_up_can_leave_fewer_chunks_than_workers() {
    let length: usize = 100_000_000_001;
    let (workers, chunks) = partition(length, 1_000_000);
    assert_eq!(workers, 1_000_000);
    assert_eq!(chunks.len(), 999_991);
    assert_eq!(chunks[0], Chunk { start: 0, end: 100_001 });
    let last = chunks[chunks.len() - 1];
    assert_eq!(last.end - last.start, 11);
    assert_cover(&chunks, length);
}

#[test]
fn workers_are_capped_by_request_and_by_length() {
    assert_eq!(effective_workers(1_000_000, 4), 4);
    assert_eq!(effective_workers(1_000_000, 50), 10);
    assert_eq!(effective_workers(999_999, 50), 9);
    assert_eq!(effective_workers(99_999, 50), 0);
    assert_eq!(effective_workers(0, 50), 0);
    assert_eq!(effective_workers(1_000_000, 0), 0);
    assert_eq!(effective_workers(300_000_000, 50), 50);
}

#[test]
fn chunk_size_is_the_quotient_rounded_up() {
    assert_eq!(chunk_size(1_000_000, 4), 250_000);
    assert_eq!(chunk_size(250_000, 2), 125_000);
    assert_eq!(chunk_size(300_001, 3), 100_001);
    assert_eq!(chunk_size(300_002, 3), 100_001);
    assert_eq!(chunk_size(300_003, 3), 100_001);
    assert_eq!(chunk_size(0, 3), 0);
    assert_eq!(chunk_size(7, 1), 7);
}

#[test]
fn partition_covers_many_lengths() {
    for length in [100_000usize, 100_001, 199_999, 200_000, 250_001, 999_983, 1_234_567] {
        for requested in [1u32, 2, 3, 7, 12, 50] {
            let (workers, chunks) = partition(length, requested);
            assert_eq!(workers, std::cmp::min(requested as usize, length / MIN_CHUNK_SIZE));
            assert_eq!(chunks.len(), workers);
            assert_cover(&chunks, length);
            let size = chunk_size(length, workers);
            for chunk in &chunks[..chunks.len() - 1] {
                assert_eq!(chunk.end - chunk.start, size);
            }
            let last = chunks[chunks.len() - 1];
            assert!(last.end - last.start <= size);
        }
    }
}
