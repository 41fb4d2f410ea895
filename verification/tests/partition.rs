use terminal_renders::iterators::{fill_chunked, get_work, iter_mut, Chunk};

fn sizes(chunks: &[Chunk]) -> Vec<usize> {
    chunks.iter().map(|c| c.end - c.start).collect()
}

fn assert_is_partition(chunks: &[Chunk], len: usize) {
    let mut next = 0;
    for c in chunks {
        assert_eq!(c.start, next, "chunks must be contiguous and ordered");
        assert!(c.start < c.end, "chunks must be non-empty");
        next = c.end;
    }
    assert_eq!(next, len, "chunks must cover exactly [0, len)");
}

#[test]
fn partition_of_empty_domain_is_empty() {
    assert!(get_work(4, 0).is_empty());
    assert!(get_work(1, 0).is_empty());
}

#[test]
fn partition_with_more_cores_than_work() {
    let chunks = get_work(8, 3);
    assert_eq!(chunks.len(), 3);
    assert_is_partition(&chunks, 3);
    assert_eq!(sizes(&chunks), vec![1, 1, 1]);
}

#[test]
fn partition_even_split() {
    let chunks = get_work(2, 10);
    assert_eq!(chunks.len(), 2);
    assert_is_partition(&chunks, 10);
    assert_eq!(sizes(&chunks), vec![5, 5]);
}

#[test]
fn partition_remainder_goes_to_earliest_chunks() {
    let chunks = get_work(4, 10);
    assert_eq!(chunks.len(), 4);
    assert_is_partition(&chunks, 10);
    assert_eq!(sizes(&chunks), vec![3, 3, 2, 2]);
}

#[test]
fn partition_single_core_is_one_chunk() {
    let chunks = get_work(1, 7);
    assert_eq!(chunks.len(), 1);
    assert_eq!(chunks[0], Chunk { start: 0, end: 7 });
}

#[test]
fn partition_covers_and_balances_many_cases() {
    for cores in 1..9usize {
        for len in 0..40usize {
            let chunks = get_work(cores, len);
            assert_is_partition(&chunks, len);
            if !chunks.is_empty() {
                let s = sizes(&chunks);
                let max = *s.iter().max().unwrap();
                let min = *s.iter().min().unwrap();
                assert!(max - min <= 1, "balance violated for cores={cores} len={len}");
            }
        }
    }
}

#[test]
fn fill_chunked_applies_function_to_every_slot() {
    let mut data: Vec<usize> = vec![100; 9];
    fill_chunked(&mut data, 4, &|v: usize, i: usize| v + i);
    assert_eq!(data, vec![100, 101, 102, 103, 104, 105, 106, 107, 108]);
}

#[test]
fn fill_is_deterministic_in_worker_count() {
    let before: Vec<usize> = (0..23).collect();
    let f = |v: usize, i: usize| v * 2 + i;
    let mut one = before.clone();
    fill_chunked(&mut one, 1, &f);
    for workers in 2..8usize {
        let mut many = before.clone();
        fill_chunked(&mut many, workers, &f);
        assert_eq!(one, many, "contents must not depend on the worker count");
    }
    let mut seq = before.clone();
    iter_mut(&mut seq, &f);
    assert_eq!(one, seq);
}

#[test]
fn fill_of_empty_buffer_is_noop() {
    let mut data: Vec<usize> = Vec::new();
    fill_chunked(&mut data, 3, &|v: usize, _i: usize| v + 1);
    assert!(data.is_empty());
}

#[test]
fn iter_mut_applies_in_index_order() {
    let mut data: Vec<usize> = vec![0; 5];
    iter_mut(&mut data, &|_v: usize, i: usize| i * 10);
    assert_eq!(data, vec![0, 10, 20, 30, 40]);
}
