use chunked_rle::encode::{combine, run_length_encode, Config, EncodeError, DEFAULT_CHUNK_SIZE};
use chunked_rle::partition::partition;
use chunked_rle::runs::{encode_chunk, encode_range, Run};

const A: u8 = b'A';
const B: u8 = b'B';
const C: u8 = b'C';

fn expand(runs: &[Run]) -> Vec<u8> {
    let mut bytes = Vec::new();
    for &(value, count) in runs {
        for _ in 0..count {
            bytes.push(value);
        }
    }
    bytes
}

fn sample(len: usize) -> Vec<u8> {
    // Long and short runs in turn, so that runs cross chunk boundaries.
    let mut bytes = Vec::with_capacity(len);
    let mut state: u32 = 12345;
    while bytes.len() < len {
        state = state.wrapping_mul(1103515245).wrapping_add(12345);
        let value = ((state >> 16) % 5) as u8;
        let run = 1 + ((state >> 8) % 9) as usize;
        for _ in 0..run {
            if bytes.len() < len {
                bytes.push(value);
            }
        }
    }
    bytes
}

fn config(chunk_size: usize) -> Config {
    Config::new(chunk_size).unwrap()
}

#[test]
fn chunk_of_mixed_bytes() {
    assert_eq!(encode_chunk(&[A, A, A, B]), vec![(A, 3), (B, 1)]);
    assert_eq!(encode_chunk(&[B, C]), vec![(B, 1), (C, 1)]);
}

#[test]
fn chunk_empty_gives_no_runs() {
    assert_eq!(encode_chunk(&[]), Vec::<Run>::new());
}

#[test]
fn chunk_single_byte() {
    assert_eq!(encode_chunk(&[7]), vec![(7, 1)]);
}

#[test]
fn chunk_one_long_run() {
    let bytes = vec![9u8; 1000];
    assert_eq!(encode_chunk(&bytes), vec![(9, 1000)]);
}

#[test]
fn chunk_value_returns_after_other() {
    assert_eq!(encode_chunk(&[1, 1, 2, 1, 1, 1]), vec![(1, 2), (2, 1), (1, 3)]);
}

#[test]
fn chunk_counts_add_up_and_runs_are_fewer() {
    let bytes = sample(500);
    let runs = encode_chunk(&bytes);
    let total: u64 = runs.iter().map(|r| r.1).sum();
    assert_eq!(total, 500);
    assert!(runs.len() <= bytes.len());
}

#[test]
fn range_is_encoded_alone() {
    let bytes = [A, A, A, B, B, C];
    assert_eq!(encode_range(&bytes, 0, 4), vec![(A, 3), (B, 1)]);
    assert_eq!(encode_range(&bytes, 4, 6), vec![(B, 1), (C, 1)]);
    assert_eq!(encode_range(&bytes, 2, 5), vec![(A, 1), (B, 2)]);
    assert_eq!(encode_range(&bytes, 3, 3), Vec::<Run>::new());
}

#[test]
fn combine_keeps_order() {
    let parts = vec![vec![(A, 3), (B, 1)], vec![], vec![(B, 1), (C, 1)]];
    assert_eq!(combine(&parts), vec![(A, 3), (B, 1), (B, 1), (C, 1)]);
    assert_eq!(combine(&Vec::new()), Vec::<Run>::new());
}

#[test]
fn six_bytes_in_chunks_of_four() {
    let bytes = [A, A, A, B, B, C];
    let encoded = run_length_encode(&bytes, &config(4));
    assert_eq!(encoded, Ok(vec![(A, 3), (B, 1), (B, 1), (C, 1)]));
}

#[test]
fn six_bytes_in_one_chunk() {
    let bytes = [A, A, A, B, B, C];
    let encoded = run_length_encode(&bytes, &config(6));
    assert_eq!(encoded, Ok(vec![(A, 3), (B, 2), (C, 1)]));
    let encoded = run_length_encode(&bytes, &Config::default());
    assert_eq!(encoded, Ok(vec![(A, 3), (B, 2), (C, 1)]));
}

#[test]
fn six_bytes_in_chunks_of_one() {
    let bytes = [A, A, A, B, B, C];
    let encoded = run_length_encode(&bytes, &config(1));
    assert_eq!(encoded, Ok(vec![(A, 1), (A, 1), (A, 1), (B, 1), (B, 1), (C, 1)]));
}

#[test]
fn run_is_cut_at_chunk_boundary() {
    let bytes = vec![0x5au8; 2 * 4096];
    let encoded = run_length_encode(&bytes, &config(4096));
    assert_eq!(encoded, Ok(vec![(0x5a, 4096), (0x5a, 4096)]));
    let bytes = vec![1u8; 6];
    assert_eq!(run_length_encode(&bytes, &config(3)), Ok(vec![(1, 3), (1, 3)]));
}

#[test]
fn last_chunk_is_shorter() {
    let bytes = vec![3u8; 10];
    let encoded = run_length_encode(&bytes, &config(4));
    assert_eq!(encoded, Ok(vec![(3, 4), (3, 4), (3, 2)]));
}

#[test]
fn empty_buffer_gives_no_runs() {
    assert_eq!(run_length_encode(&[], &config(4096)), Ok(Vec::new()));
    assert_eq!(run_length_encode(&[], &config(1)), Ok(Vec::new()));
    assert!(partition(0, 4096).is_empty());
}

#[test]
fn zero_chunk_size_is_refused() {
    assert_eq!(Config::new(0), Err(EncodeError::ZeroChunkSize));
    let bad = Config { chunk_size: 0 };
    assert_eq!(run_length_encode(&[1, 2, 3], &bad), Err(EncodeError::ZeroChunkSize));
    assert_eq!(run_length_encode(&[], &bad), Err(EncodeError::ZeroChunkSize));
}

#[test]
fn config_holds_chunk_size() {
    assert_eq!(Config::new(1), Ok(Config { chunk_size: 1 }));
    assert_eq!(Config::new(512), Ok(Config { chunk_size: 512 }));
    assert_eq!(DEFAULT_CHUNK_SIZE, 4096);
    assert_eq!(Config::default(), Config { chunk_size: 4096 });
}

#[test]
fn expanding_gives_the_buffer_back() {
    let bytes = sample(20_000);
    for chunk_size in [1usize, 2, 7, 64, 4096, 20_000, 50_000] {
        let encoded = run_length_encode(&bytes, &config(chunk_size)).unwrap();
        assert_eq!(expand(&encoded), bytes);
    }
}

#[test]
fn expanding_each_chunk_gives_its_bytes() {
    let bytes = sample(1000);
    let mut rebuilt = Vec::new();
    for range in partition(bytes.len(), 64) {
        let runs = encode_range(&bytes, range.start, range.end);
        assert_eq!(expand(&runs), &bytes[range.start..range.end]);
        rebuilt.extend(expand(&runs));
    }
    assert_eq!(rebuilt, bytes);
}

#[test]
fn runs_in_a_chunk_are_maximal() {
    let bytes = sample(5000);
    for range in partition(bytes.len(), 256) {
        let runs = encode_range(&bytes, range.start, range.end);
        assert!(!runs.is_empty());
        assert!(runs.iter().all(|r| r.1 >= 1));
        assert!(runs.windows(2).all(|w| w[0].0 != w[1].0));
    }
}

#[test]
fn same_input_same_output() {
    let bytes = sample(100_000);
    let first = run_length_encode(&bytes, &config(4096)).unwrap();
    for _ in 0..5 {
        assert_eq!(run_length_encode(&bytes, &config(4096)).unwrap(), first);
    }
}

#[test]
fn parallel_result_is_chunks_in_order() {
    let bytes = sample(100_000);
    for chunk_size in [3usize, 100, 4096] {
        let mut parts = Vec::new();
        for range in partition(bytes.len(), chunk_size) {
            parts.push(encode_chunk(&bytes[range.start..range.end]));
        }
        let expected = combine(&parts);
        assert_eq!(run_length_encode(&bytes, &config(chunk_size)), Ok(expected));
    }
}
