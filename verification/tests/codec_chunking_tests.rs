use chunk_cache::chunking::MAX_CHUNK;
use chunk_cache::chunking::split_chunks;
use chunk_cache::codec::compress;
use chunk_cache::codec::decompress;

#[test]
fn compress_emits_run_pairs() {
    assert_eq!(compress(&vec![5u8, 5, 5]), vec![3u8, 5]);
    assert_eq!(compress(&vec![1u8, 2, 2, 3]), vec![1u8, 1, 2, 2, 1, 3]);
    assert_eq!(compress(&Vec::new()), Vec::<u8>::new());
}

#[test]
fn long_runs_are_capped_at_one_byte() {
    let data = vec![7u8; 300];
    let enc = compress(&data);
    assert_eq!(enc, vec![255u8, 7, 45, 7]);
    assert_eq!(decompress(&enc), Some(data));
}

#[test]
fn decompress_expands_pairs() {
    assert_eq!(decompress(&vec![3u8, 5]), Some(vec![5u8, 5, 5]));
    assert_eq!(decompress(&Vec::new()), Some(Vec::new()));
}

#[test]
fn decompress_rejects_malformed_input() {
    assert_eq!(decompress(&vec![2u8]), None);
    assert_eq!(decompress(&vec![0u8, 1]), None);
    assert_eq!(decompress(&vec![1u8, 9, 3]), None);
}

#[test]
fn round_trip_through_the_codec() {
    let mut data = Vec::new();
    for i in 0..1000usize {
        data.push(((i * i + 3) % 256) as u8);
    }
    assert_eq!(decompress(&compress(&data)), Some(data));
}

#[test]
fn chunks_concatenate_back_to_the_stream() {
    let mut data = Vec::new();
    for i in 0..777usize {
        data.push(((i * 31 + 5) % 253) as u8);
    }
    let chunks = split_chunks(&data);
    let mut joined = Vec::new();
    for c in chunks.iter() {
        assert!(!c.is_empty());
        assert!(c.len() <= MAX_CHUNK);
        joined.extend_from_slice(c);
    }
    assert_eq!(joined, data);
    assert!(chunks.len() > 1);
}

#[test]
fn chunking_is_deterministic() {
    let data = vec![42u8; 500];
    let a = split_chunks(&data);
    let b = split_chunks(&data);
    assert_eq!(a, b);
}

#[test]
fn empty_stream_has_no_chunks() {
    assert_eq!(split_chunks(&Vec::new()).len(), 0);
}
