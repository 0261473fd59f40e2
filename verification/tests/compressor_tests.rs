use compression_tool::compressor::{compress_chunk, frame_chunks};

#[test]
fn compress_chunk_empty_is_flushed_coder() {
    assert_eq!(compress_chunk(&[]), vec![0, 0, 0, 0]);
}

#[test]
fn compress_chunk_repeated_pattern_exact() {
    assert_eq!(compress_chunk(b"abcabcabcabcabcabcabcabc"), vec![48, 153, 171, 214, 2, 91, 159, 0, 0]);
}

#[test]
fn compress_chunk_sentence_exact() {
    let data = b"the quick brown fox jumps over the lazy dog; the quick brown fox jumps again";
    assert_eq!(
        compress_chunk(data),
        vec![
            57, 27, 55, 190, 104, 47, 83, 248, 73, 83, 66, 107, 80, 74, 190, 204, 95, 131, 125, 243, 238, 79,
            97, 172, 41, 82, 201, 67, 44, 96, 18, 149, 108, 0, 249, 99, 159, 78, 121, 56, 92, 87, 181, 193,
            113, 196, 109, 99, 130, 188
        ]
    );
}

#[test]
fn frame_chunks_prefixes_lengths() {
    let chunks = vec![vec![1u8, 2], vec![3u8], vec![]];
    assert_eq!(frame_chunks(&chunks), vec![2, 0, 0, 0, 1, 2, 1, 0, 0, 0, 3, 0, 0, 0, 0]);
    assert!(frame_chunks(&Vec::new()).is_empty());
}
