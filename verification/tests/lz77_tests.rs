use compression_tool::lz77::{literal_bytes, lz77_decode, lz77_encode, Token};

fn summary(tokens: &[Token]) -> Vec<(u8, usize, usize)> {
    tokens
        .iter()
        .map(|t| match t {
            Token::Literal(b) => (0, *b as usize, 0),
            Token::Match { distance, length } => (1, *distance, *length),
        })
        .collect()
}

#[test]
fn lz77_short_input_is_all_literals() {
    let tokens = lz77_encode(b"abcdefgh", 1 << 20, 4, 258);
    assert_eq!(tokens.len(), 8);
    assert!(tokens.iter().all(|t| matches!(t, Token::Literal(_))));
    assert_eq!(lz77_decode(&tokens), b"abcdefgh".to_vec());
}

#[test]
fn lz77_empty_input() {
    let tokens = lz77_encode(&[], 1 << 20, 4, 258);
    assert!(tokens.is_empty());
    assert!(lz77_decode(&tokens).is_empty());
}

#[test]
fn lz77_repeated_pattern_exact_tokens() {
    let data = b"abcabcabcabcabcabcabcabc";
    let tokens = lz77_encode(data, 1 << 20, 4, 258);
    assert_eq!(summary(&tokens), vec![(0, 97, 0), (0, 98, 0), (0, 99, 0), (1, 3, 21)]);
    assert_eq!(lz77_decode(&tokens), data.to_vec());
}

#[test]
fn lz77_sentence_exact_tokens() {
    let data = b"the quick brown fox jumps over the lazy dog; the quick brown fox jumps again";
    let tokens = lz77_encode(data, 1 << 20, 4, 258);
    let matches: Vec<(u8, usize, usize)> = summary(&tokens).into_iter().filter(|t| t.0 == 1).collect();
    assert_eq!(matches, vec![(1, 31, 4), (1, 14, 5), (1, 45, 22)]);
    assert_eq!(tokens.len(), 48);
    assert_eq!(lz77_decode(&tokens), data.to_vec());
}

#[test]
fn lz77_round_trip_and_bounds() {
    let mut data = Vec::new();
    let mut x: u32 = 7;
    for i in 0..30000u32 {
        x = x.wrapping_mul(1664525).wrapping_add(1013904223);
        if i % 3 == 0 {
            data.push((x >> 24) as u8);
        } else {
            data.push(b"lorem ipsum dolor sit amet "[(i as usize) % 27]);
        }
    }
    for &(window, min, max) in &[(1usize << 20, 4usize, 258usize), (1000, 3, 10), (65536, 1, 70)] {
        let tokens = lz77_encode(&data, window, min, max);
        for t in &tokens {
            if let Token::Match { distance, length } = t {
                assert!(*length >= min && *length <= max);
                assert!(*distance >= 1 && *distance <= window);
            }
        }
        assert_eq!(lz77_decode(&tokens), data);
    }
}

#[test]
fn lz77_long_run_matches_are_capped() {
    let data = vec![b'z'; 2000];
    let tokens = lz77_encode(&data, 1 << 20, 4, 258);
    assert!(tokens.iter().any(|t| matches!(t, Token::Match { length: 258, .. })));
    assert_eq!(lz77_decode(&tokens), data);
}

#[test]
fn lz77_decode_overlapping_copy() {
    let tokens = vec![Token::Literal(1), Token::Literal(2), Token::Match { distance: 2, length: 5 }];
    assert_eq!(lz77_decode(&tokens), vec![1, 2, 1, 2, 1, 2, 1]);
}

#[test]
fn literal_bytes_keeps_literals_in_order() {
    let tokens = vec![Token::Literal(9), Token::Match { distance: 1, length: 4 }, Token::Literal(8)];
    assert_eq!(literal_bytes(&tokens), vec![9, 8]);
}
