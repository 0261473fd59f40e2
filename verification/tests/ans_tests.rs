use compression_tool::ans::{ans_compress, AnsState, SCALE, SCALE_BITS};
use compression_tool::ans_decoder::ans_decompress;

fn le32(bytes: &[u8], at: usize) -> u32 {
    u32::from_le_bytes([bytes[at], bytes[at + 1], bytes[at + 2], bytes[at + 3]])
}

#[test]
fn scale_constants() {
    assert_eq!(SCALE_BITS, 12);
    assert_eq!(SCALE, 1 << SCALE_BITS);
}

#[test]
fn from_data_tiny_gives_shortfall_to_most_frequent() {
    let st = AnsState::from_data(b"aaabbc");
    assert_eq!(st.freqs.len(), 256);
    assert_eq!(st.freqs[b'a' as usize], 2049);
    assert_eq!(st.freqs[b'b' as usize], 1365);
    assert_eq!(st.freqs[b'c' as usize], 682);
    assert_eq!(st.freqs.iter().sum::<u32>(), SCALE);
    assert_eq!(st.cmf.len(), 257);
    assert_eq!(st.cmf[b'a' as usize], 0);
    assert_eq!(st.cmf[b'b' as usize], 2049);
    assert_eq!(st.cmf[b'c' as usize], 3414);
    assert_eq!(st.cmf[b'd' as usize], 4096);
    assert_eq!(st.cmf[256], 4096);
}

#[test]
fn from_data_tie_goes_to_last_most_frequent() {
    // 'x' and 'y' occur equally often: the later byte value gets the shortfall
    let st = AnsState::from_data(b"xyxyxyz");
    // 3*4096/7 = 1755, 1*4096/7 = 585, sum 4095: one short
    assert_eq!(st.freqs[b'x' as usize], 1755);
    assert_eq!(st.freqs[b'y' as usize], 1756);
    assert_eq!(st.freqs[b'z' as usize], 585);
}

#[test]
fn from_data_excess_taken_from_largest() {
    let mut data: Vec<u8> = (0..=255u8).collect();
    data.extend(std::iter::repeat(0u8).take(10000));
    let st = AnsState::from_data(&data);
    assert_eq!(st.freqs[0], 3841);
    for s in 1..256 {
        assert_eq!(st.freqs[s], 1);
    }
    assert_eq!(st.freqs.iter().sum::<u32>(), SCALE);
}

#[test]
fn from_data_single_symbol_takes_whole_scale() {
    let st = AnsState::from_data(&[7u8; 100]);
    assert_eq!(st.freqs[7], 4096);
    assert_eq!(st.freqs.iter().filter(|&&f| f > 0).count(), 1);
}

#[test]
fn from_data_positive_exactly_for_present_bytes() {
    let data = b"the quick brown fox jumps over the lazy dog";
    let st = AnsState::from_data(data);
    for s in 0..256usize {
        assert_eq!(st.freqs[s] > 0, data.contains(&(s as u8)));
    }
    assert_eq!(st.freqs.iter().sum::<u32>(), SCALE);
}

#[test]
fn from_freqs_builds_prefix_sums() {
    let mut freqs = vec![0u32; 256];
    freqs[1] = 10;
    freqs[3] = 5;
    freqs[255] = 7;
    let st = AnsState::from_freqs(freqs.clone());
    assert_eq!(st.freqs, freqs);
    assert_eq!(st.cmf[0], 0);
    assert_eq!(st.cmf[1], 0);
    assert_eq!(st.cmf[2], 10);
    assert_eq!(st.cmf[4], 15);
    assert_eq!(st.cmf[255], 15);
    assert_eq!(st.cmf[256], 22);
}

#[test]
fn ans_empty_input() {
    assert!(ans_compress(&[]).is_empty());
    assert!(ans_decompress(&[]).is_empty());
}

#[test]
fn ans_tiny_round_trip() {
    let tiny = b"aaabbc";
    let compressed = ans_compress(tiny);
    assert_eq!(compressed.len(), 4 + 256 * 4 + 4);
    assert_eq!(&compressed[0..4], &[6, 0, 0, 0]);
    assert_eq!(le32(&compressed, 4 + 4 * b'a' as usize), 2049);
    assert_eq!(&compressed[1028..1032], &[190, 4, 31, 0]);
    assert_eq!(compressed.len() - (4 + 256 * 4), 4);
    assert_eq!(ans_decompress(&compressed), tiny.to_vec());
}

#[test]
fn ans_text_exact_stream() {
    let text = b"hello world, hello ans, hello range coder";
    let compressed = ans_compress(text);
    assert_eq!(compressed.len(), 1048);
    assert_eq!(
        &compressed[1028..],
        &[139, 152, 224, 13, 156, 227, 112, 28, 174, 75, 72, 70, 121, 48, 11, 80, 25, 239, 79, 238]
    );
    assert_eq!(ans_decompress(&compressed), text.to_vec());
}

#[test]
fn ans_round_trip_varied_data() {
    let mut data = Vec::new();
    let mut x: u32 = 12345;
    for i in 0..20000u32 {
        x = x.wrapping_mul(1103515245).wrapping_add(12345);
        let b = if i % 7 == 0 { (x >> 24) as u8 } else { b"abcdeeeeffff"[(x >> 28) as usize % 12] };
        data.push(b);
    }
    let compressed = ans_compress(&data);
    assert_eq!(ans_decompress(&compressed), data);
}

#[test]
fn ans_round_trip_all_byte_values() {
    let data: Vec<u8> = (0..5000u32).map(|i| (i * 31 % 256) as u8).collect();
    assert_eq!(ans_decompress(&ans_compress(&data)), data);
}

#[test]
fn ans_decompress_hand_made_single_symbol_stream() {
    // length 3, symbol 5 has the whole scale: every slot decodes to 5
    let mut stream = vec![3u8, 0, 0, 0];
    for s in 0..256u32 {
        let f: u32 = if s == 5 { 4096 } else { 0 };
        stream.extend_from_slice(&f.to_le_bytes());
    }
    stream.extend_from_slice(&5000u32.to_le_bytes());
    assert_eq!(ans_decompress(&stream), vec![5, 5, 5]);
}

#[test]
fn ans_decompress_slots_outside_table_decode_to_zero() {
    // all frequencies zero: every slot lies past the table and decodes to 0
    let mut stream = vec![2u8, 0, 0, 0];
    stream.extend_from_slice(&[0u8; 1024]);
    stream.extend_from_slice(&100u32.to_le_bytes());
    assert_eq!(ans_decompress(&stream), vec![0, 0]);
}
