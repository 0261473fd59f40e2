use compression_tool::range_coder::{AdaptiveModel, BitModel, RangeEncoder, TreeModel, PROB_INIT, PROB_MAX};

#[test]
fn prob_constants() {
    assert_eq!(PROB_MAX, 2048);
    assert_eq!(PROB_INIT, PROB_MAX / 2);
}

#[test]
fn fresh_encoder_finishes_with_four_zero_bytes() {
    let mut enc = RangeEncoder::new();
    assert!(enc.output.is_empty());
    enc.finish();
    assert_eq!(enc.output, vec![0, 0, 0, 0]);
}

#[test]
fn encode_bits_exact_output() {
    let mut enc = RangeEncoder::new();
    for &(bit, prob) in &[(0u32, 1024u32), (1, 1024), (1, 100), (0, 2000), (1, 1), (0, 1)] {
        enc.encode_bit(bit, prob);
    }
    assert_eq!(enc.output, vec![67]);
    enc.finish();
    assert_eq!(enc.output, vec![67, 39, 106, 88, 0]);
}

#[test]
fn encode_bit_output_only_grows() {
    let mut enc = RangeEncoder::new();
    let mut prev: Vec<u8> = Vec::new();
    for i in 0..200u32 {
        enc.encode_bit(i % 3, 300);
        assert!(enc.output.starts_with(&prev));
        prev = enc.output.clone();
    }
}

#[test]
fn bit_model_starts_at_half_and_adapts() {
    let m = BitModel::new();
    assert_eq!(m.prob, 1024);
    let mut enc = RangeEncoder::new();
    let mut m0 = BitModel::new();
    m0.encode(&mut enc, 0);
    assert_eq!(m0.prob, 1056);
    let mut m1 = BitModel::new();
    m1.encode(&mut enc, 1);
    assert_eq!(m1.prob, 992);
}

#[test]
fn bit_model_stays_strictly_between_zero_and_one() {
    let mut enc = RangeEncoder::new();
    let mut m = BitModel::new();
    for _ in 0..500 {
        m.encode(&mut enc, 0);
    }
    assert_eq!(m.prob, 2017);
    for _ in 0..1000 {
        m.encode(&mut enc, 1);
    }
    assert_eq!(m.prob, 31);
}

#[test]
fn tree_model_exact_output() {
    let mut enc = RangeEncoder::new();
    let mut t = TreeModel::new(256);
    for &s in &[65usize, 66, 65, 65, 200, 0, 255] {
        t.encode_symbol(&mut enc, s);
        t.update(s);
    }
    enc.finish();
    assert_eq!(enc.output, vec![64, 66, 178, 103, 157, 241, 23, 163, 201, 128]);
}

#[test]
fn tree_model_encode_and_encode_symbol_agree() {
    let mut e1 = RangeEncoder::new();
    let mut e2 = RangeEncoder::new();
    let mut t1 = TreeModel::new(32);
    let mut t2 = TreeModel::new(32);
    for s in 0..40usize {
        t1.encode(&mut e1, s % 32);
        t2.encode_symbol(&mut e2, s % 32);
    }
    e1.finish();
    e2.finish();
    assert_eq!(e1.output, e2.output);
}

#[test]
fn tree_model_single_symbol_codes_nothing() {
    let mut enc = RangeEncoder::new();
    let mut t = TreeModel::new(1);
    t.encode(&mut enc, 0);
    enc.finish();
    assert_eq!(enc.output, vec![0, 0, 0, 0]);
}

#[test]
fn adaptive_model_new_counts_one_each() {
    let m = AdaptiveModel::new(4);
    assert_eq!(m.counts, vec![1, 1, 1, 1]);
    assert_eq!(m.total, 4);
}

#[test]
fn adaptive_model_update_counts() {
    let mut m = AdaptiveModel::new(4);
    m.update(2);
    assert_eq!(m.counts, vec![1, 1, 2, 1]);
    assert_eq!(m.total, 5);
    assert_eq!(m.total, m.counts.iter().sum::<u64>());
}

#[test]
fn adaptive_model_update_rescales_past_limit() {
    let mut m = AdaptiveModel { counts: vec![1 << 20, 3], total: (1 << 20) + 3 };
    m.update(1);
    assert_eq!(m.counts, vec![1 << 19, 2]);
    assert_eq!(m.total, (1 << 19) + 2);
}

#[test]
fn adaptive_model_encodes_eight_bits_at_half() {
    let m = AdaptiveModel::new(256);
    let mut enc = RangeEncoder::new();
    m.encode_symbol(&mut enc, 3);
    m.encode_symbol(&mut enc, 200);
    enc.finish();
    assert_eq!(enc.output, vec![3, 199, 252, 0, 0]);
}
