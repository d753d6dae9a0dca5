use wav2vec_burn::decoder::{alphabet, clean_transcription, CTCDecoder, BLANK_IDX};
use wav2vec_burn::util::log_space::LogSpaceF32;

fn log_of(value: f32) -> LogSpaceF32 {
    LogSpaceF32::from_log_bits(value.to_bits())
}

fn log_value(p: LogSpaceF32) -> f32 {
    f32::from_bits(p.log_bits())
}

/// `hi + ln_1p(exp(lo - hi))` on the logarithms.
fn log_sum(hi: LogSpaceF32, lo: LogSpaceF32) -> LogSpaceF32 {
    let hi_log = log_value(hi);
    let lo_log = log_value(lo);
    log_of(hi_log + (lo_log - hi_log).exp().ln_1p())
}

/// The sum of the logarithms.
fn log_product(a: LogSpaceF32, b: LogSpaceF32) -> LogSpaceF32 {
    log_of(log_value(a) + log_value(b))
}

fn symbol_index(symbol: char) -> usize {
    alphabet().iter().position(|ch| *ch == symbol).unwrap()
}

fn one_hot(symbol_idx: usize) -> Vec<LogSpaceF32> {
    let mut logits = vec![log_of(f32::NEG_INFINITY); 32];
    logits[symbol_idx] = log_of(0.0);
    logits
}

fn decode(timesteps: Vec<Vec<LogSpaceF32>>, beam_width: usize) -> String {
    CTCDecoder::decode_log_probs(&timesteps, beam_width, &log_sum, &log_product)
}

#[test]
fn test_blank_only() {
    let timestep_log_probs: Vec<Vec<LogSpaceF32>> = (0..5).map(|_| one_hot(BLANK_IDX)).collect();
    assert_eq!(decode(timestep_log_probs, 5), "");
}

#[test]
fn test_single_char() {
    let symbol_idx = symbol_index('e');
    let timestep_log_probs: Vec<Vec<LogSpaceF32>> = (0..5).map(|_| one_hot(symbol_idx)).collect();
    assert_eq!(decode(timestep_log_probs, 5), "e");
}

#[test]
fn test_hi() {
    let timestep_log_probs: Vec<Vec<LogSpaceF32>> =
        ['h', '_', 'i'].iter().map(|symbol| one_hot(symbol_index(*symbol))).collect();
    assert_eq!(decode(timestep_log_probs, 10), "hi");
}

#[test]
fn log_add() {
    let point_3 = log_of(f32::ln(0.3));
    let point_7 = log_of(f32::ln(0.7));
    let sum = log_value(point_3.add(point_7, &log_sum));
    assert!((sum - f32::ln(1.0)).abs() <= 1e-6);
}

#[test]
fn log_mul() {
    let half = log_of(f32::ln(0.5));
    let product = log_value(half.mul(half, &log_product));
    let expected = f32::ln(0.5 * 0.5);
    let ulps = (product.to_bits() as i64 - expected.to_bits() as i64).abs();
    assert!(ulps <= 4);
}

#[test]
fn repeated_symbol_needs_blank() {
    // "l", "l" collapses to one "l"; "l", "_", "l" keeps two.
    let l = symbol_index('l');
    assert_eq!(decode(vec![one_hot(l), one_hot(l)], 4), "l");
    assert_eq!(decode(vec![one_hot(l), one_hot(BLANK_IDX), one_hot(l)], 4), "ll");
}

#[test]
fn markers_and_outer_spaces_are_removed() {
    let decoded: Vec<char> = " {a}? b ".chars().collect();
    assert_eq!(clean_transcription(&decoded), "a b");
}

#[test]
fn no_timesteps_decode_to_nothing() {
    assert_eq!(decode(Vec::new(), 0), "");
}

#[test]
fn decoder_keeps_most_probable_prefix() {
    let mut decoder = CTCDecoder::new(3);
    let mut logits = vec![log_of(f32::NEG_INFINITY); 32];
    logits[symbol_index('a')] = log_of(f32::ln(0.6));
    logits[symbol_index('b')] = log_of(f32::ln(0.4));
    decoder.process_timestep(&logits, &log_sum, &log_product);
    assert_eq!(decoder.decode(), "a");
}

#[test]
fn best_prefix_grows_by_at_most_one_symbol_per_timestep() {
    let mut decoder = CTCDecoder::new(4);
    let mut previous = String::new();
    for (t, symbol) in ['a', 'a', '_', 'a', 'b'].iter().enumerate() {
        let mut logits = vec![log_of(f32::ln(0.01)); 32];
        logits[symbol_index(*symbol)] = log_of(f32::ln(0.69));
        decoder.process_timestep(&logits, &log_sum, &log_product);
        let best = decoder.decode();
        assert!(best.chars().count() <= t + 1);
        assert!(!best.contains('_'));
        previous = best;
    }
    assert_eq!(previous, "aab");
}
