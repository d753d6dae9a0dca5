use wav2vec_burn::decoder::beam::Beam;
use wav2vec_burn::decoder::beams::Beams;
use wav2vec_burn::util::log_space::LogSpaceF32;

fn log_of(value: f32) -> LogSpaceF32 {
    LogSpaceF32::from_log_bits(value.to_bits())
}

fn log_value(p: LogSpaceF32) -> f32 {
    f32::from_bits(p.log_bits())
}

fn log_sum(hi: LogSpaceF32, lo: LogSpaceF32) -> LogSpaceF32 {
    let hi_log = log_value(hi);
    log_of(hi_log + (log_value(lo) - hi_log).exp().ln_1p())
}

fn prefix(s: &str) -> Vec<char> {
    s.chars().collect()
}

fn prefixes(beams: &[Beam]) -> Vec<String> {
    beams.iter().map(|beam| beam.prefix().iter().collect()).collect()
}

#[test]
fn added_probability_is_read_back_by_prefix() {
    let mut beams = Beams::new();
    beams.add_to_probability_with_blank(&prefix("ab"), log_of(-1.0), &log_sum);
    beams.add_to_probability_without_blank(&prefix("a"), log_of(-2.0), &log_sum);
    let listing = beams.iter();
    assert_eq!(prefixes(&listing), vec!["ab", "a"]);
    assert_eq!(log_value(listing[0].probability_with_blank()), -1.0);
    assert!(listing[0].probability_without_blank().is_zero());
    assert_eq!(log_value(listing[0].total_probability()), -1.0);
    assert_eq!(log_value(listing[1].probability_without_blank()), -2.0);
    assert_eq!(log_value(listing[1].total_probability()), -2.0);
}

#[test]
fn repeated_additions_accumulate() {
    let mut beams = Beams::new();
    beams.add_to_probability_without_blank(&prefix("x"), log_of(f32::ln(0.25)), &log_sum);
    beams.add_to_probability_without_blank(&prefix("x"), log_of(f32::ln(0.25)), &log_sum);
    beams.add_to_probability_with_blank(&prefix("x"), log_of(f32::ln(0.5)), &log_sum);
    let listing = beams.iter();
    assert_eq!(listing.len(), 1);
    assert!((log_value(listing[0].probability_without_blank()) - f32::ln(0.5)).abs() < 1e-6);
    assert!(log_value(listing[0].total_probability()).abs() < 1e-6);
}

#[test]
fn pruning_keeps_the_most_probable_beams_in_order() {
    let mut candidates = Beams::new();
    for (p, log) in [("a", -3.0), ("b", -1.0), ("c", -2.0), ("d", -1.0)] {
        candidates.add_to_probability_with_blank(&prefix(p), log_of(log), &log_sum);
    }
    let mut kept = Beams::default();
    kept.extend_pruned(&mut candidates, 3);
    assert!(candidates.iter().is_empty());
    // equal probabilities are ordered by prefix, the greater first
    assert_eq!(prefixes(&kept.iter()), vec!["d", "b", "c"]);
    assert_eq!(prefixes(&[kept.max().unwrap().duplicate()]), vec!["d"]);
    let mut fewer = Beams::new();
    kept.extend_pruned(&mut fewer, 3);
    assert!(kept.max().is_none());
}

#[test]
fn added_beam_replaces_beam_of_same_prefix() {
    let mut beams = Beams::new();
    beams.add_to_probability_with_blank(&prefix(""), log_of(-5.0), &log_sum);
    beams.add(Beam::blank());
    let listing = beams.iter();
    assert_eq!(listing.len(), 1);
    assert_eq!(log_value(listing[0].probability_with_blank()), 0.0);
    assert!(listing[0].probability_without_blank().is_zero());
}

#[test]
fn new_and_blank_beams() {
    let beam = Beam::new(prefix("hi"));
    assert!(beam.probability_with_blank().is_zero());
    assert!(beam.probability_without_blank().is_zero());
    assert!(beam.total_probability().is_zero());
    let blank = Beam::blank();
    assert!(blank.prefix().is_empty());
    assert_eq!(log_value(blank.total_probability()), 0.0);
    assert!(beam.is_below(&blank));
    assert!(!blank.is_below(&beam));
}

#[test]
fn update_replaces_only_the_beam_of_its_prefix() {
    let mut beams = Beams::new();
    beams.add(Beam::new(prefix("a")));
    beams.add(Beam::new(prefix("b")));
    beams.update(&prefix("a"), |beam| {
        let mut beam = beam;
        beam.add_to_probability_with_blank(log_of(f32::ln(0.5)), &log_sum);
        beam
    });
    assert_eq!(beams.iter().len(), 2);
    beams.update(&prefix("c"), |beam| beam);
    assert_eq!(beams.iter().len(), 3);
    let best = beams.max().unwrap();
    assert_eq!(best.prefix().iter().collect::<String>(), "a");
    assert!((log_value(best.total_probability()) - f32::ln(0.5)).abs() < 1e-6);
}
