use wav2vec_burn::evaluation::{edit_dist, word_error_counts, words};

fn word_error_rate(pairs: &[(&str, &str)]) -> f32 {
    let owned: Vec<(String, String)> = pairs.iter().map(|(a, b)| (a.to_string(), b.to_string())).collect();
    let (errors, total) = word_error_counts(&owned);
    if total == 0 {
        return 0.0;
    }
    errors as f32 / total as f32
}

#[test]
fn identical() {
    assert_eq!(word_error_rate(&[("hello world", "hello world")]), 0.0);
}

#[test]
fn one_substitution() {
    assert!((word_error_rate(&[("hello world", "hello earth")]) - 0.5).abs() < 1e-6);
}

#[test]
fn case_insensitivity() {
    assert_eq!(word_error_rate(&[("HELLO WORLD", "hello world")]), 0.0);
}

#[test]
fn multiple_pairs() {
    assert!((word_error_rate(&[("one two three", "one two three"), ("foo bar", "foo baz")]) - 0.2).abs() < 1e-6);
}

#[test]
fn words_split_on_any_whitespace_and_lowercase() {
    assert_eq!(words("  Hello\tWORLD\n it's\u{3000}OK "), vec!["hello", "world", "it's", "ok"]);
    assert!(words(" \t ").is_empty());
}

#[test]
fn edit_dist_counts_insertions_deletions_substitutions() {
    let a: Vec<String> = words("a b c d");
    let b: Vec<String> = words("a x c d e");
    assert_eq!(edit_dist(&a, &b), 2);
    assert_eq!(edit_dist(&b, &a), 2);
    assert_eq!(edit_dist(&a, &[]), 4);
    assert_eq!(edit_dist(&[], &b), 5);
}

#[test]
fn empty_reference_counts_nothing() {
    assert_eq!(word_error_counts(&[]), (0, 0));
    assert_eq!(word_error_rate(&[("", "extra words")]), 0.0);
}
