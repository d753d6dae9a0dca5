use wav2vec_burn::test_data::{parse_transcript_line, test_data_dir, transcript_lines};

#[test]
fn test_data_dir_is_beside_the_crate_directory() {
    let dir = test_data_dir("/work/wav2vec-burn/wav2vec-burn-test").unwrap();
    assert_eq!(dir, "/work/wav2vec-burn/test-data");
    assert_eq!(test_data_dir(""), None);
    assert_eq!(test_data_dir("/"), None);
    assert_eq!(test_data_dir("crate").unwrap(), "test-data");
    assert_eq!(test_data_dir("/crate").unwrap(), "/test-data");
}

#[test]
fn test_data_dir_accepts_dots_and_spaces() {
    let dir = test_data_dir("/home/me/my project/wav2vec-burn.v2/crate.d").unwrap();
    assert_eq!(dir, "/home/me/my project/wav2vec-burn.v2/test-data");
    assert_eq!(test_data_dir(".hidden dir/crate").unwrap(), ".hidden dir/test-data");
}

#[test]
fn transcript_lines_skip_blank_lines() {
    let raw = "1089-134686-0000 HE HOPED\r\n\n   \n1089-134686-0001 STUFF IT INTO YOU\n";
    assert_eq!(transcript_lines(raw), vec!["1089-134686-0000 HE HOPED", "1089-134686-0001 STUFF IT INTO YOU"]);
    assert!(transcript_lines("").is_empty());
    assert_eq!(transcript_lines("last line without newline"), vec!["last line without newline"]);
}

#[test]
fn transcript_line_splits_at_first_space() {
    let (id, text) = parse_transcript_line("1089-134686-0000 HE HOPED THERE WOULD BE STEW");
    assert_eq!(id, "1089-134686-0000");
    assert_eq!(text, "HE HOPED THERE WOULD BE STEW");
    assert_eq!(parse_transcript_line("id "), ("id".to_string(), String::new()));
}
