use unispec::spectrum::{Spectrum, SpectrumError};

fn read(lines: &[&str]) -> Result<Spectrum, SpectrumError> {
    Spectrum::try_get_from(lines)
}

fn values(lines: &[&str]) -> Vec<u32> {
    read(lines).expect("text should read").data
}

#[test]
fn new_keeps_counts() {
    let s = Spectrum::new(vec![3, 1, 4]);
    assert_eq!(s.data, vec![3, 1, 4]);
}

#[test]
fn one_count_per_line() {
    assert_eq!(values(&["12", "0", "4294967295"]), vec![12, 0, 4294967295]);
}

#[test]
fn empty_text_is_empty_spectrum() {
    assert_eq!(values(&[]), Vec::<u32>::new());
}

#[test]
fn channel_and_count_takes_count() {
    assert_eq!(values(&["0 15", "1 17", "2  19"]), vec![15, 17, 19]);
}

#[test]
fn leading_comments_are_skipped() {
    assert_eq!(values(&["# header", "#", "5", "6"]), vec![5, 6]);
}

#[test]
fn later_comment_is_a_bad_number() {
    let r = read(&["# header", "5", "# not a header", "6"]);
    assert!(matches!(r, Err(SpectrumError::NaN(_, 2))));
}

#[test]
fn blank_lines_are_skipped() {
    assert_eq!(values(&["", "5", "   ", "\t", "6", "\u{3000}"]), vec![5, 6]);
}

#[test]
fn blank_line_before_header_ends_it() {
    let r = read(&["", "# header", "5"]);
    assert!(matches!(r, Err(SpectrumError::NaN(_, 1))));
}

#[test]
fn surrounding_spaces_are_ignored() {
    assert_eq!(values(&["  7  ", " 1   8 "]), vec![7, 8]);
}

#[test]
fn tab_is_not_a_separator() {
    let r = read(&["1\t2"]);
    assert!(matches!(r, Err(SpectrumError::NaN(_, 0))));
}

#[test]
fn plus_sign_is_accepted() {
    assert_eq!(values(&["+9", "1 +10"]), vec![9, 10]);
}

#[test]
fn negative_count_is_a_bad_number() {
    let r = read(&["1", "-3"]);
    assert!(matches!(r, Err(SpectrumError::NaN(_, 1))));
}

#[test]
fn too_large_count_is_a_bad_number() {
    let r = read(&["4294967296"]);
    let e = "4294967296".parse::<u32>().unwrap_err();
    assert_eq!(r, Err(SpectrumError::NaN(e, 0)));
}

#[test]
fn bad_word_reports_parse_error_and_line() {
    let r = read(&["1", "2", "x"]);
    let e = "x".parse::<u32>().unwrap_err();
    assert_eq!(r, Err(SpectrumError::NaN(e, 2)));
}

#[test]
fn bad_channel_is_a_bad_number() {
    let r = read(&["a 5"]);
    assert!(matches!(r, Err(SpectrumError::NaN(_, 0))));
}

#[test]
fn bad_count_after_channel_is_a_bad_number() {
    let r = read(&["3 b"]);
    assert!(matches!(r, Err(SpectrumError::NaN(_, 0))));
}

#[test]
fn three_numbers_overflow() {
    assert_eq!(read(&["1", "1 2 3"]), Err(SpectrumError::ValueOverflow));
}

#[test]
fn bad_first_word_wins_over_three_words() {
    let r = read(&["x 2 3"]);
    assert!(matches!(r, Err(SpectrumError::NaN(_, 0))));
}

#[test]
fn three_words_win_over_bad_second_word() {
    assert_eq!(read(&["1 x 3"]), Err(SpectrumError::ValueOverflow));
}

#[test]
fn first_bad_line_is_reported() {
    let r = read(&["1", "y", "1 2 3"]);
    assert!(matches!(r, Err(SpectrumError::NaN(_, 1))));
}

#[test]
fn law_counts_read_back_example() {
    let data = vec![0u32, 7, 42, 1000, u32::MAX];
    let text: Vec<String> = data.iter().map(|v| v.to_string()).collect();
    let lines: Vec<&str> = text.iter().map(|s| s.as_str()).collect();
    assert_eq!(values(&lines), data);
}

#[test]
fn law_leading_comments_example() {
    assert_eq!(values(&["# a", "# b", "3", "4"]), values(&["3", "4"]));
    assert!(matches!(read(&["z"]), Err(SpectrumError::NaN(_, 0))));
    assert!(matches!(read(&["# a", "# b", "z"]), Err(SpectrumError::NaN(_, 2))));
}

#[test]
fn law_blank_line_example() {
    assert_eq!(values(&["# a", "3", " ", "4"]), values(&["# a", "3", "4"]));
    assert!(matches!(read(&["3", "q"]), Err(SpectrumError::NaN(_, 1))));
    assert!(matches!(read(&["3", "", "q"]), Err(SpectrumError::NaN(_, 2))));
}

#[test]
fn law_channel_and_count_example() {
    assert_eq!(values(&["4294967295 0"]), vec![0]);
}

#[test]
fn law_three_numbers_example() {
    assert_eq!(read(&["0 0 0"]), Err(SpectrumError::ValueOverflow));
}

#[test]
fn law_one_count_per_data_line_example() {
    let lines = ["# h", "# h", "1", "", "2 3", "  ", "4"];
    assert_eq!(values(&lines).len(), 3);
}
