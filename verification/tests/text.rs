use download_iglive::text::{replace, same_text, starts_with, to_decimal};

#[test]
fn decimal_of_small_numbers() {
    assert_eq!(to_decimal(0), "0");
    assert_eq!(to_decimal(7), "7");
    assert_eq!(to_decimal(10), "10");
    assert_eq!(to_decimal(1234567890), "1234567890");
    assert_eq!(to_decimal(100_000), "100000");
}

#[test]
fn decimal_of_negative_numbers() {
    assert_eq!(to_decimal(-1), "-1");
    assert_eq!(to_decimal(-2000), "-2000");
}

#[test]
fn decimal_of_the_extremes() {
    assert_eq!(to_decimal(isize::MAX), isize::MAX.to_string());
    assert_eq!(to_decimal(isize::MIN), isize::MIN.to_string());
}

#[test]
fn decimal_agrees_with_the_standard_rendering() {
    for t in (-5000..5000).step_by(37) {
        assert_eq!(to_decimal(t), t.to_string());
    }
}

#[test]
fn replace_one_marker() {
    assert_eq!(replace("seg-$Time$.m4v", "$Time$", "123"), "seg-123.m4v");
}

#[test]
fn replace_every_marker() {
    assert_eq!(replace("$Time$/a/$Time$$Time$", "$Time$", "7"), "7/a/77");
}

#[test]
fn replace_without_marker_keeps_the_text() {
    assert_eq!(replace("plain.m4v", "$Time$", "7"), "plain.m4v");
    assert_eq!(replace("", "$Time$", "7"), "");
    assert_eq!(replace("$Time", "$Time$", "7"), "$Time");
}

#[test]
fn replace_finds_occurrences_from_the_left_without_overlap() {
    assert_eq!(replace("aaa", "aa", "b"), "ba");
    assert_eq!(replace("aaaa", "aa", "b"), "bb");
    assert_eq!(replace("abab", "ab", "abab"), "abababab");
}

#[test]
fn replace_handles_wide_characters() {
    assert_eq!(replace("é$Time$ü", "$Time$", "ß"), "éßü");
    assert_eq!(replace("日本語", "本", ""), "日語");
}

#[test]
fn replace_agrees_with_the_standard_function() {
    let texts = ["", "x", "$Time$", "a$Time$b$Time$", "$$Time$$", "$Time$Time$", "$T$Time$"];
    for text in texts {
        assert_eq!(replace(text, "$Time$", "42"), text.replace("$Time$", "42"));
    }
}

#[test]
fn prefix_test() {
    assert!(starts_with("video/mp4", "video/"));
    assert!(starts_with("video/mp4", "video"));
    assert!(starts_with("video/mp4", ""));
    assert!(starts_with("video", "video"));
    assert!(!starts_with("vide", "video"));
    assert!(!starts_with("audio/mp4", "video/"));
    assert!(!starts_with("", "video/"));
    assert!(!starts_with("xvideo/", "video/"));
}

#[test]
fn text_equality() {
    assert!(same_text("1", "1"));
    assert!(same_text("", ""));
    assert!(!same_text("1", "10"));
    assert!(!same_text("10", "1"));
    assert!(!same_text("1", "0"));
    assert!(!same_text("", "1"));
}
