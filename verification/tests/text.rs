use rep_grow::text::{
    append_decimal, blank, chars_of, contains, is_whitespace, join_with_spaces, parse_i32,
    parse_u32, parse_u64, same_text, split_whitespace, starts_with, trim_end_matches,
};

#[test]
fn whitespace_is_what_std_calls_whitespace() {
    for n in 0..=0x10FFFFu32 {
        if let Some(c) = char::from_u32(n) {
            assert_eq!(is_whitespace(c), c.is_whitespace(), "U+{:04X}", n);
        }
    }
}

#[test]
fn split_agrees_with_std() {
    let samples = [
        "",
        " ",
        "a",
        " a ",
        "info depth 10",
        "\t tab\tseparated\n",
        "a\u{3000}b\u{2009}c",
        "é ü  ß",
        "trailing   ",
        "   leading",
    ];
    for s in samples {
        let want: Vec<String> = s.split_whitespace().map(str::to_string).collect();
        assert_eq!(split_whitespace(s), want, "{:?}", s);
    }
}

#[test]
fn chars_of_gives_the_characters() {
    assert_eq!(chars_of("héllo"), vec!['h', 'é', 'l', 'l', 'o']);
    assert!(chars_of("").is_empty());
}

#[test]
fn join_puts_single_spaces_between() {
    assert_eq!(join_with_spaces(&vec![]), "");
    assert_eq!(join_with_spaces(&vec!["e2e4".to_string()]), "e2e4");
    assert_eq!(
        join_with_spaces(&vec!["e2e4".to_string(), "e7e5".to_string(), "g1f3".to_string()]),
        "e2e4 e7e5 g1f3"
    );
}

#[test]
fn unsigned_numbers_read_as_std_reads_them() {
    let samples = [
        "", "+", "-", "0", "00", "007", "+5", "-5", "-0", "4294967295", "4294967296",
        "18446744073709551615", "18446744073709551616", "99999999999999999999999999", "1_000",
        "12a", "a12", " 12", "12 ", "+-1", "++1", "１２",
    ];
    for s in samples {
        assert_eq!(parse_u32(s), s.parse::<u32>().ok(), "{:?}", s);
        assert_eq!(parse_u64(s), s.parse::<u64>().ok(), "{:?}", s);
    }
    assert_eq!(parse_u32("4294967295"), Some(u32::MAX));
    assert_eq!(parse_u32("4294967296"), None);
    assert_eq!(parse_u64("18446744073709551615"), Some(u64::MAX));
    assert_eq!(parse_u64("18446744073709551616"), None);
}

#[test]
fn signed_numbers_read_as_std_reads_them() {
    let samples = [
        "", "+", "-", "0", "-0", "+0", "17", "-17", "+17", "2147483647", "2147483648",
        "-2147483648", "-2147483649", "--1", "-+1", "1-", "3.5", "-99999999999999999999",
    ];
    for s in samples {
        assert_eq!(parse_i32(s), s.parse::<i32>().ok(), "{:?}", s);
    }
    assert_eq!(parse_i32("-2147483648"), Some(i32::MIN));
    assert_eq!(parse_i32("2147483647"), Some(i32::MAX));
    assert_eq!(parse_i32("2147483648"), None);
}

#[test]
fn numbers_are_written_in_base_ten() {
    for n in [0u64, 1, 9, 10, 11, 99, 100, 12345, 4294967295, u64::MAX] {
        let mut out = String::from("n=");
        append_decimal(&mut out, n);
        assert_eq!(out, format!("n={}", n));
        assert_eq!(parse_u64(&out[2..]), Some(n));
    }
}

#[test]
fn prefix_and_substring() {
    assert!(starts_with("info depth 1", "info "));
    assert!(!starts_with("information", "info "));
    assert!(!starts_with("inf", "info "));
    assert!(starts_with("anything", ""));
    assert!(starts_with("", ""));
    assert!(contains("id name x\nuciok\n", "uciok"));
    assert!(contains("uciok", "uciok"));
    assert!(!contains("uci ok", "uciok"));
    assert!(!contains("ok", "uciok"));
    assert!(contains("abc", ""));
    assert!(contains("", ""));
    assert!(contains("xxreadyok", "readyok"));
    assert!(contains("aab", "ab"));
}

#[test]
fn same_text_compares_characters() {
    assert!(same_text("depth", "depth"));
    assert!(!same_text("depth", "depths"));
    assert!(!same_text("depth", "Depth"));
    assert!(same_text("", ""));
}

#[test]
fn blank_means_empty_once_trimmed() {
    for s in ["", " ", "\t\n ", "\u{a0}\u{3000}", " x ", "x", "\u{200b}"] {
        assert_eq!(blank(s), s.trim().is_empty(), "{:?}", s);
    }
}

#[test]
fn trailing_run_is_stripped() {
    for s in ["", "/", "//", "https://lichess.org", "https://lichess.org/", "a/b///", "/a"] {
        assert_eq!(trim_end_matches(s, '/'), s.trim_end_matches('/'), "{:?}", s);
    }
    assert_eq!(trim_end_matches("https://example.com//", '/'), "https://example.com");
}
