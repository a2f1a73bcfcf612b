use wecom::fs::content_disposition::{parse_ext_value, parse_quoted_or_token, percent_decode};
use wecom::fs::sanitize::{is_control_char, is_illegal_char, is_windows_reserved, sanitize_filename};

#[test]
fn sanitize_replaces_illegal_chars() {
    assert_eq!(sanitize_filename("a/b:c*d", false), "a_b_c_d");
    assert_eq!(sanitize_filename("file<name>.txt", false), "file_name_.txt");
}

#[test]
fn sanitize_replaces_control_chars() {
    assert_eq!(sanitize_filename("hello\x00world", false), "hello_world");
    assert_eq!(sanitize_filename("a\x1fb", false), "a_b");
}

#[test]
fn sanitize_empty_input() {
    assert_eq!(sanitize_filename("", false), "_");
    assert_eq!(sanitize_filename("   ", false), "_");
}

#[test]
fn sanitize_all_dots() {
    assert_eq!(sanitize_filename("...", false), "_...");
    assert_eq!(sanitize_filename(".", false), "_.");
}

#[test]
fn sanitize_trims_whitespace() {
    assert_eq!(sanitize_filename("  hello  ", false), "hello");
}

#[test]
fn sanitize_truncates_long_names() {
    let long_name = "a".repeat(300);
    let result = sanitize_filename(&long_name, false);
    assert_eq!(result.len(), 255);
}

#[test]
fn sanitize_normal_filenames_unchanged() {
    assert_eq!(sanitize_filename("readme.md", false), "readme.md");
    assert_eq!(
        sanitize_filename("my-file_v2.tar.gz", false),
        "my-file_v2.tar.gz"
    );
    assert_eq!(sanitize_filename("日本語.txt", false), "日本語.txt");
}

#[test]
fn sanitize_windows_trailing_space() {
    assert_eq!(sanitize_filename("hello ", true), "hello");
    assert_eq!(sanitize_filename("a b", true), "a b");
    assert_eq!(sanitize_filename("   ", true), "_");
}

#[test]
fn sanitize_windows_trailing_dot() {
    assert_eq!(sanitize_filename("data.", true), "data._");
    assert_eq!(sanitize_filename("data.", false), "data.");
}

#[test]
fn sanitize_windows_reserved_names() {
    assert_eq!(sanitize_filename("CON", true), "_CON");
    assert_eq!(sanitize_filename("con.txt", true), "_con.txt");
    assert_eq!(sanitize_filename("NUL", true), "_NUL");
    assert_eq!(sanitize_filename("COM1.log", true), "_COM1.log");
    assert_eq!(sanitize_filename("aux", true), "_aux");
}

#[test]
fn sanitize_windows_reserved_not_applied_on_unix() {
    assert_eq!(sanitize_filename("CON", false), "CON");
    assert_eq!(sanitize_filename("con.txt", false), "con.txt");
    assert_eq!(sanitize_filename("NUL", false), "NUL");
}

#[test]
fn sanitize_windows_non_reserved_unchanged() {
    assert_eq!(sanitize_filename("readme.md", true), "readme.md");
    assert_eq!(sanitize_filename("console", true), "console");
}

#[test]
fn reserved_exact_match() {
    assert!(is_windows_reserved("con"));
    assert!(is_windows_reserved("prn"));
    assert!(is_windows_reserved("aux"));
    assert!(is_windows_reserved("nul"));
    assert!(is_windows_reserved("com0"));
    assert!(is_windows_reserved("lpt9"));
}

#[test]
fn reserved_case_insensitive() {
    assert!(is_windows_reserved("CON"));
    assert!(is_windows_reserved("Prn"));
    assert!(is_windows_reserved("AUX"));
    assert!(is_windows_reserved("NUL"));
    assert!(is_windows_reserved("Com1"));
    assert!(is_windows_reserved("LPT3"));
}

#[test]
fn reserved_with_extension() {
    assert!(is_windows_reserved("con.txt"));
    assert!(is_windows_reserved("NUL.log"));
    assert!(is_windows_reserved("COM1.dat"));
    assert!(is_windows_reserved("aux.tar.gz"));
}

#[test]
fn not_reserved_normal_names() {
    assert!(!is_windows_reserved("hello"));
    assert!(!is_windows_reserved("readme.md"));
    assert!(!is_windows_reserved("console"));
    assert!(!is_windows_reserved("prn_data"));
    assert!(!is_windows_reserved("auxiliary"));
    assert!(!is_windows_reserved("com10"));
    assert!(!is_windows_reserved("lpt"));
    assert!(!is_windows_reserved(""));
}

#[test]
fn sanitize_quoted_simple() {
    assert_eq!(parse_quoted_or_token("\"report.pdf\""), "report.pdf");
}

#[test]
fn sanitize_quoted_with_escape() {
    assert_eq!(
        parse_quoted_or_token("\"file\\\"name.txt\""),
        "file\"name.txt"
    );
}

#[test]
fn sanitize_quoted_with_backslash_escape() {
    assert_eq!(parse_quoted_or_token("\"a\\\\b\""), "a\\b");
}

#[test]
fn sanitize_token_simple() {
    assert_eq!(parse_quoted_or_token("report.pdf"), "report.pdf");
}

#[test]
fn sanitize_token_stops_at_semicolon() {
    assert_eq!(parse_quoted_or_token("name.txt; extra"), "name.txt");
}

#[test]
fn sanitize_token_stops_at_whitespace() {
    assert_eq!(parse_quoted_or_token("name.txt other"), "name.txt");
}

#[test]
fn sanitize_empty_quoted_string() {
    assert_eq!(parse_quoted_or_token("\"\""), "");
}

#[test]
fn sanitize_decode_ascii() {
    assert_eq!(percent_decode("hello").unwrap(), "hello");
}

#[test]
fn sanitize_decode_encoded_ascii() {
    assert_eq!(percent_decode("%48%65%6C%6C%6F").unwrap(), "Hello");
}

#[test]
fn sanitize_decode_chinese_utf8() {
    assert_eq!(percent_decode("%E4%B8%AD").unwrap(), "中");
}

#[test]
fn sanitize_decode_mixed() {
    assert_eq!(percent_decode("file%20name.txt").unwrap(), "file name.txt");
}

#[test]
fn sanitize_decode_invalid_hex_returns_none() {
    assert!(percent_decode("%ZZ").is_none());
}

#[test]
fn sanitize_decode_truncated_percent_returns_none() {
    assert!(percent_decode("%4").is_none());
}

#[test]
fn sanitize_decode_trailing_percent_returns_none() {
    assert!(percent_decode("hello%").is_none());
}

#[test]
fn sanitize_ext_value_utf8() {
    assert_eq!(
        parse_ext_value("UTF-8''hello%20world").unwrap(),
        "hello world"
    );
}

#[test]
fn sanitize_ext_value_utf8_with_language() {
    assert_eq!(
        parse_ext_value("UTF-8'en'report.pdf").unwrap(),
        "report.pdf"
    );
}

#[test]
fn sanitize_ext_value_utf8_case_insensitive() {
    assert_eq!(parse_ext_value("utf-8''test.txt").unwrap(), "test.txt");
}

#[test]
fn sanitize_ext_value_non_utf8_returns_none() {
    assert!(parse_ext_value("ISO-8859-1''test.txt").is_none());
}

#[test]
fn sanitize_ext_value_missing_parts_returns_none() {
    assert!(parse_ext_value("UTF-8").is_none());
}

#[test]
fn sanitize_ext_value_chinese_filename() {
    assert_eq!(
        parse_ext_value("UTF-8''%E6%96%87%E4%BB%B6.pdf").unwrap(),
        "文件.pdf"
    );
}

#[test]
fn every_illegal_and_control_character_is_found() {
    for ch in "/?<>\\:*|\"".chars() {
        assert!(is_illegal_char(ch));
        assert_eq!(sanitize_filename(&format!("a{ch}b"), false), "a_b");
    }
    assert!(!is_illegal_char('a'));
    assert!(is_control_char('\u{0}'));
    assert!(is_control_char('\u{1f}'));
    assert!(!is_control_char(' '));
    assert!(!is_control_char('\u{7f}'));
    assert!(is_control_char('\u{80}'));
    assert!(is_control_char('\u{9f}'));
    assert!(!is_control_char('\u{a0}'));
}

#[test]
fn long_names_are_cut_by_characters() {
    let long = "文".repeat(300);
    assert_eq!(sanitize_filename(&long, false), "文".repeat(255));
}

#[test]
fn a_sanitized_name_stays_as_it_is() {
    for windows in [false, true] {
        for name in ["", "...", " a/b ", "CON", "data.", "con.txt", "\u{1}x", "日本語.txt"] {
            let once = sanitize_filename(name, windows);
            assert_eq!(sanitize_filename(&once, windows), once);
            assert!(!once.is_empty());
            assert!(!once.contains('/'));
        }
    }
}
