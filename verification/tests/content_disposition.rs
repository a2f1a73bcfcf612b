use wecom::fs::content_disposition::{
    content_disposition_filename, parse_content_disposition, parse_ext_value,
    parse_quoted_or_token, percent_decode,
};

#[test]
fn content_disposition_filename_simple() {
    let header = Some("attachment; filename=\"report.pdf\"");
    assert_eq!(
        content_disposition_filename(header).as_deref(),
        Some("report.pdf")
    );
}

#[test]
fn content_disposition_filename_star_takes_precedence() {
    let header = Some("attachment; filename=\"fallback.pdf\"; filename*=UTF-8''%E6%96%87%E4%BB%B6.pdf");
    assert_eq!(
        content_disposition_filename(header).as_deref(),
        Some("文件.pdf")
    );
}

#[test]
fn content_disposition_filename_unquoted() {
    let header = Some("attachment; filename=data.csv");
    assert_eq!(
        content_disposition_filename(header).as_deref(),
        Some("data.csv")
    );
}

#[test]
fn content_disposition_no_header_returns_none() {
    let header = None;
    assert!(content_disposition_filename(header).is_none());
}

#[test]
fn content_disposition_no_filename_param_returns_none() {
    let header = Some("inline");
    assert!(content_disposition_filename(header).is_none());
}

#[test]
fn content_disposition_empty_filename_returns_none() {
    let header = Some("attachment; filename=\"\"");
    assert!(content_disposition_filename(header).is_none());
}

#[test]
fn content_disposition_only_filename_star() {
    let header = Some("attachment; filename*=UTF-8''hello%20world.txt");
    assert_eq!(
        content_disposition_filename(header).as_deref(),
        Some("hello world.txt")
    );
}

#[test]
fn content_disposition_segment_without_equals() {
    let header = Some("attachment; noequals; filename=\"ok.txt\"");
    assert_eq!(
        content_disposition_filename(header).as_deref(),
        Some("ok.txt")
    );
}

#[test]
fn content_disposition_unknown_param_ignored() {
    let header = Some("attachment; foo=bar; filename=\"ok.txt\"");
    assert_eq!(
        content_disposition_filename(header).as_deref(),
        Some("ok.txt")
    );
}

#[test]
fn reqwest_ext_quoted_simple() {
    assert_eq!(parse_quoted_or_token("\"report.pdf\""), "report.pdf");
}

#[test]
fn reqwest_ext_quoted_with_escape() {
    assert_eq!(
        parse_quoted_or_token("\"file\\\"name.txt\""),
        "file\"name.txt"
    );
}

#[test]
fn reqwest_ext_quoted_with_backslash_escape() {
    assert_eq!(parse_quoted_or_token("\"a\\\\b\""), "a\\b");
}

#[test]
fn reqwest_ext_token_simple() {
    assert_eq!(parse_quoted_or_token("report.pdf"), "report.pdf");
}

#[test]
fn reqwest_ext_token_stops_at_semicolon() {
    assert_eq!(parse_quoted_or_token("name.txt; extra"), "name.txt");
}

#[test]
fn reqwest_ext_token_stops_at_whitespace() {
    assert_eq!(parse_quoted_or_token("name.txt other"), "name.txt");
}

#[test]
fn reqwest_ext_empty_quoted_string() {
    assert_eq!(parse_quoted_or_token("\"\""), "");
}

#[test]
fn reqwest_ext_decode_ascii() {
    assert_eq!(percent_decode("hello").unwrap(), "hello");
}

#[test]
fn reqwest_ext_decode_encoded_ascii() {
    assert_eq!(percent_decode("%48%65%6C%6C%6F").unwrap(), "Hello");
}

#[test]
fn reqwest_ext_decode_chinese_utf8() {
    assert_eq!(percent_decode("%E4%B8%AD").unwrap(), "中");
}

#[test]
fn reqwest_ext_decode_mixed() {
    assert_eq!(percent_decode("file%20name.txt").unwrap(), "file name.txt");
}

#[test]
fn reqwest_ext_decode_invalid_hex_returns_none() {
    assert!(percent_decode("%ZZ").is_none());
}

#[test]
fn reqwest_ext_decode_truncated_percent_returns_none() {
    assert!(percent_decode("%4").is_none());
}

#[test]
fn reqwest_ext_decode_trailing_percent_returns_none() {
    assert!(percent_decode("hello%").is_none());
}

#[test]
fn reqwest_ext_ext_value_utf8() {
    assert_eq!(
        parse_ext_value("UTF-8''hello%20world").unwrap(),
        "hello world"
    );
}

#[test]
fn reqwest_ext_ext_value_utf8_with_language() {
    assert_eq!(
        parse_ext_value("UTF-8'en'report.pdf").unwrap(),
        "report.pdf"
    );
}

#[test]
fn reqwest_ext_ext_value_utf8_case_insensitive() {
    assert_eq!(parse_ext_value("utf-8''test.txt").unwrap(), "test.txt");
}

#[test]
fn reqwest_ext_ext_value_non_utf8_returns_none() {
    assert!(parse_ext_value("ISO-8859-1''test.txt").is_none());
}

#[test]
fn reqwest_ext_ext_value_missing_parts_returns_none() {
    assert!(parse_ext_value("UTF-8").is_none());
}

#[test]
fn reqwest_ext_ext_value_chinese_filename() {
    assert_eq!(
        parse_ext_value("UTF-8''%E6%96%87%E4%BB%B6.pdf").unwrap(),
        "文件.pdf"
    );
}

#[test]
fn quoted_unclosed_collects_to_end() {
    assert_eq!(parse_quoted_or_token("\"unclosed"), "unclosed");
}

#[test]
fn quoted_trailing_backslash_dropped() {
    assert_eq!(parse_quoted_or_token("\"abc\\"), "abc");
}

#[test]
fn names_of_parameters_are_found_in_any_case() {
    assert_eq!(
        parse_content_disposition("attachment; FileName=\"a.txt\"").as_deref(),
        Some("a.txt")
    );
    assert_eq!(
        parse_content_disposition("attachment; FILENAME*=utf-8''b.txt").as_deref(),
        Some("b.txt")
    );
}

#[test]
fn bytes_that_are_no_text_are_refused() {
    assert!(percent_decode("%FF%FE").is_none());
    assert!(parse_ext_value("UTF-8''%C3").is_none());
}

#[test]
fn an_extended_name_that_cannot_be_read_leaves_the_plain_one() {
    assert_eq!(
        parse_content_disposition("attachment; filename=\"a.txt\"; filename*=UTF-8''%ZZ").as_deref(),
        Some("a.txt")
    );
}

#[test]
fn encoded_names_are_read_back() {
    for name in ["a b.txt", "中文.pdf", "100%.csv", "q\"uote"] {
        let mut encoded = "UTF-8''".to_owned();
        for byte in name.bytes() {
            encoded.push_str(&format!("%{byte:02X}"));
        }
        assert_eq!(parse_ext_value(&encoded).as_deref(), Some(name));
    }
}

#[test]
fn decode_sign_before_a_digit_returns_none() {
    assert!(percent_decode("%+5").is_none());
    assert!(percent_decode("%5+").is_none());
    assert!(percent_decode("%-5").is_none());
    assert!(percent_decode("a%20b%+5c").is_none());
    assert_eq!(parse_ext_value("UTF-8''%+5"), None);
    assert_eq!(
        parse_content_disposition("attachment; filename*=UTF-8''%+5; filename=\"a.txt\""),
        Some("a.txt".to_string())
    );
}

#[test]
fn decode_takes_digits_of_either_case() {
    assert_eq!(percent_decode("%e4%B8%Ad").unwrap(), "中");
    assert_eq!(percent_decode("%6c%6C").unwrap(), "ll");
}
