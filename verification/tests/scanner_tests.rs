use logstat::line::Line;
use logstat::predicates::{
    digital, digital_dot, digital_dot_colon, digital_dot_minus, digital_or_none_end, not_space,
    Pred,
};

#[test]
fn digital_accepts_digits_only() {
    assert!(digital(b'0', 0));
    assert!(digital(b'9', 0));
    assert!(!digital(b'a', 0));
    assert!(!digital(b'.', 0));
}

#[test]
fn digital_dot_accepts_digits_and_dot() {
    assert!(digital_dot(b'5', 0));
    assert!(digital_dot(b'.', 0));
    assert!(!digital_dot(b':', 0));
}

#[test]
fn digital_dot_colon_covers_address_bytes() {
    assert!(digital_dot_colon(b'1', 0));
    assert!(digital_dot_colon(b'.', 0));
    assert!(digital_dot_colon(b':', 0));
    assert!(digital_dot_colon(b'f', 0));
    assert!(digital_dot_colon(b'z', 0));
    assert!(!digital_dot_colon(b'A', 0));
    assert!(!digital_dot_colon(b' ', 0));
}

#[test]
fn digital_dot_minus_accepts_minus() {
    assert!(digital_dot_minus(b'-', 0));
    assert!(digital_dot_minus(b'7', 0));
    assert!(!digital_dot_minus(b' ', 0));
}

#[test]
fn digital_or_none_end_stops_after_digit_or_dash() {
    assert!(!digital_or_none_end(b' ', b'3'));
    assert!(!digital_or_none_end(b' ', b'-'));
    assert!(digital_or_none_end(b' ', b'x'));
    assert!(digital_or_none_end(b'3', b'3'));
}

#[test]
fn not_space_rejects_space_only() {
    assert!(not_space(b'x', 0));
    assert!(!not_space(b' ', 0));
}

#[test]
fn trim_space_takes_maximal_run() {
    let mut l = Line::new("  12.3.4 rest");
    let got = l.parse_item_trim_space(Pred::AddressChars);
    assert_eq!(got, Some(b"12.3.4".to_vec()));
    let next = l.parse_item_trim_space(Pred::NonSpace);
    assert_eq!(next, Some(b"rest".to_vec()));
}

#[test]
fn trim_space_no_match_yields_none_not_empty() {
    let mut l = Line::new("   ");
    assert_eq!(l.parse_item_trim_space(Pred::Digits), None);
    let mut l2 = Line::new("abc");
    assert_eq!(l2.parse_item_trim_space(Pred::Digits), None);
    // the cursor is untouched, so the next scan still sees the token
    assert_eq!(l2.parse_item_trim_space(Pred::NonSpace), Some(b"abc".to_vec()));
}

#[test]
fn trim_space_match_to_end_of_line_is_accepted() {
    let mut l = Line::new("  4096");
    assert_eq!(l.parse_item_trim_space(Pred::Digits), Some(b"4096".to_vec()));
    assert_eq!(l.parse_item_trim_space(Pred::Digits), None);
}

#[test]
fn wrap_string_takes_first_closing_delimiter() {
    let mut l = Line::new(" [inner] tail");
    assert_eq!(l.parse_item_wrap_string(b'[', b']'), Some(b"inner".to_vec()));
    assert_eq!(l.parse_item_trim_space(Pred::NonSpace), Some(b"tail".to_vec()));
}

#[test]
fn wrap_string_requires_left_delimiter_at_cursor() {
    let mut l = Line::new("no brackets");
    assert_eq!(l.parse_item_wrap_string(b'[', b']'), None);
}

#[test]
fn wrap_string_requires_right_delimiter() {
    let mut l = Line::new("[never closed");
    assert_eq!(l.parse_item_wrap_string(b'[', b']'), None);
}

#[test]
fn remote_user_strips_leading_dashes() {
    let mut l = Line::new("- john [x]");
    assert_eq!(l.parse_remote_user(), Some(b"john".to_vec()));
    let mut l2 = Line::new("- - [x]");
    assert_eq!(l2.parse_remote_user(), Some(b"-".to_vec()));
}

#[test]
fn time_local_needs_bracket_followed_by_space() {
    // the first ']' has no space after it, so the scan goes on to the next
    let mut l = Line::new("[10/Oct]2023 +0000] rest");
    assert_eq!(l.parse_time_local(), Some(b"10/Oct]2023 +0000".to_vec()));
}

#[test]
fn request_line_ends_at_version_digit_quote_space() {
    let mut l = Line::new("\"GET /a\"b HTTP/1.1\" 200");
    // the embedded quote does not end the field: only '1' '"' ' ' does
    assert_eq!(l.parse_request_line(), Some(b"GET /a\"b HTTP/1.1".to_vec()));
}

#[test]
fn request_line_stops_at_third_space() {
    let mut l = Line::new("\"GET / HTTP/1.1 extra\" 200");
    assert_eq!(l.parse_request_line(), Some(b"GET / HTTP/1.1".to_vec()));
}

#[test]
fn request_line_runs_to_end_of_line_without_terminator() {
    let mut l = Line::new("\"GET /x");
    assert_eq!(l.parse_request_line(), Some(b"GET /x".to_vec()));
}

#[test]
fn quoted_field_ends_at_second_quote() {
    let mut l = Line::new("\"ab\" rest");
    assert_eq!(l.parse_http_referer(), Some(b"ab".to_vec()));
    assert_eq!(l.parse_http_user_agent(), Some(b"rest".to_vec()));
}

#[test]
fn quoted_field_embedded_quote_ends_field() {
    // the second quote of the scan closes the field, wherever it stands
    let mut l = Line::new("\"a\"b\" x");
    assert_eq!(l.parse_http_referer(), Some(b"a".to_vec()));
}

#[test]
fn quoted_field_empty_value() {
    let mut l = Line::new("\"\" next");
    assert_eq!(l.parse_http_referer(), Some(b"".to_vec()));
    assert_eq!(l.parse_http_user_agent(), Some(b"next".to_vec()));
}

#[test]
fn quoted_field_on_empty_input_is_none() {
    let mut l = Line::new("");
    assert_eq!(l.parse_http_referer(), None);
}

#[test]
fn address_then_user_then_time_sequence() {
    let mut l = Line::new("10.0.0.1 - alice [t] rest");
    assert_eq!(l.parse_remote_addr(), Some(b"10.0.0.1".to_vec()));
    assert_eq!(l.parse_remote_user(), Some(b"alice".to_vec()));
}
