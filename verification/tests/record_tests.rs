use logstat::record::{bytes_to_u64, parse_record};

const LINE: &str = "10.0.0.1 - john [10/Oct/2023:13:55:36 +0000] \"GET /index.html HTTP/1.1\" 200 512 \"-\" \"curl/8.0\" \"-\"";

#[test]
fn full_record_decodes_all_nine_fields() {
    let rec = parse_record(LINE).expect("the line is well formed");
    assert_eq!(rec.remote_addr, b"10.0.0.1".to_vec());
    assert_eq!(rec.remote_user, b"john".to_vec());
    assert_eq!(rec.time_local, b"10/Oct/2023:13:55:36 +0000".to_vec());
    assert_eq!(rec.request_line, b"GET /index.html HTTP/1.1".to_vec());
    assert_eq!(rec.status_code, b"200".to_vec());
    assert_eq!(rec.body_bytes_sent, 512);
    assert_eq!(rec.http_referer, b"-".to_vec());
    assert_eq!(rec.http_user_agent, b"curl/8.0".to_vec());
    assert_eq!(rec.http_x_forwarded_for, b"-".to_vec());
}

#[test]
fn record_parsing_is_deterministic() {
    let a = parse_record(LINE).expect("parses");
    let b = parse_record(LINE).expect("parses");
    assert_eq!(a.remote_addr, b.remote_addr);
    assert_eq!(a.remote_user, b.remote_user);
    assert_eq!(a.time_local, b.time_local);
    assert_eq!(a.request_line, b.request_line);
    assert_eq!(a.status_code, b.status_code);
    assert_eq!(a.body_bytes_sent, b.body_bytes_sent);
    assert_eq!(a.http_referer, b.http_referer);
    assert_eq!(a.http_user_agent, b.http_user_agent);
    assert_eq!(a.http_x_forwarded_for, b.http_x_forwarded_for);
}

#[test]
fn missing_trailing_bracket_rejects_line() {
    let line = "10.0.0.1 - john [10/Oct/2023:13:55:36 +0000 \"GET / HTTP/1.1\" 200 512 \"-\" \"curl/8.0\" \"-\"";
    assert!(parse_record(line).is_none());
}

#[test]
fn line_not_starting_with_address_is_rejected() {
    assert!(parse_record("[10/Oct/2023] \"GET / HTTP/1.1\" 200 1 \"-\" \"-\" \"-\"").is_none());
}

#[test]
fn empty_line_is_rejected() {
    assert!(parse_record("").is_none());
}

#[test]
fn missing_quoted_tail_rejects_line() {
    // only two of the three trailing quoted fields are present
    let line = "10.0.0.1 - - [10/Oct/2023:13:55:36 +0000] \"GET / HTTP/1.1\" 200 512 \"-\" \"curl/8.0\"";
    assert!(parse_record(line).is_none());
}

#[test]
fn huge_byte_count_rejects_record() {
    let line = "10.0.0.1 - - [10/Oct/2023:13:55:36 +0000] \"GET / HTTP/1.1\" 200 99999999999999999999 \"-\" \"-\" \"-\"";
    assert!(parse_record(line).is_none());
}

#[test]
fn ipv6_address_is_accepted() {
    let line = "2001:db8::1 - - [10/Oct/2023:13:55:36 +0000] \"GET / HTTP/1.1\" 200 7 \"-\" \"-\" \"-\"";
    let rec = parse_record(line).expect("parses");
    assert_eq!(rec.remote_addr, b"2001:db8::1".to_vec());
    assert_eq!(rec.body_bytes_sent, 7);
}

#[test]
fn bytes_to_u64_parses_digits() {
    assert_eq!(bytes_to_u64(&b"0".to_vec()), Some(0));
    assert_eq!(bytes_to_u64(&b"512".to_vec()), Some(512));
    assert_eq!(bytes_to_u64(&b"18446744073709551615".to_vec()), Some(u64::MAX));
}

#[test]
fn bytes_to_u64_rejects_empty_and_nondigit() {
    assert_eq!(bytes_to_u64(&b"".to_vec()), None);
    assert_eq!(bytes_to_u64(&b"12a".to_vec()), None);
    assert_eq!(bytes_to_u64(&b"-3".to_vec()), None);
}

#[test]
fn bytes_to_u64_rejects_overflow() {
    assert_eq!(bytes_to_u64(&b"18446744073709551616".to_vec()), None);
    assert_eq!(bytes_to_u64(&b"99999999999999999999999".to_vec()), None);
}
