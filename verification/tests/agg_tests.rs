use logstat::agg::LineParser;

fn line(addr: &str, req: &str, status: &str, bytes: u64) -> String {
    format!(
        "{} - - [10/Oct/2023:13:55:36 +0000] \"{} HTTP/1.1\" {} {} \"-\" \"curl/8.0\" \"-\"",
        addr, req, status, bytes
    )
}

#[test]
fn single_line_updates_totals_and_tables() {
    let mut p = LineParser::new();
    let l = "10.0.0.1 - john [10/Oct/2023:13:55:36 +0000] \"GET /index.html HTTP/1.1\" 200 512 \"-\" \"curl/8.0\" \"-\"";
    assert!(p.parse(l));
    assert_eq!(p.total_lines, 1);
    assert_eq!(p.total_bytes_sent, 512);
    assert_eq!(p.remote_addr_data.get(&b"10.0.0.1".to_vec()), 1);
    assert_eq!(p.remote_user_data.get(&b"john".to_vec()), 1);
    assert_eq!(p.status_data.get(&b"200".to_vec()), 1);
    assert_eq!(p.request_line_data.get(&b"GET /index.html HTTP/1.1".to_vec()), 1);
    assert_eq!(p.http_sent_data.get(&b"GET /index.html HTTP/1.1".to_vec()), 512);
    // a 200 response leaves the bad-status breakdown empty
    assert_eq!(p.http_bad_code_data.len(), 0);
}

#[test]
fn totals_count_only_parsed_lines() {
    let mut p = LineParser::new();
    assert!(p.parse(&line("1.1.1.1", "GET /a", "200", 100)));
    assert!(!p.parse("garbage ###"));
    assert!(p.parse(&line("1.1.1.2", "GET /b", "200", 50)));
    assert_eq!(p.total_lines, 2);
    assert_eq!(p.total_bytes_sent, 150);
}

#[test]
fn unparsed_line_leaves_state_untouched() {
    let mut p = LineParser::new();
    assert!(p.parse(&line("9.9.9.9", "GET /x", "404", 3)));
    let lines_before = p.total_lines;
    let bytes_before = p.total_bytes_sent;
    assert!(!p.parse("[no address here"));
    assert_eq!(p.total_lines, lines_before);
    assert_eq!(p.total_bytes_sent, bytes_before);
    assert_eq!(p.remote_addr_data.get(&b"9.9.9.9".to_vec()), 1);
}

#[test]
fn repeated_keys_accumulate() {
    let mut p = LineParser::new();
    assert!(p.parse(&line("1.2.3.4", "GET /a", "200", 10)));
    assert!(p.parse(&line("1.2.3.4", "GET /a", "200", 30)));
    assert!(p.parse(&line("1.2.3.4", "GET /b", "200", 5)));
    assert_eq!(p.remote_addr_data.get(&b"1.2.3.4".to_vec()), 3);
    assert_eq!(p.request_line_data.get(&b"GET /a HTTP/1.1".to_vec()), 2);
    assert_eq!(p.http_sent_data.get(&b"GET /a HTTP/1.1".to_vec()), 40);
    assert_eq!(p.http_sent_data.get(&b"GET /b HTTP/1.1".to_vec()), 5);
    assert_eq!(p.total_bytes_sent, 45);
}

#[test]
fn bad_status_breakdown_excludes_200() {
    let mut p = LineParser::new();
    assert!(p.parse(&line("1.1.1.1", "GET /ok", "200", 1)));
    assert!(p.parse(&line("1.1.1.1", "GET /a", "404", 1)));
    assert!(p.parse(&line("1.1.1.1", "GET /b", "404", 1)));
    assert!(p.parse(&line("1.1.1.1", "GET /a", "404", 1)));
    assert!(p.parse(&line("1.1.1.1", "GET /a", "500", 1)));
    // "200" never appears as a code in the breakdown
    assert!(p.http_bad_code_data.get(&b"200".to_vec()).is_none());
    // the other status codes all do
    let t404 = p.http_bad_code_data.get(&b"404".to_vec()).expect("404 on record");
    assert_eq!(t404.get(&b"GET /a HTTP/1.1".to_vec()), 2);
    assert_eq!(t404.get(&b"GET /b HTTP/1.1".to_vec()), 1);
    let t500 = p.http_bad_code_data.get(&b"500".to_vec()).expect("500 on record");
    assert_eq!(t500.get(&b"GET /a HTTP/1.1".to_vec()), 1);
    // nested counts sum to the code's total in the status table
    assert_eq!(p.status_data.get(&b"404".to_vec()), 3);
    let mut sum404: u64 = 0;
    for i in 0..t404.len() {
        sum404 += t404.val_at(i);
    }
    assert_eq!(sum404, 3);
    assert_eq!(p.status_data.get(&b"200".to_vec()), 1);
    assert_eq!(p.status_data.get(&b"500".to_vec()), 1);
}

#[test]
fn fresh_parser_is_empty() {
    let p = LineParser::new();
    assert_eq!(p.total_lines, 0);
    assert_eq!(p.total_bytes_sent, 0);
    assert_eq!(p.remote_addr_data.len(), 0);
    assert_eq!(p.http_bad_code_data.len(), 0);
}
