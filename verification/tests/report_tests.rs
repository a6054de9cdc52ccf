use logstat::agg::LineParser;
use logstat::report::{byte_format, lex_le_bytes, sort_by_key, sort_by_value, InfoPrinter};
use logstat::table::{bytes_eq, clone_key, Table};

#[test]
fn byte_format_small_counts_stay_raw() {
    assert_eq!(byte_format(0), "0 B");
    assert_eq!(byte_format(1), "1 B");
    assert_eq!(byte_format(1023), "1023 B");
    assert_eq!(byte_format(1024), "1024 B");
}

#[test]
fn byte_format_scales_by_1024() {
    assert_eq!(byte_format(1025), "1.00 KB");
    assert_eq!(byte_format(1536), "1.50 KB");
    assert_eq!(byte_format(1048576), "1.00 MB");
    assert_eq!(byte_format(10 * 1024 * 1024 * 1024), "10.00 GB");
}

#[test]
fn byte_format_rounds_and_carries() {
    // 1048575 / 1024 is 1023.999..., which rounds up into the next integer
    assert_eq!(byte_format(1048575), "1024.00 KB");
    // 1127 / 1024 is 1.1005...: half a hundredth rounds up
    assert_eq!(byte_format(1127), "1.10 KB");
}

#[test]
fn byte_format_reaches_large_units() {
    assert_eq!(byte_format(1u64 << 40), "1.00 TB");
    assert_eq!(byte_format(1u64 << 50), "1.00 PB");
    assert_eq!(byte_format(1u64 << 60), "1.00 EB");
    assert_eq!(byte_format(u64::MAX), "16.00 EB");
}

#[test]
fn sort_by_value_ranks_descending() {
    let mut t = Table::new();
    t.add(b"a".to_vec(), 3);
    t.add(b"b".to_vec(), 5);
    t.add(b"c".to_vec(), 1);
    let v = sort_by_value(&t);
    assert_eq!(v.len(), 3);
    assert_eq!(v[0], (b"b".to_vec(), 5));
    assert_eq!(v[1], (b"a".to_vec(), 3));
    assert_eq!(v[2], (b"c".to_vec(), 1));
}

#[test]
fn sort_by_value_keeps_tied_rows_in_table_order() {
    let mut t = Table::new();
    t.add(b"x".to_vec(), 2);
    t.add(b"y".to_vec(), 2);
    t.add(b"z".to_vec(), 7);
    let v = sort_by_value(&t);
    assert_eq!(v[0].0, b"z".to_vec());
    assert_eq!(v[1].0, b"x".to_vec());
    assert_eq!(v[2].0, b"y".to_vec());
}

#[test]
fn sort_by_key_ranks_ascending_lexically() {
    let mut t = Table::new();
    t.add(b"500".to_vec(), 1);
    t.add(b"404".to_vec(), 9);
    t.add(b"403".to_vec(), 2);
    let v = sort_by_key(&t);
    assert_eq!(v[0].0, b"403".to_vec());
    assert_eq!(v[1].0, b"404".to_vec());
    assert_eq!(v[2].0, b"500".to_vec());
}

#[test]
fn lex_le_bytes_orders_by_first_difference() {
    assert!(lex_le_bytes(&b"abc".to_vec(), &b"abd".to_vec()));
    assert!(!lex_le_bytes(&b"abd".to_vec(), &b"abc".to_vec()));
    assert!(lex_le_bytes(&b"ab".to_vec(), &b"abc".to_vec()));
    assert!(!lex_le_bytes(&b"abc".to_vec(), &b"ab".to_vec()));
    assert!(lex_le_bytes(&b"".to_vec(), &b"a".to_vec()));
    assert!(lex_le_bytes(&b"same".to_vec(), &b"same".to_vec()));
}

#[test]
fn info_printer_clamps_terminal_width() {
    let p = InfoPrinter::new(LineParser::new(), 80);
    assert_eq!(p.limit, 100);
    assert_eq!(p.terminal_width, 80);
    let narrow = InfoPrinter::new(LineParser::new(), 5);
    assert_eq!(narrow.terminal_width, 100);
    let wide = InfoPrinter::new(LineParser::new(), 20000);
    assert_eq!(wide.terminal_width, 100);
    let edge = InfoPrinter::new(LineParser::new(), 20);
    assert_eq!(edge.terminal_width, 20);
}

#[test]
fn table_get_and_helpers_work() {
    let mut t = Table::new();
    t.add(b"k".to_vec(), 4);
    t.add(b"k".to_vec(), 2);
    assert_eq!(t.get(&b"k".to_vec()), 6);
    assert_eq!(t.get(&b"absent".to_vec()), 0);
    assert!(bytes_eq(&b"k".to_vec(), &b"k".to_vec()));
    assert!(!bytes_eq(&b"k".to_vec(), &b"kk".to_vec()));
    assert_eq!(clone_key(&b"key".to_vec()), b"key".to_vec());
}
