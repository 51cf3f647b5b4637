use rust_billion_row_challenge::{
    format_report, is_value, merge_all, merge_into, parse_i32, parse_scaled, process_batch, report,
    sorted_entries, split_line, BatchError, ChunkReader, Data, Table,
};

fn table_of(batch: &[u8]) -> Table {
    match process_batch(batch) {
        Ok(t) => t,
        Err(e) => panic!("batch refused: {:?}", e),
    }
}

fn report_of(batches: Vec<&[u8]>) -> String {
    let tables: Vec<Table> = batches.into_iter().map(table_of).collect();
    let master = merge_all(tables).expect("merge");
    String::from_utf8(report(master)).expect("utf-8 report")
}

#[test]
fn test_parse_i32() {
    assert_eq!(parse_i32("-12.3"), -123);
    assert_eq!(parse_i32("12.3"), 123);
    assert_eq!(parse_i32("-1.3"), -13);
    assert_eq!(parse_i32("2.3"), 23);
    assert_eq!(parse_i32("-0.3"), -3);
    assert_eq!(parse_i32("0.3"), 3);
}

#[test]
fn decoder_examples() {
    assert_eq!(parse_i32("-2.5"), -25);
    assert_eq!(parse_i32("0.3"), 3);
    assert_eq!(parse_i32("12.3"), 123);
    assert_eq!(parse_i32("99.9"), 999);
    assert_eq!(parse_i32("100000.0"), 1_000_000);
    assert_eq!(parse_scaled(b"-99999999.9"), -999_999_999);
    assert_eq!(parse_scaled(b"0.0"), 0);
}

#[test]
fn decoder_agrees_with_float_parsing() {
    for text in ["-2.5", "0.3", "12.3", "-0.1", "45.6", "-99.9", "7.0", "1234.5"] {
        let expected = (text.parse::<f64>().unwrap() * 10.0).round() as i32;
        assert_eq!(parse_i32(text), expected, "{}", text);
    }
}

#[test]
fn value_shape() {
    assert!(is_value(b"1.0"));
    assert!(is_value(b"-12.3"));
    assert!(!is_value(b"1"));
    assert!(!is_value(b"1.23"));
    assert!(!is_value(b".5"));
    assert!(!is_value(b"-.5"));
    assert!(!is_value(b"1a.5"));
    assert!(!is_value(b"--1.5"));
    assert!(!is_value(b""));
    assert!(!is_value(b"1234567890.1"));
}

#[test]
fn split_at_last_delimiter() {
    assert_eq!(split_line(b"Oslo;4.5"), Some((&b"Oslo"[..], &b"4.5"[..])));
    assert_eq!(split_line(b"a;b;1.0"), Some((&b"a;b"[..], &b"1.0"[..])));
    assert_eq!(split_line(b";1.0"), Some((&b""[..], &b"1.0"[..])));
    assert_eq!(split_line(b"no delimiter"), None);
    assert_eq!(split_line(b""), None);
}

#[test]
fn end_to_end_scenario() {
    let out = report_of(vec![b"A;1.0\nB;-2.5\nA;3.0\n"]);
    assert_eq!(out, "{A=1.0/2.0/3.0, B=-2.5/-2.5/-2.5}\n");
}

#[test]
fn batch_boundaries_do_not_matter() {
    let whole = report_of(vec![b"x;1.0\ny;2.0\nx;-3.5\ny;0.5\nz;9.9\n"]);
    let split = report_of(vec![b"x;1.0\ny;2.0\n", b"x;-3.5\n", b"y;0.5\nz;9.9\n"]);
    let reordered = report_of(vec![b"y;0.5\nz;9.9\n", b"x;-3.5\n", b"x;1.0\ny;2.0\n"]);
    assert_eq!(whole, split);
    assert_eq!(whole, reordered);
    assert_eq!(whole, "{x=-3.5/-1.2/1.0, y=0.5/1.3/2.0, z=9.9/9.9/9.9}\n");
}

#[test]
fn union_is_associative_and_commutative() {
    let mut a = Data::new(10);
    a.update(-5);
    let mut b = Data::new(30);
    b.update(7);
    let c = Data::new(-40);

    let mut ab_c = a;
    ab_c.union(&b);
    ab_c.union(&c);
    let mut bc = b;
    bc.union(&c);
    let mut a_bc = a;
    a_bc.union(&bc);
    let mut ac_b = a;
    ac_b.union(&c);
    ac_b.union(&b);
    for d in [a_bc, ac_b] {
        assert_eq!(d.sum(), ab_c.sum());
        assert_eq!(d.count(), ab_c.count());
        assert_eq!(d.min(), ab_c.min());
        assert_eq!(d.max(), ab_c.max());
    }
    assert_eq!(ab_c.sum(), 2);
    assert_eq!(ab_c.count(), 5);
    assert_eq!(ab_c.min(), -40);
    assert_eq!(ab_c.max(), 30);
}

#[test]
fn update_tracks_min_and_max() {
    let mut d = Data::new(5);
    d.update(3);
    d.update(8);
    d.update(-2);
    assert_eq!(d.min(), -2);
    assert_eq!(d.max(), 8);
    assert_eq!(d.sum(), 14);
    assert_eq!(d.count(), 4);
}

#[test]
fn min_max_over_whole_input() {
    let t1 = table_of(b"k;5.0\nk;-1.5\nj;0.0\n");
    let t2 = table_of(b"k;7.5\nk;2.0\n");
    let master = merge_all(vec![t1, t2]).unwrap();
    let entries = sorted_entries(master);
    assert_eq!(entries.len(), 2);
    assert_eq!(entries[1].0, b"k".to_vec());
    assert_eq!(entries[1].1.min(), -15);
    assert_eq!(entries[1].1.max(), 75);
    assert_eq!(entries[1].1.count(), 4);
    assert_eq!(entries[1].1.sum(), 130);
}

#[test]
fn keys_come_out_sorted_by_bytes() {
    let t = table_of("b;1.0\nZ;1.0\na;1.0\nab;1.0\nÅ;1.0\na;2.0\n\u{e9};1.0\n".as_bytes());
    let entries = sorted_entries(t);
    let keys: Vec<Vec<u8>> = entries.iter().map(|e| e.0.clone()).collect();
    let mut expected = keys.clone();
    expected.sort();
    expected.dedup();
    assert_eq!(keys, expected);
    assert_eq!(keys.len(), 6);
    assert_eq!(keys[0], b"Z".to_vec());
}

#[test]
fn repeated_key_accumulates_in_one_entry() {
    let t = table_of(b"s;1.0\ns;2.0\ns;3.0\n");
    let entries = sorted_entries(t);
    assert_eq!(entries.len(), 1);
    assert_eq!(entries[0].1.count(), 3);
    assert_eq!(entries[0].1.sum(), 60);
}

#[test]
fn mean_rounds_halves_up() {
    assert_eq!(report_of(vec![b"m;0.1\nm;0.2\n"]), "{m=0.1/0.2/0.2}\n");
    assert_eq!(report_of(vec![b"n;-0.1\nn;-0.2\n"]), "{n=-0.2/-0.1/-0.1}\n");
    assert_eq!(report_of(vec![b"p;-0.3\n"]), "{p=-0.3/-0.3/-0.3}\n");
    assert_eq!(report_of(vec![b"q;10.0\nq;0.0\nq;0.0\n"]), "{q=0.0/3.3/10.0}\n");
}

#[test]
fn empty_report() {
    let master = merge_all(Vec::new()).unwrap();
    assert_eq!(report(master), b"{}\n".to_vec());
    assert_eq!(format_report(&Vec::new()), b"{}\n".to_vec());
}

#[test]
fn last_line_without_newline() {
    let out = report_of(vec![b"A;1.0\nB;2.0"]);
    assert_eq!(out, "{A=1.0/1.0/1.0, B=2.0/2.0/2.0}\n");
}

#[test]
fn missing_delimiter_is_fatal() {
    assert!(matches!(process_batch(b"A;1.0\nbroken line\nB;2.0\n"), Err(BatchError::MissingDelimiter)));
    assert!(matches!(process_batch(b"\n"), Err(BatchError::MissingDelimiter)));
}

#[test]
fn malformed_value_is_fatal() {
    assert!(matches!(process_batch(b"A;1.0\nB;2.05\n"), Err(BatchError::MalformedValue)));
    assert!(matches!(process_batch(b"A;x.0\n"), Err(BatchError::MalformedValue)));
}

#[test]
fn first_bad_line_decides_the_error() {
    assert!(matches!(process_batch(b"A;1\nno delimiter\n"), Err(BatchError::MalformedValue)));
    assert!(matches!(process_batch(b"no delimiter\nA;1\n"), Err(BatchError::MissingDelimiter)));
}

#[test]
fn merge_into_combines_shared_keys() {
    let mut master = table_of(b"a;1.0\nb;2.0\n");
    let local = table_of(b"b;-4.0\nc;3.0\n");
    assert!(merge_into(&mut master, local).is_ok());
    let out = String::from_utf8(report(master)).unwrap();
    assert_eq!(out, "{a=1.0/1.0/1.0, b=-4.0/-1.0/2.0, c=3.0/3.0/3.0}\n");
}

#[test]
fn reader_splits_after_last_newline() {
    let mut r = ChunkReader::new();
    assert_eq!(r.feed(b"A;1.0\nB;2"), Some(b"A;1.0\n".to_vec()));
    assert_eq!(r.feed(b".0\nC;3.0\nD"), Some(b"B;2.0\nC;3.0\n".to_vec()));
    assert_eq!(r.feed(b";4"), None);
    assert_eq!(r.finish(), Some(b"D;4".to_vec()));
    assert_eq!(r.finish(), None);
}

#[test]
fn reader_keeps_multibyte_character_whole() {
    let text = "Zürich;1.5\nZürich;2.5\n";
    let bytes = text.as_bytes();
    // cut in the middle of the second 'ü' (two bytes in UTF-8)
    let cut = text.rfind('ü').unwrap() + 1;
    assert!(!text.is_char_boundary(cut));
    let mut r = ChunkReader::new();
    let first = r.feed(&bytes[..cut]).unwrap();
    assert_eq!(first, "Zürich;1.5\n".as_bytes().to_vec());
    assert!(std::str::from_utf8(&first).is_ok());
    assert_eq!(r.feed(&bytes[cut..]), Some("Zürich;2.5\n".as_bytes().to_vec()));
    assert_eq!(r.finish(), None);
    let out = report_of(vec![&first[..], "Zürich;2.5\n".as_bytes()]);
    assert_eq!(out, "{Zürich=1.5/2.0/2.5}\n");
    assert_eq!(out, report_of(vec![bytes]));
}

#[test]
fn reader_holds_a_piece_without_newline() {
    let mut r = ChunkReader::new();
    assert_eq!(r.feed(b"long key without end"), None);
    assert_eq!(r.feed(b";1.0\n"), Some(b"long key without end;1.0\n".to_vec()));
    assert_eq!(r.feed(b""), None);
    assert_eq!(r.finish(), None);
}
