use detecta_fraude::evaluation::{
    count_below, is_approved, is_heavy, label_rows, labelled_requests, percentile, split_vector,
    Endings, Tally, TestDataError, Times,
};
use detecta_fraude::index::stats::QueryStats;
use detecta_fraude::parse::parse_payload;
use detecta_fraude::references::{
    count_fraud, find, find_byte, load_references, parse_float_array, parse_references,
    ReferenceError,
};
use flate2::write::GzEncoder;
use flate2::Compression;
use std::io::Write;

fn numbers(text: &[u8], places: &[(usize, usize)]) -> Vec<f64> {
    places
        .iter()
        .map(|&(a, b)| std::str::from_utf8(&text[a..b]).unwrap().parse().unwrap())
        .collect()
}

const TWO: &[u8] = br#"[{"vector": [0.1, 0.2,0.3, 1e-1, -1, +2,0,0,0,0,0,0,0,0.5], "label": "fraud"},
 {"vector":[1,1,1,1,1,1,1,1,1,1,1,1,1,1],"label":"legit","more":{"a":[1]}}]"#;

#[test]
fn references_are_read() {
    let list = parse_references(TWO).unwrap();
    assert_eq!(list.len(), 2);
    assert_eq!(
        numbers(TWO, &list[0].numbers),
        vec![0.1, 0.2, 0.3, 0.1, -1.0, 2.0, 0.0, 0.0, 0.0, 0.0, 0.0, 0.0, 0.0, 0.5]
    );
    assert_eq!(list[0].label, 1);
    assert_eq!(list[1].label, 0);
    assert_eq!(numbers(TWO, &list[1].numbers), vec![1.0; 14]);
    assert_eq!(count_fraud(&list), 1);
    assert_eq!(parse_references(b"[]").unwrap().len(), 0);
}

#[test]
fn damaged_references_are_refused() {
    let good = "[1,1,1,1,1,1,1,1,1,1,1,1,1,1]";
    let error = |s: String| parse_references(s.as_bytes()).err().unwrap();
    assert_eq!(error("{}".into()), ReferenceError::VectorKey);
    assert_eq!(error("{\"vector\":1}".into()), ReferenceError::VectorBracket);
    assert_eq!(error("{\"vector\":[1,x]}".into()), ReferenceError::Number);
    assert_eq!(error("{\"vector\":[1,2".into()), ReferenceError::Number);
    assert_eq!(error("{\"vector\":[1,2]}".into()), ReferenceError::Dimensions(2));
    assert_eq!(error(format!("{{\"vector\":{good}}}")), ReferenceError::LabelKey);
    assert_eq!(error(format!("{{\"vector\":{good},\"label\":1}}")), ReferenceError::LabelQuote);
    assert_eq!(error(format!("{{\"vector\":{good},\"label\":\"a}}")), ReferenceError::LabelEnd);
}

#[test]
fn packed_references_are_unpacked() {
    let mut e = GzEncoder::new(Vec::new(), Compression::default());
    e.write_all(TWO).unwrap();
    let packed = e.finish().unwrap();
    assert_ne!(packed, TWO);
    let (text, list) = load_references(&packed).unwrap();
    assert_eq!(text, TWO);
    assert_eq!(list.len(), 2);
    assert_eq!(load_references(TWO).err(), Some(ReferenceError::Unpack));
    let mut e = GzEncoder::new(Vec::new(), Compression::default());
    e.write_all(b"{").unwrap();
    let packed = e.finish().unwrap();
    assert_eq!(load_references(&packed).err(), Some(ReferenceError::VectorKey));
}

#[test]
fn words_and_bytes_are_found() {
    assert_eq!(find(b"abcabc", 0, b"bc"), Some(1));
    assert_eq!(find(b"abcabc", 2, b"bc"), Some(4));
    assert_eq!(find(b"abcabc", 5, b"bc"), None);
    assert_eq!(find(b"abc", 0, b""), None);
    assert_eq!(find(b"abc", 9, b"a"), None);
    assert_eq!(find_byte(b"abca", 1, b'a'), Some(3));
    assert_eq!(find_byte(b"abca", 4, b'a'), None);
    assert_eq!(parse_float_array(b" 1 ,2.5 ] x", 0), Some((vec![(1, 2), (4, 7)], 9)));
    assert_eq!(parse_float_array(b"]", 0), Some((vec![], 1)));
    assert_eq!(parse_float_array(b"1,a]", 0), None);
}

#[test]
fn labelled_requests_are_read() {
    let doc = br#"{"entries":[
        {"request":{"transaction":{"installments":4}},"expected_approved":true},
        {"request":{"id":"x"},"expected_approved":false}]}"#;
    let list = labelled_requests(doc).unwrap();
    assert_eq!(list.len(), 2);
    assert_eq!(list[0].request, br#"{"transaction":{"installments":4}}"#);
    assert!(list[0].expected_approved);
    assert!(!list[1].expected_approved);
    assert_eq!(parse_payload(&list[0].request).unwrap().installments, 4);
    assert_eq!(labelled_requests(b"{").err(), Some(TestDataError::Entries));
    assert_eq!(labelled_requests(b"{}").err(), Some(TestDataError::Entries));
    assert_eq!(
        labelled_requests(br#"{"entries":[{"request":1}]}"#).err(),
        Some(TestDataError::Expected)
    );
}

#[test]
fn rows_become_labelled_requests() {
    let rows = vec![(b"a".to_vec(), Some(true)), (b"b".to_vec(), Some(false))];
    let list = label_rows(rows).unwrap();
    assert_eq!(list[1].request, b"b");
    assert!(!list[1].expected_approved);
    let rows = vec![(b"a".to_vec(), Some(true)), (b"b".to_vec(), None)];
    assert_eq!(label_rows(rows).err(), Some(TestDataError::Expected));
}

#[test]
fn answers_are_tallied() {
    let mut t = Tally::new();
    t.record(true, true);
    t.record(true, true);
    t.record(false, false);
    t.record(true, false);
    t.record(false, true);
    assert_eq!(t, Tally { tp: 1, tn: 2, fp: 1, fn_: 1 });
    assert_eq!(t.failures(), 2);
    for count in 0..6u8 {
        assert_eq!(is_approved(count), (count as f32 / 5.0) < 0.6);
    }
}

#[test]
fn endings_are_tallied() {
    let mut e = Endings::new();
    let mut s = QueryStats::default();
    e.record(&s);
    s.early_hit = true;
    e.record(&s);
    s.primary_hit = true;
    e.record(&s);
    assert_eq!(e, Endings { primary: 1, early: 1, full: 1 });
}

#[test]
fn percentiles_agree_with_real_arithmetic() {
    for n in 1..400usize {
        let s: Vec<u64> = (0..n as u64).map(|i| i * 3).collect();
        for (p, permille) in [(50.0f64, 500u64), (90.0, 900), (99.0, 990), (99.9, 999), (100.0, 1000)] {
            let i = ((p / 100.0) * (n as f64 - 1.0)).round() as usize;
            assert_eq!(percentile(&s, permille), s[i.min(n - 1)]);
        }
    }
    assert_eq!(percentile(&[], 500), 0);
}

#[test]
fn ranks_agree_with_real_arithmetic() {
    let s = [1u64, 2, 2, 3, 5, 8, 8, 8, 9, 10];
    for v in 0..12u64 {
        assert_eq!(count_below(&s, v), s.iter().filter(|&&x| x < v).count());
    }
    for n in 0..60usize {
        for below in 0..=n {
            let rank = if n == 0 { 0.0 } else { 100.0 * below as f64 / n as f64 };
            assert_eq!(is_heavy(below, n), rank >= 90.0);
        }
    }
}

#[test]
fn times_keep_their_extremes() {
    let mut t = Times::new();
    for ns in [7, 3, 9, 5] {
        t.record(ns);
    }
    assert_eq!(t, Times { min_ns: 3, max_ns: 9 });
}

#[test]
fn vectors_are_split() {
    let line = b"1,2 3\t4;5, 6,7,8,9,10,11,12,13,-0.5,15";
    let places = split_vector(line).unwrap();
    assert_eq!(
        numbers(line, &places),
        vec![1.0, 2.0, 3.0, 4.0, 5.0, 6.0, 7.0, 8.0, 9.0, 10.0, 11.0, 12.0, 13.0, -0.5]
    );
    assert_eq!(split_vector(b"1,2,3"), None);
    assert_eq!(split_vector(b" ,;"), None);
}
