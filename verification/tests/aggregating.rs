use mean_by_key::report;
use mean_by_key::scan_chunk;
use mean_by_key::Aggregate;

fn to_strings(lines: Vec<Vec<u8>>) -> Vec<String> {
    lines.into_iter().map(|l| String::from_utf8(l).unwrap()).collect()
}

#[test]
fn scan_one_chunk() {
    let agg = scan_chunk(b"a;1.0\nb;2.0\na;3.0\n", b';').expect("well-formed chunk");
    let out = to_strings(report(agg));
    assert_eq!(out, vec!["a: 2.00".to_string(), "b: 2.00".to_string()]);
}

#[test]
fn scan_reports_first_bad_record() {
    let e = scan_chunk(b"a;1.0\na;oops\n", b';').unwrap_err();
    assert_eq!(e.record, b"a;oops".to_vec());
}

#[test]
fn merged_halves_match_whole_scan() {
    let whole: &[u8] = b"x;1.0\ny;2.0\nx;3.0\ny;4.0\n";
    let first = scan_chunk(b"x;1.0\ny;2.0\n", b';').unwrap();
    let second = scan_chunk(b"x;3.0\ny;4.0\n", b';').unwrap();
    let mut merged = first;
    assert!(merged.try_merge(&second));
    let direct = scan_chunk(whole, b';').unwrap();
    assert_eq!(to_strings(report(merged)), to_strings(report(direct)));
}

#[test]
fn merge_order_does_not_matter() {
    let a = scan_chunk(b"k;1.0\nm;5.0\n", b';').unwrap();
    let b = scan_chunk(b"k;2.0\n", b';').unwrap();
    let mut ab = scan_chunk(b"k;1.0\nm;5.0\n", b';').unwrap();
    assert!(ab.try_merge(&b));
    let mut ba = scan_chunk(b"k;2.0\n", b';').unwrap();
    assert!(ba.try_merge(&a));
    assert_eq!(to_strings(report(ab)), to_strings(report(ba)));
}

#[test]
fn empty_aggregate_reports_nothing() {
    let agg = Aggregate::new();
    assert_eq!(report(agg).len(), 0);
}

#[test]
fn total_count_of_scan() {
    let agg = scan_chunk(b"a;1.0\nb;2.0\na;3.0\n", b';').unwrap();
    assert_eq!(agg.total_count(), Some(3));
}
