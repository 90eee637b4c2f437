use mean_by_key::run_on_bytes;
use mean_by_key::ParseErrorKind;

fn run_lines(input: &[u8], workers: usize) -> Vec<String> {
    let lines = run_on_bytes(input, workers, b';').expect("run should succeed");
    lines
        .into_iter()
        .map(|l| String::from_utf8(l).expect("output should be text"))
        .collect()
}

#[test]
fn example_three_records() {
    let out = run_lines(b"Hamburg;12.0\nHamburg;14.0\nPalermo;-2.0\n", 1);
    assert_eq!(out, vec!["Hamburg: 13.00".to_string(), "Palermo: -2.00".to_string()]);
}

#[test]
fn empty_input_no_lines() {
    let out = run_on_bytes(b"", 4, b';').expect("empty input is fine");
    assert_eq!(out.len(), 0);
}

#[test]
fn single_record_without_terminator() {
    let out = run_lines(b"A;5.0", 1);
    assert_eq!(out, vec!["A: 5.00".to_string()]);
}

#[test]
fn worker_counts_agree() {
    let input: &[u8] = b"x;1.0\ny;2.5\nx;2.0\nz;-3.5\ny;0.5\nz;0.0\nx;3.0\n";
    let one = run_lines(input, 1);
    let four = run_lines(input, 4);
    let many = run_lines(input, 25);
    assert_eq!(one, four);
    assert_eq!(one, many);
}

#[test]
fn means_are_exact_across_workers() {
    let input: &[u8] = b"a;1.0\na;2.0\na;4.0\nb;10.0\n";
    for workers in [1usize, 2, 3, 8] {
        let out = run_lines(input, workers);
        assert_eq!(out, vec!["a: 2.33".to_string(), "b: 10.00".to_string()]);
    }
}

#[test]
fn malformed_value_fails_run() {
    let e = run_on_bytes(b"Station;notanumber\nA;1.0\n", 2, b';').unwrap_err();
    assert_eq!(e.kind, ParseErrorKind::BadNumber);
    assert_eq!(e.record, b"Station;notanumber".to_vec());
}

#[test]
fn missing_delimiter_fails_run() {
    let e = run_on_bytes(b"abc\n", 1, b';').unwrap_err();
    assert_eq!(e.kind, ParseErrorKind::MissingDelimiter);
    assert_eq!(e.record, b"abc".to_vec());
}

#[test]
fn first_bad_record_reported() {
    let e = run_on_bytes(b"A;1.0\nbad\nB;2.0\nB;zz\n", 1, b';').unwrap_err();
    assert_eq!(e.kind, ParseErrorKind::MissingDelimiter);
    assert_eq!(e.record, b"bad".to_vec());
}

#[test]
fn empty_line_is_malformed() {
    let e = run_on_bytes(b"A;1.0\n\nB;2.0\n", 1, b';').unwrap_err();
    assert_eq!(e.kind, ParseErrorKind::MissingDelimiter);
    assert_eq!(e.record, b"".to_vec());
}

#[test]
fn keys_sorted_in_output() {
    let out = run_lines(b"pear;1.0\napple;2.0\nmango;3.0\napple;4.0\n", 2);
    assert_eq!(
        out,
        vec!["apple: 3.00".to_string(), "mango: 3.00".to_string(), "pear: 1.00".to_string()],
    );
}

#[test]
fn rounding_half_away_from_zero() {
    let up = run_lines(b"A;0.01\nA;0.02\n", 1);
    assert_eq!(up, vec!["A: 0.02".to_string()]);
    let down = run_lines(b"A;-0.01\nA;-0.02\n", 1);
    assert_eq!(down, vec!["A: -0.02".to_string()]);
}

#[test]
fn negative_mean_formatting() {
    let out = run_lines(b"Palermo;-2.0\n", 1);
    assert_eq!(out, vec!["Palermo: -2.00".to_string()]);
}

#[test]
fn other_delimiter_byte() {
    let out = run_on_bytes(b"k,3.0\nk,4.0\n", 1, b',').expect("comma-delimited input");
    assert_eq!(out[0], b"k: 3.50".to_vec());
}
