use mean_by_key::find_next_newline;
use mean_by_key::plan_chunks;

#[test]
fn newline_found_from_start() {
    assert_eq!(find_next_newline(b"ab\ncd", 0), 2);
    assert_eq!(find_next_newline(b"ab\ncd", 2), 2);
}

#[test]
fn newline_absent_gives_last_index() {
    assert_eq!(find_next_newline(b"ab\ncd", 3), 4);
    assert_eq!(find_next_newline(b"abc", 0), 2);
    assert_eq!(find_next_newline(b"abc", 17), 2);
}

fn check_partition(data: &[u8], n: usize) {
    let chunks = plan_chunks(data, n);
    assert!(chunks.len() <= n);
    assert_eq!(chunks.is_empty(), data.is_empty());
    if !chunks.is_empty() {
        assert_eq!(chunks[0].start, 0);
        assert_eq!(chunks[chunks.len() - 1].end, data.len());
    }
    for (i, c) in chunks.iter().enumerate() {
        assert!(c.start < c.end && c.end <= data.len());
        if i > 0 {
            assert_eq!(c.start, chunks[i - 1].end);
        }
        assert!(c.end == data.len() || data[c.end - 1] == b'\n');
    }
}

#[test]
fn partition_covers_and_aligns() {
    check_partition(b"aa;1.0\nbb;2.0\ncc;3.0\n", 3);
    check_partition(b"aa;1.0\nbb;2.0\ncc;3.0", 2);
    check_partition(b"a;1\n", 25);
    check_partition(b"", 4);
    check_partition(b"one long line without terminator", 5);
    check_partition(b"\n\n\n\n\n", 2);
}

#[test]
fn single_worker_single_chunk() {
    let data = b"aa;1.0\nbb;2.0\n";
    let chunks = plan_chunks(data, 1);
    assert_eq!(chunks.len(), 1);
    assert_eq!(chunks[0].start, 0);
    assert_eq!(chunks[0].end, data.len());
}
