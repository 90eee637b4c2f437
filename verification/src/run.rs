//! The run: workers scanning chunks into aggregates, the merge barrier, and
//! the whole pipeline over one byte view.

use vstd::prelude::*;
use vstd::slice::slice_index_get;
use vstd::slice::slice_subrange;
use vstd::slice::slice_to_vec;
use crate::agg::Aggregate;
use crate::agg::agg_of;
use crate::agg::lemma_agg_of_append;
use crate::chunks::plan_chunks;
use crate::parse::cheat_split_once;
use crate::parse::parse_number;
use crate::records::NL;
use crate::records::all_records_ok;
use crate::records::delim_pos;
use crate::records::first_nl_from;
use crate::records::is_record;
use crate::records::lemma_first_nl_from;
use crate::records::lemma_split_lines_cut;
use crate::records::lemma_split_lines_len;
use crate::records::lemma_split_lines_line;
use crate::records::lemma_split_lines_single;
use crate::records::rec_key;
use crate::records::rec_val;
use crate::records::split_lines;
use crate::report::lines_match;
use crate::report::report;

verus! {

/// Why a record was refused.
#[derive(Clone, Copy, PartialEq, Eq, Structural, Debug)]
pub enum ParseErrorKind {
    /// No delimiter with a nonempty key before it.
    MissingDelimiter,
    /// The value field is not an in-range fixed-point number.
    BadNumber,
}

/// A refused record: the run stops, reports it, and emits no output.
#[derive(Debug)]
pub struct ParseError {
    pub kind: ParseErrorKind,
    pub record: Vec<u8>,
}

/// The error a malformed record deserves.
pub open spec fn record_error_kind(r: Seq<u8>, d: u8) -> ParseErrorKind {
    if delim_pos(r, d) < 1 {
        ParseErrorKind::MissingDelimiter
    } else {
        ParseErrorKind::BadNumber
    }
}

/// The failure `e` reports exactly the first malformed record of `rs`.
pub open spec fn reports_first_bad(e: ParseError, rs: Seq<Seq<u8>>, d: u8) -> bool {
    exists|i: int|
        #![auto]
        0 <= i < rs.len() && !is_record(rs[i], d) && (forall|j: int|
            0 <= j < i ==> is_record(rs[j], d)) && e.record@ == rs[i] && e.kind
            == record_error_kind(rs[i], d)
}

/// Index of the first line terminator at or after `from`, or the slice's
/// length when none follows.
fn find_line_end(data: &[u8], from: usize) -> (j: usize)
    requires
        from <= data@.len(),
    ensures
        j as int == first_nl_from(data@, from as int),
        from <= j <= data@.len(),
        j < data@.len() ==> data@[j as int] == NL,
        forall|k: int| from <= k < j ==> data@[k] != NL,
{
    let n = data.len();
    let mut i: usize = from;
    while i < n
        invariant
            from <= i <= n,
            n == data@.len(),
            forall|k: int| from <= k < i ==> data@[k] != NL,
        decreases n - i,
    {
        if *slice_index_get(data, i) == NL {
            proof {
                lemma_first_nl_from(data@, from as int);
                let f = first_nl_from(data@, from as int);
                if f < i {
                    assert(data@[f] != NL);
                }
                if f > i {
                    assert(data@[i as int] != NL);
                }
            }
            return i;
        }
        i = i + 1;
    }
    proof {
        lemma_first_nl_from(data@, from as int);
        let f = first_nl_from(data@, from as int);
        if f < n {
            assert(data@[f] != NL);
        }
    }
    n
}

/// The record sequence grows by exactly the record `[pos, j)` when the scan
/// steps over it and its terminator, if it has one.
proof fn lemma_scan_step(data: Seq<u8>, pos: int, j: int)
    requires
        0 <= pos <= j <= data.len(),
        pos < data.len(),
        pos == 0 || data[pos - 1] == NL,
        j == first_nl_from(data, pos),
        forall|k: int| pos <= k < j ==> data[k] != NL,
        j < data.len() ==> data[j] == NL,
    ensures
        ({
            let np = if j < data.len() {
                j + 1
            } else {
                data.len() as int
            };
            split_lines(data.take(np)) == split_lines(data.take(pos)) + seq![
                data.subrange(pos, j),
            ]
        }),
        split_lines(data.skip(pos)) == seq![data.subrange(pos, j)] + split_lines(
            if j < data.len() {
                data.skip(j + 1)
            } else {
                Seq::<u8>::empty()
            },
        ),
{
    let r = data.subrange(pos, j);
    assert(forall|k: int| 0 <= k < r.len() ==> r[k] == data[pos + k] && r[k] != NL);
    if j < data.len() {
        let np = j + 1;
        lemma_split_lines_cut(data.take(np), pos);
        assert(data.take(np).take(pos) =~= data.take(pos));
        assert(data.take(np).skip(pos) =~= r + seq![NL]);
        lemma_split_lines_line(r);
        // the rest after the cut, for the whole input
        lemma_split_lines_cut(data.skip(pos), r.len() as int + 1);
        assert(data.skip(pos).take(r.len() as int + 1) =~= r + seq![NL]);
        assert(data.skip(pos).skip(r.len() as int + 1) =~= data.skip(j + 1));
    } else {
        let np = data.len() as int;
        lemma_split_lines_cut(data.take(np), pos);
        assert(data.take(np).take(pos) =~= data.take(pos));
        assert(data.take(np).skip(pos) =~= r);
        assert(r.len() > 0);
        lemma_split_lines_single(r);
        assert(data.skip(pos) =~= r);
        assert(split_lines(Seq::<u8>::empty()) =~= Seq::<Seq<u8>>::empty());
        assert(seq![r] + Seq::<Seq<u8>>::empty() =~= seq![r]);
    }
}

/// When everything before `pos` was accepted and the record starting at
/// `pos` is refused, the failure reports the first malformed record of the
/// whole input.
proof fn lemma_scan_first_bad(data: Seq<u8>, pos: int, e: ParseError, d: u8)
    requires
        0 <= pos < data.len(),
        pos == 0 || data[pos - 1] == NL,
        all_records_ok(split_lines(data.take(pos)), d),
        e.record@ == data.subrange(pos, first_nl_from(data, pos)),
        !is_record(e.record@, d),
        e.kind == record_error_kind(e.record@, d),
    ensures
        !all_records_ok(split_lines(data), d),
        reports_first_bad(e, split_lines(data), d),
{
    let j = first_nl_from(data, pos);
    lemma_first_nl_from(data, pos);
    lemma_scan_step(data, pos, j);
    let rseq = data.subrange(pos, j);
    let rs_pre = split_lines(data.take(pos));
    lemma_split_lines_cut(data, pos);
    let rs_all = split_lines(data);
    let rest = split_lines(data.skip(pos));
    assert(rs_all == rs_pre + rest);
    assert(rest[0] == rseq);
    let bad = rs_pre.len() as int;
    assert(rs_all[bad] == rseq);
    assert(forall|k: int| 0 <= k < bad ==> rs_all[k] == rs_pre[k]);
    assert(0 <= bad < rs_all.len() && !is_record(rs_all[bad], d) && (forall|k: int|
        0 <= k < bad ==> is_record(rs_all[k], d)) && e.record@ == rs_all[bad] && e.kind
        == record_error_kind(rs_all[bad], d));
    assert(reports_first_bad(e, rs_all, d));
}

/// Splitting the input at a line-aligned cut and merging the two sides'
/// aggregates yields the whole input's aggregate: one worker or many, over
/// any line-aligned chunking, the merged result is the same.
pub proof fn lemma_aligned_cut_agg(s: Seq<u8>, c: int, d: u8)
    requires
        0 <= c <= s.len(),
        c == 0 || s[c - 1] == NL,
    ensures
        agg_of(split_lines(s), d) == crate::agg::merge_maps(
            agg_of(split_lines(s.take(c)), d),
            agg_of(split_lines(s.skip(c)), d),
        ),
{
    lemma_split_lines_cut(s, c);
    lemma_agg_of_append(split_lines(s.take(c)), split_lines(s.skip(c)), d);
}

/// For every key, the aggregate of a whole input holds exactly the number
/// of its records carrying that key and the sum of their values.
pub proof fn lemma_global_counts(s: Seq<u8>, d: u8, k: Seq<u8>)
    ensures
        agg_of(split_lines(s), d).dom().contains(k) <==> crate::agg::key_count(
            split_lines(s),
            d,
            k,
        ) >= 1,
        agg_of(split_lines(s), d).dom().contains(k) ==> agg_of(split_lines(s), d)[k] == (
            crate::agg::key_sum(split_lines(s), d, k),
            crate::agg::key_count(split_lines(s), d, k),
        ),
{
    crate::agg::lemma_agg_of_counts(split_lines(s), d, k);
}

/// Scans one chunk: splits it into records at line terminators, splits each
/// record at its rightmost delimiter, parses the value, and accumulates a
/// per-key aggregate. The first malformed record fails the whole scan.
pub fn scan_chunk(data: &[u8], delimiter: u8) -> (r: Result<Aggregate, ParseError>)
    ensures
        match r {
            Ok(agg) => {
                &&& agg.wf()
                &&& all_records_ok(split_lines(data@), delimiter)
                &&& agg@ == agg_of(split_lines(data@), delimiter)
                &&& agg.total() == split_lines(data@).len()
                &&& agg.total() <= data@.len()
            },
            Err(e) => {
                &&& !all_records_ok(split_lines(data@), delimiter)
                &&& reports_first_bad(e, split_lines(data@), delimiter)
            },
        },
{
    let n = data.len();
    let mut agg = Aggregate::new();
    let mut pos: usize = 0;
    proof {
        assert(data@.take(0) =~= Seq::<u8>::empty());
        assert(split_lines(Seq::<u8>::empty()) =~= Seq::<Seq<u8>>::empty());
        assert(agg_of(Seq::<Seq<u8>>::empty(), delimiter) =~= Map::<Seq<u8>, (int, int)>::empty());
    }
    while pos < n
        invariant
            0 <= pos <= n,
            n == data@.len(),
            pos == 0 || pos == n || data@[pos - 1] == NL,
            agg.wf(),
            agg@ == agg_of(split_lines(data@.take(pos as int)), delimiter),
            agg.total() == split_lines(data@.take(pos as int)).len(),
            split_lines(data@.take(pos as int)).len() <= pos,
            all_records_ok(split_lines(data@.take(pos as int)), delimiter),
        decreases n - pos,
    {
        let ghost rs_pre = split_lines(data@.take(pos as int));
        let j = find_line_end(data, pos);
        let rec = slice_subrange(data, pos, j);
        let ghost rseq = data@.subrange(pos as int, j as int);
        let newpos = if j < n {
            j + 1
        } else {
            n
        };
        proof {
            lemma_scan_step(data@, pos as int, j as int);
        }
        match cheat_split_once(rec, delimiter) {
            Ok(kv) => {
                match parse_number(kv.1) {
                    Some(v) => {
                        proof {
                            assert(is_record(rseq, delimiter));
                            assert(v as int == rec_val(rseq, delimiter));
                            assert(kv.0@ == rec_key(rseq, delimiter));
                            assert(agg.total() < u64::MAX as int);
                        }
                        agg.add_record(kv.0, v);
                        proof {
                            let rs_new = split_lines(data@.take(newpos as int));
                            assert(rs_new == rs_pre + seq![rseq]);
                            assert(rs_new.drop_last() =~= rs_pre);
                            assert(rs_new.last() == rseq);
                            assert(agg@ == agg_of(rs_new, delimiter));
                            assert(all_records_ok(rs_new, delimiter)) by {
                                assert(forall|k: int|
                                    0 <= k < rs_pre.len() ==> rs_new[k] == rs_pre[k]);
                                assert(rs_new[rs_new.len() - 1] == rseq);
                            }
                        }
                    },
                    None => {
                        let e = ParseError {
                            kind: ParseErrorKind::BadNumber,
                            record: slice_to_vec(rec),
                        };
                        proof {
                            lemma_scan_first_bad(data@, pos as int, e, delimiter);
                        }
                        return Err(e);
                    },
                }
            },
            Err(_) => {
                let e = ParseError {
                    kind: ParseErrorKind::MissingDelimiter,
                    record: slice_to_vec(rec),
                };
                proof {
                    lemma_scan_first_bad(data@, pos as int, e, delimiter);
                }
                return Err(e);
            },
        }
        pos = newpos;
    }
    proof {
        assert(data@.take(pos as int) =~= data@);
        lemma_split_lines_len(data@);
    }
    Ok(agg)
}

/// Runs the whole pipeline over one byte view: plans `workers` line-aligned
/// chunks, scans each into its own aggregate, merges them all, and reports
/// the means. The outcome is a function of the bytes and the delimiter
/// alone: the worker count never changes it.
#[verifier::rlimit(100)]
pub fn run_on_bytes(data: &[u8], workers: usize, delimiter: u8) -> (r: Result<
    Vec<Vec<u8>>,
    ParseError,
>)
    requires
        workers >= 1,
    ensures
        match r {
            Ok(lines) => {
                &&& all_records_ok(split_lines(data@), delimiter)
                &&& lines_match(lines@, agg_of(split_lines(data@), delimiter))
            },
            Err(e) => {
                &&& !all_records_ok(split_lines(data@), delimiter)
                &&& reports_first_bad(e, split_lines(data@), delimiter)
            },
        },
{
    let l = data.len();
    let chunks = plan_chunks(data, workers);
    let mut global = Aggregate::new();
    let nc = chunks.len();
    let mut ci: usize = 0;
    let ghost mut done: int = 0;
    proof {
        assert(data@.take(0) =~= Seq::<u8>::empty());
        assert(split_lines(Seq::<u8>::empty()) =~= Seq::<Seq<u8>>::empty());
        assert(agg_of(Seq::<Seq<u8>>::empty(), delimiter) =~= Map::<Seq<u8>, (int, int)>::empty());
    }
    while ci < nc
        invariant
            0 <= ci <= nc,
            nc == chunks@.len(),
            l == data@.len(),
            done == if ci == 0 {
                0int
            } else {
                chunks@[ci - 1].end as int
            },
            0 <= done <= l,
            done == 0 || done == l || data@[done - 1] == NL,
            forall|i: int|
                0 <= i < chunks@.len() ==> (#[trigger] chunks@[i]).start < chunks@[i].end
                    <= data@.len(),
            forall|i: int|
                1 <= i < chunks@.len() ==> (#[trigger] chunks@[i]).start == chunks@[i - 1].end,
            chunks@.len() > 0 ==> chunks@[0].start == 0,
            forall|i: int|
                0 <= i < chunks@.len() ==> ((#[trigger] chunks@[i]).end == data@.len() || data@[
                    chunks@[i].end - 1
                ] == NL),
            global.wf(),
            global@ == agg_of(split_lines(data@.take(done)), delimiter),
            global.total() == split_lines(data@.take(done)).len(),
            global.total() <= done,
            all_records_ok(split_lines(data@.take(done)), delimiter),
        decreases nc - ci,
    {
        let c = chunks[ci];
        proof {
            assert(chunks@[ci as int].start == done);
        }
        let part = slice_subrange(data, c.start, c.end);
        let ghost rs_pre = split_lines(data@.take(done));
        let ghost rs_mid = split_lines(part@);
        proof {
            lemma_split_lines_cut(data@.take(c.end as int), done);
            assert(data@.take(c.end as int).take(done) =~= data@.take(done));
            assert(data@.take(c.end as int).skip(done) =~= part@);
            lemma_split_lines_cut(data@, done);
            assert(data@.skip(done).take(c.end - done) =~= part@);
            if c.end < l {
                lemma_split_lines_cut(data@.skip(done), c.end - done);
                assert(data@.skip(done).skip(c.end - done) =~= data@.skip(c.end as int));
            } else {
                assert(data@.skip(done) =~= part@);
            }
        }
        match scan_chunk(part, delimiter) {
            Ok(local) => {
                proof {
                    lemma_agg_of_append(rs_pre, rs_mid, delimiter);
                    local.lemma_total_nonneg_self();
                    global.lemma_total_nonneg_self();
                }
                global.merge(&local);
                proof {
                    assert(split_lines(data@.take(c.end as int)) == rs_pre + rs_mid);
                    assert(all_records_ok(rs_pre + rs_mid, delimiter)) by {
                        assert(forall|k: int|
                            0 <= k < rs_pre.len() ==> (rs_pre + rs_mid)[k] == rs_pre[k]);
                        assert(forall|k: int|
                            rs_pre.len() <= k < rs_pre.len() + rs_mid.len() ==> (rs_pre + rs_mid)[k]
                                == rs_mid[k - rs_pre.len()]);
                    }
                    done = c.end as int;
                }
            },
            Err(e) => {
                proof {
                    let rs_all = split_lines(data@);
                    let rs_tail = split_lines(data@.skip(done));
                    assert(rs_all == rs_pre + rs_tail);
                    let rs_post = if c.end < l {
                        split_lines(data@.skip(c.end as int))
                    } else {
                        Seq::<Seq<u8>>::empty()
                    };
                    assert(rs_tail == rs_mid + rs_post) by {
                        if c.end < l {
                        } else {
                            assert(rs_tail =~= rs_mid);
                            assert(rs_mid + rs_post =~= rs_mid);
                        }
                    }
                    let i_c = choose|i: int|
                        #![auto]
                        0 <= i < rs_mid.len() && !is_record(rs_mid[i], delimiter) && (forall|
                            j: int,
                        |
                            0 <= j < i ==> is_record(rs_mid[j], delimiter)) && e.record@
                            == rs_mid[i] && e.kind == record_error_kind(rs_mid[i], delimiter);
                    let bad = rs_pre.len() + i_c;
                    assert(rs_all[bad] == rs_mid[i_c]) by {
                        assert(rs_tail[i_c] == rs_mid[i_c]);
                    }
                    assert(forall|k: int| 0 <= k < rs_pre.len() ==> rs_all[k] == rs_pre[k]);
                    assert(forall|k: int|
                        rs_pre.len() <= k < bad ==> rs_all[k] == rs_mid[k - rs_pre.len()]);
                    assert(0 <= bad < rs_all.len() && !is_record(rs_all[bad], delimiter) && (
                    forall|k: int| 0 <= k < bad ==> is_record(rs_all[k], delimiter)) && e.record@
                        == rs_all[bad] && e.kind == record_error_kind(rs_all[bad], delimiter));
                    assert(reports_first_bad(e, rs_all, delimiter));
                }
                return Err(e);
            },
        }
        ci = ci + 1;
    }
    proof {
        if nc == 0 {
            assert(data@.len() == 0);
            assert(data@.take(done) =~= data@);
        } else {
            assert(chunks@.last().end == data@.len());
            assert(done == l);
            assert(data@.take(done) =~= data@);
        }
    }
    let lines = report(global);
    Ok(lines)
}

} // verus!
