//! Reporting: per-key means in a deterministic order. Keys are listed in
//! ascending byte order; each mean is printed in hundredths with two digits
//! after the dot, rounded to the nearest hundredth, ties away from zero.

use vstd::prelude::*;
use vstd::arithmetic::div_mod::lemma_div_is_ordered;
use vstd::arithmetic::div_mod::lemma_fundamental_div_mod_converse;
use vstd::slice::slice_to_vec;
use crate::agg::Aggregate;
use crate::agg::Entry;
use crate::agg::entries_map;
use crate::agg::entries_wf;
use crate::agg::keys_unique;
use crate::agg::lemma_entries_map;
use crate::agg::vmax;

verus! {

/// Byte-lexicographic order: shorter prefixes first.
pub open spec fn lex_le(a: Seq<u8>, b: Seq<u8>) -> bool
    decreases a.len(),
{
    if a.len() == 0 {
        true
    } else if b.len() == 0 {
        false
    } else if a[0] < b[0] {
        true
    } else if a[0] > b[0] {
        false
    } else {
        lex_le(a.skip(1), b.skip(1))
    }
}

pub proof fn lemma_lex_total(a: Seq<u8>, b: Seq<u8>)
    ensures
        lex_le(a, b) || lex_le(b, a),
    decreases a.len(),
{
    if a.len() > 0 && b.len() > 0 && a[0] == b[0] {
        lemma_lex_total(a.skip(1), b.skip(1));
    }
}

pub proof fn lemma_lex_antisym(a: Seq<u8>, b: Seq<u8>)
    requires
        lex_le(a, b),
        lex_le(b, a),
    ensures
        a == b,
    decreases a.len(),
{
    if a.len() == 0 {
        assert(b.len() == 0);
        assert(a =~= b);
    } else {
        assert(b.len() > 0);
        assert(a[0] == b[0]);
        lemma_lex_antisym(a.skip(1), b.skip(1));
        assert(a.skip(1) == b.skip(1));
        assert(a.skip(1).len() == a.len() - 1);
        assert(b.skip(1).len() == b.len() - 1);
        assert(a =~= b) by {
            assert(forall|i: int| 1 <= i < a.len() ==> a[i] == a.skip(1)[i - 1]);
            assert(forall|i: int| 1 <= i < b.len() ==> b[i] == b.skip(1)[i - 1]);
        }
    }
}

pub proof fn lemma_lex_trans(a: Seq<u8>, b: Seq<u8>, c: Seq<u8>)
    requires
        lex_le(a, b),
        lex_le(b, c),
    ensures
        lex_le(a, c),
    decreases a.len(),
{
    if a.len() > 0 {
        assert(b.len() > 0);
        assert(c.len() > 0);
        if a[0] == b[0] && b[0] == c[0] {
            lemma_lex_trans(a.skip(1), b.skip(1), c.skip(1));
        }
    }
}

/// Byte-for-byte comparison deciding `lex_le`.
pub fn lex_le_bytes(a: &[u8], b: &[u8]) -> (r: bool)
    ensures
        r == lex_le(a@, b@),
{
    let na = a.len();
    let nb = b.len();
    let mut i: usize = 0;
    proof {
        assert(a@.skip(0) =~= a@);
        assert(b@.skip(0) =~= b@);
    }
    while i < na && i < nb
        invariant
            0 <= i <= na,
            i <= nb,
            na == a@.len(),
            nb == b@.len(),
            lex_le(a@, b@) == lex_le(a@.skip(i as int), b@.skip(i as int)),
            lex_le(b@, a@) == lex_le(b@.skip(i as int), a@.skip(i as int)),
        decreases na - i,
    {
        let x = *vstd::slice::slice_index_get(a, i);
        let y = *vstd::slice::slice_index_get(b, i);
        proof {
            assert(a@.skip(i as int)[0] == x);
            assert(b@.skip(i as int)[0] == y);
        }
        if x < y {
            return true;
        }
        if x > y {
            return false;
        }
        proof {
            assert(a@.skip(i as int).skip(1) =~= a@.skip(i + 1));
            assert(b@.skip(i as int).skip(1) =~= b@.skip(i + 1));
        }
        i = i + 1;
    }
    proof {
        if na <= nb {
            assert(a@.skip(i as int).len() == 0);
        } else {
            assert(b@.skip(i as int).len() == 0);
            assert(a@.skip(i as int).len() > 0);
        }
    }
    na <= nb
}

/// Keys appear in ascending order.
pub open spec fn keys_sorted(s: Seq<Entry>) -> bool {
    forall|i: int, j: int| 0 <= i < j < s.len() ==> lex_le(s[i].key@, s[j].key@)
}

/// Dropping the last entry drops exactly its key from the mapping.
proof fn lemma_entries_map_drop_last(s: Seq<Entry>)
    requires
        keys_unique(s),
        s.len() > 0,
    ensures
        entries_map(s.drop_last()) == entries_map(s).remove(s.last().key@),
{
    lemma_entries_map(s.drop_last());
    if entries_map(s.drop_last()).dom().contains(s.last().key@) {
        let j = choose|j: int|
            0 <= j < s.drop_last().len() && (#[trigger] s.drop_last()[j]).key@ == s.last().key@;
        assert(s[j].key@ == s[s.len() - 1].key@);
        assert(false);
    }
    assert(entries_map(s.drop_last()) =~= entries_map(s).remove(s.last().key@));
}

/// A sorted aggregate listing is a function of the mapping it denotes: two
/// sorted, duplicate-free entry sequences with the same mapping are entry
/// for entry the same. This is what makes the report deterministic.
pub proof fn lemma_sorted_entries_unique(s: Seq<Entry>, t: Seq<Entry>)
    requires
        keys_sorted(s),
        keys_unique(s),
        keys_sorted(t),
        keys_unique(t),
        entries_map(s) == entries_map(t),
    ensures
        s.len() == t.len(),
        forall|i: int|
            0 <= i < s.len() ==> (#[trigger] s[i]).key@ == t[i].key@ && s[i].sum == t[i].sum
                && s[i].count == t[i].count,
    decreases s.len(),
{
    lemma_entries_map(s);
    lemma_entries_map(t);
    if s.len() == 0 {
        if t.len() > 0 {
            assert(entries_map(t).dom().contains(t[0].key@));
            assert(false);
        }
    } else {
        assert(t.len() > 0) by {
            if t.len() == 0 {
                assert(entries_map(s).dom().contains(s[0].key@));
            }
        }
        let ks = s.last().key@;
        let kt = t.last().key@;
        // each last key is the maximum of the shared key set, so they agree
        assert(entries_map(t).dom().contains(ks));
        let j = choose|j: int| 0 <= j < t.len() && (#[trigger] t[j]).key@ == ks;
        assert(lex_le(ks, kt)) by {
            if j < t.len() - 1 {
                assert(lex_le(t[j].key@, t[t.len() - 1].key@));
            } else {
                lemma_lex_total(ks, ks);
            }
        }
        assert(entries_map(s).dom().contains(kt));
        let j2 = choose|j2: int| 0 <= j2 < s.len() && (#[trigger] s[j2]).key@ == kt;
        assert(lex_le(kt, ks)) by {
            if j2 < s.len() - 1 {
                assert(lex_le(s[j2].key@, s[s.len() - 1].key@));
            } else {
                lemma_lex_total(kt, kt);
            }
        }
        lemma_lex_antisym(ks, kt);
        assert(entries_map(s)[ks] == (s.last().sum as int, s.last().count as int));
        assert(entries_map(t)[kt] == (t.last().sum as int, t.last().count as int));
        lemma_entries_map_drop_last(s);
        lemma_entries_map_drop_last(t);
        assert(keys_sorted(s.drop_last())) by {
            assert(forall|i: int| 0 <= i < s.len() - 1 ==> s.drop_last()[i] == s[i]);
        }
        assert(keys_unique(s.drop_last())) by {
            assert(forall|i: int| 0 <= i < s.len() - 1 ==> s.drop_last()[i] == s[i]);
        }
        assert(keys_sorted(t.drop_last())) by {
            assert(forall|i: int| 0 <= i < t.len() - 1 ==> t.drop_last()[i] == t[i]);
        }
        assert(keys_unique(t.drop_last())) by {
            assert(forall|i: int| 0 <= i < t.len() - 1 ==> t.drop_last()[i] == t[i]);
        }
        lemma_sorted_entries_unique(s.drop_last(), t.drop_last());
        assert(forall|i: int|
            0 <= i < s.len() - 1 ==> s.drop_last()[i] == s[i] && t.drop_last()[i] == t[i]);
        assert(s[s.len() - 1].key@ == t[t.len() - 1].key@);
    }
}

/// The integer nearest to `s / c`, ties away from zero.
pub open spec fn div_nearest(s: int, c: int) -> int
    recommends
        c >= 1,
{
    if s >= 0 {
        (2 * s + c) / (2 * c)
    } else {
        -((2 * (-s) + c) / (2 * c))
    }
}

/// Rounding a mean never leaves the range of the values it averages.
proof fn lemma_div_nearest_bound(s: int, c: int)
    requires
        c >= 1,
        -(c * vmax()) <= s <= c * vmax(),
    ensures
        -vmax() <= div_nearest(s, c) <= vmax(),
        div_nearest(s, c) >= 0 || s < 0,
{
    let m = if s >= 0 {
        s
    } else {
        -s
    };
    assert(m <= c * vmax());
    assert(2 * m + c <= 2 * (c * vmax()) + c) by (nonlinear_arith)
        requires
            m <= c * vmax(),
    ;
    assert(2 * (c * vmax()) + c == (2 * c) * vmax() + c) by (nonlinear_arith);
    lemma_fundamental_div_mod_converse((2 * c) * vmax() + c, 2 * c, vmax(), c);
    lemma_div_is_ordered(2 * m + c, (2 * c) * vmax() + c, 2 * c);
    assert((2 * m + c) / (2 * c) >= 0) by {
        lemma_div_is_ordered(0, 2 * m + c, 2 * c);
    }
}

/// The decimal digits of `m`.
pub open spec fn dec_digits(m: int) -> Seq<u8>
    recommends
        m >= 0,
    decreases m,
{
    if m < 10 {
        seq![(48 + m) as u8]
    } else {
        dec_digits(m / 10) + seq![(48 + m % 10) as u8]
    }
}

/// Writes the decimal digits of `m` after what `out` already holds.
fn push_digits(m: u128, out: &mut Vec<u8>)
    ensures
        final(out)@ == old(out)@ + dec_digits(m as int),
    decreases m,
{
    if m < 10 {
        out.push(48 + m as u8);
        proof {
            assert(out@ =~= old(out)@ + dec_digits(m as int));
        }
    } else {
        push_digits(m / 10, out);
        out.push(48 + (m % 10) as u8);
        proof {
            assert(out@ =~= old(out)@ + dec_digits(m as int));
        }
    }
}

/// A mean in hundredths, as digits with two decimals after a dot.
pub open spec fn centi_repr(v: int) -> Seq<u8> {
    if v < 0 {
        seq![45u8] + mag_repr(-v)
    } else {
        mag_repr(v)
    }
}

pub open spec fn mag_repr(m: int) -> Seq<u8> {
    dec_digits(m / 100) + seq![46u8, (48 + (m % 100) / 10) as u8, (48 + m % 10) as u8]
}

/// One report line: the key, a colon and a space, and the mean.
pub open spec fn line_of(k: Seq<u8>, sum: int, count: int) -> Seq<u8> {
    k + seq![58u8, 32u8] + centi_repr(div_nearest(sum, count))
}

/// The mean of `sum` over `count` records, in hundredths, rounded to the
/// nearest, ties away from zero.
fn mean_centi(sum: i128, count: u64) -> (m: i128)
    requires
        count >= 1,
        -((count as int) * vmax()) <= sum as int <= (count as int) * vmax(),
    ensures
        m as int == div_nearest(sum as int, count as int),
        -vmax() <= m as int <= vmax(),
{
    proof {
        lemma_div_nearest_bound(sum as int, count as int);
        assert((count as int) * vmax() <= (u64::MAX as int) * vmax()) by (nonlinear_arith)
            requires
                count as int <= u64::MAX as int,
                vmax() >= 0,
        ;
        assert(2 * ((u64::MAX as int) * vmax()) + (u64::MAX as int) < (u128::MAX as int))
            by (nonlinear_arith);
    }
    let c = count as u128;
    if sum >= 0 {
        let s = sum as u128;
        let q = (2 * s + c) / (2 * c);
        q as i128
    } else {
        let s = (-sum) as u128;
        let q = (2 * s + c) / (2 * c);
        -(q as i128)
    }
}

/// Inserting an entry with a fresh key adds exactly that key's pair to the
/// mapping, wherever in the sequence it lands.
proof fn lemma_entries_map_insert_at(s: Seq<Entry>, pos: int, e: Entry)
    requires
        keys_unique(s),
        0 <= pos <= s.len(),
        forall|j: int| 0 <= j < s.len() ==> (#[trigger] s[j]).key@ != e.key@,
    ensures
        entries_map(s.insert(pos, e)) == entries_map(s).insert(
            e.key@,
            (e.sum as int, e.count as int),
        ),
    decreases s.len(),
{
    let t = s.insert(pos, e);
    s.insert_ensures(pos, e);
    if pos == s.len() {
        assert(t.drop_last() =~= s);
        assert(t.last() == e);
    } else {
        assert(t.drop_last() =~= s.drop_last().insert(pos, e));
        assert(t.last() == s.last());
        assert(keys_unique(s.drop_last())) by {
            assert(forall|i: int| 0 <= i < s.len() - 1 ==> s.drop_last()[i] == s[i]);
        }
        assert(forall|j: int|
            0 <= j < s.drop_last().len() ==> (#[trigger] s.drop_last()[j]).key@ != e.key@) by {
            assert(forall|i: int| 0 <= i < s.len() - 1 ==> s.drop_last()[i] == s[i]);
        }
        lemma_entries_map_insert_at(s.drop_last(), pos, e);
        assert(e.key@ != s.last().key@);
        assert(entries_map(s.drop_last()).insert(e.key@, (e.sum as int, e.count as int)).insert(
            s.last().key@,
            (s.last().sum as int, s.last().count as int),
        ) =~= entries_map(s.drop_last()).insert(
            s.last().key@,
            (s.last().sum as int, s.last().count as int),
        ).insert(e.key@, (e.sum as int, e.count as int)));
    }
}

/// Places an entry with a fresh key where it keeps the keys ascending.
fn insert_sorted(out: Vec<Entry>, e: Entry) -> (res: Vec<Entry>)
    requires
        keys_sorted(out@),
        keys_unique(out@),
        entries_wf(out@),
        forall|j: int| 0 <= j < out@.len() ==> (#[trigger] out@[j]).key@ != e.key@,
        e.count >= 1,
        -((e.count as int) * vmax()) <= e.sum as int <= (e.count as int) * vmax(),
    ensures
        keys_sorted(res@),
        keys_unique(res@),
        entries_wf(res@),
        entries_map(res@) == entries_map(out@).insert(e.key@, (e.sum as int, e.count as int)),
{
    let ghost o0 = out@;
    let mut out = out;
    let n = out.len();
    let mut idx: usize = 0;
    while idx < n && lex_le_bytes(out[idx].key.as_slice(), e.key.as_slice())
        invariant
            0 <= idx <= n,
            n == out@.len(),
            out@ == o0,
            forall|j: int| 0 <= j < idx ==> lex_le((#[trigger] out@[j]).key@, e.key@),
        decreases n - idx,
    {
        idx = idx + 1;
    }
    proof {
        if idx < n {
            lemma_lex_total(o0[idx as int].key@, e.key@);
            assert(lex_le(e.key@, o0[idx as int].key@));
        }
    }
    out.insert(idx, e);
    proof {
        o0.insert_ensures(idx as int, e);
        assert(out@ == o0.insert(idx as int, e));
        assert forall|i: int, j: int|
            0 <= i < j < out@.len() implies lex_le(out@[i].key@, out@[j].key@) by {
            if j < idx {
                assert(out@[i] == o0[i] && out@[j] == o0[j]);
            } else if j == idx {
                assert(out@[i] == o0[i]);
                assert(lex_le(o0[i].key@, e.key@));
            } else {
                assert(out@[j] == o0[j - 1]);
                if i < idx {
                    assert(out@[i] == o0[i]);
                    if i < j - 1 {
                        assert(lex_le(o0[i].key@, o0[j - 1].key@));
                    }
                } else if i == idx {
                    assert(lex_le(e.key@, o0[idx as int].key@));
                    if idx < j - 1 {
                        assert(lex_le(o0[idx as int].key@, o0[j - 1].key@));
                        lemma_lex_trans(e.key@, o0[idx as int].key@, o0[j - 1].key@);
                    }
                } else {
                    assert(out@[i] == o0[i - 1]);
                    assert(lex_le(o0[i - 1].key@, o0[j - 1].key@));
                }
            }
        }
        assert forall|i: int, j: int|
            0 <= i < j < out@.len() implies out@[i].key@ != out@[j].key@ by {
            if j < idx {
                assert(out@[i] == o0[i] && out@[j] == o0[j]);
            } else if j == idx {
                assert(out@[i] == o0[i]);
            } else {
                assert(out@[j] == o0[j - 1]);
                if i < idx {
                    assert(out@[i] == o0[i]);
                } else if i == idx {
                    assert(o0[j - 1].key@ != e.key@);
                } else {
                    assert(out@[i] == o0[i - 1]);
                }
            }
        }
        assert forall|i: int|
            0 <= i < out@.len() implies (#[trigger] out@[i]).count >= 1 && -((out@[i].count as int)
            * vmax()) <= out@[i].sum as int <= (out@[i].count as int) * vmax() by {
            if i < idx {
                assert(out@[i] == o0[i]);
            } else if i > idx {
                assert(out@[i] == o0[i - 1]);
            }
        }
        lemma_entries_map_insert_at(o0, idx as int, e);
    }
    out
}

/// The entries in ascending key order, denoting the same mapping.
fn sort_entries(src: Vec<Entry>) -> (out: Vec<Entry>)
    requires
        keys_unique(src@),
        entries_wf(src@),
    ensures
        keys_sorted(out@),
        keys_unique(out@),
        entries_wf(out@),
        entries_map(out@) == entries_map(src@),
{
    let ghost m0 = entries_map(src@);
    let mut src = src;
    let mut out: Vec<Entry> = Vec::new();
    proof {
        assert(entries_map(out@).union_prefer_right(entries_map(src@)) =~= m0);
    }
    while src.len() > 0
        invariant
            keys_sorted(out@),
            keys_unique(out@),
            entries_wf(out@),
            keys_unique(src@),
            entries_wf(src@),
            entries_map(out@).dom().disjoint(entries_map(src@).dom()),
            entries_map(out@).union_prefer_right(entries_map(src@)) == m0,
        decreases src@.len(),
    {
        let ghost s_before = src@;
        proof {
            lemma_entries_map(s_before);
            lemma_entries_map_drop_last(s_before);
        }
        let e = src.pop().unwrap();
        proof {
            assert(e == s_before.last());
            assert(src@ == s_before.drop_last());
            assert(entries_map(s_before).dom().contains(e.key@));
            assert(keys_unique(src@)) by {
                assert(forall|i: int| 0 <= i < src@.len() ==> src@[i] == s_before[i]);
            }
            assert(entries_wf(src@)) by {
                assert(forall|i: int| 0 <= i < src@.len() ==> src@[i] == s_before[i]);
            }
            assert forall|j: int|
                0 <= j < out@.len() implies (#[trigger] out@[j]).key@ != e.key@ by {
                lemma_entries_map(out@);
                assert(entries_map(out@).dom().contains(out@[j].key@));
            }
            assert(e.count >= 1 && -((e.count as int) * vmax()) <= e.sum as int <= (
            e.count as int) * vmax()) by {
                assert(s_before[s_before.len() - 1] == e);
            }
        }
        let ghost out_before = entries_map(out@);
        out = insert_sorted(out, e);
        proof {
            let ev = (e.sum as int, e.count as int);
            assert(entries_map(s_before)[e.key@] == ev) by {
                assert(s_before[s_before.len() - 1] == e);
            }
            assert(entries_map(out@).union_prefer_right(entries_map(src@)) =~= out_before
                .union_prefer_right(entries_map(s_before)));
            assert(entries_map(out@).dom().disjoint(entries_map(src@).dom())) by {
                assert forall|k: Seq<u8>|
                    entries_map(out@).dom().contains(k) && entries_map(src@).dom().contains(
                        k,
                    ) implies false by {
                    assert(entries_map(src@) == entries_map(s_before).remove(e.key@));
                }
            }
        }
    }
    proof {
        assert(src@.len() == 0);
        assert(entries_map(src@) =~= Map::<Seq<u8>, (int, int)>::empty());
        assert(entries_map(out@) =~= m0);
    }
    out
}

/// What it means for a line listing to report a mapping: some ascending,
/// duplicate-free entry listing of exactly that mapping, printed line by
/// line.
pub open spec fn lines_match(lines: Seq<Vec<u8>>, m: Map<Seq<u8>, (int, int)>) -> bool {
    exists|s: Seq<Entry>|
        #![auto]
        keys_sorted(s) && keys_unique(s) && entries_map(s) == m && lines.len() == s.len() && (forall|
            i: int,
        |
            0 <= i < s.len() ==> lines[i]@ == line_of(s[i].key@, s[i].sum as int, s[i].count as int))
}

/// Two reports of the same mapping hold the same lines: the report is a
/// function of the aggregate alone, whatever chunking or merge order built
/// it, and whatever listing the reporter happened to produce.
pub proof fn lemma_report_deterministic(
    l1: Seq<Vec<u8>>,
    l2: Seq<Vec<u8>>,
    m: Map<Seq<u8>, (int, int)>,
)
    requires
        lines_match(l1, m),
        lines_match(l2, m),
    ensures
        l1.len() == l2.len(),
        forall|i: int| 0 <= i < l1.len() ==> l1[i]@ == l2[i]@,
{
    let s1 = choose|s: Seq<Entry>|
        #![auto]
        keys_sorted(s) && keys_unique(s) && entries_map(s) == m && l1.len() == s.len() && (forall|
            i: int,
        |
            0 <= i < s.len() ==> l1[i]@ == line_of(s[i].key@, s[i].sum as int, s[i].count as int));
    let s2 = choose|s: Seq<Entry>|
        #![auto]
        keys_sorted(s) && keys_unique(s) && entries_map(s) == m && l2.len() == s.len() && (forall|
            i: int,
        |
            0 <= i < s.len() ==> l2[i]@ == line_of(s[i].key@, s[i].sum as int, s[i].count as int));
    lemma_sorted_entries_unique(s1, s2);
}

/// The report of an aggregate: one line per key, `<key>: <mean>`, keys in
/// ascending byte order.
pub fn report(agg: Aggregate) -> (lines: Vec<Vec<u8>>)
    requires
        agg.wf(),
    ensures
        lines_match(lines@, agg@),
{
    let entries = agg.into_entries();
    let sorted = sort_entries(entries);
    let ghost s = sorted@;
    let mut lines: Vec<Vec<u8>> = Vec::new();
    let n = sorted.len();
    let mut i: usize = 0;
    while i < n
        invariant
            0 <= i <= n,
            n == sorted@.len(),
            sorted@ == s,
            entries_wf(s),
            lines@.len() == i,
            forall|j: int|
                0 <= j < i ==> lines@[j]@ == line_of(
                    (#[trigger] s[j]).key@,
                    s[j].sum as int,
                    s[j].count as int,
                ),
        decreases n - i,
    {
        let e = &sorted[i];
        proof {
            assert(s[i as int].count >= 1 && -((s[i as int].count as int) * vmax())
                <= s[i as int].sum as int <= (s[i as int].count as int) * vmax());
        }
        let line = format_line(e.key.as_slice(), e.sum, e.count);
        lines.push(line);
        i = i + 1;
    }
    proof {
        assert(keys_sorted(s) && keys_unique(s) && entries_map(s) == agg@ && lines@.len()
            == s.len() && (forall|i: int|
            0 <= i < s.len() ==> lines@[i]@ == line_of(
                s[i].key@,
                s[i].sum as int,
                s[i].count as int,
            )));
    }
    lines
}

/// The bytes of one report line for `key` with the given sum and count.
fn format_line(key: &[u8], sum: i128, count: u64) -> (line: Vec<u8>)
    requires
        count >= 1,
        -((count as int) * vmax()) <= sum as int <= (count as int) * vmax(),
    ensures
        line@ == line_of(key@, sum as int, count as int),
{
    let m = mean_centi(sum, count);
    let mut out: Vec<u8> = slice_to_vec(key);
    out.push(58);
    out.push(32);
    let mag: u128 = if m < 0 {
        out.push(45);
        (-m) as u128
    } else {
        m as u128
    };
    push_digits(mag / 100, &mut out);
    out.push(46);
    out.push(48 + ((mag % 100) / 10) as u8);
    out.push(48 + (mag % 10) as u8);
    proof {
        assert((mag % 10) as int == (mag as int) % 10);
        assert(out@ =~= line_of(key@, sum as int, count as int));
    }
    out
}

} // verus!
