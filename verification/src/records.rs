//! The record model: how a byte sequence divides into lines, and what a
//! single `key;value` record means.

use vstd::prelude::*;

verus! {

/// The line terminator byte (`\n`).
pub const NL: u8 = 10;

/// Index of the first line terminator in `s` at or after position `i`,
/// or `s.len()` when the rest of `s` holds none.
pub open spec fn first_nl_from(s: Seq<u8>, i: int) -> int
    decreases s.len() - i when 0 <= i <= s.len()
{
    if i >= s.len() {
        s.len() as int
    } else if s[i] == NL {
        i
    } else {
        first_nl_from(s, i + 1)
    }
}

pub proof fn lemma_first_nl_from(s: Seq<u8>, i: int)
    requires
        0 <= i <= s.len(),
    ensures
        ({
            let f = first_nl_from(s, i);
            &&& i <= f <= s.len()
            &&& f < s.len() ==> s[f] == NL
            &&& forall|j: int| i <= j < f ==> s[j] != NL
        }),
    decreases s.len() - i,
{
    if i < s.len() && s[i] != NL {
        lemma_first_nl_from(s, i + 1);
    }
}

/// In a concatenation, the search for a terminator agrees with the left part
/// as long as the left part holds one.
pub proof fn lemma_first_nl_append(s: Seq<u8>, t: Seq<u8>, i: int)
    requires
        0 <= i <= s.len(),
        first_nl_from(s, i) < s.len(),
    ensures
        first_nl_from(s + t, i) == first_nl_from(s, i),
    decreases s.len() - i,
{
    if i < s.len() && s[i] != NL {
        lemma_first_nl_append(s, t, i + 1);
    }
}

/// The records of a byte sequence: the segments between line terminators.
/// A terminator closes a record, and a final segment without one is a record
/// too, so a trailing terminator adds no empty record.
pub open spec fn split_lines(s: Seq<u8>) -> Seq<Seq<u8>>
    decreases s.len(),
{
    if s.len() == 0 {
        Seq::empty()
    } else {
        let j = first_nl_from(s, 0);
        if 0 <= j < s.len() {
            seq![s.take(j)] + split_lines(s.skip(j + 1))
        } else {
            seq![s]
        }
    }
}

/// There are never more records than bytes.
pub proof fn lemma_split_lines_len(s: Seq<u8>)
    ensures
        split_lines(s).len() <= s.len(),
    decreases s.len(),
{
    if s.len() > 0 {
        lemma_first_nl_from(s, 0);
        let j = first_nl_from(s, 0);
        if 0 <= j < s.len() {
            lemma_split_lines_len(s.skip(j + 1));
        }
    }
}

/// A nonempty sequence without a terminator is a single record.
pub proof fn lemma_split_lines_single(s: Seq<u8>)
    requires
        s.len() > 0,
        forall|j: int| 0 <= j < s.len() ==> s[j] != NL,
    ensures
        split_lines(s) == seq![s],
{
    lemma_first_nl_from(s, 0);
}

/// A terminator-free segment followed by one terminator is a single record.
pub proof fn lemma_split_lines_line(r: Seq<u8>)
    requires
        forall|j: int| 0 <= j < r.len() ==> r[j] != NL,
    ensures
        split_lines(r + seq![NL]) == seq![r],
{
    let s = r + seq![NL];
    lemma_first_nl_from(s, 0);
    let f = first_nl_from(s, 0);
    assert(s[r.len() as int] == NL);
    assert(f <= r.len());
    if f < r.len() {
        assert(s[f] == r[f]);
    }
    assert(f == r.len());
    assert(s.take(f) =~= r);
    assert(s.skip(f + 1) =~= Seq::<u8>::empty());
    assert(split_lines(Seq::<u8>::empty()) =~= Seq::<Seq<u8>>::empty());
    assert(split_lines(s) =~= seq![r]);
}

/// Records concatenate across a cut placed just after a terminator.
pub proof fn lemma_split_lines_append(s: Seq<u8>, t: Seq<u8>)
    requires
        s.len() > 0,
        s.last() == NL,
    ensures
        split_lines(s + t) == split_lines(s) + split_lines(t),
    decreases s.len(),
{
    let u = s + t;
    lemma_first_nl_from(s, 0);
    let f = first_nl_from(s, 0);
    if f == s.len() {
        assert(s[s.len() - 1] != NL);
    }
    assert(0 <= f < s.len());
    lemma_first_nl_append(s, t, 0);
    assert(u.len() > 0);
    assert(first_nl_from(u, 0) == f);
    assert(u.take(f) =~= s.take(f));
    if f + 1 == s.len() {
        assert(s.skip(f + 1) =~= Seq::<u8>::empty());
        assert(u.skip(f + 1) =~= t);
        assert(split_lines(Seq::<u8>::empty()) =~= Seq::<Seq<u8>>::empty());
        assert(split_lines(s) =~= seq![s.take(f)]);
        assert(split_lines(u) =~= seq![u.take(f)] + split_lines(t));
        assert(split_lines(s + t) =~= split_lines(s) + split_lines(t));
    } else {
        let s2 = s.skip(f + 1);
        assert(s2.len() > 0);
        assert(s2.last() == s.last());
        lemma_split_lines_append(s2, t);
        assert(u.skip(f + 1) =~= s2 + t);
        assert(split_lines(u) =~= seq![s.take(f)] + (split_lines(s2) + split_lines(t)));
        assert(split_lines(s) =~= seq![s.take(f)] + split_lines(s2));
        assert(split_lines(s + t) =~= split_lines(s) + split_lines(t));
    }
}

/// Cutting the input just after a terminator cuts its record sequence in two.
pub proof fn lemma_split_lines_cut(s: Seq<u8>, c: int)
    requires
        0 <= c <= s.len(),
        c == 0 || s[c - 1] == NL,
    ensures
        split_lines(s) == split_lines(s.take(c)) + split_lines(s.skip(c)),
{
    if c == 0 {
        assert(s.take(0) =~= Seq::<u8>::empty());
        assert(s.skip(0) =~= s);
        assert(split_lines(s) =~= split_lines(s.take(0)) + split_lines(s.skip(0)));
    } else {
        let a = s.take(c);
        assert(a.last() == s[c - 1]);
        lemma_split_lines_append(a, s.skip(c));
        assert(a + s.skip(c) =~= s);
    }
}

/// Largest index `j <= i` with `s[j] == b`, or `-1` when there is none.
pub open spec fn rfind_from(s: Seq<u8>, b: u8, i: int) -> int
    decreases i + 1,
{
    if i < 0 {
        -1
    } else if s[i] == b {
        i
    } else {
        rfind_from(s, b, i - 1)
    }
}

pub proof fn lemma_rfind_from(s: Seq<u8>, b: u8, i: int)
    requires
        -1 <= i < s.len(),
    ensures
        ({
            let p = rfind_from(s, b, i);
            &&& -1 <= p <= i
            &&& p >= 0 ==> s[p] == b
            &&& forall|j: int| p < j <= i ==> s[j] != b
        }),
    decreases i + 1,
{
    if i >= 0 && s[i] != b {
        lemma_rfind_from(s, b, i - 1);
    }
}

/// Position of the rightmost delimiter in a record, or `-1`.
pub open spec fn delim_pos(r: Seq<u8>, d: u8) -> int {
    rfind_from(r, d, r.len() - 1)
}

/// The key of a record: the bytes before the rightmost delimiter.
pub open spec fn rec_key(r: Seq<u8>, d: u8) -> Seq<u8> {
    r.take(delim_pos(r, d))
}

/// The value field of a record: the bytes after the rightmost delimiter.
pub open spec fn rec_value_bytes(r: Seq<u8>, d: u8) -> Seq<u8> {
    r.skip(delim_pos(r, d) + 1)
}

pub open spec fn is_digit(b: u8) -> bool {
    48 <= b <= 57
}

pub open spec fn digit_val(b: u8) -> int {
    b as int - 48 as int
}

/// Index of the first non-digit byte in `s` at or after position `i`,
/// or `s.len()` when the rest of `s` is all digits.
pub open spec fn first_non_digit(s: Seq<u8>, i: int) -> int
    decreases s.len() - i when 0 <= i <= s.len()
{
    if i >= s.len() {
        s.len() as int
    } else if !is_digit(s[i]) {
        i
    } else {
        first_non_digit(s, i + 1)
    }
}

pub proof fn lemma_first_non_digit(s: Seq<u8>, i: int)
    requires
        0 <= i <= s.len(),
    ensures
        ({
            let f = first_non_digit(s, i);
            &&& i <= f <= s.len()
            &&& f < s.len() ==> !is_digit(s[f])
            &&& forall|j: int| i <= j < f ==> is_digit(s[j])
        }),
    decreases s.len() - i,
{
    if i < s.len() && is_digit(s[i]) {
        lemma_first_non_digit(s, i + 1);
    }
}

/// The number a run of decimal digits denotes.
pub open spec fn digits_num(s: Seq<u8>) -> int
    decreases s.len(),
{
    if s.len() == 0 {
        0
    } else {
        10 * digits_num(s.drop_last()) + digit_val(s.last())
    }
}

pub proof fn lemma_digits_num_nonneg(s: Seq<u8>)
    requires
        forall|j: int| 0 <= j < s.len() ==> is_digit(s[j]),
    ensures
        digits_num(s) >= 0,
    decreases s.len(),
{
    if s.len() > 0 {
        lemma_digits_num_nonneg(s.drop_last());
    }
}

/// Reading one more digit multiplies the prefix value by ten and adds it.
pub proof fn lemma_digits_num_step(s: Seq<u8>, i: int)
    requires
        0 <= i < s.len(),
    ensures
        digits_num(s.take(i + 1)) == 10 * digits_num(s.take(i)) + digit_val(s[i]),
{
    assert(s.take(i + 1).drop_last() =~= s.take(i));
    assert(s.take(i + 1).last() == s[i]);
}

/// A digit run is worth at least any of its prefixes.
pub proof fn lemma_digits_num_prefix(s: Seq<u8>, i: int)
    requires
        0 <= i <= s.len(),
        forall|j: int| 0 <= j < s.len() ==> is_digit(s[j]),
    ensures
        digits_num(s.take(i)) <= digits_num(s),
    decreases s.len() - i,
{
    if i == s.len() {
        assert(s.take(i) =~= s);
    } else {
        lemma_digits_num_step(s, i);
        lemma_digits_num_nonneg(s.take(i));
        lemma_digits_num_prefix(s, i + 1);
    }
}

/// Whether the value bytes start with a minus sign.
pub open spec fn is_neg(v: Seq<u8>) -> bool {
    v.len() > 0 && v[0] == 45
}

/// The value bytes with any leading minus sign removed.
pub open spec fn num_body(v: Seq<u8>) -> Seq<u8> {
    if is_neg(v) {
        v.skip(1)
    } else {
        v
    }
}

/// The accepted shape of a value: an optional `-`, one or more digits, and
/// optionally one `.` followed by one or more digits.
pub open spec fn is_number(v: Seq<u8>) -> bool {
    let b = num_body(v);
    let p = first_non_digit(b, 0);
    &&& p > 0
    &&& (p == b.len() || (p < b.len() && b[p] == 46 && p + 1 < b.len() && first_non_digit(
        b,
        p + 1,
    ) == b.len()))
}

/// The digits before the decimal point.
pub open spec fn int_digits(b: Seq<u8>) -> Seq<u8> {
    b.take(first_non_digit(b, 0))
}

/// The digits after the decimal point, if any.
pub open spec fn frac_digits(b: Seq<u8>) -> Seq<u8> {
    let p = first_non_digit(b, 0);
    if p < b.len() {
        b.skip(p + 1)
    } else {
        Seq::empty()
    }
}

/// The hundredths the first two fractional digits denote; later digits are
/// ignored, and missing ones count as zero.
pub open spec fn frac_centi(f: Seq<u8>) -> int {
    if f.len() == 0 {
        0
    } else if f.len() == 1 {
        10 * digit_val(f[0])
    } else {
        10 * digit_val(f[0]) + digit_val(f[1])
    }
}

/// The value as a signed count of hundredths.
pub open spec fn number_centi(v: Seq<u8>) -> int {
    let b = num_body(v);
    let m = 100 * digits_num(int_digits(b)) + frac_centi(frac_digits(b));
    if is_neg(v) {
        -m
    } else {
        m
    }
}

/// The magnitudes a value may take: symmetric around zero so that every
/// accepted value and every accepted sum of values negates safely.
pub open spec fn centi_in_range(x: int) -> bool {
    -(i64::MAX as int) <= x <= i64::MAX as int
}

/// A whole record is accepted when it has a delimiter with a nonempty key
/// before it and an in-range number after it.
pub open spec fn is_record(r: Seq<u8>, d: u8) -> bool {
    &&& delim_pos(r, d) >= 1
    &&& is_number(rec_value_bytes(r, d))
    &&& centi_in_range(number_centi(rec_value_bytes(r, d)))
}

/// The value of a record, in hundredths.
pub open spec fn rec_val(r: Seq<u8>, d: u8) -> int {
    number_centi(rec_value_bytes(r, d))
}

pub open spec fn all_records_ok(rs: Seq<Seq<u8>>, d: u8) -> bool {
    forall|i: int| 0 <= i < rs.len() ==> is_record(rs[i], d)
}

} // verus!
