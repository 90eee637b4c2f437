//! Parsing one record: the delimiter split and the fixed-point value.

use vstd::prelude::*;
use vstd::arithmetic::div_mod::lemma_fundamental_div_mod;
use vstd::slice::slice_index_get;
use vstd::slice::slice_subrange;
use crate::records::centi_in_range;
use crate::records::delim_pos;
use crate::records::digit_val;
use crate::records::digits_num;
use crate::records::first_non_digit;
use crate::records::frac_centi;
use crate::records::frac_digits;
use crate::records::int_digits;
use crate::records::is_digit;
use crate::records::is_neg;
use crate::records::is_number;
use crate::records::lemma_digits_num_nonneg;
use crate::records::lemma_digits_num_prefix;
use crate::records::lemma_digits_num_step;
use crate::records::lemma_first_non_digit;
use crate::records::lemma_rfind_from;
use crate::records::num_body;
use crate::records::number_centi;
use crate::records::rec_key;
use crate::records::rec_value_bytes;

verus! {

/// Splits a record at the rightmost occurrence of `delimiter` into the key
/// and the value bytes. A record whose only delimiter would leave an empty
/// key, or that holds none at all, is refused.
pub fn cheat_split_once<'a>(s: &'a [u8], delimiter: u8) -> (r: Result<(&'a [u8], &'a [u8]), &'a str>)
    ensures
        match r {
            Ok(kv) => {
                &&& delim_pos(s@, delimiter) >= 1
                &&& kv.0@ == rec_key(s@, delimiter)
                &&& kv.1@ == rec_value_bytes(s@, delimiter)
            },
            Err(_) => delim_pos(s@, delimiter) < 1,
        },
{
    let n = s.len();
    let mut i: usize = n;
    while i > 1
        invariant
            i <= n,
            n == s@.len(),
            forall|j: int| i <= j < n ==> s@[j] != delimiter,
        decreases i,
    {
        let c = *slice_index_get(s, i - 1);
        if c == delimiter {
            let k = slice_subrange(s, 0, i - 1);
            let v = slice_subrange(s, i, n);
            proof {
                lemma_rfind_from(s@, delimiter, s@.len() - 1);
                let p = delim_pos(s@, delimiter);
                assert(p >= i - 1) by {
                    if p < i - 1 {
                        assert(s@[i - 1] != delimiter);
                    }
                }
                assert(p == i - 1);
                assert(k@ =~= rec_key(s@, delimiter));
                assert(v@ =~= rec_value_bytes(s@, delimiter));
            }
            return Ok((k, v));
        }
        i = i - 1;
    }
    proof {
        if s@.len() > 0 {
            lemma_rfind_from(s@, delimiter, s@.len() - 1);
            let p = delim_pos(s@, delimiter);
            if p >= 1 {
                assert(s@[p] != delimiter);
            }
        }
    }
    Err("Delimiter not found")
}

/// `a > (l - d) / k` says exactly that `k * a + d` overshoots `l`.
proof fn lemma_scaled_bound(a: int, l: int, d: int, k: int)
    requires
        a >= 0,
        0 <= d <= l,
        k >= 1,
    ensures
        (a > (l - d) / k) == (k * a + d > l),
{
    lemma_fundamental_div_mod(l - d, k);
    let q = (l - d) / k;
    let r = (l - d) % k;
    if a <= q {
        assert(k * a <= k * q) by (nonlinear_arith)
            requires a <= q && k >= 1;
    } else {
        assert(k * a >= k * (q + 1)) by (nonlinear_arith)
            requires a >= q + 1 && k >= 1;
        assert(k * (q + 1) == k * q + k) by (nonlinear_arith);
    }
}

fn digit_at(v: &[u8], i: usize) -> (r: bool)
    requires
        i < v@.len(),
    ensures
        r == is_digit(v@[i as int]),
{
    let c = *slice_index_get(v, i);
    48 <= c && c <= 57
}

/// Reads a value as a signed count of hundredths. The accepted shape is an
/// optional `-`, digits, and optionally one `.` with more digits; fractional
/// digits beyond the second are ignored. A value outside the symmetric
/// `i64` range is refused.
#[verifier::rlimit(50)]
pub fn parse_number(v: &[u8]) -> (r: Option<i64>)
    ensures
        match r {
            Some(x) => {
                &&& is_number(v@)
                &&& centi_in_range(number_centi(v@))
                &&& x as int == number_centi(v@)
            },
            None => !(is_number(v@) && centi_in_range(number_centi(v@))),
        },
{
    let n = v.len();
    let neg = n > 0 && *slice_index_get(v, 0) == 45;
    let start: usize = if neg { 1 } else { 0 };
    let ghost b = num_body(v@);
    proof {
        assert(b =~= v@.skip(start as int));
    }

    // The run of integer digits is v[start .. p].
    let mut p: usize = start;
    while p < n && digit_at(v, p)
        invariant
            start <= p <= n,
            n == v@.len(),
            start <= 1,
            b == v@.skip(start as int),
            forall|j: int| 0 <= j < p - start ==> is_digit(b[j]),
        decreases n - p,
    {
        p = p + 1;
    }
    proof {
        lemma_first_non_digit(b, 0);
        let f = first_non_digit(b, 0);
        assert(f == p - start) by {
            if f < p - start {
                assert(is_digit(b[f]));
            }
            if f > p - start {
                assert(!is_digit(b[p - start]));
            }
        }
    }
    if p == start {
        // no digits at all: not a number
        return None;
    }

    // The fractional digits are v[p + 1 .. n], if a point follows.
    let mut f0: u8 = 0;
    let mut f1: u8 = 0;
    if p < n {
        let c = *slice_index_get(v, p);
        if c != 46 {
            return None;
        }
        if p + 1 == n {
            return None;
        }
        let mut q: usize = p + 1;
        while q < n && digit_at(v, q)
            invariant
                p + 1 <= q <= n,
                n == v@.len(),
                start <= 1,
                start < p < n,
                b == v@.skip(start as int),
                forall|j: int| p + 1 - start <= j < q - start ==> is_digit(b[j]),
            decreases n - q,
        {
            q = q + 1;
        }
        proof {
            lemma_first_non_digit(b, p + 1 - start as int);
            let f = first_non_digit(b, p + 1 - start as int);
            assert(f == q - start) by {
                if f < q - start {
                    assert(is_digit(b[f]));
                }
                if f > q - start {
                    assert(!is_digit(b[q - start]));
                }
            }
        }
        if q < n {
            // a byte after the point that is no digit
            return None;
        }
        proof {
            assert(is_digit(b[p + 1 - start]) && b[p + 1 - start] == v@[p + 1]);
            if p + 2 < n {
                assert(is_digit(b[p + 2 - start]) && b[p + 2 - start] == v@[p + 2]);
            }
        }
        f0 = *slice_index_get(v, p + 1) - 48;
        if p + 2 < n {
            f1 = *slice_index_get(v, p + 2) - 48;
        }
        proof {
            let fd = frac_digits(b);
            assert(fd =~= b.skip(p + 1 - start as int));
            assert(fd[0] == v@[p + 1]);
            if p + 2 < n {
                assert(fd[1] == v@[p + 2]);
            }
            assert(frac_centi(fd) == 10 * (f0 as int) + f1 as int);
        }
    }
    let frac: u64 = 10 * (f0 as u64) + f1 as u64;
    proof {
        assert(is_number(v@));
        assert(frac as int == frac_centi(frac_digits(b)));
        assert(frac <= 99);
    }

    // The integer digits, with the growth capped at i64::MAX.
    let lim: u64 = i64::MAX as u64;
    let ghost ds = int_digits(b);
    proof {
        assert(ds =~= b.subrange(0, p - start as int));
        lemma_digits_num_nonneg(ds);
    }
    let mut acc: u64 = 0;
    let mut i: usize = start;
    while i < p
        invariant
            start <= i <= p <= n,
            n == v@.len(),
            start <= 1,
            b == v@.skip(start as int),
            b == num_body(v@),
            neg == is_neg(v@),
            ds == int_digits(b),
            ds.len() == p - start,
            forall|j: int| 0 <= j < ds.len() ==> is_digit(ds[j]) && ds[j] == v@[start + j],
            acc as int == digits_num(ds.take(i - start)),
            acc <= lim,
            lim == i64::MAX as u64,
            frac <= 99,
            frac as int == frac_centi(frac_digits(b)),
            is_number(v@),
        decreases p - i,
    {
        proof {
            assert(is_digit(ds[i - start]) && ds[i - start] == v@[start + (i - start)]);
        }
        let d = *slice_index_get(v, i) - 48;
        proof {
            lemma_digits_num_step(ds, i - start as int);
        }
        if acc > (lim - d as u64) / 10 {
            proof {
                lemma_scaled_bound(acc as int, lim as int, d as int, 10);
                lemma_digits_num_prefix(ds, i + 1 - start as int);
                lemma_digits_num_nonneg(ds);
                assert(digits_num(ds) > lim);
                assert(100 * digits_num(ds) >= digits_num(ds)) by (nonlinear_arith)
                    requires digits_num(ds) >= 0;
                assert(number_centi(v@) > lim || number_centi(v@) < -(lim as int));
            }
            return None;
        }
        acc = acc * 10 + d as u64;
        i = i + 1;
    }
    proof {
        assert(ds.take(p - start as int) =~= ds);
        assert(acc as int == digits_num(ds));
    }
    if acc > (lim - frac) / 100 {
        proof {
            lemma_scaled_bound(acc as int, lim as int, frac as int, 100);
            assert(number_centi(v@) > lim || number_centi(v@) < -(lim as int));
        }
        return None;
    }
    proof {
        lemma_scaled_bound(acc as int, lim as int, frac as int, 100);
    }
    let mag: u64 = acc * 100 + frac;
    let x: i64 = if neg {
        -(mag as i64)
    } else {
        mag as i64
    };
    Some(x)
}

} // verus!
