//! Per-key aggregates: what a record sequence sums to, a verified map from
//! keys to `(sum, count)` pairs, and the merge that combines aggregates.

use vstd::prelude::*;
use vstd::slice::slice_to_vec;
use crate::records::rec_key;
use crate::records::rec_val;

verus! {

/// Largest magnitude a single value may have, in hundredths.
pub open spec fn vmax() -> int {
    i64::MAX as int
}

/// One record folded into a mapping: the key's sum grows by `sv` and its
/// count by `cv`, and an absent key starts at `(sv, cv)`.
pub open spec fn merge_one(m: Map<Seq<u8>, (int, int)>, k: Seq<u8>, sv: int, cv: int) -> Map<
    Seq<u8>,
    (int, int),
> {
    if m.dom().contains(k) {
        m.insert(k, (m[k].0 + sv, m[k].1 + cv))
    } else {
        m.insert(k, (sv, cv))
    }
}

/// One record with value `v` folded into a mapping.
pub open spec fn upd_map(m: Map<Seq<u8>, (int, int)>, k: Seq<u8>, v: int) -> Map<
    Seq<u8>,
    (int, int),
> {
    merge_one(m, k, v, 1)
}

/// The aggregate a record sequence denotes, record by record.
pub open spec fn agg_of(rs: Seq<Seq<u8>>, d: u8) -> Map<Seq<u8>, (int, int)>
    decreases rs.len(),
{
    if rs.len() == 0 {
        Map::empty()
    } else {
        upd_map(agg_of(rs.drop_last(), d), rec_key(rs.last(), d), rec_val(rs.last(), d))
    }
}

/// Two aggregates combined: sums and counts added key by key.
pub open spec fn merge_maps(m1: Map<Seq<u8>, (int, int)>, m2: Map<Seq<u8>, (int, int)>) -> Map<
    Seq<u8>,
    (int, int),
> {
    Map::new(
        |k: Seq<u8>| m1.dom().contains(k) || m2.dom().contains(k),
        |k: Seq<u8>|
            if m1.dom().contains(k) && m2.dom().contains(k) {
                (m1[k].0 + m2[k].0, m1[k].1 + m2[k].1)
            } else if m2.dom().contains(k) {
                m2[k]
            } else {
                m1[k]
            },
    )
}

pub proof fn lemma_merge_maps_empty(m: Map<Seq<u8>, (int, int)>)
    ensures
        merge_maps(m, Map::empty()) == m,
        merge_maps(Map::empty(), m) == m,
{
    assert(merge_maps(m, Map::empty()) =~= m);
    assert(merge_maps(Map::empty(), m) =~= m);
}

/// Folding a record into the right side of a merge, or into the merge
/// itself, is the same thing.
pub proof fn lemma_merge_maps_one(
    m1: Map<Seq<u8>, (int, int)>,
    m2: Map<Seq<u8>, (int, int)>,
    k: Seq<u8>,
    sv: int,
    cv: int,
)
    ensures
        merge_maps(m1, merge_one(m2, k, sv, cv)) == merge_one(merge_maps(m1, m2), k, sv, cv),
{
    assert(merge_maps(m1, merge_one(m2, k, sv, cv)) =~= merge_one(merge_maps(m1, m2), k, sv, cv));
}

/// The aggregate of concatenated record sequences is the merge of their
/// aggregates: partial sums add up to the whole.
pub proof fn lemma_agg_of_append(rs1: Seq<Seq<u8>>, rs2: Seq<Seq<u8>>, d: u8)
    ensures
        agg_of(rs1 + rs2, d) == merge_maps(agg_of(rs1, d), agg_of(rs2, d)),
    decreases rs2.len(),
{
    if rs2.len() == 0 {
        assert(rs1 + rs2 =~= rs1);
        lemma_merge_maps_empty(agg_of(rs1, d));
        assert(agg_of(rs2, d) =~= Map::<Seq<u8>, (int, int)>::empty());
    } else {
        let rs2x = rs2.drop_last();
        let r = rs2.last();
        lemma_agg_of_append(rs1, rs2x, d);
        assert((rs1 + rs2).drop_last() =~= rs1 + rs2x);
        assert((rs1 + rs2).last() == r);
        lemma_merge_maps_one(agg_of(rs1, d), agg_of(rs2x, d), rec_key(r, d), rec_val(r, d), 1);
    }
}

/// How many records of the sequence carry key `k`.
pub open spec fn key_count(rs: Seq<Seq<u8>>, d: u8, k: Seq<u8>) -> int
    decreases rs.len(),
{
    if rs.len() == 0 {
        0
    } else {
        key_count(rs.drop_last(), d, k) + if rec_key(rs.last(), d) == k {
            1int
        } else {
            0int
        }
    }
}

/// The sum of the values of the records that carry key `k`.
pub open spec fn key_sum(rs: Seq<Seq<u8>>, d: u8, k: Seq<u8>) -> int
    decreases rs.len(),
{
    if rs.len() == 0 {
        0
    } else {
        key_sum(rs.drop_last(), d, k) + if rec_key(rs.last(), d) == k {
            rec_val(rs.last(), d)
        } else {
            0int
        }
    }
}

/// For every key, the aggregate holds exactly the number of records with
/// that key and the sum of their values; a key is present exactly when some
/// record carries it.
pub proof fn lemma_agg_of_counts(rs: Seq<Seq<u8>>, d: u8, k: Seq<u8>)
    ensures
        key_count(rs, d, k) >= 0,
        key_count(rs, d, k) == 0 ==> key_sum(rs, d, k) == 0,
        agg_of(rs, d).dom().contains(k) <==> key_count(rs, d, k) >= 1,
        agg_of(rs, d).dom().contains(k) ==> agg_of(rs, d)[k] == (
            key_sum(rs, d, k),
            key_count(rs, d, k),
        ),
    decreases rs.len(),
{
    if rs.len() > 0 {
        lemma_agg_of_counts(rs.drop_last(), d, k);
    }
}

/// One key with the running sum of its values (in hundredths) and the count
/// of the records that carried it.
#[derive(Debug)]
pub struct Entry {
    pub key: Vec<u8>,
    pub sum: i128,
    pub count: u64,
}

/// The mapping an entry sequence denotes, later entries winning.
pub open spec fn entries_map(s: Seq<Entry>) -> Map<Seq<u8>, (int, int)>
    decreases s.len(),
{
    if s.len() == 0 {
        Map::empty()
    } else {
        entries_map(s.drop_last()).insert(
            s.last().key@,
            (s.last().sum as int, s.last().count as int),
        )
    }
}

/// How many records an entry sequence accounts for.
pub open spec fn total_of(s: Seq<Entry>) -> int
    decreases s.len(),
{
    if s.len() == 0 {
        0
    } else {
        total_of(s.drop_last()) + s.last().count as int
    }
}

/// No key occurs twice.
pub open spec fn keys_unique(s: Seq<Entry>) -> bool {
    forall|i: int, j: int| 0 <= i < j < s.len() ==> s[i].key@ != s[j].key@
}

/// Every entry counts at least one record, and its sum stays within what
/// that many in-range values can reach.
pub open spec fn entries_wf(s: Seq<Entry>) -> bool {
    forall|i: int|
        0 <= i < s.len() ==> (#[trigger] s[i]).count >= 1 && -((s[i].count as int) * vmax())
            <= s[i].sum as int <= (s[i].count as int) * vmax()
}

/// With unique keys, the mapping reads off the entries: each entry is in the
/// map, and everything in the map comes from an entry.
pub proof fn lemma_entries_map(s: Seq<Entry>)
    requires
        keys_unique(s),
    ensures
        forall|i: int|
            0 <= i < s.len() ==> entries_map(s).dom().contains((#[trigger] s[i]).key@)
                && entries_map(s)[s[i].key@] == (s[i].sum as int, s[i].count as int),
        forall|k: Seq<u8>|
            entries_map(s).dom().contains(k) ==> exists|i: int|
                0 <= i < s.len() && (#[trigger] s[i]).key@ == k,
    decreases s.len(),
{
    if s.len() > 0 {
        let sx = s.drop_last();
        lemma_entries_map(sx);
        assert(forall|i: int| 0 <= i < sx.len() ==> sx[i] == s[i]);
        assert forall|k: Seq<u8>| entries_map(s).dom().contains(k) implies exists|i: int|
            0 <= i < s.len() && (#[trigger] s[i]).key@ == k by {
            if k == s.last().key@ {
                assert(0 <= s.len() - 1 < s.len() && s[s.len() - 1].key@ == k);
            } else {
                assert(entries_map(sx).dom().contains(k));
                let i = choose|i: int| 0 <= i < sx.len() && (#[trigger] sx[i]).key@ == k;
                assert(0 <= i < s.len() && s[i].key@ == k);
            }
        }
        assert forall|i: int|
            0 <= i < s.len() implies entries_map(s).dom().contains((#[trigger] s[i]).key@)
            && entries_map(s)[s[i].key@] == (s[i].sum as int, s[i].count as int) by {
            if i < s.len() - 1 {
                assert(sx[i] == s[i]);
                assert(s[i].key@ != s.last().key@);
            }
        }
    }
}

/// Each count takes part in the total.
pub proof fn lemma_count_le_total(s: Seq<Entry>, i: int)
    requires
        entries_wf(s),
        0 <= i < s.len(),
    ensures
        1 <= s[i].count as int <= total_of(s),
        total_of(s) >= 0,
    decreases s.len(),
{
    lemma_total_nonneg(s.drop_last());
    if i < s.len() - 1 {
        lemma_count_le_total(s.drop_last(), i);
    }
}

pub proof fn lemma_total_nonneg(s: Seq<Entry>)
    requires
        entries_wf(s),
    ensures
        total_of(s) >= 0,
    decreases s.len(),
{
    if s.len() > 0 {
        lemma_total_nonneg(s.drop_last());
    }
}

/// Replacing the entry at `i` by one with the same key rewrites just that
/// key's pair in the mapping.
pub proof fn lemma_entries_map_update(s: Seq<Entry>, i: int, e: Entry)
    requires
        keys_unique(s),
        0 <= i < s.len(),
        e.key@ == s[i].key@,
    ensures
        entries_map(s.update(i, e)) == entries_map(s).insert(
            e.key@,
            (e.sum as int, e.count as int),
        ),
        keys_unique(s.update(i, e)),
        total_of(s.update(i, e)) == total_of(s) - s[i].count as int + e.count as int,
    decreases s.len(),
{
    let t = s.update(i, e);
    if i == s.len() - 1 {
        assert(t.drop_last() =~= s.drop_last());
        assert(t.last() == e);
    } else {
        lemma_entries_map_update(s.drop_last(), i, e);
        assert(t.drop_last() =~= s.drop_last().update(i, e));
        assert(t.last() == s.last());
        assert(e.key@ != s.last().key@);
        assert(entries_map(s.drop_last()).insert(e.key@, (e.sum as int, e.count as int)).insert(
            s.last().key@,
            (s.last().sum as int, s.last().count as int),
        ) =~= entries_map(s.drop_last()).insert(
            s.last().key@,
            (s.last().sum as int, s.last().count as int),
        ).insert(e.key@, (e.sum as int, e.count as int)));
    }
}

/// Sums of in-range contributions stay within their counted bound, which in
/// turn stays far inside `i128`.
proof fn lemma_sum_merge_bound(c1: int, s1: int, c2: int, s2: int)
    requires
        c1 >= 0,
        c2 >= 0,
        -(c1 * vmax()) <= s1 <= c1 * vmax(),
        -(c2 * vmax()) <= s2 <= c2 * vmax(),
        c1 + c2 <= u64::MAX as int,
    ensures
        -((c1 + c2) * vmax()) <= s1 + s2 <= (c1 + c2) * vmax(),
        -(i128::MAX as int) < s1 + s2 < i128::MAX as int,
{
    assert((c1 + c2) * vmax() == c1 * vmax() + c2 * vmax()) by (nonlinear_arith);
    assert((c1 + c2) * vmax() <= (u64::MAX as int) * vmax()) by (nonlinear_arith)
        requires
            c1 + c2 <= u64::MAX as int,
            vmax() >= 0,
    ;
    assert((u64::MAX as int) * vmax() < i128::MAX as int) by (nonlinear_arith);
}

/// A per-key aggregate: the verified map from keys to `(sum, count)`.
#[derive(Debug)]
pub struct Aggregate {
    entries: Vec<Entry>,
}

impl View for Aggregate {
    type V = Map<Seq<u8>, (int, int)>;

    closed spec fn view(&self) -> Map<Seq<u8>, (int, int)> {
        entries_map(self.entries@)
    }
}

impl Aggregate {
    /// How many records this aggregate accounts for.
    pub closed spec fn total(&self) -> int {
        total_of(self.entries@)
    }

    pub closed spec fn wf(&self) -> bool {
        keys_unique(self.entries@) && entries_wf(self.entries@)
    }

    pub proof fn lemma_total_nonneg_self(&self)
        requires
            self.wf(),
        ensures
            self.total() >= 0,
    {
        lemma_total_nonneg(self.entries@);
    }

    /// An empty aggregate: no keys, no records.
    pub fn new() -> (r: Aggregate)
        ensures
            r.wf(),
            r@ == Map::<Seq<u8>, (int, int)>::empty(),
            r.total() == 0,
    {
        Aggregate { entries: Vec::new() }
    }

    /// Folds `count` records with key `key`, summing to `sum`, into the
    /// aggregate.
    fn add_pair(&mut self, key: &[u8], sum: i128, count: u64)
        requires
            old(self).wf(),
            count >= 1,
            -((count as int) * vmax()) <= sum as int <= (count as int) * vmax(),
            old(self).total() + count as int <= u64::MAX as int,
        ensures
            final(self).wf(),
            final(self)@ == merge_one(old(self)@, key@, sum as int, count as int),
            final(self).total() == old(self).total() + count as int,
    {
        proof {
            lemma_entries_map(self.entries@);
        }
        let n = self.entries.len();
        let mut i: usize = 0;
        while i < n
            invariant
                i <= n,
                n == self.entries@.len(),
                *self == *old(self),
                self.wf(),
                count >= 1,
                -((count as int) * vmax()) <= sum as int <= (count as int) * vmax(),
                self.total() + count as int <= u64::MAX as int,
                forall|j: int| 0 <= j < i ==> (#[trigger] self.entries@[j]).key@ != key@,
            decreases n - i,
        {
            if bytes_eq(self.entries[i].key.as_slice(), key) {
                let ghost s0 = self.entries@;
                proof {
                    lemma_count_le_total(s0, i as int);
                    lemma_sum_merge_bound(
                        s0[i as int].count as int,
                        s0[i as int].sum as int,
                        count as int,
                        sum as int,
                    );
                }
                let cur_sum = self.entries[i].sum;
                let cur_count = self.entries[i].count;
                let new_key = slice_to_vec(key);
                self.entries[i] = Entry { key: new_key, sum: cur_sum + sum, count: cur_count
                    + count };
                proof {
                    lemma_entries_map(s0);
                    lemma_entries_map_update(s0, i as int, self.entries@[i as int]);
                    assert(entries_wf(self.entries@)) by {
                        assert forall|j: int|
                            0 <= j < self.entries@.len() implies (#[trigger] self.entries@[j]).count
                            >= 1 && -((self.entries@[j].count as int) * vmax())
                            <= self.entries@[j].sum as int <= (self.entries@[j].count as int)
                            * vmax() by {
                            if j != i {
                                assert(self.entries@[j] == s0[j]);
                            }
                        }
                    }
                }
                return ;
            }
            i = i + 1;
        }
        proof {
            if old(self)@.dom().contains(key@) {
                let j = choose|j: int|
                    0 <= j < self.entries@.len() && (#[trigger] self.entries@[j]).key@ == key@;
                assert(false);
            }
            lemma_total_nonneg(self.entries@);
        }
        let ghost s0 = self.entries@;
        self.entries.push(Entry { key: slice_to_vec(key), sum, count });
        proof {
            assert(self.entries@.drop_last() =~= s0);
            assert(self.entries@.last() == self.entries@[s0.len() as int]);
            assert(entries_wf(self.entries@)) by {
                assert forall|j: int|
                    0 <= j < self.entries@.len() implies (#[trigger] self.entries@[j]).count >= 1
                    && -((self.entries@[j].count as int) * vmax()) <= self.entries@[j].sum as int
                    <= (self.entries@[j].count as int) * vmax() by {
                    if j < s0.len() {
                        assert(self.entries@[j] == s0[j]);
                    }
                }
            }
            assert(keys_unique(self.entries@)) by {
                assert forall|a: int, b: int|
                    0 <= a < b < self.entries@.len() implies self.entries@[a].key@
                    != self.entries@[b].key@ by {
                    if b < s0.len() {
                        assert(self.entries@[a] == s0[a] && self.entries@[b] == s0[b]);
                    } else {
                        assert(self.entries@[a] == s0[a]);
                    }
                }
            }
        }
    }

    /// The number of records this aggregate accounts for, when that number
    /// is representable.
    pub fn total_count(&self) -> (r: Option<u64>)
        requires
            self.wf(),
        ensures
            match r {
                Some(t) => t as int == self.total(),
                None => self.total() > u64::MAX as int,
            },
    {
        let n = self.entries.len();
        let mut acc: u64 = 0;
        let mut i: usize = 0;
        proof {
            assert(self.entries@.take(0) =~= Seq::<Entry>::empty());
        }
        while i < n
            invariant
                0 <= i <= n,
                n == self.entries@.len(),
                keys_unique(self.entries@),
                entries_wf(self.entries@),
                acc as int == total_of(self.entries@.take(i as int)),
            decreases n - i,
        {
            proof {
                lemma_total_take_split(self.entries@, i as int);
                assert(entries_wf(self.entries@.skip(i as int + 1))) by {
                    assert forall|j: int|
                        0 <= j < self.entries@.skip(i as int + 1).len() implies (
                        #[trigger] self.entries@.skip(i as int + 1)[j]).count >= 1 && -((
                        self.entries@.skip(i as int + 1)[j].count as int) * vmax())
                        <= self.entries@.skip(i as int + 1)[j].sum as int <= (self.entries@.skip(
                        i as int + 1,
                    )[j].count as int) * vmax() by {
                        assert(self.entries@.skip(i as int + 1)[j] == self.entries@[i + 1 + j]);
                    }
                }
                lemma_total_nonneg(self.entries@.skip(i as int + 1));
            }
            let c = self.entries[i].count;
            match acc.checked_add(c) {
                Some(x) => {
                    acc = x;
                },
                None => {
                    return None;
                },
            }
            i = i + 1;
        }
        proof {
            assert(self.entries@.take(n as int) =~= self.entries@);
        }
        Some(acc)
    }

    /// Merges when the combined record count stays representable, and says
    /// whether it did. Aggregates scanned from one byte view can never trip
    /// the bound, but a caller outside the proofs cannot know that.
    pub fn try_merge(&mut self, other: &Aggregate) -> (ok: bool)
        requires
            old(self).wf(),
            other.wf(),
        ensures
            final(self).wf(),
            ok == (old(self).total() + other.total() <= u64::MAX as int),
            ok ==> final(self)@ == merge_maps(old(self)@, other@) && final(self).total()
                == old(self).total() + other.total(),
            !ok ==> *final(self) == *old(self),
    {
        proof {
            lemma_total_nonneg(self.entries@);
            lemma_total_nonneg(other.entries@);
        }
        let a = match self.total_count() {
            Some(a) => a,
            None => {
                return false;
            },
        };
        let b = match other.total_count() {
            Some(b) => b,
            None => {
                return false;
            },
        };
        match a.checked_add(b) {
            Some(_) => {
                self.merge(other);
                true
            },
            None => false,
        }
    }

    /// Hands the entries out, for sorting and reporting.
    pub fn into_entries(self) -> (v: Vec<Entry>)
        requires
            self.wf(),
        ensures
            keys_unique(v@),
            entries_wf(v@),
            entries_map(v@) == self@,
            total_of(v@) == self.total(),
    {
        self.entries
    }

    /// Folds one record's value into the aggregate.
    pub fn add_record(&mut self, key: &[u8], value: i64)
        requires
            old(self).wf(),
            -vmax() <= value as int,
            old(self).total() < u64::MAX as int,
        ensures
            final(self).wf(),
            final(self)@ == upd_map(old(self)@, key@, value as int),
            final(self).total() == old(self).total() + 1,
    {
        self.add_pair(key, value as i128, 1);
    }

    /// Folds another aggregate into this one, key by key. The order of the
    /// two sides does not matter: sums and counts add up per key.
    pub fn merge(&mut self, other: &Aggregate)
        requires
            old(self).wf(),
            other.wf(),
            old(self).total() + other.total() <= u64::MAX as int,
        ensures
            final(self).wf(),
            final(self)@ == merge_maps(old(self)@, other@),
            final(self).total() == old(self).total() + other.total(),
    {
        let n = other.entries.len();
        let mut i: usize = 0;
        proof {
            lemma_merge_maps_empty(old(self)@);
            assert(other.entries@.take(0) =~= Seq::<Entry>::empty());
            assert(entries_map(other.entries@.take(0)) =~= Map::<Seq<u8>, (int, int)>::empty());
        }
        while i < n
            invariant
                i <= n,
                n == other.entries@.len(),
                other.wf(),
                keys_unique(other.entries@),
                entries_wf(other.entries@),
                self.wf(),
                self@ == merge_maps(old(self)@, entries_map(other.entries@.take(i as int))),
                self.total() == old(self).total() + total_of(other.entries@.take(i as int)),
                old(self).total() + other.total() <= u64::MAX as int,
                other.total() == total_of(other.entries@),
            decreases n - i,
        {
            let ghost t = other.entries@.take(i as int);
            let e = &other.entries[i];
            proof {
                assert(e.count >= 1 && -((e.count as int) * vmax()) <= e.sum as int <= (
                e.count as int) * vmax()) by {
                    assert(other.entries@[i as int] == *e);
                }
                lemma_total_take_split(other.entries@, i as int);
                lemma_total_nonneg(other.entries@.skip(i as int + 1));
                assert(entries_wf(other.entries@.skip(i as int + 1))) by {
                    assert forall|j: int|
                        0 <= j < other.entries@.skip(i as int + 1).len() implies (
                        #[trigger] other.entries@.skip(i as int + 1)[j]).count >= 1 && -((
                        other.entries@.skip(i as int + 1)[j].count as int) * vmax())
                        <= other.entries@.skip(i as int + 1)[j].sum as int <= (other.entries@.skip(
                        i as int + 1,
                    )[j].count as int) * vmax() by {
                        assert(other.entries@.skip(i as int + 1)[j] == other.entries@[i + 1 + j]);
                    }
                }
                lemma_total_nonneg(t);
            }
            self.add_pair(e.key.as_slice(), e.sum, e.count);
            proof {
                lemma_merge_maps_one(old(self)@, entries_map(t), e.key@, e.sum as int, e.count as int);
                assert(other.entries@.take(i as int + 1).drop_last() =~= t);
                assert(other.entries@.take(i as int + 1).last() == other.entries@[i as int]);
                assert(entries_map(other.entries@.take(i as int + 1)) == merge_one_entry(
                    entries_map(t),
                    other.entries@[i as int],
                )) by {
                    assert(entries_map(other.entries@.take(i as int + 1)) == entries_map(t).insert(
                        other.entries@[i as int].key@,
                        (
                            other.entries@[i as int].sum as int,
                            other.entries@[i as int].count as int,
                        ),
                    ));
                    if entries_map(t).dom().contains(e.key@) {
                        lemma_entries_map(t);
                        let j = choose|j: int|
                            0 <= j < t.len() && (#[trigger] t[j]).key@ == e.key@;
                        assert(t[j] == other.entries@[j]);
                        assert(false);
                    }
                }
            }
            i = i + 1;
        }
        proof {
            assert(other.entries@.take(n as int) =~= other.entries@);
        }
    }
}

/// The entry folded into a mapping as `merge_one` sees it.
pub open spec fn merge_one_entry(m: Map<Seq<u8>, (int, int)>, e: Entry) -> Map<Seq<u8>, (int, int)> {
    merge_one(m, e.key@, e.sum as int, e.count as int)
}

/// A prefix, one entry, and the rest account for the whole total.
pub proof fn lemma_total_take_split(s: Seq<Entry>, i: int)
    requires
        0 <= i < s.len(),
    ensures
        total_of(s) == total_of(s.take(i)) + s[i].count as int + total_of(s.skip(i + 1)),
        total_of(s.take(i + 1)) == total_of(s.take(i)) + s[i].count as int,
    decreases s.len(),
{
    if i == s.len() - 1 {
        assert(s.take(i) =~= s.drop_last());
        assert(s.take(i + 1) =~= s);
        assert(s.skip(i + 1) =~= Seq::<Entry>::empty());
    } else {
        lemma_total_take_split(s.drop_last(), i);
        assert(s.drop_last().take(i) =~= s.take(i));
        assert(s.drop_last().take(i + 1) =~= s.take(i + 1));
        assert(s.drop_last().skip(i + 1) =~= s.skip(i + 1).drop_last());
        assert(s.skip(i + 1).last() == s.last());
    }
}

/// Byte-for-byte equality of two slices.
pub fn bytes_eq(a: &[u8], b: &[u8]) -> (r: bool)
    ensures
        r == (a@ == b@),
{
    if a.len() != b.len() {
        return false;
    }
    let n = a.len();
    let mut i: usize = 0;
    while i < n
        invariant
            i <= n,
            n == a@.len(),
            a@.len() == b@.len(),
            forall|j: int| 0 <= j < i ==> a@[j] == b@[j],
        decreases n - i,
    {
        if *vstd::slice::slice_index_get(a, i) != *vstd::slice::slice_index_get(b, i) {
            return false;
        }
        i = i + 1;
    }
    proof {
        assert(a@ =~= b@);
    }
    true
}

} // verus!
