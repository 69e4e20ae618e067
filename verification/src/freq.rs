//! Frequency aggregation: a map from day index to commit count with
//! ascending iteration order, the edge-bound injection, gap filling, and
//! the space-separated rendering of the counts.

use vstd::prelude::*;

use crate::bounds::Bounds;
use crate::bounds::filtered_days;
use crate::bounds::split_lines_spec;
use crate::date::Date;
use crate::date::lemma_days_before_year_bounds;
use crate::date::max_day_index;
use crate::digits::dec_chars;
use crate::digits::u64_to_string;
use vstd::math::abs;

verus! {

/// Keys strictly ascend: each day appears once, in calendar order.
pub open spec fn sorted(s: Seq<(i64, u64)>) -> bool {
    forall|i: int, j: int| 0 <= i < j < s.len() ==> s[i].0 < s[j].0
}

/// The count recorded for day `k`; zero when the day is absent.
pub open spec fn count_of(s: Seq<(i64, u64)>, k: i64) -> int
    decreases s.len(),
{
    if s.len() == 0 {
        0
    } else if s[0].0 == k {
        s[0].1 as int
    } else {
        count_of(s.skip(1), k)
    }
}

/// Whether day `k` is present.
pub open spec fn has_day(s: Seq<(i64, u64)>, k: i64) -> bool {
    exists|i: int| 0 <= i < s.len() && s[i].0 == k
}

/// All keys lie in `lo..=hi`.
pub open spec fn keys_in(s: Seq<(i64, u64)>, lo: int, hi: int) -> bool {
    forall|i: int| 0 <= i < s.len() ==> lo <= #[trigger] s[i].0 <= hi
}

/// The entries after one more observation of day `k`: its count grows by
/// one, a first observation enters with count one, order is kept.
pub open spec fn spec_increment(s: Seq<(i64, u64)>, k: i64) -> Seq<(i64, u64)>
    decreases s.len(),
{
    if s.len() == 0 {
        seq![(k, 1u64)]
    } else if k < s[0].0 {
        seq![(k, 1u64)] + s
    } else if k == s[0].0 {
        seq![(s[0].0, (s[0].1 + 1) as u64)] + s.skip(1)
    } else {
        seq![s[0]] + spec_increment(s.skip(1), k)
    }
}

/// The entries after forcing day `k` to be present: an absent day enters
/// with count zero, a present one is untouched.
pub open spec fn spec_insert_zero(s: Seq<(i64, u64)>, k: i64) -> Seq<(i64, u64)>
    decreases s.len(),
{
    if s.len() == 0 {
        seq![(k, 0u64)]
    } else if k < s[0].0 {
        seq![(k, 0u64)] + s
    } else if k == s[0].0 {
        s
    } else {
        seq![s[0]] + spec_insert_zero(s.skip(1), k)
    }
}

/// The frequency map of a run of observed days.
pub open spec fn counted(ds: Seq<Date>) -> Seq<(i64, u64)>
    decreases ds.len(),
{
    if ds.len() == 0 {
        Seq::empty()
    } else {
        spec_increment(counted(ds.drop_last()), ds.last().index() as i64)
    }
}

pub proof fn lemma_sorted_skip(s: Seq<(i64, u64)>)
    requires
        sorted(s),
        s.len() > 0,
    ensures
        sorted(s.skip(1)),
{
    assert(forall|a: int, b: int|
        0 <= a < b < s.skip(1).len() ==> s.skip(1)[a] == s[a + 1] && s.skip(1)[b] == s[b + 1]);
}

pub proof fn lemma_count_of_at(s: Seq<(i64, u64)>, i: int)
    requires
        sorted(s),
        0 <= i < s.len(),
    ensures
        count_of(s, s[i].0) == s[i].1 as int,
        has_day(s, s[i].0),
    decreases i,
{
    if i > 0 {
        assert(s.skip(1)[i - 1] == s[i]);
        assert(sorted(s.skip(1))) by {
            assert(forall|a: int, b: int|
                0 <= a < b < s.skip(1).len() ==> s.skip(1)[a] == s[a + 1] && s.skip(1)[b] == s[b
                    + 1]);
        }
        lemma_count_of_at(s.skip(1), i - 1);
    }
}

pub proof fn lemma_count_of_absent(s: Seq<(i64, u64)>, k: i64)
    requires
        !has_day(s, k),
    ensures
        count_of(s, k) == 0,
    decreases s.len(),
{
    if s.len() > 0 {
        assert(forall|i: int| 0 <= i < s.skip(1).len() ==> s.skip(1)[i] == s[i + 1]);
        lemma_count_of_absent(s.skip(1), k);
    }
}

/// One observation raises the observed day's count by one and no other.
pub proof fn lemma_increment_count(s: Seq<(i64, u64)>, k: i64, q: i64)
    requires
        sorted(s),
        count_of(s, k) < u64::MAX,
    ensures
        q == k ==> count_of(spec_increment(s, k), q) == count_of(s, k) + 1,
        q != k ==> count_of(spec_increment(s, k), q) == count_of(s, q),
    decreases s.len(),
{
    let r = spec_increment(s, k);
    if s.len() == 0 {
        assert(r.skip(1) =~= Seq::<(i64, u64)>::empty());
        assert(r[0] == (k, 1u64));
        assert(count_of(Seq::<(i64, u64)>::empty(), q) == 0);
    } else if k < s[0].0 {
        assert(r.skip(1) =~= s);
        assert(r[0] == (k, 1u64));
        assert(!has_day(s, k)) by {
            assert forall|i: int| 0 <= i < s.len() implies s[i].0 != k by {
                if i > 0 {
                    assert(s[0].0 < s[i].0);
                }
            }
        }
        lemma_count_of_absent(s, k);
    } else if k == s[0].0 {
        assert(r.skip(1) =~= s.skip(1));
        assert(r[0] == (s[0].0, (s[0].1 + 1) as u64));
    } else {
        lemma_sorted_skip(s);
        lemma_increment_count(s.skip(1), k, q);
        assert(r.skip(1) =~= spec_increment(s.skip(1), k));
        assert(r[0] == s[0]);
    }
}

/// Counts never go negative, and never exceed the number of observations.
pub proof fn lemma_counted_count_bounds(ds: Seq<Date>, q: i64)
    requires
        ds.len() <= u64::MAX,
    ensures
        0 <= count_of(counted(ds), q) <= ds.len(),
    decreases ds.len(),
{
    if ds.len() > 0 {
        let k = ds.last().index() as i64;
        lemma_counted_sorted(ds.drop_last());
        lemma_counted_count_bounds(ds.drop_last(), q);
        lemma_counted_count_bounds(ds.drop_last(), k);
        lemma_increment_count(counted(ds.drop_last()), k, q);
    }
}

/// A counted run is a well-formed map: keys strictly ascend.
pub proof fn lemma_counted_sorted(ds: Seq<Date>)
    ensures
        sorted(counted(ds)),
    decreases ds.len(),
{
    if ds.len() > 0 {
        lemma_counted_sorted(ds.drop_last());
        lemma_increment_sorted(counted(ds.drop_last()), ds.last().index() as i64);
    }
}

pub proof fn lemma_increment_sorted(s: Seq<(i64, u64)>, k: i64)
    requires
        sorted(s),
    ensures
        sorted(spec_increment(s, k)),
    decreases s.len(),
{
    let r = spec_increment(s, k);
    if s.len() == 0 {
    } else if k < s[0].0 {
    } else if k == s[0].0 {
    } else {
        assert(sorted(s.skip(1))) by {
            assert(forall|a: int, b: int|
                0 <= a < b < s.skip(1).len() ==> s.skip(1)[a] == s[a + 1] && s.skip(1)[b] == s[b
                    + 1]);
        }
        lemma_increment_sorted(s.skip(1), k);
        lemma_increment_keys_lower(s.skip(1), k);
        assert(forall|i: int| 0 <= i < r.len() - 1 ==> r[i + 1] == spec_increment(s.skip(1), k)[i]);
    }
}

/// Every key of the incremented map is an old key or the new one.
proof fn lemma_increment_keys_lower(s: Seq<(i64, u64)>, k: i64)
    ensures
        forall|i: int|
            0 <= i < spec_increment(s, k).len() ==> (#[trigger] spec_increment(s, k)[i].0 == k || (
            exists|j: int| 0 <= j < s.len() && s[j].0 == #[trigger] spec_increment(s, k)[i].0)),
    decreases s.len(),
{
    let r = spec_increment(s, k);
    if s.len() == 0 {
    } else if k < s[0].0 {
        assert(forall|i: int| 1 <= i < r.len() ==> r[i] == s[i - 1]);
    } else if k == s[0].0 {
        assert(forall|i: int| 1 <= i < r.len() ==> r[i] == s[i]);
    } else {
        lemma_increment_keys_lower(s.skip(1), k);
        assert forall|i: int| 1 <= i < r.len() implies (r[i].0 == k || (exists|j: int|
            0 <= j < s.len() && s[j].0 == r[i].0)) by {
            assert(r[i] == spec_increment(s.skip(1), k)[i - 1]);
            if r[i].0 != k {
                let j = choose|j: int| 0 <= j < s.skip(1).len() && s.skip(1)[j].0 == r[i].0;
                assert(s[j + 1].0 == r[i].0);
            }
        }
    }
}

pub proof fn lemma_increment_keys(s: Seq<(i64, u64)>, k: i64, lo: int, hi: int)
    requires
        keys_in(s, lo, hi),
        lo <= k <= hi,
    ensures
        keys_in(spec_increment(s, k), lo, hi),
{
    lemma_increment_keys_lower(s, k);
}

pub proof fn lemma_insert_zero_sorted(s: Seq<(i64, u64)>, k: i64)
    requires
        sorted(s),
    ensures
        sorted(spec_insert_zero(s, k)),
        spec_insert_zero(s, k).len() == if has_day(s, k) {
            s.len() as int
        } else {
            s.len() + 1 as int
        },
        forall|q: i64| #[trigger]
            count_of(spec_insert_zero(s, k), q) == if q == k && !has_day(s, k) {
                0
            } else {
                count_of(s, q)
            },
        has_day(spec_insert_zero(s, k), k),
        forall|q: i64| has_day(s, q) ==> has_day(spec_insert_zero(s, k), q),
    decreases s.len(),
{
    let r = spec_insert_zero(s, k);
    if s.len() == 0 {
        assert(r.skip(1) =~= Seq::<(i64, u64)>::empty());
        assert(r[0] == (k, 0u64));
        assert(forall|q: i64| count_of(Seq::<(i64, u64)>::empty(), q) == 0);
        assert(has_day(r, k)) by {
            assert(r[0].0 == k);
        }
        assert forall|q: i64| #[trigger]
            count_of(r, q) == if q == k && !has_day(s, k) {
                0int
            } else {
                count_of(s, q)
            } by {
            if q != k {
                assert(count_of(r, q) == count_of(r.skip(1), q));
            }
        }
    } else if k < s[0].0 {
        assert(r.skip(1) =~= s);
        assert(r[0] == (k, 0u64));
        assert(!has_day(s, k)) by {
            assert forall|i: int| 0 <= i < s.len() implies s[i].0 != k by {
                if i > 0 {
                    assert(s[0].0 < s[i].0);
                }
            }
        }
        assert(has_day(r, k)) by {
            assert(r[0].0 == k);
        }
        assert forall|q: i64| has_day(s, q) implies has_day(r, q) by {
            let j = choose|j: int| 0 <= j < s.len() && s[j].0 == q;
            assert(r[j + 1].0 == q);
        }
        assert forall|q: i64| #[trigger]
            count_of(r, q) == if q == k && !has_day(s, k) {
                0int
            } else {
                count_of(s, q)
            } by {
            if q != k {
                assert(count_of(r, q) == count_of(r.skip(1), q));
            }
        }
    } else if k == s[0].0 {
        assert(has_day(s, k)) by {
            assert(s[0].0 == k);
        }
        assert(forall|q: i64| #[trigger] count_of(r, q) == count_of(s, q));
    } else {
        assert(sorted(s.skip(1))) by {
            assert(forall|a: int, b: int|
                0 <= a < b < s.skip(1).len() ==> s.skip(1)[a] == s[a + 1] && s.skip(1)[b] == s[b
                    + 1]);
        }
        lemma_insert_zero_sorted(s.skip(1), k);
        let rr = spec_insert_zero(s.skip(1), k);
        assert(r.skip(1) =~= rr);
        assert(forall|i: int| 1 <= i < r.len() ==> r[i] == rr[i - 1]);
        // Presence of k in s is presence in its tail, since s[0].0 < k.
        assert(has_day(s, k) <==> has_day(s.skip(1), k)) by {
            if has_day(s, k) {
                let j = choose|j: int| 0 <= j < s.len() && s[j].0 == k;
                assert(j > 0);
                assert(s.skip(1)[j - 1].0 == k);
            }
            if has_day(s.skip(1), k) {
                let j = choose|j: int| 0 <= j < s.skip(1).len() && s.skip(1)[j].0 == k;
                assert(s[j + 1].0 == k);
            }
        }
        // Sortedness of the result: every later key exceeds the head's.
        assert forall|i: int| 0 <= i < rr.len() implies rr[i].0 > s[0].0 by {
            assert(count_of(rr, rr[i].0) == if rr[i].0 == k && !has_day(s.skip(1), k) {
                0int
            } else {
                count_of(s.skip(1), rr[i].0)
            });
            if rr[i].0 != k {
                // rr's keys are s.skip(1)'s keys plus possibly k
                lemma_insert_zero_keys_lower(s.skip(1), k);
                let j = choose|j: int| 0 <= j < s.skip(1).len() && s.skip(1)[j].0 == rr[i].0;
                assert(s[j + 1].0 == rr[i].0);
            }
        }
        assert(has_day(r, k)) by {
            let j = choose|j: int| 0 <= j < rr.len() && rr[j].0 == k;
            assert(r[j + 1].0 == k);
        }
        assert forall|q: i64| has_day(s, q) implies has_day(r, q) by {
            let j = choose|j: int| 0 <= j < s.len() && s[j].0 == q;
            if j == 0 {
                assert(r[0].0 == q);
            } else {
                assert(has_day(s.skip(1), q)) by {
                    assert(s.skip(1)[j - 1].0 == q);
                }
                assert(has_day(rr, q));
                let t = choose|t: int| 0 <= t < rr.len() && rr[t].0 == q;
                assert(r[t + 1].0 == q);
            }
        }
        assert forall|q: i64| #[trigger]
            count_of(r, q) == if q == k && !has_day(s, k) {
                0int
            } else {
                count_of(s, q)
            } by {
            assert(r[0] == s[0]);
            if q == s[0].0 {
                assert(count_of(r, q) == s[0].1 as int);
                assert(count_of(s, q) == s[0].1 as int);
            } else {
                assert(count_of(r, q) == count_of(rr, q));
                assert(count_of(s, q) == count_of(s.skip(1), q));
            }
        }
    }
}

/// Every key of the zero-extended map is an old key or the new one.
proof fn lemma_insert_zero_keys_lower(s: Seq<(i64, u64)>, k: i64)
    ensures
        forall|i: int|
            0 <= i < spec_insert_zero(s, k).len() ==> (#[trigger] spec_insert_zero(s, k)[i].0 == k
                || (exists|j: int|
                0 <= j < s.len() && s[j].0 == #[trigger] spec_insert_zero(s, k)[i].0)),
    decreases s.len(),
{
    let r = spec_insert_zero(s, k);
    if s.len() == 0 {
    } else if k < s[0].0 {
        assert(forall|i: int| 1 <= i < r.len() ==> r[i] == s[i - 1]);
    } else if k == s[0].0 {
        assert(forall|i: int| 0 <= i < r.len() ==> r[i] == s[i]);
    } else {
        lemma_insert_zero_keys_lower(s.skip(1), k);
        assert forall|i: int| 1 <= i < r.len() implies (r[i].0 == k || (exists|j: int|
            0 <= j < s.len() && s[j].0 == r[i].0)) by {
            assert(r[i] == spec_insert_zero(s.skip(1), k)[i - 1]);
            if r[i].0 != k {
                let j = choose|j: int| 0 <= j < s.skip(1).len() && s.skip(1)[j].0 == r[i].0;
                assert(s[j + 1].0 == r[i].0);
            }
        }
    }
}

pub proof fn lemma_insert_zero_keys(s: Seq<(i64, u64)>, k: i64, lo: int, hi: int)
    requires
        keys_in(s, lo, hi),
        lo <= k <= hi,
    ensures
        keys_in(spec_insert_zero(s, k), lo, hi),
{
    lemma_insert_zero_keys_lower(s, k);
}

/// Where the new observation lands: at `idx`, the first position whose key
/// is not below `k`, either raising the entry in place or inserting a new
/// one.
pub proof fn lemma_spec_increment_at(s: Seq<(i64, u64)>, k: i64, idx: int)
    requires
        sorted(s),
        0 <= idx <= s.len(),
        forall|j: int| 0 <= j < idx ==> s[j].0 < k,
        idx == s.len() || s[idx].0 >= k,
    ensures
        idx < s.len() && s[idx].0 == k ==> spec_increment(s, k) == s.update(
            idx,
            (k, (s[idx].1 + 1) as u64),
        ),
        !(idx < s.len() && s[idx].0 == k) ==> spec_increment(s, k) == s.subrange(0, idx) + seq![
            (k, 1u64),
        ] + s.subrange(idx, s.len() as int),
    decreases idx,
{
    let r = spec_increment(s, k);
    if idx == 0 {
        if s.len() == 0 {
            assert(r =~= s.subrange(0, 0) + seq![(k, 1u64)] + s.subrange(0, 0));
        } else if s[0].0 == k {
            assert(r =~= s.update(0, (k, (s[0].1 + 1) as u64)));
        } else {
            assert(k < s[0].0);
            assert(r =~= s.subrange(0, 0) + seq![(k, 1u64)] + s.subrange(0, s.len() as int));
        }
    } else {
        lemma_sorted_skip(s);
        let t = s.skip(1);
        assert(forall|j: int| 0 <= j < idx - 1 ==> t[j] == s[j + 1]);
        if idx - 1 < t.len() {
            assert(t[idx - 1] == s[idx]);
        }
        lemma_spec_increment_at(t, k, idx - 1);
        assert(s[0].0 < k);
        assert(r == seq![s[0]] + spec_increment(t, k));
        if idx < s.len() && s[idx].0 == k {
            assert(r =~= s.update(idx, (k, (s[idx].1 + 1) as u64)));
        } else {
            assert(r =~= s.subrange(0, idx) + seq![(k, 1u64)] + s.subrange(idx, s.len() as int));
        }
    }
}

/// Where the forced zero entry lands: at `idx`, the first position whose
/// key is not below `k`; a present day leaves the map unchanged.
pub proof fn lemma_spec_insert_zero_at(s: Seq<(i64, u64)>, k: i64, idx: int)
    requires
        sorted(s),
        0 <= idx <= s.len(),
        forall|j: int| 0 <= j < idx ==> s[j].0 < k,
        idx == s.len() || s[idx].0 >= k,
    ensures
        idx < s.len() && s[idx].0 == k ==> spec_insert_zero(s, k) == s,
        !(idx < s.len() && s[idx].0 == k) ==> spec_insert_zero(s, k) == s.subrange(0, idx) + seq![
            (k, 0u64),
        ] + s.subrange(idx, s.len() as int),
    decreases idx,
{
    let r = spec_insert_zero(s, k);
    if idx == 0 {
        if s.len() == 0 {
            assert(r =~= s.subrange(0, 0) + seq![(k, 0u64)] + s.subrange(0, 0));
        } else if s[0].0 == k {
        } else {
            assert(k < s[0].0);
            assert(r =~= s.subrange(0, 0) + seq![(k, 0u64)] + s.subrange(0, s.len() as int));
        }
    } else {
        lemma_sorted_skip(s);
        let t = s.skip(1);
        assert(forall|j: int| 0 <= j < idx - 1 ==> t[j] == s[j + 1]);
        if idx - 1 < t.len() {
            assert(t[idx - 1] == s[idx]);
        }
        lemma_spec_insert_zero_at(t, k, idx - 1);
        assert(s[0].0 < k);
        assert(r == seq![s[0]] + spec_insert_zero(t, k));
        if idx < s.len() && s[idx].0 == k {
            assert(r =~= s);
        } else {
            assert(r =~= s.subrange(0, idx) + seq![(k, 0u64)] + s.subrange(idx, s.len() as int));
        }
    }
}

/// All keys of a counted run are indexes of its days.
pub proof fn lemma_counted_keys(ds: Seq<Date>, lo: int, hi: int)
    requires
        forall|i: int| 0 <= i < ds.len() ==> lo <= (#[trigger] ds[i]).index() <= hi,
        i64::MIN <= lo <= hi <= i64::MAX,
    ensures
        keys_in(counted(ds), lo, hi),
        sorted(counted(ds)),
    decreases ds.len(),
{
    if ds.len() > 0 {
        assert(forall|i: int| 0 <= i < ds.drop_last().len() ==> ds.drop_last()[i] == ds[i]);
        assert(ds[ds.len() - 1] == ds.last());
        lemma_counted_keys(ds.drop_last(), lo, hi);
        lemma_increment_keys(counted(ds.drop_last()), ds.last().index() as i64, lo, hi);
        lemma_increment_sorted(counted(ds.drop_last()), ds.last().index() as i64);
    }
}

/// Frequency map: a count per day index, entries held in ascending day
/// order, which the rendering below depends on.
pub struct FreqMap {
    entries: Vec<(i64, u64)>,
}

impl View for FreqMap {
    type V = Seq<(i64, u64)>;

    closed spec fn view(&self) -> Seq<(i64, u64)> {
        self.entries@
    }
}

impl FreqMap {
    pub open spec fn wf(self) -> bool {
        sorted(self@)
    }

    pub fn new() -> (r: FreqMap)
        ensures
            r@ == Seq::<(i64, u64)>::empty(),
            r.wf(),
    {
        FreqMap { entries: Vec::new() }
    }

    /// Number of distinct days recorded.
    pub fn num_days(&self) -> (n: usize)
        ensures
            n == self@.len(),
    {
        self.entries.len()
    }

    /// The (day index, count) entries, in ascending day order.
    pub fn entries(&self) -> (r: &Vec<(i64, u64)>)
        ensures
            r@ == self@,
    {
        &self.entries
    }

    /// First position whose key is not below `k`.
    fn position_for(&self, k: i64) -> (idx: usize)
        requires
            self.wf(),
        ensures
            idx <= self@.len(),
            forall|j: int| 0 <= j < idx ==> self@[j].0 < k,
            idx == self@.len() || self@[idx as int].0 >= k,
    {
        let n = self.entries.len();
        let mut idx: usize = 0;
        while idx < n && self.entries[idx].0 < k
            invariant
                idx <= n,
                n == self@.len(),
                forall|j: int| 0 <= j < idx ==> self@[j].0 < k,
            decreases n - idx,
        {
            idx = idx + 1;
        }
        idx
    }

    /// Records one more observation of day `k`.
    pub fn increment(&mut self, k: i64)
        requires
            old(self).wf(),
            count_of(old(self)@, k) < u64::MAX,
        ensures
            final(self).wf(),
            final(self)@ == spec_increment(old(self)@, k),
    {
        let idx = self.position_for(k);
        proof {
            lemma_spec_increment_at(old(self)@, k, idx as int);
            lemma_increment_sorted(old(self)@, k);
        }
        if idx < self.entries.len() && self.entries[idx].0 == k {
            proof {
                lemma_count_of_at(old(self)@, idx as int);
            }
            let e = self.entries.remove(idx);
            self.entries.insert(idx, (e.0, e.1 + 1));
            proof {
                assert(self@ =~= old(self)@.update(idx as int, (k, (old(self)@[idx as int].1
                    + 1) as u64)));
            }
        } else {
            self.entries.insert(idx, (k, 1));
            proof {
                assert(self@ =~= old(self)@.subrange(0, idx as int) + seq![(k, 1u64)] + old(
                    self,
                )@.subrange(idx as int, old(self)@.len() as int));
            }
        }
    }

    /// Forces day `k` to be present, entering it with count zero when
    /// absent; a present day is untouched.
    pub fn insert_zero(&mut self, k: i64)
        requires
            old(self).wf(),
        ensures
            final(self).wf(),
            final(self)@ == spec_insert_zero(old(self)@, k),
    {
        let idx = self.position_for(k);
        proof {
            lemma_spec_insert_zero_at(old(self)@, k, idx as int);
            lemma_insert_zero_sorted(old(self)@, k);
        }
        if idx < self.entries.len() && self.entries[idx].0 == k {
            // Already present.
        } else {
            self.entries.insert(idx, (k, 0));
            proof {
                assert(self@ =~= old(self)@.subrange(0, idx as int) + seq![(k, 0u64)] + old(
                    self,
                )@.subrange(idx as int, old(self)@.len() as int));
            }
        }
    }
}

/// The frequency map of a run of observed days, built by counting each in
/// turn.
pub fn count_dates(dates: &Vec<Date>) -> (r: FreqMap)
    requires
        forall|i: int| 0 <= i < dates@.len() ==> (#[trigger] dates@[i]).wf(),
    ensures
        r.wf(),
        r@ == counted(dates@),
{
    let mut m = FreqMap::new();
    let mut i: usize = 0;
    proof {
        assert(counted(dates@.take(0)) =~= Seq::<(i64, u64)>::empty());
    }
    while i < dates.len()
        invariant
            i <= dates@.len(),
            forall|t: int| 0 <= t < dates@.len() ==> (#[trigger] dates@[t]).wf(),
            m.wf(),
            m@ == counted(dates@.take(i as int)),
        decreases dates@.len() - i,
    {
        let ghost pre = dates@.take(i as int);
        let ghost post = dates@.take(i as int + 1);
        proof {
            assert(post.drop_last() =~= pre);
            assert(post.last() == dates@[i as int]);
            assert(forall|t: int| 0 <= t < pre.len() ==> pre[t] == dates@[t]);
            lemma_counted_count_bounds(pre, dates@[i as int].index() as i64);
        }
        let k = dates[i].day_number();
        m.increment(k);
        i = i + 1;
    }
    proof {
        assert(dates@.take(dates@.len() as int) =~= dates@);
    }
    m
}

/// The map after edge-bound injection: when a window was requested and
/// fewer distinct days were recorded than the window magnitude, both
/// window ends are forced to be present.
pub open spec fn injected(b: Bounds, s: Seq<(i64, u64)>) -> Seq<(i64, u64)> {
    match b.lower_relative {
        Some(rel) => if s.len() < abs(rel as int) {
            spec_insert_zero(
                spec_insert_zero(s, b.upper.index() as i64),
                (b.upper.index() + rel) as i64,
            )
        } else {
            s
        },
        None => s,
    }
}

/// The gap-filled map: one entry per day from the first recorded day to
/// the last, recorded counts kept, missing days at zero.
pub open spec fn spec_fill(s: Seq<(i64, u64)>) -> Seq<(i64, u64)> {
    if s.len() == 0 {
        s
    } else {
        let lo = s[0].0 as int;
        let hi = s[s.len() - 1].0 as int;
        Seq::new(
            (hi - lo + 1) as nat,
            |i: int| (((lo + i) as i64), count_of(s, (lo + i) as i64) as u64),
        )
    }
}

/// Fills every calendar gap of the map with zero-count days, so that its
/// days run contiguously from its first to its last.
pub fn fill_gaps(m: &FreqMap) -> (r: FreqMap)
    requires
        m.wf(),
        keys_in(m@, 0, max_day_index()),
    ensures
        r.wf(),
        r@ == spec_fill(m@),
{
    proof {
        lemma_days_before_year_bounds(10000);
    }
    let n = m.num_days();
    let mut r = FreqMap::new();
    if n == 0 {
        return r;
    }
    let entries = m.entries();
    let lo = entries[0].0;
    let hi = entries[n - 1].0;
    proof {
        assert(0 <= m@[0].0 <= max_day_index());
        assert(0 <= m@[n - 1].0 <= max_day_index());
    }
    let mut d: i64 = lo;
    let mut j: usize = 0;
    let mut out: Vec<(i64, u64)> = Vec::new();
    while d <= hi
        invariant
            m.wf(),
            keys_in(m@, 0, max_day_index()),
            n == m@.len(),
            n > 0,
            lo == m@[0].0,
            hi == m@[n - 1].0,
            0 <= lo <= d <= hi + 1,
            hi <= max_day_index() < 3_660_000,
            j <= n,
            forall|t: int| 0 <= t < j ==> m@[t].0 < d,
            j == n || m@[j as int].0 >= d,
            out@.len() == d - lo,
            forall|t: int|
                0 <= t < out@.len() ==> #[trigger] out@[t] == (((lo + t) as i64), count_of(
                    m@,
                    (lo + t) as i64,
                ) as u64),
        decreases hi + 1 - d,
    {
        let entries = m.entries();
        if j < n && entries[j].0 == d {
            proof {
                lemma_count_of_at(m@, j as int);
            }
            out.push((d, entries[j].1));
            j = j + 1;
        } else {
            proof {
                assert(!has_day(m@, d)) by {
                    assert forall|t: int| 0 <= t < n implies m@[t].0 != d by {
                        if t > j {
                            assert(m@[j as int].0 < m@[t].0);
                        }
                    }
                }
                lemma_count_of_absent(m@, d);
            }
            out.push((d, 0));
        }
        d = d + 1;
    }
    proof {
        assert(out@ =~= spec_fill(m@));
        assert(sorted(out@));
    }
    FreqMap { entries: out }
}

/// The rendered counts: each count as a decimal integer, entries in map
/// order, single spaces between, no trailing separator; an empty map
/// renders as the empty string.
pub open spec fn formatted(s: Seq<(i64, u64)>) -> Seq<char>
    decreases s.len(),
{
    if s.len() == 0 {
        Seq::empty()
    } else if s.len() == 1 {
        dec_chars(s[0].1 as int)
    } else {
        formatted(s.drop_last()) + seq![' '] + dec_chars(s.last().1 as int)
    }
}

/// Renders the map's counts as one space-separated line.
pub fn format_date_map(m: &FreqMap) -> (r: String)
    ensures
        r@ == formatted(m@),
{
    proof {
        reveal_strlit(" ");
    }
    let entries = m.entries();
    let n = entries.len();
    let mut r = String::new();
    let mut i: usize = 0;
    while i < n
        invariant
            i <= n,
            n == m@.len(),
            entries@ == m@,
            r@ == formatted(m@.take(i as int)),
        decreases n - i,
    {
        let ghost pre = m@.take(i as int);
        let ghost post = m@.take(i as int + 1);
        proof {
            assert(post.drop_last() =~= pre);
            assert(post.last() == m@[i as int]);
        }
        if i > 0 {
            r.append(" ");
            proof {
                reveal_strlit(" ");
                assert(" "@ =~= seq![' ']);
            }
        }
        let cs = u64_to_string(entries[i].1);
        r.append(cs.as_str());
        proof {
            assert(r@ =~= formatted(post));
        }
        i = i + 1;
    }
    proof {
        assert(m@.take(n as int) =~= m@);
    }
    r
}

/// What the whole aggregation prints for a given window and raw log text:
/// filter the lines into in-window days, count them per day, force the
/// window ends in when activity falls short of the window, fill the gaps,
/// and render the counts.
pub open spec fn frequencies_spec(b: Bounds, raw: Seq<u8>) -> Seq<char> {
    formatted(spec_fill(injected(b, counted(filtered_days(b, split_lines_spec(raw))))))
}

/// Aggregates the raw log text into the printed frequency line.
pub fn get_frequencies(bounds: &Bounds, raw: &Vec<u8>) -> (r: String)
    requires
        bounds.usable(),
    ensures
        r@ == frequencies_spec(*bounds, raw@),
{
    let dates = bounds.filter_dates(raw);
    let mut m = count_dates(&dates);
    let ghost base = m@;
    proof {
        lemma_days_before_year_bounds(10000);
        assert forall|i: int| 0 <= i < dates@.len() implies 0 <= (#[trigger] dates@[i]).index()
            <= max_day_index() by {
            crate::date::lemma_index_range(dates@[i]);
        }
        lemma_counted_keys(dates@, 0, max_day_index());
        crate::date::lemma_index_range(bounds.upper);
    }
    if let Some(rel) = bounds.lower_relative {
        let a = if rel < 0 {
            -rel
        } else {
            rel
        };
        if m.num_days() < a as usize {
            let u = bounds.upper.day_number();
            m.insert_zero(u);
            proof {
                lemma_insert_zero_keys(base, u, 0, max_day_index());
            }
            m.insert_zero(u + rel);
        }
    }
    proof {
        assert(m@ == injected(*bounds, base));
        if m@.len() > 0 {
            assert(keys_in(m@, 0, max_day_index())) by {
                if bounds.lower_relative is Some && base.len() < abs(
                    bounds.lower_relative->0 as int,
                ) {
                    let u = bounds.upper.index() as i64;
                    let rel = bounds.lower_relative->0;
                    lemma_insert_zero_keys(base, u, 0, max_day_index());
                    lemma_insert_zero_keys(
                        spec_insert_zero(base, u),
                        (bounds.upper.index() + rel) as i64,
                        0,
                        max_day_index(),
                    );
                }
            }
        }
        if bounds.lower_relative is Some && base.len() < abs(bounds.lower_relative->0 as int) {
            let u = bounds.upper.index() as i64;
            lemma_insert_zero_sorted(base, u);
            lemma_insert_zero_sorted(
                spec_insert_zero(base, u),
                (bounds.upper.index() + bounds.lower_relative->0) as i64,
            );
        }
    }
    let filled = fill_gaps(&m);
    format_date_map(&filled)
}

/// Law: the gap-filled map is contiguous — its days are consecutive
/// calendar days starting at its first recorded day, and each keeps its
/// recorded count, zero where none was recorded. The printed line renders
/// one count per entry, so no implicit gap between printed counts exceeds
/// one day.
pub proof fn lemma_fill_contiguous(s: Seq<(i64, u64)>)
    requires
        sorted(s),
        keys_in(s, 0, max_day_index()),
    ensures
        forall|i: int|
            0 <= i < spec_fill(s).len() ==> (#[trigger] spec_fill(s)[i]).0 == s[0].0 + i,
        forall|i: int|
            0 <= i < spec_fill(s).len() ==> (#[trigger] spec_fill(s)[i]).1 as int == count_of(
                s,
                spec_fill(s)[i].0,
            ),
        s.len() > 0 ==> spec_fill(s).len() == s[s.len() - 1].0 - s[0].0 + 1,
{
    lemma_days_before_year_bounds(10000);
    if s.len() > 0 {
        assert(0 <= s[0].0 <= max_day_index());
        assert(0 <= s[s.len() - 1].0 <= max_day_index());
        assert forall|i: int| 0 <= i < spec_fill(s).len() implies (#[trigger] spec_fill(
            s,
        )[i]).0 == s[0].0 + i && spec_fill(s)[i].1 as int == count_of(s, spec_fill(s)[i].0) by {
            lemma_counts_are_u64(s, (s[0].0 + i) as i64);
        }
    }
}

/// A recorded count is a machine word: reading it back loses nothing.
proof fn lemma_counts_are_u64(s: Seq<(i64, u64)>, k: i64)
    ensures
        0 <= count_of(s, k) <= u64::MAX,
    decreases s.len(),
{
    if s.len() > 0 && s[0].0 != k {
        lemma_counts_are_u64(s.skip(1), k);
    }
}

/// Law: aggregation is deterministic — whatever was printed for a window
/// and a raw query output is printed again for the same window and the
/// same output, so running the aggregation twice yields identical lines.
pub proof fn lemma_aggregation_idempotent(b: Bounds, raw: Seq<u8>, r1: Seq<char>, r2: Seq<char>)
    requires
        r1 == frequencies_spec(b, raw),
        r2 == frequencies_spec(b, raw),
    ensures
        r1 == r2,
{
}

/// Law: when recorded activity falls short of a requested window — fewer
/// distinct days than the window magnitude — and all recorded days lie
/// between the window ends, the forced zero entries make the gap-filled
/// map span the whole window: exactly `abs(rel) + 1` days, one printed
/// count per window day.
pub proof fn lemma_forced_window_span(b: Bounds, s: Seq<(i64, u64)>)
    requires
        b.usable(),
        b.lower_relative is Some,
        sorted(s),
        s.len() < abs(b.lower_relative->0 as int),
        keys_in(
            s,
            vstd::math::min(b.upper.index(), b.upper.index() + b.lower_relative->0),
            vstd::math::max(b.upper.index(), b.upper.index() + b.lower_relative->0),
        ),
    ensures
        spec_fill(injected(b, s)).len() == abs(b.lower_relative->0 as int) + 1,
{
    let rel = b.lower_relative->0;
    let u = b.upper.index();
    let lo = vstd::math::min(u, u + rel);
    let hi = vstd::math::max(u, u + rel);
    crate::date::lemma_index_range(b.upper);
    lemma_days_before_year_bounds(10000);
    let k1 = u as i64;
    let k2 = (u + rel) as i64;
    let t1 = spec_insert_zero(s, k1);
    let t2 = spec_insert_zero(t1, k2);
    lemma_insert_zero_sorted(s, k1);
    lemma_insert_zero_sorted(t1, k2);
    lemma_insert_zero_keys(s, k1, lo, hi);
    lemma_insert_zero_keys(t1, k2, lo, hi);
    assert(injected(b, s) == t2);
    assert(has_day(t2, k1));
    assert(has_day(t2, k2));
    let lok: i64 = if rel < 0 {
        k2
    } else {
        k1
    };
    let hik: i64 = if rel < 0 {
        k1
    } else {
        k2
    };
    assert(t2.len() > 0) by {
        let j = choose|j: int| 0 <= j < t2.len() && t2[j].0 == k1;
    }
    assert(t2[0].0 == lok) by {
        assert(lo <= t2[0].0);
        let j = choose|j: int| 0 <= j < t2.len() && t2[j].0 == lok;
        if j > 0 {
            assert(t2[0].0 < t2[j].0);
        }
    }
    assert(t2[t2.len() - 1].0 == hik) by {
        assert(t2[t2.len() - 1].0 <= hi);
        let j = choose|j: int| 0 <= j < t2.len() && t2[j].0 == hik;
        if j < t2.len() - 1 {
            assert(t2[j].0 < t2[t2.len() - 1].0);
        }
    }
    assert(spec_fill(t2).len() == hik - lok + 1);
}

/// Spaces in a character sequence.
pub open spec fn space_count(cs: Seq<char>) -> int
    decreases cs.len(),
{
    if cs.len() == 0 {
        0
    } else {
        space_count(cs.drop_last()) + if cs.last() == ' ' {
            1int
        } else {
            0int
        }
    }
}

proof fn lemma_space_count_concat(a: Seq<char>, b: Seq<char>)
    ensures
        space_count(a + b) == space_count(a) + space_count(b),
    decreases b.len(),
{
    if b.len() == 0 {
        assert(a + b =~= a);
    } else {
        lemma_space_count_concat(a, b.drop_last());
        assert((a + b).drop_last() =~= a + b.drop_last());
        assert((a + b).last() == b.last());
    }
}

proof fn lemma_dec_chars_no_space(n: int)
    requires
        n >= 0,
    ensures
        space_count(dec_chars(n)) == 0,
    decreases n,
{
    if n < 10 {
        assert(dec_chars(n).drop_last() =~= Seq::<char>::empty());
        assert(space_count(Seq::<char>::empty()) == 0);
    } else {
        lemma_dec_chars_no_space(n / 10);
        lemma_space_count_concat(dec_chars(n / 10), seq![crate::digits::dec_digit(n % 10)]);
        assert(space_count(seq![crate::digits::dec_digit(n % 10)]) == 0) by {
            assert(seq![crate::digits::dec_digit(n % 10)].drop_last() =~= Seq::<char>::empty());
            assert(space_count(Seq::<char>::empty()) == 0);
        }
    }
}

/// Law: the rendered line holds exactly one space between consecutive
/// counts and none elsewhere — a line for `n` entries holds `n - 1`
/// spaces, so it reads as exactly `n` space-separated integers.
pub proof fn lemma_formatted_spaces(s: Seq<(i64, u64)>)
    ensures
        s.len() == 0 ==> formatted(s) == Seq::<char>::empty(),
        s.len() > 0 ==> space_count(formatted(s)) == s.len() - 1,
    decreases s.len(),
{
    if s.len() == 1 {
        lemma_dec_chars_no_space(s[0].1 as int);
    } else if s.len() > 1 {
        lemma_formatted_spaces(s.drop_last());
        lemma_dec_chars_no_space(s.last().1 as int);
        lemma_space_count_concat(formatted(s.drop_last()), seq![' ']);
        lemma_space_count_concat(
            formatted(s.drop_last()) + seq![' '],
            dec_chars(s.last().1 as int),
        );
        assert(space_count(seq![' ']) == 1) by {
            assert(seq![' '].drop_last() =~= Seq::<char>::empty());
            assert(space_count(Seq::<char>::empty()) == 0);
        }
    }
}

} // verus!
