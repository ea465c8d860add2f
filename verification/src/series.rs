//! A single labelled series of dated values and its operators.
//!
//! A series is a set of tags and a finite map from days to values. Every
//! operator takes a series and returns a new one; its contract gives the tags
//! and the map of the result in terms of those of its arguments.

use vstd::prelude::*;

use crate::calendar::{date_at, is_date_number, Date};
use crate::collections::{
    date_map_entries, date_map_get, date_map_insert, date_map_new, date_map_union_sum,
    date_values, lists, merged, pairs, tag_set, tag_set_collect, tag_set_union, values_fit,
};
use crate::listing::{
    lemma_listing, lemma_listing_exists, lemma_lists_finite, lemma_sum_until_all,
    lemma_sum_until_entry, lemma_sum_until_monotone, listing, sum_first, sum_until, total,
    total_upto,
};

verus! {

/// What a series is: its tags, and its values by day number.
pub struct SeriesView {
    pub tags: Set<Seq<char>>,
    pub data: Map<int, int>,
}

/// A labelled series: a set of tags and one value for each of finitely many
/// dates.
#[derive(Debug, PartialEq, Eq)]
pub struct TimeSeries {
    tags: im::OrdSet<String>,
    data: im::OrdMap<i32, i64>,
}

impl View for TimeSeries {
    type V = SeriesView;

    closed spec fn view(&self) -> SeriesView {
        SeriesView { tags: tag_set(self.tags), data: date_values(self.data) }
    }
}

impl Clone for TimeSeries {
    fn clone(&self) -> (r: Self)
        ensures
            r == *self,
    {
        proof {
            use_type_invariant(self);
        }
        TimeSeries { tags: self.tags.clone(), data: self.data.clone() }
    }
}

impl Default for TimeSeries {
    /// The series without tags and without entries.
    fn default() -> (r: Self)
        ensures
            r@ == empty_view(),
    {
        let tags = tag_set_collect(Vec::new());
        proof {
            assert(tag_set(tags) =~= Set::<Seq<char>>::empty());
        }
        TimeSeries { tags, data: date_map_new() }
    }
}

/// Whether every key of `m` is the number of a day that a `Date` can hold.
pub open spec fn dated(m: Map<int, int>) -> bool {
    forall|k: int| #[trigger] m.contains_key(k) ==> is_date_number(k)
}

/// The entries of `m` after `day`.
pub open spec fn after(m: Map<int, int>, day: int) -> Map<int, int> {
    Map::new(|k: int| m.contains_key(k) && k > day, |k: int| m[k])
}

/// The quotient of `a` by `b` rounded towards zero, for `b` other than zero.
pub open spec fn trunc_div(a: int, b: int) -> int {
    if a >= 0 {
        if b > 0 {
            a / b
        } else {
            -(a / (-b))
        }
    } else {
        if b > 0 {
            -((-a) / b)
        } else {
            (-a) / (-b)
        }
    }
}

/// At each day of `a` or `b`: a hundred times the value of `a` divided by the
/// value of `b`, rounded towards zero; and zero where either has no value or
/// the value of `b` is zero.
pub open spec fn ratios(a: Map<int, int>, b: Map<int, int>) -> Map<int, int> {
    Map::new(
        |k: int| a.contains_key(k) || b.contains_key(k),
        |k: int|
            if a.contains_key(k) && b.contains_key(k) && b[k] != 0 {
                trunc_div(100 * a[k], b[k])
            } else {
                0
            },
    )
}

/// The quotient of `a` by `b`, rounded towards zero.
pub fn trunc_div_wide(a: i128, b: i128) -> (r: i128)
    requires
        b != 0,
        i128::MIN < a,
        i128::MIN < b,
    ensures
        r == trunc_div(a as int, b as int),
{
    let above: i128 = if a < 0 {
        -a
    } else {
        a
    };
    let below: i128 = if b < 0 {
        -b
    } else {
        b
    };
    let quotient: i128 = above / below;
    proof {
        assert(0 <= above / below <= above) by (nonlinear_arith)
            requires
                above >= 0,
                below > 0,
        ;
    }
    if a >= 0 {
        if b > 0 {
            quotient
        } else {
            -quotient
        }
    } else {
        if b > 0 {
            -quotient
        } else {
            quotient
        }
    }
}

/// A hundred times `numerator` divided by `denominator`, rounded towards zero.
pub fn percent(numerator: i64, denominator: i64) -> (r: i64)
    requires
        denominator != 0,
        i64::MIN <= trunc_div(100 * numerator, denominator as int) <= i64::MAX,
    ensures
        r == trunc_div(100 * numerator, denominator as int),
{
    let scaled: i128 = 100 * (numerator as i128);
    let wide: i128 = trunc_div_wide(scaled, denominator as i128);
    wide as i64
}

/// What the calls made while reducing a series returned: for each entry
/// whether its date is a boundary, and for each entry but the first the
/// delta from the entry before it (the first delta is not used).
pub struct ReduceTrace {
    pub boundary: Seq<bool>,
    pub delta: Seq<i64>,
}

/// The deltas accumulated when entry `i` has been reached: the delta of entry
/// `i` added to what was carried since the last boundary before it.
pub open spec fn bucket_sum(trace: ReduceTrace, i: int) -> int
    decreases i,
{
    if i <= 0 {
        0
    } else {
        (if trace.boundary[i - 1] {
            0
        } else {
            bucket_sum(trace, i - 1)
        }) + trace.delta[i]
    }
}

/// Whether `trace` records, for the first `n` entries of `s`, values that
/// `is_boundary` and `combine` can return there.
pub open spec fn traced<B: Fn(Date) -> bool, C: Fn(i64, i64) -> i64>(
    is_boundary: B,
    combine: C,
    s: Seq<(int, int)>,
    trace: ReduceTrace,
    n: int,
) -> bool {
    &&& 0 <= n <= s.len()
    &&& n <= trace.boundary.len()
    &&& n <= trace.delta.len()
    &&& forall|i: int|
        0 <= i < n ==> call_ensures(is_boundary, (date_at(s[i].0),), #[trigger] trace.boundary[i])
    &&& forall|i: int|
        1 <= i < n ==> call_ensures(
            combine,
            (s[i - 1].1 as i64, s[i].1 as i64),
            #[trigger] trace.delta[i],
        )
}

/// The index in `s` of the entry with key `day`.
pub open spec fn position(s: Seq<(int, int)>, day: int) -> int {
    choose|i: int| 0 <= i < s.len() && (#[trigger] s[i]).0 == day
}

/// The reduction that `trace` gives of the entries `s`: one entry at each
/// boundary date, with the deltas accumulated there.
pub open spec fn buckets(s: Seq<(int, int)>, trace: ReduceTrace) -> Map<int, int> {
    Map::new(
        |k: int| exists|i: int| 0 <= i < s.len() && (#[trigger] s[i]).0 == k && trace.boundary[i],
        |k: int| bucket_sum(trace, position(s, k)),
    )
}

/// Whether `reduced` is what reducing the series `given` can give: the same
/// tags, and the buckets of some trace of what `is_boundary` and `combine`
/// return on its entries.
pub open spec fn reduces_to<B: Fn(Date) -> bool, C: Fn(i64, i64) -> i64>(
    is_boundary: B,
    combine: C,
    given: SeriesView,
    reduced: SeriesView,
) -> bool {
    &&& reduced.tags == given.tags
    &&& exists|trace: ReduceTrace| #[trigger]
        traced(is_boundary, combine, listing(given.data), trace, listing(given.data).len() as int)
            && reduced.data == buckets(listing(given.data), trace)
}

/// Whether `is_boundary` and `combine` can be called on the entries of a
/// series, and every sum of deltas that they can lead to is an `i64`.
pub open spec fn reducible<B: Fn(Date) -> bool, C: Fn(i64, i64) -> i64>(
    is_boundary: B,
    combine: C,
    given: SeriesView,
) -> bool {
    &&& forall|k: int| #[trigger]
        given.data.contains_key(k) ==> call_requires(is_boundary, (date_at(k),))
    &&& forall|i: int, j: int|
        0 <= i && j == i + 1 && j < listing(given.data).len() ==> call_requires(
            combine,
            ((#[trigger] listing(given.data)[i]).1 as i64, (#[trigger] listing(given.data)[j]).1 as i64),
        )
    &&& forall|trace: ReduceTrace, n: int|
        1 <= n && #[trigger] traced(is_boundary, combine, listing(given.data), trace, n) ==> i64::MIN
            <= bucket_sum(trace, n - 1) <= i64::MAX
}

/// The accumulated deltas at entry `i` depend on the trace up to `i` only.
pub proof fn lemma_bucket_sum_prefix(a: ReduceTrace, b: ReduceTrace, i: int)
    requires
        0 <= i < a.boundary.len(),
        i < a.delta.len(),
        i < b.boundary.len(),
        i < b.delta.len(),
        forall|j: int| 0 <= j <= i ==> a.boundary[j] == b.boundary[j],
        forall|j: int| 0 <= j <= i ==> a.delta[j] == b.delta[j],
    ensures
        bucket_sum(a, i) == bucket_sum(b, i),
    decreases i,
{
    if i > 0 {
        lemma_bucket_sum_prefix(a, b, i - 1);
    }
}

/// The trace `trace` with the outcome of one more entry.
pub open spec fn extended(trace: ReduceTrace, flag: bool, delta: i64) -> ReduceTrace {
    ReduceTrace { boundary: trace.boundary.push(flag), delta: trace.delta.push(delta) }
}

/// What is carried into entry `i`: zero after a boundary and at the start,
/// else the deltas accumulated at the entry before.
pub open spec fn carried_into(trace: ReduceTrace, i: int) -> int {
    if i <= 0 || trace.boundary[i - 1] {
        0
    } else {
        bucket_sum(trace, i - 1)
    }
}

/// Whether `data` holds what a reduction has emitted at the first `n`
/// entries of `s`.
pub open spec fn collected(data: Map<int, int>, s: Seq<(int, int)>, trace: ReduceTrace, n: int) -> bool {
    &&& forall|k: int| #[trigger]
        data.contains_key(k) <==> (exists|j: int|
            0 <= j < n && (#[trigger] s[j]).0 == k && trace.boundary[j])
    &&& forall|j: int|
        0 <= j < n && trace.boundary[j] ==> data[(#[trigger] s[j]).0] == bucket_sum(trace, j)
}

/// A trace of the first `i` entries, extended by what the two functions
/// returned at entry `i`, is a trace of the first `i + 1` entries.
pub proof fn lemma_trace_step<B: Fn(Date) -> bool, C: Fn(i64, i64) -> i64>(
    is_boundary: B,
    combine: C,
    s: Seq<(int, int)>,
    earlier: ReduceTrace,
    flag: bool,
    delta: i64,
    i: int,
)
    requires
        0 <= i < s.len(),
        earlier.boundary.len() == i,
        earlier.delta.len() == i,
        traced(is_boundary, combine, s, earlier, i),
        call_ensures(is_boundary, (date_at(s[i].0),), flag),
        i >= 1 ==> call_ensures(combine, (s[i - 1].1 as i64, s[i].1 as i64), delta),
    ensures
        traced(is_boundary, combine, s, extended(earlier, flag, delta), i + 1),
        bucket_sum(extended(earlier, flag, delta), i) == (if i == 0 {
            0
        } else {
            carried_into(earlier, i) + delta
        }),
        carried_into(extended(earlier, flag, delta), i + 1) == (if flag {
            0
        } else {
            bucket_sum(extended(earlier, flag, delta), i)
        }),
{
    let trace = extended(earlier, flag, delta);
    assert forall|j: int| 0 <= j < i + 1 implies call_ensures(
        is_boundary,
        (date_at(s[j].0),),
        #[trigger] trace.boundary[j],
    ) by {
        if j < i {
            assert(trace.boundary[j] == earlier.boundary[j]);
        }
    }
    assert forall|j: int| 1 <= j < i + 1 implies call_ensures(
        combine,
        (s[j - 1].1 as i64, s[j].1 as i64),
        #[trigger] trace.delta[j],
    ) by {
        if j < i {
            assert(trace.delta[j] == earlier.delta[j]);
        }
    }
    if i > 0 {
        lemma_bucket_sum_prefix(earlier, trace, i - 1);
        assert(trace.boundary[i - 1] == earlier.boundary[i - 1]);
    }
}

/// One step of a reduction keeps what has been emitted in line with the
/// trace.
pub proof fn lemma_collect_step(
    data: Map<int, int>,
    s: Seq<(int, int)>,
    earlier: ReduceTrace,
    flag: bool,
    delta: i64,
    i: int,
)
    requires
        0 <= i < s.len(),
        forall|a: int, b: int| 0 <= a < b < s.len() ==> (#[trigger] s[a]).0 < (#[trigger] s[b]).0,
        earlier.boundary.len() == i,
        earlier.delta.len() == i,
        collected(data, s, earlier, i),
    ensures
        collected(
            if flag {
                data.insert(s[i].0, bucket_sum(extended(earlier, flag, delta), i))
            } else {
                data
            },
            s,
            extended(earlier, flag, delta),
            i + 1,
        ),
{
    let trace = extended(earlier, flag, delta);
    let after = if flag {
        data.insert(s[i].0, bucket_sum(trace, i))
    } else {
        data
    };
    assert forall|j: int| 0 <= j < i + 1 && trace.boundary[j] implies after[(#[trigger] s[j]).0]
        == bucket_sum(trace, j) by {
        if j < i {
            assert(s[j].0 < s[i].0);
            assert(trace.boundary[j] == earlier.boundary[j]);
            lemma_bucket_sum_prefix(earlier, trace, j);
        }
    }
    assert forall|k: int| #[trigger] after.contains_key(k) implies exists|j: int|
        0 <= j < i + 1 && (#[trigger] s[j]).0 == k && trace.boundary[j] by {
        if k == s[i].0 && flag {
            assert(s[i].0 == k && trace.boundary[i]);
        } else {
            assert(data.contains_key(k));
            let j = choose|j: int| 0 <= j < i && (#[trigger] s[j]).0 == k && earlier.boundary[j];
            assert(s[j].0 == k && trace.boundary[j]);
        }
    }
    assert forall|k: int|
        (exists|j: int|
            0 <= j < i + 1 && (#[trigger] s[j]).0 == k
                && trace.boundary[j]) implies #[trigger] after.contains_key(k) by {
        let j = choose|j: int| 0 <= j < i + 1 && (#[trigger] s[j]).0 == k && trace.boundary[j];
        if j < i {
            assert(s[j].0 == k && earlier.boundary[j]);
            assert(data.contains_key(k));
        }
    }
}

/// What a reduction has emitted over all entries is the reduction that the
/// trace gives.
pub proof fn lemma_collect_done(data: Map<int, int>, s: Seq<(int, int)>, trace: ReduceTrace)
    requires
        forall|a: int, b: int| 0 <= a < b < s.len() ==> (#[trigger] s[a]).0 < (#[trigger] s[b]).0,
        collected(data, s, trace, s.len() as int),
    ensures
        data == buckets(s, trace),
{
    let goal = buckets(s, trace);
    assert forall|k: int| goal.contains_key(k) implies data.contains_key(k) && data[k]
        == goal[k] by {
        let j = choose|j: int| 0 <= j < s.len() && (#[trigger] s[j]).0 == k && trace.boundary[j];
        assert(s[j].0 == k && trace.boundary[j]);
        let p = position(s, k);
        assert(s[p].0 == k);
        if p < j {
            assert(s[p].0 < s[j].0);
        } else if j < p {
            assert(s[j].0 < s[p].0);
        }
    }
    assert forall|k: int| data.contains_key(k) implies goal.contains_key(k) by {
        let j = choose|j: int| 0 <= j < s.len() && (#[trigger] s[j]).0 == k && trace.boundary[j];
        assert(s[j].0 == k && trace.boundary[j]);
    }
    assert(data =~= goal);
}

/// The series without tags and without entries.
pub open spec fn empty_view() -> SeriesView {
    SeriesView { tags: Set::empty(), data: Map::empty() }
}

/// The merge of two series: the tags of both, and the entries of both, the
/// values of shared dates summed.
pub open spec fn merge_view(a: SeriesView, b: SeriesView) -> SeriesView {
    SeriesView { tags: a.tags.union(b.tags), data: merged(a.data, b.data) }
}

/// Merging does not depend on the order of its two arguments.
pub proof fn lemma_merge_commutative(a: SeriesView, b: SeriesView)
    ensures
        merge_view(a, b) == merge_view(b, a),
{
    assert(a.tags.union(b.tags) =~= b.tags.union(a.tags));
    assert(merged(a.data, b.data) =~= merged(b.data, a.data));
}

/// Merging three series gives the same whichever two are merged first.
pub proof fn lemma_merge_associative(a: SeriesView, b: SeriesView, c: SeriesView)
    ensures
        merge_view(merge_view(a, b), c) == merge_view(a, merge_view(b, c)),
{
    assert(a.tags.union(b.tags).union(c.tags) =~= a.tags.union(b.tags.union(c.tags)));
    assert(merged(merged(a.data, b.data), c.data) =~= merged(a.data, merged(b.data, c.data)));
}

/// Merging with the empty series, on either side, changes nothing.
pub proof fn lemma_merge_identity(a: SeriesView)
    ensures
        merge_view(a, empty_view()) == a,
        merge_view(empty_view(), a) == a,
{
    assert(a.tags.union(Set::empty()) =~= a.tags);
    assert(Set::<Seq<char>>::empty().union(a.tags) =~= a.tags);
    assert(merged(a.data, Map::empty()) =~= a.data);
    assert(merged(Map::empty(), a.data) =~= a.data);
}

/// Accumulating a series of one entry changes nothing, so that accumulating
/// it again changes nothing either.
pub proof fn lemma_accumulate_single(m: Map<int, int>, day: int)
    requires
        m.dom() == set![day],
    ensures
        accumulated(m, None) == m,
        accumulated(accumulated(m, None), None) == accumulated(m, None),
{
    let s = seq![(day, m[day])];
    assert(m.contains_key(day));
    assert forall|k: int| #[trigger] m.contains_key(k) implies exists|i: int|
        0 <= i < s.len() && (#[trigger] s[i]).0 == k by {
        assert(m.dom().contains(k));
        assert(s[0].0 == k);
    }
    assert(lists(s, m));
    lemma_listing(s, m);
    assert(sum_until(s, day, 0) == 0);
    assert(sum_until(s, day, 1) == m[day]);
    assert forall|k: int| accumulated(m, None).contains_key(k) implies accumulated(m, None)[k]
        == m[k] by {
        assert(m.dom().contains(k));
    }
    assert(accumulated(m, None) =~= m);
}

/// Where no value is negative, the running sums do not fall from one date to
/// a later one. This holds of the entry added at `end` too where `end` is
/// before none of the dates of the series.
pub proof fn lemma_accumulate_monotone(m: Map<int, int>, end: Option<int>, early: int, late: int)
    requires
        m.dom().finite(),
        forall|k: int| #[trigger] m.contains_key(k) ==> m[k] >= 0,
        end matches Some(last) ==> forall|k: int| #[trigger] m.contains_key(k) ==> k <= last,
        accumulated(m, end).contains_key(early),
        accumulated(m, end).contains_key(late),
        early <= late,
    ensures
        accumulated(m, end)[early] <= accumulated(m, end)[late],
{
    lemma_listing_exists(m);
    let s = listing(m);
    assert forall|i: int| 0 <= i < s.len() implies (#[trigger] s[i]).1 >= 0 by {
        assert(m.contains_pair(s[i].0, s[i].1));
    }
    lemma_sum_until_monotone(s, early, late, s.len() as int);
    if !m.contains_key(late) {
        assert forall|i: int| 0 <= i < s.len() implies (#[trigger] s[i]).0 <= late by {
            assert(m.contains_pair(s[i].0, s[i].1));
        }
        lemma_sum_until_all(s, late, s.len() as int);
        if !m.contains_key(early) {
            assert(early == late);
        }
    } else if !m.contains_key(early) {
        assert(late <= early);
    }
}

/// Where the divisor has no entry at a day, or the entry zero, the ratio at
/// that day is zero.
pub proof fn lemma_ratio_without_divisor(a: Map<int, int>, b: Map<int, int>, day: int)
    requires
        a.contains_key(day) || b.contains_key(day),
        !b.contains_key(day) || b[day] == 0,
    ensures
        ratios(a, b).contains_key(day),
        ratios(a, b)[day] == 0,
{
}

/// The greatest day of a map with entries.
pub open spec fn last_day(m: Map<int, int>) -> int {
    listing(m).last().0
}

/// The day number of an optional date.
pub open spec fn day_of(date: Option<Date>) -> Option<int> {
    match date {
        Some(d) => Some(d@),
        None => None,
    }
}

/// The running sums of `m`: at each of its days the sum of the values up to
/// and including that day; and at `end`, where that is a day without an
/// entry, the sum of all values.
pub open spec fn accumulated(m: Map<int, int>, end: Option<int>) -> Map<int, int> {
    Map::new(
        |k: int| m.contains_key(k) || end == Some(k),
        |k: int|
            if m.contains_key(k) {
                total_upto(m, k)
            } else {
                total(m)
            },
    )
}

impl TimeSeries {
    #[verifier::type_invariant]
    spec fn keys_are_dates(self) -> bool {
        dated(date_values(self.data))
    }

    /// A series with the given tags and entries.
    pub fn new(tags: im::OrdSet<String>, data: im::OrdMap<i32, i64>) -> (r: TimeSeries)
        requires
            dated(date_values(data)),
        ensures
            r@.tags == tag_set(tags),
            r@.data == date_values(data),
    {
        TimeSeries { tags, data }
    }

    /// A series with the given tags and one entry.
    pub fn unit(tags: im::OrdSet<String>, date: Date, value: i64) -> (r: TimeSeries)
        ensures
            r@.tags == tag_set(tags),
            r@.data == (Map::<int, int>::empty()).insert(date@, value as int),
    {
        let mut data = date_map_new();
        date_map_insert(&mut data, date.days(), value);
        TimeSeries { tags, data }
    }

    /// The same entries under other tags.
    pub fn with_tags(self, tags: im::OrdSet<String>) -> (r: TimeSeries)
        ensures
            r@.tags == tag_set(tags),
            r@.data == self@.data,
    {
        proof {
            use_type_invariant(&self);
        }
        TimeSeries { tags, data: self.data }
    }

    /// The tags of the series.
    pub fn tags(&self) -> (r: &im::OrdSet<String>)
        ensures
            tag_set(*r) == self@.tags,
    {
        &self.tags
    }

    /// The entries of the series, by day number.
    pub fn data(&self) -> (r: &im::OrdMap<i32, i64>)
        ensures
            date_values(*r) == self@.data,
            dated(self@.data),
    {
        proof {
            use_type_invariant(self);
        }
        &self.data
    }

    /// The value at `date`, if the series has one.
    pub fn get(&self, date: Date) -> (r: Option<i64>)
        ensures
            r.is_some() == self@.data.contains_key(date@),
            r matches Some(value) ==> self@.data[date@] == value,
    {
        date_map_get(&self.data, date.days())
    }

    /// The entries by ascending date.
    pub fn entries(&self) -> (r: Vec<(Date, i64)>)
        ensures
            r@.len() == listing(self@.data).len(),
            forall|i: int|
                0 <= i < r@.len() ==> (#[trigger] r@[i]).0@ == listing(self@.data)[i].0 && r@[i].1
                    == listing(self@.data)[i].1,
            lists(listing(self@.data), self@.data),
    {
        proof {
            use_type_invariant(self);
        }
        let raw = date_map_entries(&self.data);
        proof {
            lemma_listing(pairs(raw@), self@.data);
        }
        let mut out: Vec<(Date, i64)> = Vec::new();
        let mut i: usize = 0;
        while i < raw.len()
            invariant
                0 <= i <= raw.len(),
                out@.len() == i,
                pairs(raw@) == listing(self@.data),
                lists(listing(self@.data), self@.data),
                dated(self@.data),
                forall|j: int|
                    0 <= j < i ==> (#[trigger] out@[j]).0@ == raw@[j].0 && out@[j].1 == raw@[j].1,
            decreases raw.len() - i,
        {
            let day: i32 = raw[i].0;
            let value: i64 = raw[i].1;
            proof {
                assert(pairs(raw@)[i as int].0 == day);
                assert(self@.data.contains_key(listing(self@.data)[i as int].0));
            }
            match Date::from_days(day) {
                Some(date) => {
                    out.push((date, value));
                },
                None => {
                    proof {
                        assert(false);
                    }
                },
            }
            i = i + 1;
        }
        proof {
            assert forall|i: int| 0 <= i < out@.len() implies (#[trigger] out@[i]).0@ == listing(
                self@.data,
            )[i].0 && out@[i].1 == listing(self@.data)[i].1 by {
                assert(pairs(raw@)[i] == (raw@[i].0 as int, raw@[i].1 as int));
            }
        }
        out
    }

    /// The last date of the series, if it has entries.
    pub fn last_date(&self) -> (r: Option<Date>)
        ensures
            r.is_none() == (self@.data.dom() == Set::<int>::empty()),
            r matches Some(date) ==> date@ == last_day(self@.data) && self@.data.contains_key(
                date@,
            ) && forall|k: int| self@.data.contains_key(k) ==> k <= date@,
    {
        proof {
            use_type_invariant(self);
        }
        let raw = date_map_entries(&self.data);
        let ghost s = pairs(raw@);
        proof {
            lemma_listing(s, self@.data);
        }
        if raw.len() == 0 {
            proof {
                assert forall|k: int| !self@.data.dom().contains(k) by {
                    if self@.data.contains_key(k) {
                        let j = choose|j: int| 0 <= j < s.len() && (#[trigger] s[j]).0 == k;
                    }
                }
                assert(self@.data.dom() =~= Set::<int>::empty());
            }
            None
        } else {
            let day: i32 = raw[raw.len() - 1].0;
            proof {
                assert(s.last() == (raw@[raw.len() - 1].0 as int, raw@[raw.len() - 1].1 as int));
                crate::listing::lemma_lists_last(s, self@.data);
                assert(self@.data.dom().contains(day as int));
            }
            Some(Date::at(day))
        }
    }

    /// The number of entries.
    pub fn len(&self) -> (r: usize)
        ensures
            r == self@.data.dom().len(),
            self@.data.dom().finite(),
    {
        let raw = date_map_entries(&self.data);
        proof {
            lemma_lists_finite(pairs(raw@), self@.data);
        }
        raw.len()
    }

    /// The series "addition": the tags of both series, and the entries of
    /// both, the values of shared dates summed.
    pub fn merge(self, other: TimeSeries) -> (r: TimeSeries)
        requires
            values_fit(merged(self@.data, other@.data)),
        ensures
            r@ == merge_view(self@, other@),
    {
        proof {
            use_type_invariant(&self);
            use_type_invariant(&other);
        }
        let tags = tag_set_union(self.tags, other.tags);
        let data = date_map_union_sum(self.data, other.data);
        TimeSeries { tags, data }
    }

    /// The running sums of the series: each value is replaced by the sum of
    /// the values up to and including its date. Where `final_date` is given
    /// and the series has no entry there, the result also has an entry at
    /// `final_date` with the sum of all values. The tags stay.
    pub fn accumulative(self, final_date: Option<Date>) -> (r: TimeSeries)
        requires
            values_fit(accumulated(self@.data, day_of(final_date))),
        ensures
            r@.tags == self@.tags,
            r@.data == accumulated(self@.data, day_of(final_date)),
    {
        proof {
            use_type_invariant(&self);
        }
        let raw = date_map_entries(&self.data);
        let ghost m = self@.data;
        let ghost s = pairs(raw@);
        let ghost goal = accumulated(m, day_of(final_date));
        proof {
            lemma_listing(s, m);
        }
        let mut data = date_map_new();
        let mut running: i64 = 0;
        let mut i: usize = 0;
        while i < raw.len()
            invariant
                0 <= i <= raw.len(),
                s == pairs(raw@),
                s == listing(m),
                lists(s, m),
                goal == accumulated(m, day_of(final_date)),
                values_fit(goal),
                running == sum_first(s, i as int),
                forall|j: int|
                    0 <= j < i ==> date_values(data).contains_key((#[trigger] s[j]).0)
                        && date_values(data)[s[j].0] == sum_first(s, j + 1),
                forall|k: int| #[trigger]
                    date_values(data).contains_key(k) ==> exists|j: int|
                        0 <= j < i && (#[trigger] s[j]).0 == k,
            decreases raw.len() - i,
        {
            let day: i32 = raw[i].0;
            let value: i64 = raw[i].1;
            proof {
                assert(s[i as int] == (day as int, value as int));
                assert(m.contains_key(s[i as int].0));
                lemma_sum_until_entry(s, i as int, s.len() as int);
                assert(goal.contains_key(day as int));
                assert(goal[day as int] == sum_first(s, i + 1));
            }
            running = running + value;
            let ghost before = date_values(data);
            date_map_insert(&mut data, day, running);
            proof {
                assert forall|j: int| 0 <= j < i + 1 implies date_values(data).contains_key(
                    (#[trigger] s[j]).0,
                ) && date_values(data)[s[j].0] == sum_first(s, j + 1) by {
                    if j < i {
                        assert(s[j].0 < s[i as int].0);
                        assert(before.contains_key(s[j].0));
                    }
                }
                assert forall|k: int| #[trigger]
                    date_values(data).contains_key(k) implies exists|j: int|
                    0 <= j < i + 1 && (#[trigger] s[j]).0 == k by {
                    if k == day {
                        assert(s[i as int].0 == k);
                    } else {
                        assert(before.contains_key(k));
                        let j = choose|j: int| 0 <= j < i && (#[trigger] s[j]).0 == k;
                        assert(s[j].0 == k);
                    }
                }
            }
            i = i + 1;
        }
        proof {
            assert forall|k: int| m.contains_key(k) implies date_values(data).contains_key(k)
                && date_values(data)[k] == total_upto(m, k) by {
                let j = choose|j: int| 0 <= j < s.len() && (#[trigger] s[j]).0 == k;
                assert(date_values(data).contains_key(s[j].0));
                lemma_sum_until_entry(s, j, s.len() as int);
            }
            assert forall|k: int| date_values(data).contains_key(k) implies m.contains_key(k) by {
                let j = choose|j: int| 0 <= j < i && (#[trigger] s[j]).0 == k;
                assert(m.contains_pair(s[j].0, s[j].1));
            }
        }
        match final_date {
            Some(date) => {
                let day: i32 = date.days();
                if date_map_get(&self.data, day).is_none() {
                    proof {
                        assert(goal.contains_key(day as int));
                        assert(goal[day as int] == total(m));
                    }
                    date_map_insert(&mut data, day, running);
                }
            },
            None => {},
        }
        proof {
            assert(date_values(data) =~= goal);
        }
        TimeSeries { tags: self.tags, data }
    }

    /// Each value replaced by what `f` makes of it; dates and tags stay.
    pub fn map<F: Fn(i64) -> i64>(self, f: F) -> (r: TimeSeries)
        requires
            forall|k: int| #[trigger]
                self@.data.contains_key(k) ==> call_requires(f, (self@.data[k] as i64,)),
        ensures
            r@.tags == self@.tags,
            r@.data.dom() == self@.data.dom(),
            values_fit(r@.data),
            forall|k: int| #[trigger]
                self@.data.contains_key(k) ==> call_ensures(
                    f,
                    (self@.data[k] as i64,),
                    r@.data[k] as i64,
                ),
    {
        proof {
            use_type_invariant(&self);
        }
        let raw = date_map_entries(&self.data);
        let ghost m = self@.data;
        let ghost s = pairs(raw@);
        let mut data = date_map_new();
        let mut i: usize = 0;
        while i < raw.len()
            invariant
                0 <= i <= raw.len(),
                s == pairs(raw@),
                lists(s, m),
                forall|k: int| #[trigger] m.contains_key(k) ==> call_requires(f, (m[k] as i64,)),
                forall|k: int| #[trigger]
                    date_values(data).contains_key(k) <==> (exists|j: int|
                        0 <= j < i && (#[trigger] s[j]).0 == k),
                forall|k: int| #[trigger]
                    date_values(data).contains_key(k) ==> i64::MIN <= date_values(data)[k]
                        <= i64::MAX && call_ensures(
                        f,
                        (m[k] as i64,),
                        date_values(data)[k] as i64,
                    ),
            decreases raw.len() - i,
        {
            let day: i32 = raw[i].0;
            let value: i64 = raw[i].1;
            proof {
                assert(s[i as int] == (day as int, value as int));
                assert(m.contains_pair(s[i as int].0, s[i as int].1));
                assert(m.contains_key(day as int));
            }
            let image: i64 = f(value);
            let ghost before = date_values(data);
            date_map_insert(&mut data, day, image);
            proof {
                assert forall|k: int| #[trigger]
                    date_values(data).contains_key(k) implies exists|j: int|
                    0 <= j < i + 1 && (#[trigger] s[j]).0 == k by {
                    if k == day {
                        assert(s[i as int].0 == k);
                    } else {
                        assert(before.contains_key(k));
                        let j = choose|j: int| 0 <= j < i && (#[trigger] s[j]).0 == k;
                        assert(s[j].0 == k);
                    }
                }
                assert forall|k: int|
                    (exists|j: int|
                        0 <= j < i + 1 && (#[trigger] s[j]).0 == k) implies #[trigger] date_values(
                    data,
                ).contains_key(k) by {
                    let j = choose|j: int| 0 <= j < i + 1 && (#[trigger] s[j]).0 == k;
                    if j < i {
                        assert(before.contains_key(k));
                    }
                }
            }
            i = i + 1;
        }
        proof {
            assert forall|k: int| m.contains_key(k) implies date_values(data).contains_key(k) by {
                let j = choose|j: int| 0 <= j < s.len() && (#[trigger] s[j]).0 == k;
                assert(s[j].0 == k);
            }
            assert forall|k: int| date_values(data).contains_key(k) implies m.contains_key(k) by {
                let j = choose|j: int| 0 <= j < i && (#[trigger] s[j]).0 == k;
                assert(m.contains_pair(s[j].0, s[j].1));
            }
            assert(date_values(data).dom() =~= m.dom());
        }
        TimeSeries { tags: self.tags, data }
    }

    /// The series as a percentage of `other`: at each date of either series,
    /// a hundred times this series' value divided by the value of `other`,
    /// rounded towards zero, and zero where `other` has no value or the value
    /// zero, or this series has none. The tags stay.
    pub fn ratio_to(self, other: &TimeSeries) -> (r: TimeSeries)
        requires
            values_fit(ratios(self@.data, other@.data)),
        ensures
            r@.tags == self@.tags,
            r@.data == ratios(self@.data, other@.data),
            forall|k: int|
                r@.data.contains_key(k) && (!other@.data.contains_key(k) || other@.data[k] == 0)
                    ==> #[trigger] r@.data[k] == 0,
    {
        proof {
            use_type_invariant(&self);
            use_type_invariant(other);
        }
        let ghost a = self@.data;
        let ghost b = other@.data;
        let ghost goal = ratios(a, b);
        let mine = date_map_entries(&self.data);
        let ghost s = pairs(mine@);
        let mut data = date_map_new();
        let mut i: usize = 0;
        while i < mine.len()
            invariant
                0 <= i <= mine.len(),
                s == pairs(mine@),
                lists(s, a),
                b == date_values(other.data),
                goal == ratios(a, b),
                values_fit(goal),
                forall|k: int| #[trigger]
                    date_values(data).contains_key(k) <==> (exists|j: int|
                        0 <= j < i && (#[trigger] s[j]).0 == k),
                forall|k: int| #[trigger]
                    date_values(data).contains_key(k) ==> date_values(data)[k] == goal[k],
            decreases mine.len() - i,
        {
            let day: i32 = mine[i].0;
            let value: i64 = mine[i].1;
            proof {
                assert(s[i as int] == (day as int, value as int));
                assert(a.contains_pair(s[i as int].0, s[i as int].1));
                assert(goal.contains_key(day as int));
            }
            let share: i64 = match date_map_get(&other.data, day) {
                Some(base) => if base != 0 {
                    percent(value, base)
                } else {
                    0
                },
                None => 0,
            };
            let ghost before = date_values(data);
            date_map_insert(&mut data, day, share);
            proof {
                assert forall|k: int| #[trigger]
                    date_values(data).contains_key(k) implies exists|j: int|
                    0 <= j < i + 1 && (#[trigger] s[j]).0 == k by {
                    if k == day {
                        assert(s[i as int].0 == k);
                    } else {
                        assert(before.contains_key(k));
                        let j = choose|j: int| 0 <= j < i && (#[trigger] s[j]).0 == k;
                        assert(s[j].0 == k);
                    }
                }
                assert forall|k: int|
                    (exists|j: int|
                        0 <= j < i + 1 && (#[trigger] s[j]).0 == k) implies #[trigger] date_values(
                    data,
                ).contains_key(k) by {
                    let j = choose|j: int| 0 <= j < i + 1 && (#[trigger] s[j]).0 == k;
                    if j < i {
                        assert(before.contains_key(k));
                    }
                }
            }
            i = i + 1;
        }
        proof {
            assert forall|k: int| a.contains_key(k) implies date_values(data).contains_key(k) by {
                let j = choose|j: int| 0 <= j < s.len() && (#[trigger] s[j]).0 == k;
                assert(s[j].0 == k);
            }
            assert forall|k: int| date_values(data).contains_key(k) implies a.contains_key(k) by {
                let j = choose|j: int| 0 <= j < i && (#[trigger] s[j]).0 == k;
                assert(a.contains_pair(s[j].0, s[j].1));
            }
        }
        let theirs = date_map_entries(&other.data);
        let ghost t = pairs(theirs@);
        let mut n: usize = 0;
        while n < theirs.len()
            invariant
                0 <= n <= theirs.len(),
                t == pairs(theirs@),
                lists(t, b),
                a == date_values(self.data),
                goal == ratios(a, b),
                forall|k: int| #[trigger]
                    date_values(data).contains_key(k) <==> (a.contains_key(k) || exists|j: int|
                        0 <= j < n && (#[trigger] t[j]).0 == k),
                forall|k: int| #[trigger]
                    date_values(data).contains_key(k) ==> date_values(data)[k] == goal[k],
            decreases theirs.len() - n,
        {
            let day: i32 = theirs[n].0;
            proof {
                assert(t[n as int].0 == day);
                assert(b.contains_pair(t[n as int].0, t[n as int].1));
            }
            let ghost before = date_values(data);
            if date_map_get(&self.data, day).is_none() {
                date_map_insert(&mut data, day, 0);
            }
            proof {
                assert forall|k: int| #[trigger]
                    date_values(data).contains_key(k) implies (a.contains_key(k) || exists|j: int|
                    0 <= j < n + 1 && (#[trigger] t[j]).0 == k) by {
                    if k == day {
                        assert(t[n as int].0 == k);
                    } else {
                        assert(before.contains_key(k));
                        if !a.contains_key(k) {
                            let j = choose|j: int| 0 <= j < n && (#[trigger] t[j]).0 == k;
                            assert(t[j].0 == k);
                        }
                    }
                }
                assert forall|k: int|
                    (a.contains_key(k) || exists|j: int|
                        0 <= j < n + 1 && (#[trigger] t[j]).0 == k) implies #[trigger] date_values(
                    data,
                ).contains_key(k) by {
                    if a.contains_key(k) {
                        assert(before.contains_key(k));
                    } else {
                        let j = choose|j: int| 0 <= j < n + 1 && (#[trigger] t[j]).0 == k;
                        if j < n {
                            assert(before.contains_key(k));
                        }
                    }
                }
            }
            n = n + 1;
        }
        proof {
            assert forall|k: int| goal.contains_key(k) implies date_values(data).contains_key(k) by {
                if !a.contains_key(k) {
                    let j = choose|j: int| 0 <= j < t.len() && (#[trigger] t[j]).0 == k;
                    assert(t[j].0 == k);
                }
            }
            assert forall|k: int| date_values(data).contains_key(k) implies goal.contains_key(k) by {
                if !a.contains_key(k) {
                    let j = choose|j: int| 0 <= j < n && (#[trigger] t[j]).0 == k;
                    assert(b.contains_pair(t[j].0, t[j].1));
                }
            }
            assert(date_values(data) =~= goal);
        }
        TimeSeries { tags: self.tags, data }
    }

    /// The series sampled down to its boundary dates. The entries are walked
    /// by ascending date; `combine` gives, for each entry but the first, the
    /// delta from the value before it to its own; the deltas are summed; and
    /// at each entry whose date `is_boundary` accepts, the result has an
    /// entry with the sum reached, and the sum starts again from zero. The
    /// tags stay.
    ///
    /// The contract speaks of some trace of what the two functions returned,
    /// since their own contracts need not fix their results.
    pub fn reduce<B: Fn(Date) -> bool, C: Fn(i64, i64) -> i64>(
        self,
        is_boundary: B,
        combine: C,
    ) -> (r: TimeSeries)
        requires
            reducible(is_boundary, combine, self@),
        ensures
            reduces_to(is_boundary, combine, self@, r@),
    {
        proof {
            use_type_invariant(&self);
        }
        let raw = date_map_entries(&self.data);
        let ghost m = self@.data;
        let ghost s = pairs(raw@);
        proof {
            lemma_listing(s, m);
        }
        let ghost mut trace = ReduceTrace { boundary: Seq::empty(), delta: Seq::empty() };
        let mut data = date_map_new();
        let mut carried: i64 = 0;
        let mut i: usize = 0;
        while i < raw.len()
            invariant
                0 <= i <= raw.len(),
                s == pairs(raw@),
                lists(s, m),
                dated(m),
                forall|k: int| #[trigger]
                    m.contains_key(k) ==> call_requires(is_boundary, (date_at(k),)),
                forall|a: int, b: int|
                    0 <= a && b == a + 1 && b < s.len() ==> call_requires(
                        combine,
                        ((#[trigger] s[a]).1 as i64, (#[trigger] s[b]).1 as i64),
                    ),
                forall|t: ReduceTrace, n: int|
                    1 <= n && #[trigger] traced(is_boundary, combine, s, t, n) ==> i64::MIN
                        <= bucket_sum(t, n - 1) <= i64::MAX,
                trace.boundary.len() == i,
                trace.delta.len() == i,
                traced(is_boundary, combine, s, trace, i as int),
                carried == carried_into(trace, i as int),
                collected(date_values(data), s, trace, i as int),
            decreases raw.len() - i,
        {
            let day: i32 = raw[i].0;
            let value: i64 = raw[i].1;
            proof {
                assert(s[i as int] == (day as int, value as int));
                assert(m.contains_pair(s[i as int].0, s[i as int].1));
                assert(m.contains_key(day as int));
            }
            let flag: bool = is_boundary(Date::at(day));
            let delta: i64 = if i > 0 {
                proof {
                    assert(s[i - 1] == (raw@[i - 1].0 as int, raw@[i - 1].1 as int));
                    assert(call_requires(combine, (s[i - 1].1 as i64, s[i as int].1 as i64)));
                }
                combine(raw[i - 1].1, value)
            } else {
                0
            };
            proof {
                lemma_trace_step(is_boundary, combine, s, trace, flag, delta, i as int);
                lemma_collect_step(date_values(data), s, trace, flag, delta, i as int);
                trace = extended(trace, flag, delta);
                assert(traced(is_boundary, combine, s, trace, i + 1));
            }
            let reached: i64 = carried + delta;
            if flag {
                date_map_insert(&mut data, day, reached);
                carried = 0;
            } else {
                carried = reached;
            }
            i = i + 1;
        }
        proof {
            lemma_collect_done(date_values(data), s, trace);
            assert forall|k: int| #[trigger] date_values(data).contains_key(k) implies m.contains_key(
                k,
            ) by {
                let j = choose|j: int| 0 <= j < s.len() && (#[trigger] s[j]).0 == k && trace.boundary[j];
                assert(m.contains_pair(s[j].0, s[j].1));
            }
            assert(traced(is_boundary, combine, listing(m), trace, listing(m).len() as int));
        }
        TimeSeries { tags: self.tags, data }
    }

    /// The entries dated after `date`; the tags stay.
    pub fn right(self, date: &Date) -> (r: TimeSeries)
        ensures
            r@.tags == self@.tags,
            r@.data == after(self@.data, date@),
    {
        proof {
            use_type_invariant(&self);
        }
        let raw = date_map_entries(&self.data);
        let limit: i32 = date.days();
        let mut data = date_map_new();
        let mut i: usize = 0;
        while i < raw.len()
            invariant
                0 <= i <= raw.len(),
                limit == date@,
                lists(pairs(raw@), self@.data),
                forall|k: int| #[trigger]
                    date_values(data).contains_key(k) <==> (exists|j: int|
                        0 <= j < i && (#[trigger] raw@[j]).0 == k && k > limit),
                forall|k: int| #[trigger]
                    date_values(data).contains_key(k) ==> date_values(data)[k] == self@.data[k],
            decreases raw.len() - i,
        {
            let day: i32 = raw[i].0;
            let value: i64 = raw[i].1;
            proof {
                assert(pairs(raw@)[i as int] == (day as int, value as int));
                assert(self@.data.contains_pair(day as int, value as int));
            }
            if day > limit {
                let ghost before = date_values(data);
                date_map_insert(&mut data, day, value);
                proof {
                    assert forall|k: int| #[trigger]
                        date_values(data).contains_key(k) implies exists|j: int|
                        0 <= j < i + 1 && (#[trigger] raw@[j]).0 == k && k > limit by {
                        if k == day {
                            assert(raw@[i as int].0 == k);
                        } else {
                            assert(before.contains_key(k));
                            let j = choose|j: int|
                                0 <= j < i && (#[trigger] raw@[j]).0 == k && k > limit;
                            assert(raw@[j].0 == k);
                        }
                    }
                }
            }
            i = i + 1;
        }
        proof {
            assert forall|k: int| after(self@.data, date@).contains_key(k) implies date_values(
                data,
            ).contains_key(k) by {
                let j = choose|j: int|
                    0 <= j < pairs(raw@).len() && (#[trigger] pairs(raw@)[j]).0 == k;
                assert(raw@[j].0 == k);
            }
            assert forall|k: int| date_values(data).contains_key(k) implies after(
                self@.data,
                date@,
            ).contains_key(k) by {
                let j = choose|j: int| 0 <= j < i && (#[trigger] raw@[j]).0 == k && k > limit;
                assert(pairs(raw@)[j].0 == k);
                assert(self@.data.contains_pair(pairs(raw@)[j].0, pairs(raw@)[j].1));
            }
            assert(date_values(data) =~= after(self@.data, date@));
        }
        TimeSeries { tags: self.tags, data }
    }
}

} // verus!
