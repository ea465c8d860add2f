//! A group of series drawn from one dataset, and the operators that work on
//! the group as a whole.

use vstd::prelude::*;

use crate::collections::{
    date_map_entries, date_map_insert, date_map_new, date_set, date_set_collect, date_values,
    lists, members, merged, pairs, tag_set_unit, values_fit,
};
use crate::error::SeriesError;
use crate::calendar::{is_date_number, month_start, Date, DATE_MAX_DAYS};
use crate::listing::listing;
use crate::series::{
    accumulated, after, bucket_sum, buckets, dated, last_day, ratios, reduces_to, reducible,
    traced, trunc_div, trunc_div_wide, ReduceTrace, SeriesView, TimeSeries,
};
use vstd::arithmetic::div_mod::lemma_div_is_ordered;

verus! {

/// What a group is: the instant at which its dataset was last updated, in
/// seconds since the Unix epoch, and its series in order.
pub struct GroupView {
    pub updated: int,
    pub series: Seq<SeriesView>,
}

/// An ordered collection of series from one dataset.
#[derive(Debug)]
pub struct TimeSeriesGroup {
    updated: i64,
    series: Vec<TimeSeries>,
}

/// The views of a sequence of series.
pub open spec fn views(v: Seq<TimeSeries>) -> Seq<SeriesView> {
    Seq::new(v.len(), |i: int| v[i]@)
}

impl View for TimeSeriesGroup {
    type V = GroupView;

    closed spec fn view(&self) -> GroupView {
        GroupView { updated: self.updated as int, series: views(self.series@) }
    }
}

impl Clone for TimeSeriesGroup {
    fn clone(&self) -> (r: Self)
        ensures
            r@ == self@,
    {
        let mut series: Vec<TimeSeries> = Vec::new();
        let mut i: usize = 0;
        while i < self.series.len()
            invariant
                0 <= i <= self.series.len(),
                series@.len() == i,
                forall|a: int| 0 <= a < i ==> #[trigger] series@[a] == self.series@[a],
            decreases self.series.len() - i,
        {
            series.push(self.series[i].clone());
            i = i + 1;
        }
        let group = TimeSeriesGroup { updated: self.updated, series };
        proof {
            assert(group@.series =~= self@.series);
        }
        group
    }
}

/// The days at which any of the series has an entry.
pub open spec fn domain(vs: Seq<SeriesView>) -> Set<int> {
    Set::new(|day: int| exists|i: int| 0 <= i < vs.len() && (#[trigger] vs[i]).data.contains_key(day))
}

/// Whether any of the series has no entries.
pub open spec fn some_empty(vs: Seq<SeriesView>) -> bool {
    exists|i: int| 0 <= i < vs.len() && (#[trigger] vs[i]).data.dom() == Set::<int>::empty()
}

/// Whether the group has no final date: it has no series, or a series
/// without entries.
pub open spec fn lacks_final_day(vs: Seq<SeriesView>) -> bool {
    vs.len() == 0 || some_empty(vs)
}

/// The greatest of the last days of the first `n` series, for `n` at least 1.
pub open spec fn final_day(vs: Seq<SeriesView>, n: int) -> int
    decreases n,
{
    if n <= 1 {
        last_day(vs[0].data)
    } else if final_day(vs, n - 1) >= last_day(vs[n - 1].data) {
        final_day(vs, n - 1)
    } else {
        last_day(vs[n - 1].data)
    }
}

/// The first `n` series merged into one map, from the left.
pub open spec fn merged_all(vs: Seq<SeriesView>, n: int) -> Map<int, int>
    decreases n,
{
    if n <= 0 {
        Map::empty()
    } else {
        merged(merged_all(vs, n - 1), vs[n - 1].data)
    }
}

/// The series of a group after each has been accumulated up to `end`.
pub open spec fn accumulated_all(vs: Seq<SeriesView>, end: int) -> Seq<SeriesView> {
    Seq::new(
        vs.len(),
        |i: int| SeriesView { tags: vs[i].tags, data: accumulated(vs[i].data, Some(end)) },
    )
}

/// The series of a group, each cut down to its entries after `day`.
pub open spec fn after_all(vs: Seq<SeriesView>, day: int) -> Seq<SeriesView> {
    Seq::new(vs.len(), |i: int| SeriesView { tags: vs[i].tags, data: after(vs[i].data, day) })
}

/// A trace of two functions is a trace of references to them, and the
/// other way round.
pub proof fn lemma_traced_by_reference<B: Fn(Date) -> bool, C: Fn(i64, i64) -> i64>(
    is_boundary: &B,
    combine: &C,
    s: Seq<(int, int)>,
    trace: ReduceTrace,
    n: int,
)
    ensures
        traced(is_boundary, combine, s, trace, n) == traced(*is_boundary, *combine, s, trace, n),
{
}

/// The one series that summing a group gives: all series merged, under the
/// single tag `title`.
pub open spec fn summed(vs: Seq<SeriesView>, title: Seq<char>) -> Seq<SeriesView> {
    seq![SeriesView { tags: set![title], data: merged_all(vs, vs.len() as int) }]
}

/// The index of the first series from index `from` on that carries `tag`,
/// or the number of series where none does.
pub open spec fn reference_from(vs: Seq<SeriesView>, tag: Seq<char>, from: int) -> int
    decreases vs.len() - from,
{
    if from < 0 || from >= vs.len() {
        vs.len() as int
    } else if vs[from].tags.contains(tag) {
        from
    } else {
        reference_from(vs, tag, from + 1)
    }
}

/// The index of the first series that carries `tag`, or the number of series
/// where none does.
pub open spec fn reference(vs: Seq<SeriesView>, tag: Seq<char>) -> int {
    reference_from(vs, tag, 0)
}

/// The group with the series at index `base` taken out and every other series
/// replaced by its ratio to that one.
pub open spec fn normalized(vs: Seq<SeriesView>, base: int) -> Seq<SeriesView> {
    Seq::new(
        (vs.len() - 1) as nat,
        |j: int|
            {
                let i = if j < base {
                    j
                } else {
                    j + 1
                };
                SeriesView { tags: vs[i].tags, data: ratios(vs[i].data, vs[base].data) }
            },
    )
}

/// `reference_from` finds the first series with the tag at or after `from`.
pub proof fn lemma_reference_from(vs: Seq<SeriesView>, tag: Seq<char>, from: int)
    requires
        0 <= from <= vs.len(),
    ensures
        from <= reference_from(vs, tag, from) <= vs.len(),
        reference_from(vs, tag, from) < vs.len() ==> vs[reference_from(vs, tag, from)].tags.contains(
            tag,
        ),
        forall|i: int| from <= i < reference_from(vs, tag, from) ==> !(#[trigger] vs[i]).tags.contains(tag),
    decreases vs.len() - from,
{
    if from < vs.len() && !vs[from].tags.contains(tag) {
        lemma_reference_from(vs, tag, from + 1);
    }
}

/// No series carries a tag exactly where the search for it runs off the end.
pub proof fn lemma_reference_missing(vs: Seq<SeriesView>, tag: Seq<char>)
    ensures
        reference(vs, tag) == vs.len() <==> forall|i: int|
            0 <= i < vs.len() ==> !(#[trigger] vs[i]).tags.contains(tag),
{
    lemma_reference_from(vs, tag, 0);
}

/// The sum, over the first `n` series, of the value each has at `day`, a
/// series without an entry there counting as zero.
pub open spec fn final_total(vs: Seq<SeriesView>, day: int, n: int) -> int
    decreases n,
{
    if n <= 0 {
        0
    } else {
        final_total(vs, day, n - 1) + if vs[n - 1].data.contains_key(day) {
            vs[n - 1].data[day]
        } else {
            0
        }
    }
}

/// The `n`-th stop of a projection that starts at day `start`: each stop is
/// the first day of the month reached by going `step` days on from the stop
/// before it.
pub open spec fn stop(start: int, step: int, n: int) -> int
    decreases n,
{
    if n <= 0 {
        start
    } else {
        month_start(stop(start, step, n - 1) + step)
    }
}

/// The value of a projection from `total` towards `goal` when `spent` of
/// `all` days have passed: the share of the distance that the days passed
/// make of all days, rounded towards zero, added to `total`.
pub open spec fn goal_value(total: int, goal: int, spent: int, all: int) -> int {
    total + trunc_div((goal - total) * spent, all)
}

/// The points of a projection: one at each of the first `n` stops after
/// `start`, with the value that the projection has there.
pub open spec fn goal_points(
    start: int,
    step: int,
    target: int,
    total: int,
    goal: int,
    n: int,
) -> Map<int, int> {
    Map::new(
        |day: int| exists|i: int| 1 <= i <= n && #[trigger] stop(start, step, i) == day,
        |day: int| goal_value(total, goal, day - start, target - start),
    )
}

/// The group `vs` with the projection series of `n` stops appended.
pub open spec fn with_goal(
    vs: Seq<SeriesView>,
    title: Seq<char>,
    step: int,
    target: int,
    goal: int,
    n: int,
) -> Seq<SeriesView> {
    let start = final_day(vs, vs.len() as int);
    let total = final_total(vs, start, vs.len() as int);
    vs.push(
        SeriesView { tags: set![title], data: goal_points(start, step, target, total, goal, n) },
    )
}

/// Dividing a number that is not negative, or its negative, by a positive
/// number and rounding towards zero.
pub proof fn lemma_trunc_div_sign(x: int, d: int)
    requires
        0 <= x,
        0 < d,
    ensures
        trunc_div(x, d) == x / d,
        trunc_div(-x, d) == -(x / d),
        0 <= x / d,
{
    lemma_div_is_ordered(0, x, d);
    assert(0int / d == 0) by (nonlinear_arith)
        requires
            0 < d,
    ;
}

/// A projection towards a goal that is not below its start does not fall as
/// days pass.
pub proof fn lemma_goal_value_monotone(total: int, goal: int, early: int, late: int, all: int)
    requires
        total <= goal,
        0 <= early <= late,
        0 < all,
    ensures
        total <= goal_value(total, goal, early, all) <= goal_value(total, goal, late, all),
{
    let gap = goal - total;
    let near = gap * early;
    let far = gap * late;
    assert(0 <= near <= far) by (nonlinear_arith)
        requires
            0 <= gap,
            0 <= early <= late,
            near == gap * early,
            far == gap * late,
    ;
    lemma_trunc_div_sign(near, all);
    lemma_trunc_div_sign(far, all);
    lemma_div_is_ordered(near, far, all);
}

/// A projection stays between its start and the value it has at any later
/// day, whichever way the goal lies.
pub proof fn lemma_goal_value_between(total: int, goal: int, spent: int, far: int, all: int)
    requires
        0 <= spent <= far,
        0 < all,
    ensures
        total <= goal ==> total <= goal_value(total, goal, spent, all) <= goal_value(
            total,
            goal,
            far,
            all,
        ),
        goal <= total ==> goal_value(total, goal, far, all) <= goal_value(total, goal, spent, all)
            <= total,
{
    if total <= goal {
        lemma_goal_value_monotone(total, goal, spent, far, all);
        if goal == total {
            assert((goal - total) * spent == 0 && (goal - total) * far == 0) by (nonlinear_arith)
                requires
                    goal - total == 0,
            ;
            lemma_trunc_div_sign(0, all);
        }
    } else {
        let gap = total - goal;
        let near = gap * spent;
        let reach = gap * far;
        assert(0 <= near <= reach && (goal - total) * spent == -near && (goal - total) * far
            == -reach) by (nonlinear_arith)
            requires
                0 <= gap,
                gap == total - goal,
                0 <= spent <= far,
                near == gap * spent,
                reach == gap * far,
        ;
        lemma_trunc_div_sign(near, all);
        lemma_trunc_div_sign(reach, all);
        lemma_div_is_ordered(near, reach, all);
    }
}

/// The value of a projection from `total` towards `goal` when `spent` of
/// `all` days have passed.
pub fn project(total: i64, goal: i64, spent: i32, all: i32) -> (r: i64)
    requires
        0 <= spent,
        0 < all,
        i64::MIN <= goal_value(total as int, goal as int, spent as int, all as int) <= i64::MAX,
    ensures
        r == goal_value(total as int, goal as int, spent as int, all as int),
{
    proof {
        assert(-0x1_0000_0000_0000_0000 * 0x1_0000_0000 <= (goal - total) * spent
            <= 0x1_0000_0000_0000_0000 * 0x1_0000_0000) by (nonlinear_arith)
            requires
                -0x1_0000_0000_0000_0000 <= goal - total <= 0x1_0000_0000_0000_0000,
                0 <= spent <= 0x1_0000_0000,
        ;
    }
    let gap: i128 = (goal as i128) - (total as i128);
    let scaled: i128 = gap * (spent as i128);
    let progress: i128 = trunc_div_wide(scaled, all as i128);
    ((total as i128) + progress) as i64
}

impl TimeSeriesGroup {
    /// A group of the given series, from a dataset last updated at `updated`.
    pub fn new(updated: i64, series: Vec<TimeSeries>) -> (r: TimeSeriesGroup)
        ensures
            r@.updated == updated,
            r@.series == views(series@),
    {
        TimeSeriesGroup { updated, series }
    }

    /// The series of the group, in order.
    pub fn series(&self) -> (r: &[TimeSeries])
        ensures
            views(r@) == self@.series,
    {
        self.series.as_slice()
    }

    /// When the dataset of the group was last updated, in seconds since the
    /// Unix epoch.
    pub fn updated(&self) -> (r: i64)
        ensures
            r == self@.updated,
    {
        self.updated
    }

    /// The number of series.
    pub fn len(&self) -> (r: usize)
        ensures
            r == self@.series.len(),
    {
        self.series.len()
    }

    /// The dates at which any series of the group has an entry: the shared
    /// axis of the group.
    pub fn xs(&self) -> (r: im::OrdSet<i32>)
        ensures
            date_set(r) == domain(self@.series),
    {
        let ghost vs = self@.series;
        let mut days: Vec<i32> = Vec::new();
        let mut i: usize = 0;
        while i < self.series.len()
            invariant
                0 <= i <= self.series.len(),
                vs == views(self.series@),
                forall|day: int| #[trigger]
                    members(days@).contains(day) <==> (exists|a: int|
                        0 <= a < i && (#[trigger] vs[a]).data.contains_key(day)),
            decreases self.series.len() - i,
        {
            let raw = date_map_entries(self.series[i].data());
            let ghost m = vs[i as int].data;
            let ghost s = pairs(raw@);
            let ghost done = days@;
            let mut j: usize = 0;
            while j < raw.len()
                invariant
                    0 <= j <= raw.len(),
                    0 <= i < vs.len(),
                    s == pairs(raw@),
                    m == vs[i as int].data,
                    lists(s, m),
                    forall|day: int| #[trigger]
                        members(days@).contains(day) <==> (members(done).contains(day)
                            || exists|b: int| 0 <= b < j && (#[trigger] s[b]).0 == day),
                decreases raw.len() - j,
            {
                let ghost before = days@;
                days.push(raw[j].0);
                proof {
                    assert(s[j as int].0 == raw@[j as int].0);
                    assert forall|day: int| members(days@).contains(day) implies (members(
                        done,
                    ).contains(day) || exists|b: int|
                        0 <= b < j + 1 && (#[trigger] s[b]).0 == day) by {
                        let p = choose|p: int| 0 <= p < days@.len() && #[trigger] days@[p] == day;
                        if p < before.len() {
                            assert(before[p] == day);
                            assert(members(before).contains(day));
                            if !members(done).contains(day) {
                                let b = choose|b: int| 0 <= b < j && (#[trigger] s[b]).0 == day;
                                assert(s[b].0 == day);
                            }
                        } else {
                            assert(s[j as int].0 == day);
                        }
                    }
                    assert forall|day: int|
                        (members(done).contains(day) || exists|b: int|
                            0 <= b < j + 1 && (#[trigger] s[b]).0 == day) implies members(
                        days@,
                    ).contains(day) by {
                        if members(done).contains(day) || exists|b: int|
                            0 <= b < j && (#[trigger] s[b]).0 == day {
                            assert(members(before).contains(day));
                            let p = choose|p: int|
                                0 <= p < before.len() && #[trigger] before[p] == day;
                            assert(days@[p] == day);
                        } else {
                            assert(days@[before.len() as int] == day);
                        }
                    }
                }
                j = j + 1;
            }
            proof {
                assert forall|day: int| members(days@).contains(day) implies (exists|a: int|
                    0 <= a < i + 1 && (#[trigger] vs[a]).data.contains_key(day)) by {
                    if members(done).contains(day) {
                        let a = choose|a: int|
                            0 <= a < i && (#[trigger] vs[a]).data.contains_key(day);
                        assert(vs[a].data.contains_key(day));
                    } else {
                        let b = choose|b: int| 0 <= b < j && (#[trigger] s[b]).0 == day;
                        assert(m.contains_pair(s[b].0, s[b].1));
                        assert(vs[i as int].data.contains_key(day));
                    }
                }
                assert forall|day: int|
                    (exists|a: int|
                        0 <= a < i + 1 && (#[trigger] vs[a]).data.contains_key(
                            day,
                        )) implies members(days@).contains(day) by {
                    let a = choose|a: int|
                        0 <= a < i + 1 && (#[trigger] vs[a]).data.contains_key(day);
                    if a < i {
                        assert(members(done).contains(day));
                    } else {
                        assert(m.contains_key(day));
                        let b = choose|b: int| 0 <= b < s.len() && (#[trigger] s[b]).0 == day;
                        assert(s[b].0 == day);
                    }
                }
            }
            i = i + 1;
        }
        let r = date_set_collect(days);
        proof {
            assert(date_set(r) =~= domain(vs));
        }
        r
    }

    /// The final date of the group: the latest of the last dates of its
    /// series. It fails where the group has no series or one of them has no
    /// entries.
    pub fn final_date(&self) -> (r: Result<Date, SeriesError>)
        ensures
            r.is_err() == lacks_final_day(self@.series),
            r matches Err(e) ==> e == SeriesError::EmptySeries,
            r matches Ok(date) ==> date@ == final_day(self@.series, self@.series.len() as int),
    {
        let ghost vs = self@.series;
        if self.series.len() == 0 {
            return Err(SeriesError::EmptySeries);
        }
        let mut best: Date = match self.series[0].last_date() {
            Some(date) => date,
            None => {
                proof {
                    assert(vs[0].data.dom() == Set::<int>::empty());
                }
                return Err(SeriesError::EmptySeries);
            },
        };
        let mut i: usize = 1;
        while i < self.series.len()
            invariant
                1 <= i <= self.series.len(),
                vs == views(self.series@),
                best@ == final_day(vs, i as int),
                forall|a: int| 0 <= a < i ==> (#[trigger] vs[a]).data.dom() != Set::<int>::empty(),
            decreases self.series.len() - i,
        {
            match self.series[i].last_date() {
                Some(date) => {
                    if date.days() > best.days() {
                        best = date;
                    }
                },
                None => {
                    proof {
                        assert(vs[i as int].data.dom() == Set::<int>::empty());
                    }
                    return Err(SeriesError::EmptySeries);
                },
            }
            i = i + 1;
        }
        Ok(best)
    }

    /// Every series accumulated up to the final date of the group, so that
    /// each has a running sum there. It fails where a series has no entries.
    pub fn accumulative(self) -> (r: Result<TimeSeriesGroup, SeriesError>)
        requires
            !some_empty(self@.series) ==> forall|i: int|
                0 <= i < self@.series.len() ==> values_fit(
                    accumulated(
                        (#[trigger] self@.series[i]).data,
                        Some(final_day(self@.series, self@.series.len() as int)),
                    ),
                ),
        ensures
            r.is_err() == some_empty(self@.series),
            r matches Err(e) ==> e == SeriesError::EmptySeries,
            r matches Ok(group) ==> group@.updated == self@.updated && group@.series
                == accumulated_all(
                self@.series,
                final_day(self@.series, self@.series.len() as int),
            ),
    {
        let ghost vs = self@.series;
        if self.series.len() == 0 {
            proof {
                assert(accumulated_all(vs, final_day(vs, 0)) =~= vs);
            }
            return Ok(self);
        }
        let end: Date = match self.final_date() {
            Ok(date) => date,
            Err(e) => {
                return Err(e);
            },
        };
        let mut out: Vec<TimeSeries> = Vec::new();
        let mut i: usize = 0;
        while i < self.series.len()
            invariant
                0 <= i <= self.series.len(),
                vs == views(self.series@),
                end@ == final_day(vs, vs.len() as int),
                forall|a: int|
                    0 <= a < vs.len() ==> values_fit(
                        accumulated((#[trigger] vs[a]).data, Some(end@)),
                    ),
                out@.len() == i,
                forall|a: int|
                    0 <= a < i ==> (#[trigger] out@[a])@ == accumulated_all(vs, end@)[a],
            decreases self.series.len() - i,
        {
            let member = self.series[i].clone();
            proof {
                assert(member@ == vs[i as int]);
            }
            let running = member.accumulative(Some(end));
            out.push(running);
            i = i + 1;
        }
        let group = TimeSeriesGroup { updated: self.updated, series: out };
        proof {
            assert(group@.series =~= accumulated_all(vs, end@));
        }
        Ok(group)
    }

    /// The group folded into one series: all series merged, from the first
    /// on, under the single tag `title`.
    pub fn sum(self, title: &str) -> (r: TimeSeriesGroup)
        requires
            forall|n: int|
                0 <= n <= self@.series.len() ==> values_fit(#[trigger] merged_all(self@.series, n)),
        ensures
            r@.updated == self@.updated,
            r@.series == summed(self@.series, title@),
    {
        let ghost vs = self@.series;
        let mut folded = TimeSeries::default();
        let mut i: usize = 0;
        while i < self.series.len()
            invariant
                0 <= i <= self.series.len(),
                vs == views(self.series@),
                forall|n: int| 0 <= n <= vs.len() ==> values_fit(#[trigger] merged_all(vs, n)),
                folded@.data == merged_all(vs, i as int),
            decreases self.series.len() - i,
        {
            let member = self.series[i].clone();
            proof {
                assert(member@ == vs[i as int]);
                assert(values_fit(merged_all(vs, i + 1)));
            }
            folded = folded.merge(member);
            i = i + 1;
        }
        let total = folded.with_tags(tag_set_unit(title.to_owned()));
        let mut series: Vec<TimeSeries> = Vec::new();
        series.push(total);
        let group = TimeSeriesGroup { updated: self.updated, series };
        proof {
            assert(group@.series =~= summed(vs, title@));
        }
        group
    }

    /// Every series as a percentage of the first one that carries
    /// `reference_tag`; that series itself is left out of the result. It
    /// fails where no series carries the tag.
    pub fn norm(self, reference_tag: &str) -> (r: Result<TimeSeriesGroup, SeriesError>)
        requires
            forall|i: int|
                0 <= i < self@.series.len() && reference(self@.series, reference_tag@)
                    < self@.series.len() && i != reference(self@.series, reference_tag@)
                    ==> values_fit(
                    ratios(
                        (#[trigger] self@.series[i]).data,
                        self@.series[reference(self@.series, reference_tag@)].data,
                    ),
                ),
        ensures
            r.is_err() == (reference(self@.series, reference_tag@) == self@.series.len()),
            r.is_err() == (forall|i: int|
                0 <= i < self@.series.len() ==> !(#[trigger] self@.series[i]).tags.contains(
                    reference_tag@,
                )),
            r matches Err(e) ==> e == SeriesError::MissingReference,
            r matches Ok(group) ==> group@.updated == self@.updated && group@.series
                == normalized(self@.series, reference(self@.series, reference_tag@)),
    {
        let ghost vs = self@.series;
        let ghost tag = reference_tag@;
        proof {
            lemma_reference_from(vs, tag, 0);
            lemma_reference_missing(vs, tag);
        }
        let mut base: usize = 0;
        while base < self.series.len() && !crate::collections::tag_set_contains(
            self.series[base].tags(),
            reference_tag,
        )
            invariant
                0 <= base <= self.series.len(),
                vs == views(self.series@),
                tag == reference_tag@,
                reference_from(vs, tag, base as int) == reference(vs, tag),
            decreases self.series.len() - base,
        {
            proof {
                assert(!vs[base as int].tags.contains(tag));
            }
            base = base + 1;
        }
        proof {
            if base < self.series.len() {
                assert(vs[base as int].tags.contains(tag));
            }
            assert(base == reference(vs, tag));
        }
        if base == self.series.len() {
            return Err(SeriesError::MissingReference);
        }
        let mut out: Vec<TimeSeries> = Vec::new();
        let mut i: usize = 0;
        while i < self.series.len()
            invariant
                0 <= i <= self.series.len(),
                0 <= base < self.series.len(),
                vs == views(self.series@),
                forall|a: int|
                    0 <= a < vs.len() && a != base ==> values_fit(
                        ratios((#[trigger] vs[a]).data, vs[base as int].data),
                    ),
                out@.len() == (if i <= base {
                    i as int
                } else {
                    i - 1
                }),
                forall|j: int|
                    0 <= j < out@.len() ==> (#[trigger] out@[j])@ == normalized(vs, base as int)[j],
            decreases self.series.len() - i,
        {
            if i != base {
                let member = self.series[i].clone();
                proof {
                    assert(member@ == vs[i as int]);
                    assert(self.series@[base as int]@ == vs[base as int]);
                }
                let share = member.ratio_to(&self.series[base]);
                out.push(share);
            }
            i = i + 1;
        }
        let group = TimeSeriesGroup { updated: self.updated, series: out };
        proof {
            assert(group@.series =~= normalized(vs, base as int));
        }
        Ok(group)
    }

    /// The sum of the values that the series have at `date`, a series without
    /// an entry there counting as zero.
    pub fn total_at(&self, date: Date) -> (r: i128)
        ensures
            r == final_total(self@.series, date@, self@.series.len() as int),
    {
        let ghost vs = self@.series;
        let mut total: i128 = 0;
        let mut i: usize = 0;
        while i < self.series.len()
            invariant
                0 <= i <= self.series.len(),
                vs == views(self.series@),
                total == final_total(vs, date@, i as int),
                -(i * 0x8000_0000_0000_0000) <= total <= i * 0x8000_0000_0000_0000,
            decreases self.series.len() - i,
        {
            let value: i64 = match self.series[i].get(date) {
                Some(value) => value,
                None => 0,
            };
            proof {
                assert(self.series@[i as int]@ == vs[i as int]);
                assert((i + 1) * 0x8000_0000_0000_0000 == i * 0x8000_0000_0000_0000
                    + 0x8000_0000_0000_0000) by (nonlinear_arith);
                assert(i * 0x8000_0000_0000_0000 <= 0xffff_ffff_ffff_fffe * 0x8000_0000_0000_0000)
                    by (nonlinear_arith)
                    requires
                        0 <= i <= 0xffff_ffff_ffff_fffe,
                ;
            }
            total = total + (value as i128);
            i = i + 1;
        }
        total
    }

    /// The group with one more series, tagged `title`: a straight line from
    /// the sum of the group at its final date to `goal` at `date`, sampled at
    /// the first day of a month. From the final date on, each stop is the
    /// first day of the month that lies `step_days` days after the stop
    /// before it; the stops end with the first that is not before `date`.
    ///
    /// It fails where the group has no series or a series without entries,
    /// and where `date` is not after the final date.
    ///
    /// `step_days` is long enough to leave any month, and the stops and
    /// their values must be within what dates and values can hold.
    pub fn future_goal(self, title: &str, date: Date, goal: i64, step_days: i32) -> (r: Result<
        TimeSeriesGroup,
        SeriesError,
    >)
        requires
            31 <= step_days,
            date@ + step_days <= DATE_MAX_DAYS,
            !lacks_final_day(self@.series) && final_day(self@.series, self@.series.len() as int)
                < date@ ==> ({
                let start = final_day(self@.series, self@.series.len() as int);
                let total = final_total(self@.series, start, self@.series.len() as int);
                &&& i64::MIN <= total <= i64::MAX
                &&& i64::MIN <= goal_value(
                    total,
                    goal as int,
                    date@ - start + step_days,
                    date@ - start,
                ) <= i64::MAX
            }),
        ensures
            r.is_err() == (lacks_final_day(self@.series) || date@ <= final_day(
                self@.series,
                self@.series.len() as int,
            )),
            r matches Err(e) ==> e == (if lacks_final_day(self@.series) {
                SeriesError::EmptySeries
            } else {
                SeriesError::DegenerateGoal
            }),
            r matches Ok(group) ==> group@.updated == self@.updated && exists|n: int|
                {
                    &&& 1 <= n
                    &&& forall|i: int|
                        0 <= i < n ==> #[trigger] stop(
                            final_day(self@.series, self@.series.len() as int),
                            step_days as int,
                            i,
                        ) < date@
                    &&& stop(
                        final_day(self@.series, self@.series.len() as int),
                        step_days as int,
                        n,
                    ) >= date@
                    &&& group@.series == #[trigger] with_goal(
                        self@.series,
                        title@,
                        step_days as int,
                        date@,
                        goal as int,
                        n,
                    )
                },
    {
        let ghost vs = self@.series;
        let origin: Date = match self.final_date() {
            Ok(found) => found,
            Err(e) => {
                return Err(e);
            },
        };
        let start: i32 = origin.days();
        let target: i32 = date.days();
        if target <= start {
            return Err(SeriesError::DegenerateGoal);
        }
        let wide: i128 = self.total_at(origin);
        let total: i64 = wide as i64;
        let all: i32 = target - start;
        let ghost far: int = all + step_days;
        let mut data = date_map_new();
        let mut current: i32 = start;
        let ghost mut n: int = 0;
        while current < target
            invariant
                31 <= step_days,
                target + step_days <= DATE_MAX_DAYS,
                is_date_number(start as int),
                start < target,
                all == target - start,
                far == all + step_days,
                i64::MIN <= goal_value(total as int, goal as int, far, all as int) <= i64::MAX,
                0 <= n,
                current == stop(start as int, step_days as int, n),
                start <= current,
                n == 0 ==> current == start,
                forall|i: int|
                    0 <= i < n ==> #[trigger] stop(start as int, step_days as int, i) < target,
                dated(date_values(data)),
                date_values(data) == goal_points(
                    start as int,
                    step_days as int,
                    target as int,
                    total as int,
                    goal as int,
                    n,
                ),
            decreases DATE_MAX_DAYS - current,
        {
            let reach: i32 = current + step_days;
            let landed: Date = Date::at(reach).first_of_month();
            let next: i32 = landed.days();
            let spent: i32 = next - start;
            proof {
                assert(current < next <= reach);
                assert(next == stop(start as int, step_days as int, n + 1));
                lemma_goal_value_between(total as int, goal as int, spent as int, far, all as int);
            }
            let value: i64 = project(total, goal, spent, all);
            let ghost before = date_values(data);
            date_map_insert(&mut data, next, value);
            proof {
                let later = goal_points(
                    start as int,
                    step_days as int,
                    target as int,
                    total as int,
                    goal as int,
                    n + 1,
                );
                assert forall|day: int| later.contains_key(day) implies date_values(
                    data,
                ).contains_key(day) by {
                    let i = choose|i: int|
                        1 <= i <= n + 1 && #[trigger] stop(start as int, step_days as int, i)
                            == day;
                    if i <= n {
                        assert(before.contains_key(day));
                    }
                }
                assert forall|day: int| date_values(data).contains_key(day) implies later.contains_key(
                    day,
                ) by {
                    if day == next {
                        assert(stop(start as int, step_days as int, n + 1) == day);
                    } else {
                        assert(before.contains_key(day));
                        let i = choose|i: int|
                            1 <= i <= n && #[trigger] stop(start as int, step_days as int, i)
                                == day;
                        assert(stop(start as int, step_days as int, i) == day);
                    }
                }
                assert(date_values(data) =~= later);
                n = n + 1;
            }
            current = next;
        }
        let projection = TimeSeries::new(tag_set_unit(title.to_owned()), data);
        let mut series = self.series;
        series.push(projection);
        let group = TimeSeriesGroup { updated: self.updated, series };
        proof {
            assert(group@.series =~= with_goal(
                vs,
                title@,
                step_days as int,
                date@,
                goal as int,
                n,
            ));
        }
        Ok(group)
    }

    /// Every series cut down to its entries after `date`.
    pub fn right(self, date: &Date) -> (r: TimeSeriesGroup)
        ensures
            r@.updated == self@.updated,
            r@.series == after_all(self@.series, date@),
    {
        let ghost vs = self@.series;
        let mut out: Vec<TimeSeries> = Vec::new();
        let mut i: usize = 0;
        while i < self.series.len()
            invariant
                0 <= i <= self.series.len(),
                vs == views(self.series@),
                out@.len() == i,
                forall|a: int| 0 <= a < i ==> (#[trigger] out@[a])@ == after_all(vs, date@)[a],
            decreases self.series.len() - i,
        {
            let member = self.series[i].clone();
            proof {
                assert(member@ == vs[i as int]);
            }
            out.push(member.right(date));
            i = i + 1;
        }
        let group = TimeSeriesGroup { updated: self.updated, series: out };
        proof {
            assert(group@.series =~= after_all(vs, date@));
        }
        group
    }

    /// Every series sampled down to its boundary dates, as `TimeSeries::reduce`
    /// does it.
    pub fn reduce<B: Fn(Date) -> bool, C: Fn(i64, i64) -> i64>(
        self,
        is_boundary: B,
        combine: C,
    ) -> (r: TimeSeriesGroup)
        requires
            forall|i: int|
                0 <= i < self@.series.len() ==> reducible(
                    is_boundary,
                    combine,
                    #[trigger] self@.series[i],
                ),
        ensures
            r@.updated == self@.updated,
            r@.series.len() == self@.series.len(),
            forall|i: int|
                0 <= i < self@.series.len() ==> reduces_to(
                    is_boundary,
                    combine,
                    self@.series[i],
                    #[trigger] r@.series[i],
                ),
    {
        let ghost vs = self@.series;
        let mut out: Vec<TimeSeries> = Vec::new();
        let mut i: usize = 0;
        while i < self.series.len()
            invariant
                0 <= i <= self.series.len(),
                vs == views(self.series@),
                forall|a: int|
                    0 <= a < vs.len() ==> reducible(is_boundary, combine, #[trigger] vs[a]),
                out@.len() == i,
                forall|a: int|
                    0 <= a < i ==> reduces_to(is_boundary, combine, vs[a], (#[trigger] out@[a])@),
            decreases self.series.len() - i,
        {
            let member = self.series[i].clone();
            proof {
                assert(member@ == vs[i as int]);
                assert(reducible(is_boundary, combine, vs[i as int]));
                assert forall|trace: ReduceTrace, n: int|
                    1 <= n && #[trigger] traced(
                        &is_boundary,
                        &combine,
                        listing(member@.data),
                        trace,
                        n,
                    ) implies i64::MIN <= bucket_sum(trace, n - 1) <= i64::MAX by {
                    lemma_traced_by_reference(
                        &is_boundary,
                        &combine,
                        listing(member@.data),
                        trace,
                        n,
                    );
                }
            }
            let reduced = member.reduce(&is_boundary, &combine);
            proof {
                let s = listing(vs[i as int].data);
                let trace = choose|trace: ReduceTrace| #[trigger]
                    traced(&is_boundary, &combine, s, trace, s.len() as int) && reduced@.data
                        == buckets(s, trace);
                lemma_traced_by_reference(&is_boundary, &combine, s, trace, s.len() as int);
                assert(traced(is_boundary, combine, s, trace, s.len() as int));
            }
            out.push(reduced);
            i = i + 1;
        }
        let group = TimeSeriesGroup { updated: self.updated, series: out };
        proof {
            assert forall|a: int| 0 <= a < vs.len() implies reduces_to(
                is_boundary,
                combine,
                vs[a],
                #[trigger] group@.series[a],
            ) by {
                assert(group@.series[a] == out@[a]@);
            }
        }
        group
    }
}

} // verus!
