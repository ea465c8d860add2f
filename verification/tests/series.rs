use chrono::{Datelike, NaiveDate, Weekday};
use statseries::series::{percent, trunc_div_wide};
use statseries::{Date, TimeSeries};

fn date(year: i32, month: u32, day: u32) -> Date {
    Date::from_ymd(year, month, day).unwrap()
}

fn tag_set(tags: &[&str]) -> im::OrdSet<String> {
    tags.iter().map(|t| t.to_string()).collect()
}

fn data_of(entries: &[(Date, i64)]) -> im::OrdMap<i32, i64> {
    entries.iter().map(|(d, v)| (d.days(), *v)).collect()
}

fn series(tags: &[&str], entries: &[(Date, i64)]) -> TimeSeries {
    TimeSeries::new(tag_set(tags), data_of(entries))
}

fn week() -> Vec<(Date, i64)> {
    (0..7).map(|i| (date(2020, 9, 1 + i as u32), i as i64 + 1)).collect()
}

#[test]
fn unit_has_one_entry() {
    let s = TimeSeries::unit(tag_set(&["a"]), date(2020, 1, 1), 5);
    assert_eq!(s.tags(), &tag_set(&["a"]));
    assert_eq!(s.data(), &data_of(&[(date(2020, 1, 1), 5)]));
    assert_eq!(s.len(), 1);
    assert_eq!(s.get(date(2020, 1, 1)), Some(5));
    assert_eq!(s.get(date(2020, 1, 2)), None);
}

#[test]
fn new_keeps_tags_and_entries() {
    let s = series(&["a", "b"], &[(date(2020, 1, 1), 5), (date(2019, 1, 1), 3)]);
    assert_eq!(s.tags(), &tag_set(&["b", "a"]));
    assert_eq!(s.entries(), vec![(date(2019, 1, 1), 3), (date(2020, 1, 1), 5)]);
    assert_eq!(s.last_date(), Some(date(2020, 1, 1)));
}

#[test]
fn default_is_empty() {
    let s = TimeSeries::default();
    assert!(s.tags().is_empty());
    assert!(s.data().is_empty());
    assert_eq!(s.len(), 0);
    assert_eq!(s.last_date(), None);
    assert_eq!(s.entries(), vec![]);
}

#[test]
fn with_tags_changes_the_tags_only() {
    let s = series(&["a"], &[(date(2020, 1, 1), 5)]).with_tags(tag_set(&["b", "c"]));
    assert_eq!(s, series(&["b", "c"], &[(date(2020, 1, 1), 5)]));
}

#[test]
fn clone_is_equal() {
    let s = series(&["a"], &week());
    assert_eq!(s.clone(), s);
}

#[test]
fn accumulative_gives_running_sums() {
    let s = series(&["a"], &[(date(2020, 1, 3), 4), (date(2020, 1, 1), 1), (date(2020, 1, 2), -2)]);
    let expect =
        series(&["a"], &[(date(2020, 1, 1), 1), (date(2020, 1, 2), -1), (date(2020, 1, 3), 3)]);
    assert_eq!(s.accumulative(None), expect);
}

#[test]
fn accumulative_of_one_entry_changes_nothing() {
    let s = series(&["a"], &[(date(2020, 1, 1), 7)]);
    let once = s.clone().accumulative(None);
    assert_eq!(once, s);
    assert_eq!(once.clone().accumulative(None), once);
}

#[test]
fn accumulative_does_not_fall_where_no_value_is_negative() {
    let s = series(&["a"], &[
        (date(2020, 1, 1), 3),
        (date(2020, 2, 1), 0),
        (date(2020, 3, 1), 5),
        (date(2020, 4, 1), 1),
    ]);
    let running = s.accumulative(Some(date(2020, 6, 1))).entries();
    assert_eq!(running.iter().map(|e| e.1).collect::<Vec<_>>(), vec![3, 3, 8, 9, 9]);
    for pair in running.windows(2) {
        assert!(pair[0].1 <= pair[1].1);
    }
}

#[test]
fn accumulative_twice_is_not_accumulative_once() {
    let s = series(&["a"], &[(date(2020, 1, 1), 1), (date(2020, 1, 2), 1)]);
    let once = s.accumulative(None);
    let twice = once.clone().accumulative(None);
    assert_eq!(once.get(date(2020, 1, 2)), Some(2));
    assert_eq!(twice.get(date(2020, 1, 2)), Some(3));
    assert_ne!(once, twice);
}

#[test]
fn accumulative_adds_the_total_at_an_absent_final_date() {
    let s = series(&["a"], &[(date(2020, 1, 1), 1), (date(2020, 1, 3), 2)]);
    let later = s.clone().accumulative(Some(date(2020, 1, 9)));
    assert_eq!(
        later,
        series(&["a"], &[(date(2020, 1, 1), 1), (date(2020, 1, 3), 3), (date(2020, 1, 9), 3)])
    );
    let between = s.clone().accumulative(Some(date(2020, 1, 2)));
    assert_eq!(
        between,
        series(&["a"], &[(date(2020, 1, 1), 1), (date(2020, 1, 2), 3), (date(2020, 1, 3), 3)])
    );
}

#[test]
fn accumulative_leaves_a_present_final_date_alone() {
    let s = series(&["a"], &[(date(2020, 1, 1), 1), (date(2020, 1, 3), 2)]);
    assert_eq!(s.clone().accumulative(Some(date(2020, 1, 1))), s.clone().accumulative(None));
    assert_eq!(s.clone().accumulative(Some(date(2020, 1, 3))), s.accumulative(None));
}

#[test]
fn accumulative_of_nothing_has_the_total_zero() {
    let s = TimeSeries::default();
    assert_eq!(s.clone().accumulative(None), s);
    assert_eq!(
        TimeSeries::default().accumulative(Some(date(2020, 1, 1))),
        series(&[], &[(date(2020, 1, 1), 0)])
    );
}

#[test]
fn right_keeps_what_is_strictly_later() {
    let s = series(&["a"], &week());
    let kept = s.clone().right(&date(2020, 9, 5));
    assert_eq!(kept, series(&["a"], &[(date(2020, 9, 6), 6), (date(2020, 9, 7), 7)]));
    assert_eq!(s.clone().right(&date(2020, 9, 7)), series(&["a"], &[]));
    assert_eq!(s.clone().right(&date(2020, 8, 31)), s);
}

#[test]
fn map_changes_each_value() {
    let s = series(&["a"], &week());
    let doubled = s.map(|v| 2 * v - 1);
    let expect: Vec<(Date, i64)> = week().into_iter().map(|(d, v)| (d, 2 * v - 1)).collect();
    assert_eq!(doubled, series(&["a"], &expect));
}

#[test]
fn merge_unites_tags_and_sums_shared_dates() {
    let a = series(&["a", "x"], &[(date(2020, 1, 1), 1), (date(2020, 1, 2), 2)]);
    let b = series(&["b", "x"], &[(date(2020, 1, 2), 10), (date(2020, 1, 3), 20)]);
    let expect = series(&["a", "b", "x"], &[
        (date(2020, 1, 1), 1),
        (date(2020, 1, 2), 12),
        (date(2020, 1, 3), 20),
    ]);
    assert_eq!(a.merge(b), expect);
}

#[test]
fn merge_is_commutative() {
    let a = series(&["a"], &[(date(2020, 1, 1), 1), (date(2020, 1, 2), 2)]);
    let b = series(&["b"], &[(date(2020, 1, 2), -7), (date(2020, 1, 5), 20)]);
    assert_eq!(a.clone().merge(b.clone()), b.merge(a));
}

#[test]
fn merge_is_associative() {
    let a = series(&["a"], &[(date(2020, 1, 1), 1), (date(2020, 1, 2), 2)]);
    let b = series(&["b"], &[(date(2020, 1, 2), -7), (date(2020, 1, 5), 20)]);
    let c = series(&["a", "c"], &[(date(2020, 1, 2), 100), (date(2020, 1, 1), 3)]);
    assert_eq!(
        a.clone().merge(b.clone()).merge(c.clone()),
        a.merge(b.merge(c))
    );
}

#[test]
fn merge_with_the_empty_series_is_the_identity() {
    let a = series(&["a"], &week());
    assert_eq!(a.clone().merge(TimeSeries::default()), a);
    assert_eq!(TimeSeries::default().merge(a.clone()), a);
}

#[test]
fn ratio_is_a_truncated_percentage() {
    let part = series(&["part"], &[
        (date(2020, 1, 1), 1),
        (date(2020, 1, 2), 2),
        (date(2020, 1, 3), -1),
        (date(2020, 1, 4), 50),
    ]);
    let whole = series(&["whole"], &[
        (date(2020, 1, 1), 3),
        (date(2020, 1, 2), 3),
        (date(2020, 1, 3), 3),
        (date(2020, 1, 4), -7),
    ]);
    let expect = series(&["part"], &[
        (date(2020, 1, 1), 33),
        (date(2020, 1, 2), 66),
        (date(2020, 1, 3), -33),
        (date(2020, 1, 4), -714),
    ]);
    assert_eq!(part.ratio_to(&whole), expect);
}

#[test]
fn ratio_to_zero_is_zero() {
    let part = series(&["part"], &[(date(2020, 1, 1), 5), (date(2020, 1, 2), -5)]);
    let whole = series(&["whole"], &[(date(2020, 1, 1), 0), (date(2020, 1, 2), 0)]);
    assert_eq!(
        part.ratio_to(&whole),
        series(&["part"], &[(date(2020, 1, 1), 0), (date(2020, 1, 2), 0)])
    );
}

#[test]
fn ratio_covers_the_dates_of_both_series() {
    let part = series(&["part"], &[(date(2020, 1, 1), 5), (date(2020, 1, 2), 6)]);
    let whole = series(&["whole"], &[(date(2020, 1, 2), 12), (date(2020, 1, 3), 9)]);
    assert_eq!(
        part.ratio_to(&whole),
        series(&["part"], &[(date(2020, 1, 1), 0), (date(2020, 1, 2), 50), (date(2020, 1, 3), 0)])
    );
}

#[test]
fn percent_rounds_towards_zero() {
    assert_eq!(percent(1, 3), 33);
    assert_eq!(percent(-1, 3), -33);
    assert_eq!(percent(1, -3), -33);
    assert_eq!(percent(-1, -3), 33);
    assert_eq!(percent(0, -3), 0);
    assert_eq!(percent(7, 7), 100);
    assert_eq!(percent(i64::MAX, i64::MIN), -99);
    assert_eq!(percent(i64::MIN, i64::MIN), 100);
}

#[test]
fn wide_division_rounds_towards_zero() {
    assert_eq!(trunc_div_wide(7, 2), 3);
    assert_eq!(trunc_div_wide(-7, 2), -3);
    assert_eq!(trunc_div_wide(7, -2), -3);
    assert_eq!(trunc_div_wide(-7, -2), 3);
    assert_eq!(trunc_div_wide(0, -2), 0);
    assert_eq!(trunc_div_wide(i128::MAX, 1), i128::MAX);
}

#[test]
fn reduce_sums_the_deltas_of_a_week() {
    let s = series(&["a"], &week());
    let seventh = date(2020, 9, 7);
    let weekly = s.reduce(|d| d == seventh, |before, now| now - before);
    assert_eq!(weekly, series(&["a"], &[(seventh, 6)]));
}

#[test]
fn reduce_starts_again_after_each_boundary() {
    let entries: Vec<(Date, i64)> =
        (0..10).map(|i| (date(2020, 9, 1 + i as u32), (i * i) as i64)).collect();
    let s = series(&["a"], &entries);
    let stops = [date(2020, 9, 3), date(2020, 9, 4), date(2020, 9, 9)];
    let reduced = s.reduce(|d| stops.contains(&d), |before, now| now - before);
    assert_eq!(
        reduced,
        series(&["a"], &[(date(2020, 9, 3), 4), (date(2020, 9, 4), 5), (date(2020, 9, 9), 55)])
    );
}

#[test]
fn reduce_emits_zero_at_a_first_entry_on_a_boundary() {
    let s = series(&["a"], &week());
    let reduced = s.reduce(|d| d.days() % 2 == date(2020, 9, 1).days() % 2, |a, b| a + b);
    assert_eq!(
        reduced,
        series(&["a"], &[
            (date(2020, 9, 1), 0),
            (date(2020, 9, 3), 3 + 5),
            (date(2020, 9, 5), 7 + 9),
            (date(2020, 9, 7), 11 + 13),
        ])
    );
}

#[test]
fn reduce_without_boundaries_is_empty() {
    let s = series(&["a"], &week());
    assert_eq!(s.reduce(|_| false, |a, b| b - a), series(&["a"], &[]));
}

#[test]
fn reduce_by_weekday() {
    let entries: Vec<(Date, i64)> =
        (0..21).map(|i| (date(2020, 9, 1 + i as u32), 10 * i as i64)).collect();
    let s = series(&["a"], &entries);
    let monday = |d: Date| {
        NaiveDate::from_num_days_from_ce_opt(d.days()).unwrap().weekday() == Weekday::Mon
    };
    let reduced = s.reduce(monday, |before, now| now - before);
    assert_eq!(
        reduced,
        series(&["a"], &[(date(2020, 9, 7), 60), (date(2020, 9, 14), 70), (date(2020, 9, 21), 70)])
    );
}
