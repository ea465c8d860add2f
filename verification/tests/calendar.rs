use chrono::{Datelike, NaiveDate};
use statseries::calendar::{DATE_MAX_DAYS, DATE_MIN_DAYS};
use statseries::{DataPoint, Date, SeriesError};

fn chrono_days(year: i32, month: u32, day: u32) -> i32 {
    NaiveDate::from_ymd_opt(year, month, day).unwrap().num_days_from_ce()
}

#[test]
fn day_numbers_count_from_year_one() {
    assert_eq!(Date::from_ymd(1, 1, 1).unwrap().days(), 1);
    assert_eq!(Date::from_ymd(1970, 1, 1).unwrap().days(), 719_163);
    assert_eq!(Date::from_ymd(2020, 9, 8).unwrap().days(), chrono_days(2020, 9, 8));
}

#[test]
fn range_of_dates_is_years_0_to_9999() {
    assert_eq!(Date::from_ymd(0, 1, 1).unwrap().days(), DATE_MIN_DAYS);
    assert_eq!(Date::from_ymd(9999, 12, 31).unwrap().days(), DATE_MAX_DAYS);
    assert_eq!(DATE_MIN_DAYS, -365);
    assert_eq!(DATE_MAX_DAYS, 3_652_059);
    assert_eq!(Date::from_ymd(10000, 1, 1), None);
    assert_eq!(Date::from_ymd(-1, 12, 31), None);
    assert_eq!(Date::from_days(DATE_MIN_DAYS - 1), None);
    assert_eq!(Date::from_days(DATE_MAX_DAYS + 1), None);
    assert_eq!(Date::from_days(DATE_MIN_DAYS).unwrap().days(), DATE_MIN_DAYS);
    assert_eq!(Date::from_days(DATE_MAX_DAYS).unwrap().days(), DATE_MAX_DAYS);
}

#[test]
fn dates_the_calendar_lacks_are_refused() {
    assert_eq!(Date::from_ymd(2019, 2, 29), None);
    assert_eq!(Date::from_ymd(2020, 2, 30), None);
    assert_eq!(Date::from_ymd(2020, 0, 1), None);
    assert_eq!(Date::from_ymd(2020, 13, 1), None);
    assert_eq!(Date::from_ymd(2020, 4, 31), None);
    assert_eq!(Date::from_ymd(2020, 1, 0), None);
    assert!(Date::from_ymd(2020, 2, 29).is_some());
}

#[test]
fn at_gives_the_date_of_a_day_number() {
    assert_eq!(Date::at(719_163), Date::from_ymd(1970, 1, 1).unwrap());
    assert_eq!(Date::at(1).days(), 1);
}

#[test]
fn dates_order_as_their_days() {
    let early = Date::from_ymd(2020, 1, 31).unwrap();
    let late = Date::from_ymd(2020, 2, 1).unwrap();
    assert!(early < late);
    assert_eq!(late.days() - early.days(), 1);
    assert_eq!(early, Date::from_days(early.days()).unwrap());
}

#[test]
fn first_of_month_snaps_back_to_day_one() {
    let cases = [
        ((2020, 1, 1), (2020, 1, 1)),
        ((2020, 1, 31), (2020, 1, 1)),
        ((2020, 2, 29), (2020, 2, 1)),
        ((2021, 3, 3), (2021, 3, 1)),
        ((1999, 12, 31), (1999, 12, 1)),
        ((0, 1, 17), (0, 1, 1)),
        ((9999, 12, 31), (9999, 12, 1)),
    ];
    for ((y, m, d), (ey, em, ed)) in cases {
        let date = Date::from_ymd(y, m, d).unwrap();
        let first = date.first_of_month();
        assert_eq!(first, Date::from_ymd(ey, em, ed).unwrap());
        assert!(first <= date);
        assert!(date.days() - first.days() <= 30);
    }
}

#[test]
fn first_of_month_moves_a_later_day() {
    let date = Date::from_ymd(2020, 5, 17).unwrap();
    assert_ne!(date.first_of_month(), date);
    assert_eq!(date.first_of_month().days(), chrono_days(2020, 5, 1));
}

#[test]
fn parse_time_reads_a_year() {
    assert_eq!(DataPoint::parse_time("2018"), Ok(Date::from_ymd(2018, 1, 1).unwrap()));
    assert_eq!(DataPoint::parse_time("0000"), Ok(Date::from_ymd(0, 1, 1).unwrap()));
    assert_eq!(DataPoint::parse_time("9999"), Ok(Date::from_ymd(9999, 1, 1).unwrap()));
    assert_eq!(DataPoint::parse_time("0985"), Ok(Date::from_ymd(985, 1, 1).unwrap()));
}

#[test]
fn parse_time_reads_a_year_and_month() {
    assert_eq!(DataPoint::parse_time("2018M01"), Ok(Date::from_ymd(2018, 1, 1).unwrap()));
    assert_eq!(DataPoint::parse_time("2018M07"), Ok(Date::from_ymd(2018, 7, 1).unwrap()));
    assert_eq!(DataPoint::parse_time("2020M12"), Ok(Date::from_ymd(2020, 12, 1).unwrap()));
    assert_eq!(DataPoint::parse_time("2020M12").unwrap().days(), chrono_days(2020, 12, 1));
}

#[test]
fn parse_time_refuses_other_forms() {
    let refused = [
        "", "18", "218", "20180", "2018M", "2018M1", "2018M7", "2018M00", "2018M13", "2018M99",
        "2018-07", "2018m07", "2018K1", "2018M071", "2018M07D01", "201aM07", "2o18", "+2018",
        " 2018", "2018 ", "2018M0a", "２０１８",
    ];
    for label in refused {
        assert_eq!(DataPoint::parse_time(label), Err(SeriesError::DateFormat), "{:?}", label);
    }
}

#[test]
fn parse_time_fields_gives_year_and_month() {
    assert_eq!(statseries::points::parse_time_fields("2018"), Ok((2018, 1)));
    assert_eq!(statseries::points::parse_time_fields("2018M11"), Ok((2018, 11)));
    assert_eq!(statseries::points::parse_time_fields("0007M02"), Ok((7, 2)));
    assert_eq!(statseries::points::parse_time_fields("2018M1"), Err(SeriesError::DateFormat));
}

#[test]
fn digits_are_read_one_by_one() {
    assert_eq!(statseries::points::digit_of('0'), Some(0));
    assert_eq!(statseries::points::digit_of('9'), Some(9));
    assert_eq!(statseries::points::digit_of('/'), None);
    assert_eq!(statseries::points::digit_of(':'), None);
    assert_eq!(statseries::points::digit_of('M'), None);
}

#[test]
fn every_error_has_its_message() {
    let all = [
        SeriesError::ShapeMismatch,
        SeriesError::DateFormat,
        SeriesError::MissingReference,
        SeriesError::DegenerateGoal,
        SeriesError::EmptySeries,
    ];
    for (i, a) in all.iter().enumerate() {
        assert!(!a.message().is_empty());
        for b in all.iter().skip(i + 1) {
            assert_ne!(a.message(), b.message());
        }
    }
    assert_eq!(SeriesError::EmptySeries.message(), "series has no entries");
}

#[test]
fn every_month_of_the_range_has_its_first_day() {
    let mut before = DATE_MIN_DAYS - 1;
    for year in 0..=9999 {
        for month in 1..=12 {
            let first = Date::from_ymd(year, month, 1).unwrap();
            assert!(DATE_MIN_DAYS <= first.days() && first.days() <= DATE_MAX_DAYS);
            assert!(before < first.days());
            assert_eq!(first.first_of_month(), first);
            before = first.days();
        }
    }
}

#[test]
fn first_of_month_is_never_far_back() {
    let mut days = DATE_MIN_DAYS;
    while days <= DATE_MAX_DAYS {
        let date = Date::from_days(days).unwrap();
        let first = date.first_of_month().days();
        assert!(DATE_MIN_DAYS <= first && first <= days && days - first <= 30);
        days += 5;
    }
    let last = Date::from_days(DATE_MAX_DAYS).unwrap();
    assert_eq!(last.days() - last.first_of_month().days(), 30);
}
