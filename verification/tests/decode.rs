use statseries::models::data::{
    Category, CategoryWithUnit, ContentsCode, Dimension, Dimensions, Role,
};
use statseries::points::{is_addressable, is_labelled, zero_fill};
use statseries::{DataPoint, Date, SeriesError, TimeSeries};

fn tags_of(pairs: &[(&str, &str)]) -> im::OrdMap<String, String> {
    pairs.iter().map(|(k, v)| (k.to_string(), v.to_string())).collect()
}

fn tag_set(tags: &[&str]) -> im::OrdSet<String> {
    tags.iter().map(|t| t.to_string()).collect()
}

fn point(value: i64, pairs: &[(&str, &str)]) -> DataPoint {
    DataPoint { value, tags: tags_of(pairs) }
}

fn category(entries: &[(&str, u64, &str)]) -> Category {
    Category {
        index: entries.iter().map(|(id, at, _)| (id.to_string(), *at)).collect(),
        label: entries.iter().map(|(id, _, label)| (id.to_string(), label.to_string())).collect(),
    }
}

fn dimension(label: &str, entries: &[(&str, u64, &str)]) -> Dimension {
    Dimension { label: label.to_string(), category: category(entries) }
}

fn contents_code() -> ContentsCode {
    ContentsCode {
        label: "Indhold".to_string(),
        category: CategoryWithUnit {
            index: vec![("BIL".to_string(), 0)],
            label: vec![("BIL".to_string(), "Biler".to_string())],
            unit: vec![],
        },
    }
}

fn dimensions() -> Dimensions {
    Dimensions {
        dimension: vec![
            (
                "DRIV".to_string(),
                dimension("drivmiddel", &[("20205", 1, "Diesel"), ("20200", 0, "Benzin")]),
            ),
            (
                "Tid".to_string(),
                dimension("tid", &[("2018", 0, "2018"), ("2019", 1, "2019"), ("2020", 2, "2020")]),
            ),
        ],
        contents_code: contents_code(),
        id: vec!["DRIV".to_string(), "ContentsCode".to_string(), "Tid".to_string()],
        size: vec![2, 1, 3],
        role: Role { metric: vec!["ContentsCode".to_string()], time: vec!["Tid".to_string()] },
    }
}

#[test]
fn test_from_dimensions_and_data() {
    let dimensions = vec![
        ("DRIV", vec!["Benzin", "Diesel", "El"]),
        ("EJER", vec!["Privat", "Erhverv"]),
        ("Data", vec!["Data"]),
        ("Tid", vec!["2018", "2019", "2020"]),
    ];

    let mut expect: Vec<DataPoint> = vec![];

    let mut values = vec![];
    for driv in &dimensions[0].1 {
        for ejer in &dimensions[1].1 {
            for data in &dimensions[2].1 {
                for tid in &dimensions[3].1 {
                    let n = values.len() as i64;
                    values.push(n);
                    expect.push(DataPoint {
                        tags: vec![
                            ("DRIV".to_string(), driv.to_string()),
                            ("EJER".to_string(), ejer.to_string()),
                            ("Data".to_string(), data.to_string()),
                            ("Tid".to_string(), tid.to_string()),
                        ]
                        .into_iter()
                        .collect(),
                        value: n,
                    });
                }
            }
        }
    }

    let got = DataPoint::join_dimensions_and_data(&dimensions, im::OrdMap::new(), &values);
    assert_eq!(got.unwrap(), expect);
}

#[test]
fn decoding_enumerates_the_product_in_row_major_order() {
    let labels_a = ["a0", "a1"];
    let labels_b = ["b0", "b1", "b2"];
    let labels_c = ["c0", "c1", "c2", "c3"];
    let dimensions =
        vec![("A", labels_a.to_vec()), ("B", labels_b.to_vec()), ("C", labels_c.to_vec())];
    let values: Vec<i64> = (0..24).collect();
    let points =
        DataPoint::join_dimensions_and_data(&dimensions, im::OrdMap::new(), &values).unwrap();
    assert_eq!(points.len(), 24);
    for (position, p) in points.iter().enumerate() {
        assert_eq!(p.value, position as i64);
        let a = position / 12;
        let b = (position / 4) % 3;
        let c = position % 4;
        assert_eq!(p.tags, tags_of(&[("A", labels_a[a]), ("B", labels_b[b]), ("C", labels_c[c])]));
    }
    for i in 0..points.len() {
        for j in (i + 1)..points.len() {
            assert_ne!(points[i].tags, points[j].tags);
        }
    }
    for a in labels_a {
        for b in labels_b {
            for c in labels_c {
                let wanted = tags_of(&[("A", a), ("B", b), ("C", c)]);
                assert_eq!(points.iter().filter(|p| p.tags == wanted).count(), 1);
            }
        }
    }
}

#[test]
fn decoding_keeps_the_base_tags() {
    let dimensions = vec![("A", vec!["x", "y"])];
    let base = tags_of(&[("source", "dst"), ("A", "overwritten")]);
    let points = DataPoint::join_dimensions_and_data(&dimensions, base, &[7, 8]).unwrap();
    assert_eq!(points[0], point(7, &[("source", "dst"), ("A", "x")]));
    assert_eq!(points[1], point(8, &[("source", "dst"), ("A", "y")]));
}

#[test]
fn decoding_without_axes_takes_one_value() {
    let dimensions: Vec<(&str, Vec<&str>)> = vec![];
    let points =
        DataPoint::join_dimensions_and_data(&dimensions, tags_of(&[("k", "v")]), &[42]).unwrap();
    assert_eq!(points, vec![point(42, &[("k", "v")])]);
    assert_eq!(
        DataPoint::join_dimensions_and_data(&dimensions, im::OrdMap::new(), &[]),
        Err(SeriesError::ShapeMismatch)
    );
    assert_eq!(
        DataPoint::join_dimensions_and_data(&dimensions, im::OrdMap::new(), &[1, 2]),
        Err(SeriesError::ShapeMismatch)
    );
}

#[test]
fn a_short_array_is_a_shape_mismatch() {
    let dimensions = vec![("A", vec!["x", "y"]), ("B", vec!["p", "q", "r"])];
    let values = [1, 2, 3, 4, 5];
    assert_eq!(
        DataPoint::join_dimensions_and_data(&dimensions, im::OrdMap::new(), &values),
        Err(SeriesError::ShapeMismatch)
    );
}

#[test]
fn a_long_array_is_a_shape_mismatch() {
    let dimensions = vec![("A", vec!["x", "y"]), ("B", vec!["p", "q", "r"])];
    let values = [1, 2, 3, 4, 5, 6, 7];
    assert_eq!(
        DataPoint::join_dimensions_and_data(&dimensions, im::OrdMap::new(), &values),
        Err(SeriesError::ShapeMismatch)
    );
    let exact = [1, 2, 3, 4, 5, 6];
    assert_eq!(
        DataPoint::join_dimensions_and_data(&dimensions, im::OrdMap::new(), &exact)
            .unwrap()
            .len(),
        6
    );
}

#[test]
fn an_axis_without_labels_leaves_no_positions() {
    let dimensions = vec![("A", vec!["x", "y"]), ("B", vec![])];
    assert_eq!(
        DataPoint::join_dimensions_and_data(&dimensions, im::OrdMap::new(), &[]),
        Ok(vec![])
    );
    assert_eq!(
        DataPoint::join_dimensions_and_data(&dimensions, im::OrdMap::new(), &[1, 2]),
        Err(SeriesError::ShapeMismatch)
    );
}

#[test]
fn decode_takes_owned_axes() {
    let axes = vec![
        ("A".to_string(), vec!["x".to_string(), "y".to_string()]),
        ("B".to_string(), vec!["p".to_string(), "q".to_string()]),
    ];
    let points = DataPoint::decode(&axes, &im::OrdMap::new(), &[10, 11, 12, 13]).unwrap();
    assert_eq!(
        points,
        vec![
            point(10, &[("A", "x"), ("B", "p")]),
            point(11, &[("A", "x"), ("B", "q")]),
            point(12, &[("A", "y"), ("B", "p")]),
            point(13, &[("A", "y"), ("B", "q")]),
        ]
    );
}

#[test]
fn labels_come_out_by_position() {
    let d = dimension(
        "drivmiddel",
        &[("20200", 2, "Benzin"), ("20205", 0, "Diesel"), ("20225", 1, "El")],
    );
    assert_eq!(DataPoint::labels_sorted_by_index(&d), vec!["Diesel", "El", "Benzin"]);
}

#[test]
fn a_later_entry_takes_a_position_held_already() {
    let d = dimension("x", &[("a", 0, "first"), ("b", 1, "second"), ("c", 0, "third")]);
    assert_eq!(DataPoint::labels_sorted_by_index(&d), vec!["third", "second"]);
}

#[test]
fn labelled_categories_are_told_from_others() {
    let good = category(&[("a", 0, "A"), ("b", 1, "B")]);
    assert!(is_labelled(&good));
    let bad = Category {
        index: vec![("a".to_string(), 0), ("b".to_string(), 1)],
        label: vec![("a".to_string(), "A".to_string())],
    };
    assert!(!is_labelled(&bad));
}

#[test]
fn addressable_dimensions_are_told_from_others() {
    assert!(is_addressable(&dimensions()));
    let mut missing = dimensions();
    missing.id.push("EJER".to_string());
    assert!(!is_addressable(&missing));
    let mut unlabelled = dimensions();
    unlabelled.dimension[0].1.category.label.clear();
    assert!(!is_addressable(&unlabelled));
    let mut metric_only = dimensions();
    metric_only.dimension.clear();
    metric_only.id = vec!["ContentsCode".to_string()];
    assert!(is_addressable(&metric_only));
}

#[test]
fn datasets_are_read_without_the_metric_dimension() {
    let points =
        DataPoint::from_dimensions_and_data(&dimensions(), &[1, 2, 3, 4, 5, 6]).unwrap();
    assert_eq!(
        points,
        vec![
            point(1, &[("DRIV", "Benzin"), ("Tid", "2018")]),
            point(2, &[("DRIV", "Benzin"), ("Tid", "2019")]),
            point(3, &[("DRIV", "Benzin"), ("Tid", "2020")]),
            point(4, &[("DRIV", "Diesel"), ("Tid", "2018")]),
            point(5, &[("DRIV", "Diesel"), ("Tid", "2019")]),
            point(6, &[("DRIV", "Diesel"), ("Tid", "2020")]),
        ]
    );
    assert_eq!(
        DataPoint::from_dimensions_and_data(&dimensions(), &[1, 2, 3, 4, 5]),
        Err(SeriesError::ShapeMismatch)
    );
}

#[test]
fn missing_values_are_read_as_zero() {
    assert_eq!(zero_fill(&vec![Some(3), None, Some(-1), None]), vec![3, 0, -1, 0]);
    assert_eq!(zero_fill(&vec![]), Vec::<i64>::new());
}

#[test]
fn points_gather_into_series_by_their_other_tags() {
    let points = vec![
        point(1, &[("DRIV", "Benzin"), ("Tid", "2018")]),
        point(2, &[("DRIV", "Benzin"), ("Tid", "2019")]),
        point(4, &[("DRIV", "Diesel"), ("Tid", "2018M03")]),
        point(5, &[("DRIV", "Diesel"), ("Tid", "2019")]),
    ];
    let mut series = DataPoint::to_timeseries("Tid", points).unwrap();
    series.sort_by_key(|s| s.tags().iter().cloned().collect::<Vec<_>>());
    let date = |y, m| Date::from_ymd(y, m, 1).unwrap();
    let benzin = TimeSeries::unit(tag_set(&["Benzin"]), date(2018, 1), 1)
        .merge(TimeSeries::unit(tag_set(&["Benzin"]), date(2019, 1), 2));
    let diesel = TimeSeries::unit(tag_set(&["Diesel"]), date(2018, 3), 4)
        .merge(TimeSeries::unit(tag_set(&["Diesel"]), date(2019, 1), 5));
    assert_eq!(series, vec![benzin, diesel]);
}

#[test]
fn values_of_one_date_in_one_series_are_added() {
    let points = vec![
        point(1, &[("A", "x"), ("Tid", "2018")]),
        point(10, &[("A", "x"), ("Tid", "2018M01")]),
        point(100, &[("A", "x"), ("Tid", "2018M02")]),
    ];
    let series = DataPoint::to_timeseries("Tid", points).unwrap();
    assert_eq!(series.len(), 1);
    assert_eq!(series[0].get(Date::from_ymd(2018, 1, 1).unwrap()), Some(11));
    assert_eq!(series[0].get(Date::from_ymd(2018, 2, 1).unwrap()), Some(100));
    assert_eq!(series[0].len(), 2);
}

#[test]
fn tags_of_a_series_are_the_labels_not_the_ids() {
    let points = vec![point(1, &[("A", "same"), ("B", "same"), ("C", "other"), ("Tid", "2018")])];
    let series = DataPoint::to_timeseries("Tid", points).unwrap();
    assert_eq!(series[0].tags(), &tag_set(&["other", "same"]));
}

#[test]
fn a_bad_time_label_is_a_date_format_error() {
    let points = vec![
        point(1, &[("A", "x"), ("Tid", "2018")]),
        point(2, &[("A", "x"), ("Tid", "2018K1")]),
    ];
    assert_eq!(DataPoint::to_timeseries("Tid", points), Err(SeriesError::DateFormat));
}

#[test]
fn a_point_without_time_label_is_a_date_format_error() {
    let points = vec![point(1, &[("A", "x")])];
    assert_eq!(DataPoint::to_timeseries("Tid", points), Err(SeriesError::DateFormat));
}

#[test]
fn no_points_make_no_series() {
    assert_eq!(DataPoint::to_timeseries("Tid", vec![]), Ok(vec![]));
}
