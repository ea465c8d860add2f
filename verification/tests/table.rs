use statseries::models::data::{
    Category, CategoryWithUnit, ContentsCode, DataRequest, Dataset, Dimension, Dimensions, Role,
};
use statseries::models::metadata::{Documentation, Metadata, Value, Variable};
use statseries::table::{
    find_choice, find_time, find_value, find_variable, has_texts, is_valid_selector,
};
use statseries::{Date, SeriesError, Table, TableFetcher, TimeSeries};

fn strings(texts: &[&str]) -> Vec<String> {
    texts.iter().map(|t| t.to_string()).collect()
}

fn variable(id: &str, time: bool, values: &[(&str, &str)]) -> Variable {
    Variable {
        elimination: false,
        id: id.to_string(),
        text: id.to_lowercase(),
        time,
        values: values
            .iter()
            .map(|(id, text)| Value { id: id.to_string(), text: text.to_string() })
            .collect(),
    }
}

fn metadata() -> Metadata {
    Metadata {
        active: true,
        contacts: vec![],
        description: "Bestand af personbiler".to_string(),
        documentation: Documentation { id: "doc".to_string(), url: "https://example.org".to_string() },
        footnote: None,
        id: "BIL51".to_string(),
        suppressed_data_value: "0".to_string(),
        text: "Personbiler".to_string(),
        unit: "antal".to_string(),
        updated: 1_580_000_000,
        variables: vec![
            variable("DRIV", false, &[("20200", "Benzin"), ("20205", "Diesel"), ("20225", "El")]),
            variable("EJER", false, &[("1000", "Privat"), ("1005", "Erhverv")]),
            variable("Tid", true, &[("2018", "2018"), ("2019", "2019")]),
        ],
    }
}

fn category(entries: &[(&str, u64, &str)]) -> Category {
    Category {
        index: entries.iter().map(|(id, at, _)| (id.to_string(), *at)).collect(),
        label: entries.iter().map(|(id, _, label)| (id.to_string(), label.to_string())).collect(),
    }
}

fn dataset(values: Vec<Option<i64>>) -> Dataset {
    Dataset {
        dimension: Dimensions {
            dimension: vec![
                (
                    "DRIV".to_string(),
                    Dimension {
                        label: "drivmiddel".to_string(),
                        category: category(&[("20200", 0, "Benzin"), ("20205", 1, "Diesel")]),
                    },
                ),
                (
                    "Tid".to_string(),
                    Dimension {
                        label: "tid".to_string(),
                        category: category(&[("2018", 0, "2018"), ("2019M06", 1, "2019M06")]),
                    },
                ),
            ],
            contents_code: ContentsCode {
                label: "Indhold".to_string(),
                category: CategoryWithUnit { index: vec![], label: vec![], unit: vec![] },
            },
            id: strings(&["DRIV", "ContentsCode", "Tid"]),
            size: vec![2, 1, 2],
            role: Role { metric: strings(&["ContentsCode"]), time: strings(&["Tid"]) },
        },
        label: "Bestand".to_string(),
        source: "Danmarks Statistik".to_string(),
        updated: "2020-01-26T00:00:00Z".to_string(),
        value: values,
    }
}

fn asked(request: &DataRequest) -> Vec<(String, Vec<String>)> {
    request
        .variables
        .iter()
        .map(|v| (v.code.to_string(), v.values.iter().map(|s| s.to_string()).collect()))
        .collect()
}

#[test]
fn a_new_fetcher_selects_nothing() {
    let fetcher = TableFetcher::new("DODC1");
    assert_eq!(fetcher.table(), "DODC1");
    assert!(fetcher.selector().is_empty());
}

#[test]
fn select_adds_values_under_their_variable() {
    let fetcher = TableFetcher::new("SMIT2")
        .select("ALDER1", &["90 år og derover", "80-89 år"])
        .select("AKTP", &["Bekræftede tilfælde"])
        .select("ALDER1", &["70-79 år"])
        .select("KØN", &[]);
    assert_eq!(fetcher.table(), "SMIT2");
    assert_eq!(fetcher.selector(), &vec![
        ("ALDER1".to_string(), strings(&["90 år og derover", "80-89 år", "70-79 år"])),
        ("AKTP".to_string(), strings(&["Bekræftede tilfælde"])),
        ("KØN".to_string(), strings(&[])),
    ]);
}

#[test]
fn a_request_asks_for_everything_by_default() {
    let table = Table::new("BIL51", metadata());
    let request = table.request(&vec![]).unwrap();
    assert_eq!(request.table, "BIL51");
    assert_eq!(request.format, "JSONSTAT");
    assert_eq!(asked(&request), vec![
        ("DRIV".to_string(), strings(&["*"])),
        ("EJER".to_string(), strings(&["*"])),
        ("Tid".to_string(), strings(&["*"])),
    ]);
}

#[test]
fn a_request_names_chosen_values_by_their_ids() {
    let table = Table::new("BIL51", metadata());
    let selector = TableFetcher::new("BIL51").select("EJER", &["Erhverv"]).select("DRIV", &["El", "Benzin"]);
    let request = table.request(selector.selector()).unwrap();
    assert_eq!(asked(&request), vec![
        ("DRIV".to_string(), strings(&["20225", "20200"])),
        ("EJER".to_string(), strings(&["1005"])),
        ("Tid".to_string(), strings(&["*"])),
    ]);
}

#[test]
fn a_request_with_an_empty_choice_asks_for_no_value() {
    let table = Table::new("BIL51", metadata());
    let selector = vec![("EJER".to_string(), vec![])];
    let request = table.request(&selector).unwrap();
    assert_eq!(asked(&request)[1], ("EJER".to_string(), strings(&[])));
}

#[test]
fn there_is_no_request_for_what_the_table_lacks() {
    let table = Table::new("BIL51", metadata());
    assert!(table.request(&vec![("FARVE".to_string(), strings(&["Rød"]))]).is_none());
    assert!(table.request(&vec![("DRIV".to_string(), strings(&["Benzin", "Brint"]))]).is_none());
    assert!(table.request(&vec![("DRIV".to_string(), strings(&["20200"]))]).is_none());
}

#[test]
fn selectors_are_checked_against_the_variables() {
    let m = metadata();
    assert!(is_valid_selector(&m.variables, &vec![]));
    assert!(is_valid_selector(&m.variables, &vec![("DRIV".to_string(), strings(&["El"]))]));
    assert!(!is_valid_selector(&m.variables, &vec![("driv".to_string(), strings(&["El"]))]));
    assert!(has_texts(&m.variables[1], &strings(&["Privat", "Erhverv", "Privat"])));
    assert!(!has_texts(&m.variables[1], &strings(&["Privat", "Offentlig"])));
}

#[test]
fn lookups_find_the_first_match() {
    let m = metadata();
    assert_eq!(find_value(&m.variables[0].values, &"Diesel".to_string()), Some("20205"));
    assert_eq!(find_value(&m.variables[0].values, &"Brint".to_string()), None);
    assert_eq!(find_variable(&m.variables, &"EJER".to_string()).map(|v| v.values.len()), Some(2));
    assert!(find_variable(&m.variables, &"FARVE".to_string()).is_none());
    assert_eq!(find_time(&m.variables), Some("Tid"));
    assert_eq!(find_time(&m.variables[..2].to_vec()), None);
    let selector = vec![
        ("A".to_string(), strings(&["1"])),
        ("B".to_string(), strings(&["2"])),
        ("A".to_string(), strings(&["3"])),
    ];
    assert_eq!(find_choice(&selector, &"A".to_string()), Some(&strings(&["1"])));
    assert_eq!(find_choice(&selector, &"C".to_string()), None);
}

#[test]
fn a_table_keeps_its_metadata() {
    let table = Table::new("BIL51", metadata());
    assert_eq!(table.metadata().id, "BIL51");
    assert_eq!(table.metadata().variables.len(), 3);
}

#[test]
fn a_dataset_becomes_a_group_of_series() {
    let table = Table::new("BIL51", metadata());
    let group = table.timeseries(&dataset(vec![Some(1), None, Some(3), Some(4)])).ok().unwrap();
    assert_eq!(group.updated(), 1_580_000_000);
    let mut series: Vec<TimeSeries> = group.series().to_vec();
    series.sort_by_key(|s| s.tags().iter().cloned().collect::<Vec<_>>());
    let date = |y, m| Date::from_ymd(y, m, 1).unwrap();
    let tags = |t: &str| -> im::OrdSet<String> { im::OrdSet::unit(t.to_string()) };
    let benzin = TimeSeries::unit(tags("Benzin"), date(2018, 1), 1)
        .merge(TimeSeries::unit(tags("Benzin"), date(2019, 6), 0));
    let diesel = TimeSeries::unit(tags("Diesel"), date(2018, 1), 3)
        .merge(TimeSeries::unit(tags("Diesel"), date(2019, 6), 4));
    assert_eq!(series, vec![benzin, diesel]);
}

#[test]
fn a_dataset_of_the_wrong_length_is_a_shape_mismatch() {
    let table = Table::new("BIL51", metadata());
    assert_eq!(
        table.timeseries(&dataset(vec![Some(1), None, Some(3)])).err(),
        Some(SeriesError::ShapeMismatch)
    );
    assert_eq!(
        table.timeseries(&dataset(vec![Some(1); 5])).err(),
        Some(SeriesError::ShapeMismatch)
    );
}

#[test]
fn a_table_without_time_variable_reads_no_dates() {
    let mut m = metadata();
    m.variables[2].time = false;
    let table = Table::new("BIL51", m);
    assert_eq!(
        table.timeseries(&dataset(vec![Some(1), None, Some(3), Some(4)])).err(),
        Some(SeriesError::DateFormat)
    );
}

#[test]
fn a_dataset_with_a_bad_time_label_is_a_date_format_error() {
    let table = Table::new("BIL51", metadata());
    let mut d = dataset(vec![Some(1), None, Some(3), Some(4)]);
    d.dimension.dimension[1].1.category.label[1].1 = "2019K2".to_string();
    assert_eq!(table.timeseries(&d).err(), Some(SeriesError::DateFormat));
}
