//! Report builders over configured tables.

use usda_c_grain_sum::config_store::ConfigStore;
use usda_c_grain_sum::data::{Data, DataCell, DataRow, DataVal};
use usda_c_grain_sum::dec::Dec;
use usda_c_grain_sum::process::{
    number_format_string, proc_csv_class_per, proc_csv_stat_cols, proc_xml_sieve_data,
    ProcError, SampleOutput,
};

fn dec(mant: i128, frac: u32) -> Dec {
    Dec { mant, frac }
}

fn csv_table(rows: Vec<(&str, &str, DataVal)>) -> Data {
    let id = String::from("external-sample-id");
    let class = String::from("cor-filtered-as");
    let area = String::from("Area");
    let data_rows: Vec<DataRow> = rows
        .into_iter()
        .enumerate()
        .map(|(i, (sid, cls, area_val))| {
            DataRow::new(i, vec![
                DataCell::new_from_val(&id, DataVal::Text(sid.to_string())),
                DataCell::new_from_val(&class, DataVal::Text(cls.to_string())),
                DataCell::new_from_val(&area, area_val),
            ])
        })
        .collect();
    Data::from_row_data(vec![id, class, area], data_rows)
}

fn outputs_equal(a: &SampleOutput, b: &SampleOutput) -> bool {
    a.headers == b.headers && a.sample_row == b.sample_row
}

#[test]
fn stat_columns_report() {
    let data = csv_table(vec![
        ("A", "Sound", DataVal::Int(5)),
        ("A", "Sound", DataVal::Int(7)),
        ("B", "Sound", DataVal::Float(dec(6, 0))),
    ]);
    let config = ConfigStore::default();
    let out = proc_csv_stat_cols(&data, &config).unwrap();

    // one Avg/Std header pair per configured column present in the
    // table; the thirteen absent columns are omitted entirely, keeping
    // the headers aligned with the values
    assert_eq!(out.headers.len(), 2);
    assert_eq!(out.headers[0], (String::from("Avg Area"), 2, false));
    assert_eq!(out.headers[1], (String::from("Std Area"), 2, false));

    // per sample: only the Area column exists in the table
    assert_eq!(out.sample_row.len(), 2);
    assert_eq!(out.sample_row[0].0, "A");
    assert_eq!(out.sample_row[0].1, vec![
        DataVal::Float(dec(6, 0)),
        DataVal::Float(dec(1, 0)),
    ]);
    assert_eq!(out.sample_row[1].0, "B");
    assert_eq!(out.sample_row[1].1, vec![
        DataVal::Float(dec(6, 0)),
        DataVal::Float(dec(0, 0)),
    ]);
}

#[test]
fn stat_header_decimal_places_follow_the_column() {
    let id = String::from("external-sample-id");
    let class = String::from("cor-filtered-as");
    let weight = String::from("Weight");
    let hue = String::from("Hue");
    let rows = vec![DataRow::new(0, vec![
        DataCell::new_from_val(&id, DataVal::Text(String::from("A"))),
        DataCell::new_from_val(&class, DataVal::Text(String::from("Sound"))),
        DataCell::new_from_val(&weight, DataVal::Int(3)),
        DataCell::new_from_val(&hue, DataVal::Int(9)),
    ])];
    let data = Data::from_row_data(vec![id, class, weight, hue], rows);
    let config = ConfigStore::default();
    let out = proc_csv_stat_cols(&data, &config).unwrap();
    // Weight and Hue are found, in configuration order
    assert_eq!(out.headers, vec![
        (String::from("Avg Weight"), 4, false),
        (String::from("Std Weight"), 4, false),
        (String::from("Avg Hue"), 1, false),
        (String::from("Std Hue"), 1, false),
    ]);
    assert_eq!(out.sample_row[0].1.len(), 4);
}

#[test]
fn stat_columns_filter_keeps_configured_classes() {
    let data = csv_table(vec![
        ("A", "Sound", DataVal::Int(5)),
        ("A", "Sorghum", DataVal::Int(99)),
        ("A", "Sound", DataVal::Int(7)),
    ]);
    let config = ConfigStore::default();
    let out = proc_csv_stat_cols(&data, &config).unwrap();
    assert_eq!(out.sample_row.len(), 1);
    // the Sorghum row is filtered out before averaging
    assert_eq!(out.sample_row[0].1[0], DataVal::Float(dec(6, 0)));
}

#[test]
fn stat_columns_substitute_sentinel_for_text() {
    let data = csv_table(vec![
        ("A", "Sound", DataVal::Int(5)),
        ("A", "Sound", DataVal::Text(String::from("n/a"))),
    ]);
    let config = ConfigStore::default();
    let out = proc_csv_stat_cols(&data, &config).unwrap();
    // the average skips text; the standard deviation becomes the sentinel
    assert_eq!(out.sample_row[0].1[0], DataVal::Float(dec(5, 0)));
    assert_eq!(out.sample_row[0].1[1], DataVal::Float(dec(-1000, 0)));
}

#[test]
fn stat_columns_disabled_and_unconfigured() {
    let data = csv_table(vec![("A", "Sound", DataVal::Int(5))]);
    let mut config = ConfigStore::default();
    config.csv_stat_columns_enabled = false;
    assert_eq!(proc_csv_stat_cols(&data, &config).unwrap_err(), ProcError::Disabled);

    let mut config2 = ConfigStore::default();
    config2.csv_stat_columns_columns = Vec::new();
    assert_eq!(
        proc_csv_stat_cols(&data, &config2).unwrap_err(),
        ProcError::NoColumnsConfigured
    );
}

#[test]
fn report_building_is_idempotent() {
    let data = csv_table(vec![
        ("A", "Sound", DataVal::Int(5)),
        ("A", "Sound", DataVal::Int(7)),
        ("B", "Sorghum", DataVal::Float(dec(61, 1))),
    ]);
    let config = ConfigStore::default();
    let first = proc_csv_stat_cols(&data, &config).unwrap();
    let second = proc_csv_stat_cols(&data, &config).unwrap();
    assert!(outputs_equal(&first, &second));

    let per1 = proc_csv_class_per(&data, &config).unwrap();
    let per2 = proc_csv_class_per(&data, &config).unwrap();
    assert!(outputs_equal(&per1, &per2));
}

#[test]
fn class_percentages() {
    let data = csv_table(vec![
        ("A", "Sorghum", DataVal::Int(1)),
        ("A", "Sound", DataVal::Int(2)),
        ("B", "Sorghum", DataVal::Int(3)),
    ]);
    let config = ConfigStore::default();
    let out = proc_csv_class_per(&data, &config).unwrap();

    assert_eq!(out.headers.len(), 2);
    assert_eq!(out.headers[0], (String::from("%Sorghum"), 1, true));
    assert_eq!(out.headers[1], (String::from("%Sound"), 1, true));

    assert_eq!(out.sample_row.len(), 2);
    assert_eq!(out.sample_row[0].0, "A");
    assert_eq!(out.sample_row[0].1, vec![
        DataVal::Float(dec(5, 1)),
        DataVal::Float(dec(5, 1)),
    ]);
    assert_eq!(out.sample_row[1].0, "B");
    assert_eq!(out.sample_row[1].1, vec![
        DataVal::Float(dec(1, 0)),
        DataVal::Float(dec(0, 0)),
    ]);
}

#[test]
fn class_percentages_truncate() {
    let data = csv_table(vec![
        ("A", "Sorghum", DataVal::Int(1)),
        ("A", "Sorghum", DataVal::Int(2)),
        ("A", "Sound", DataVal::Int(3)),
    ]);
    let config = ConfigStore::default();
    let out = proc_csv_class_per(&data, &config).unwrap();
    // 2/3 and 1/3, truncated at nine fractional digits
    assert_eq!(out.sample_row[0].1, vec![
        DataVal::Float(dec(666666666, 9)),
        DataVal::Float(dec(333333333, 9)),
    ]);
}

#[test]
fn class_percentages_with_no_classified_rows_are_zero() {
    let id = String::from("external-sample-id");
    let class = String::from("cor-filtered-as");
    // sample B has no classification cell at all
    let rows = vec![
        DataRow::new(0, vec![
            DataCell::new_from_val(&id, DataVal::Text(String::from("A"))),
            DataCell::new_from_val(&class, DataVal::Text(String::from("Sound"))),
        ]),
        DataRow::new(1, vec![
            DataCell::new_from_val(&id, DataVal::Text(String::from("B"))),
        ]),
    ];
    let data = Data::from_row_data(vec![id, class], rows);
    let config = ConfigStore::default();
    let out = proc_csv_class_per(&data, &config).unwrap();
    assert_eq!(out.headers.len(), 1);
    assert_eq!(out.sample_row[1].0, "B");
    assert_eq!(out.sample_row[1].1, vec![DataVal::Float(dec(0, 0))]);
}

#[test]
fn class_percentages_disabled() {
    let data = csv_table(vec![("A", "Sound", DataVal::Int(5))]);
    let mut config = ConfigStore::default();
    config.csv_class_percent_enabled = false;
    assert_eq!(proc_csv_class_per(&data, &config).unwrap_err(), ProcError::Disabled);
}

#[test]
fn sieve_report_passes_raw_values_through() {
    let refh = String::from("reference");
    let sa = String::from("filter-sieving-a");
    let sb = String::from("filter-sieving-b");
    let rows = vec![
        DataRow::new(0, vec![
            DataCell::new_from_val(&refh, DataVal::Text(String::from("S1"))),
            DataCell::new_from_val(&sa, DataVal::Float(dec(15, 1))),
            DataCell::new_from_val(&sb, DataVal::Int(2)),
        ]),
        DataRow::new(1, vec![
            DataCell::new_from_val(&refh, DataVal::Text(String::from("S2"))),
            DataCell::new_from_val(&sa, DataVal::Float(dec(25, 1))),
        ]),
    ];
    let data = Data::from_row_data(vec![refh.clone(), sa.clone(), sb.clone()], rows);
    let config = ConfigStore::default();
    let out = proc_xml_sieve_data(&data, &config).unwrap();

    assert_eq!(out.headers, vec![
        (String::from("filter-sieving-a"), 2, false),
        (String::from("filter-sieving-b"), 2, false),
    ]);
    assert_eq!(out.sample_row.len(), 2);
    assert_eq!(out.sample_row[0].0, "S1");
    assert_eq!(out.sample_row[0].1, vec![
        DataVal::Float(dec(15, 1)),
        DataVal::Int(2),
    ]);
    assert_eq!(out.sample_row[1].0, "S2");
    assert_eq!(out.sample_row[1].1, vec![DataVal::Float(dec(25, 1))]);
}

#[test]
fn sieve_report_disabled() {
    let data = Data::from_row_data(vec![], vec![]);
    let mut config = ConfigStore::default();
    config.xml_sieve_cols_enabled = false;
    assert_eq!(proc_xml_sieve_data(&data, &config).unwrap_err(), ProcError::Disabled);
}

#[test]
fn number_formats() {
    assert_eq!(number_format_string(2, false), "0.00");
    assert_eq!(number_format_string(4, false), "0.0000");
    assert_eq!(number_format_string(1, true), "0.0%");
    assert_eq!(number_format_string(0, false), "0.");
}
