//! Column statistics over mixed-type row sets.

use usda_c_grain_sum::data::{Data, DataCell, DataError, DataRow, DataVal};
use usda_c_grain_sum::dec::Dec;
use usda_c_grain_sum::process::{
    get_col_avg, get_col_avg_sngl, get_col_stdev, get_col_stdev_sngl, get_sum_count,
};

fn one_column(values: Vec<DataVal>) -> Data {
    let h = String::from("Area");
    let rows: Vec<DataRow> = values
        .into_iter()
        .enumerate()
        .map(|(i, v)| DataRow::new(i, vec![DataCell::new_from_val(&h, v)]))
        .collect();
    Data::from_row_data(vec![h], rows)
}

fn dec(mant: i128, frac: u32) -> Dec {
    Dec { mant, frac }
}

#[test]
fn sum_count_separates_populations() {
    let data = one_column(vec![
        DataVal::Int(55),
        DataVal::Float(dec(78, 1)),
        DataVal::Int(60),
        DataVal::Text(String::from("Sound")),
        DataVal::Float(dec(56, 1)),
    ]);
    let records = data.get_records();
    let sc = get_sum_count(&records, 0).unwrap();
    assert_eq!(sc.int_sum, 115);
    assert_eq!(sc.float_sum, dec(134, 1));
    assert_eq!(sc.int_count, 2);
    assert_eq!(sc.float_count, 2);
    assert_eq!(sc.text_count, 1);
}

#[test]
fn text_only_column_has_zero_statistics() {
    let data = one_column(vec![
        DataVal::Text(String::from("Sound")),
        DataVal::Text(String::from("Sound")),
    ]);
    let records = data.get_records();
    let sc = get_sum_count(&records, 0).unwrap();
    assert_eq!(sc.int_sum, 0);
    assert_eq!(sc.float_sum, dec(0, 0));
    assert_eq!((sc.int_count, sc.float_count, sc.text_count), (0, 0, 2));

    let (int_avg, flt_avg, strs) = get_col_avg(&records, 0).unwrap();
    assert_eq!(int_avg, dec(0, 0));
    assert_eq!(flt_avg, dec(0, 0));
    assert_eq!(strs, 2);

    let (int_std, flt_std, strs2) = get_col_stdev(&records, 0).unwrap();
    assert_eq!(int_std, dec(0, 0));
    assert_eq!(flt_std, dec(0, 0));
    assert_eq!(strs2, 2);
}

#[test]
fn separated_averages() {
    let data = one_column(vec![
        DataVal::Float(dec(56, 1)),
        DataVal::Float(dec(78, 1)),
        DataVal::Int(7),
        DataVal::Int(5),
    ]);
    let records = data.get_records();
    let (int_avg, flt_avg, strs) = get_col_avg(&records, 0).unwrap();
    assert_eq!(int_avg, dec(6, 0));
    assert_eq!(flt_avg, dec(67, 1));
    assert_eq!(strs, 0);
}

#[test]
fn separated_standard_deviations() {
    let data = one_column(vec![
        DataVal::Float(dec(56, 1)),
        DataVal::Float(dec(78, 1)),
        DataVal::Int(7),
        DataVal::Int(5),
    ]);
    let records = data.get_records();
    let (int_std, flt_std, strs) = get_col_stdev(&records, 0).unwrap();
    // integers 5, 7: mean 6, both deviate by 1
    assert_eq!(int_std, dec(1, 0));
    // decimals 5.6, 7.8: mean 6.7, both deviate by 1.1
    assert_eq!(flt_std, dec(11, 1));
    assert_eq!(strs, 0);
}

#[test]
fn unified_average_and_standard_deviation() {
    let data = one_column(vec![
        DataVal::Int(5),
        DataVal::Int(7),
        DataVal::Float(dec(56, 1)),
        DataVal::Float(dec(78, 1)),
    ]);
    let records = data.get_records();
    // (5 + 7 + 5.6 + 7.8) / 4 = 6.35
    assert_eq!(get_col_avg_sngl(&records, 0).unwrap(), dec(635, 2));
    // population standard deviation sqrt(4.91 / 4), floored at nine digits
    assert_eq!(get_col_stdev_sngl(&records, 0).unwrap(), dec(110792599, 8));
}

#[test]
fn unified_average_of_empty_population_is_zero() {
    let data = one_column(vec![DataVal::Text(String::from("Sound"))]);
    let records = data.get_records();
    assert_eq!(get_col_avg_sngl(&records, 0).unwrap(), dec(0, 0));
}

#[test]
fn unified_stdev_rejects_text_distinctly() {
    let data = one_column(vec![
        DataVal::Int(5),
        DataVal::Text(String::from("Sound")),
        DataVal::Float(dec(56, 1)),
    ]);
    let records = data.get_records();
    let err = get_col_stdev_sngl(&records, 0).unwrap_err();
    assert_eq!(err, DataError::NonNumeric { row_idx: 1, col_idx: 0 });
}

#[test]
fn unified_stdev_of_empty_column_is_an_error() {
    let data = one_column(vec![]);
    let records = data.get_records();
    assert_eq!(get_col_stdev_sngl(&records, 0).unwrap_err(), DataError::NoNumericData);
}

#[test]
fn unrepresentable_scaling_is_an_overflow_error() {
    // a decimal cell whose scaled form leaves the representable range
    let data = one_column(vec![DataVal::Float(dec(i128::MAX, 0))]);
    let records = data.get_records();
    assert_eq!(get_sum_count(&records, 0).unwrap_err(), DataError::Overflow);
}

#[test]
fn missing_cell_is_reported_with_its_row() {
    let h = String::from("A");
    let rows = vec![
        DataRow::new(0, vec![DataCell::new_from_val(&h, DataVal::Int(1))]),
        DataRow::new(1, vec![]),
    ];
    let data = Data::from_row_data(vec![h], rows);
    let records = data.get_records();
    assert_eq!(
        get_sum_count(&records, 0).unwrap_err(),
        DataError::MissingCell { row_idx: 1, col_idx: 0 }
    );
}
