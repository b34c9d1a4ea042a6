//! Table building, lookup, filtering and grouping.

use usda_c_grain_sum::data::{
    get_filtered_records, get_split_records, Data, DataCell, DataError, DataRow, DataVal,
};
use usda_c_grain_sum::dec::Dec;

fn demo_table() -> Data {
    let class = String::from("Class");
    let volume = String::from("Volume");
    let headers = vec![class.clone(), volume.clone()];

    let rows = vec![
        DataRow::new(0, vec![
            DataCell::new_from_val(&class, DataVal::Text(String::from("Sorghum"))),
            DataCell::new_from_val(&volume, DataVal::Float(Dec { mant: 32, frac: 1 })),
        ]),
        DataRow::new(1, vec![
            DataCell::new_from_val(&class, DataVal::Text(String::from("Sound"))),
            DataCell::new_from_val(&volume, DataVal::Float(Dec { mant: 67, frac: 1 })),
        ]),
        DataRow::new(2, vec![
            DataCell::new_from_val(&class, DataVal::Text(String::from("Sorghum"))),
            DataCell::new_from_val(&volume, DataVal::Float(Dec { mant: 29, frac: 1 })),
        ]),
    ];
    Data::from_row_data(headers, rows)
}

#[test]
fn round_trip_headers_and_cells() {
    let data = demo_table();
    assert_eq!(data.get_header_index("Class"), Some(0));
    assert_eq!(data.get_header_index("Volume"), Some(1));
    assert_eq!(data.get_header_index("Missing"), None);
    assert_eq!(data.get_header_from_index(0).unwrap(), "Class");
    assert_eq!(data.get_header_from_index(1).unwrap(), "Volume");
    assert!(data.get_header_from_index(2).is_none());

    assert_eq!(
        *data.get_record(0, 0).unwrap().get_data(),
        DataVal::Text(String::from("Sorghum"))
    );
    assert_eq!(
        *data.get_record(2, 1).unwrap().get_data(),
        DataVal::Float(Dec { mant: 29, frac: 1 })
    );
    assert!(data.get_record(3, 0).is_none());
    assert!(data.get_record(0, 2).is_none());
}

#[test]
fn duplicate_header_lookup_returns_first() {
    let h = String::from("X");
    let data = Data::from_row_data(vec![h.clone(), h.clone()], vec![]);
    assert_eq!(data.get_header_index("X"), Some(0));
}

#[test]
fn filtering_preserves_identity_and_order() {
    let data = demo_table();
    let records = data.get_records();
    let filtered = get_filtered_records(
        &records, 0, DataVal::Text(String::from("Sorghum"))).unwrap();
    assert_eq!(filtered.len(), 2);
    assert_eq!(*filtered[0].get_row_idx(), 0);
    assert_eq!(*filtered[1].get_row_idx(), 2);
    // the returned rows are the same rows, not copies
    assert!(std::ptr::eq(filtered[0], records[0]));
    assert!(std::ptr::eq(filtered[1], records[2]));
}

#[test]
fn filtering_missing_column_is_hard_error() {
    let data = demo_table();
    let records = data.get_records();
    let err = get_filtered_records(&records, 9, DataVal::Int(1)).unwrap_err();
    assert_eq!(err, DataError::MissingCell { row_idx: 0, col_idx: 9 });
}

#[test]
fn grouping_keeps_first_occurrence_order() {
    let data = demo_table();
    let records = data.get_records();
    let groups = get_split_records(&records, 0).unwrap();
    assert_eq!(groups.len(), 2);
    assert_eq!(*groups[0].0, DataVal::Text(String::from("Sorghum")));
    assert_eq!(groups[0].1.len(), 2);
    assert_eq!(*groups[0].1[0].get_row_idx(), 0);
    assert_eq!(*groups[0].1[1].get_row_idx(), 2);
    assert_eq!(*groups[1].0, DataVal::Text(String::from("Sound")));
    assert_eq!(groups[1].1.len(), 1);
    assert_eq!(*groups[1].1[0].get_row_idx(), 1);
}

#[test]
fn grouping_missing_column_is_hard_error() {
    let data = demo_table();
    let records = data.get_records();
    let err = get_split_records(&records, 5).unwrap_err();
    assert_eq!(err, DataError::MissingCell { row_idx: 0, col_idx: 5 });
}
