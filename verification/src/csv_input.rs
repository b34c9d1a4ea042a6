//! Building a table from delimited-text records.
//!
//! The delimited format itself (quoting, separators) is read by the csv
//! crate over an in-memory byte slice, behind trusted declarations; the
//! zip of fields against headers, the dropping of overlong records'
//! trailing fields, and the assignment of row indexes are verified here.

use vstd::prelude::*;

verus! {

use crate::data::{Data, DataCell, DataRow};

/// What the csv crate reads from a text: the header record and, per
/// data record in order, its fields, with nothing standing for a record
/// that failed at the source level; nothing overall where the header
/// record cannot be read.  The parse is a function of the text alone.
pub uninterp spec fn csv_source_of(s: Seq<char>) -> Option<(Vec<String>, Vec<Option<Vec<String>>>)>;

/// Relies on csv::Reader (from_reader with the default configuration,
/// headers, read_record): reads the whole text, one record per step; a
/// record-level error leaves the reader at the next record.  The result
/// is the named `csv_source_of` of the text.
#[verifier::external_body]
fn read_csv_source(text: &str) -> (r: Option<(Vec<String>, Vec<Option<Vec<String>>>)>)
    ensures r == csv_source_of(text@),
{
    let mut reader = csv::Reader::from_reader(text.as_bytes());
    let headers = match reader.headers() {
        Ok(h) => h.iter().map(|f| f.to_string()).collect(),
        Err(_) => return None,
    };
    let mut records = Vec::new();
    let mut record = csv::StringRecord::new();
    loop {
        match reader.read_record(&mut record) {
            Ok(true) => records.push(Some(record.iter().map(|f| f.to_string()).collect())),
            Ok(false) => return Some((headers, records)),
            Err(_) => records.push(None),
        }
    }
}

/// The cells of one row: each field zipped against the header at its
/// position; fields beyond the header count are dropped.
pub open spec fn spec_record_cells(headers: Seq<String>, fields: Seq<String>) -> Seq<DataCell> {
    Seq::new(
        if fields.len() <= headers.len() { fields.len() } else { headers.len() },
        |j: int| DataCell::spec_cell(headers[j], fields[j]),
    )
}

/// The rows a record sequence denotes: each readable record becomes a row
/// of zipped cells at its source position; a record that failed at the
/// source level (`None`) is excluded but still consumes its position, so
/// row indexes keep the source numbering, with gaps where records failed.
pub open spec fn spec_csv_rows(headers: Seq<String>, recs: Seq<Option<Vec<String>>>)
    -> Seq<(int, Seq<DataCell>)>
    decreases recs.len(),
{
    if recs.len() == 0 {
        Seq::empty()
    } else {
        let pre = spec_csv_rows(headers, recs.drop_last());
        match recs.last() {
            Some(fields) => pre.push(
                (recs.len() - 1, spec_record_cells(headers, fields@))),
            None => pre,
        }
    }
}

/// Builds one row by zipping a record's fields against the headers,
/// dropping fields beyond the header count.
fn record_row(headers: &Vec<String>, fields: &Vec<String>, row_idx: usize) -> (r: DataRow)
    ensures
        r.spec_row_idx() == row_idx,
        r.spec_cells() == spec_record_cells(headers@, fields@),
{
    let m = if fields.len() <= headers.len() { fields.len() } else { headers.len() };
    let mut cells: Vec<DataCell> = Vec::new();
    let mut j: usize = 0;
    while j < m
        invariant
            j <= m,
            m == if fields@.len() <= headers@.len() { fields@.len() } else { headers@.len() },
            cells@.len() == j,
            forall|q: int| 0 <= q < j ==> #[trigger] cells@[q]
                == DataCell::spec_cell(headers@[q], fields@[q]),
        decreases m - j,
    {
        cells.push(DataCell::new(&headers[j], fields[j].clone()));
        j = j + 1;
    }
    proof {
        assert(cells@ =~= spec_record_cells(headers@, fields@));
    }
    DataRow::new(row_idx, cells)
}

impl Data {
    /// Builds a table from a header record and the outcome of reading
    /// each data record: readable records become rows, failed ones are
    /// excluded but keep their position in the row numbering.
    pub fn from_csv_records(headers: Vec<String>, records: &Vec<Option<Vec<String>>>)
        -> (r: Data)
        ensures
            r.spec_headers() == headers@,
            ({
                let rows = spec_csv_rows(headers@, records@);
                &&& r.spec_records().len() == rows.len()
                &&& forall|i: int| 0 <= i < rows.len() ==> {
                    &&& (#[trigger] r.spec_records()[i]).spec_row_idx() == rows[i].0
                    &&& r.spec_records()[i].spec_cells() == rows[i].1
                }
            }),
    {
        let n = records.len();
        let mut data_records: Vec<DataRow> = Vec::new();
        let mut k: usize = 0;
        while k < n
            invariant
                k <= n,
                n == records@.len(),
                data_records@.len() == spec_csv_rows(headers@, records@.take(k as int)).len(),
                forall|i: int| 0 <= i < data_records@.len() ==> {
                    let rows = spec_csv_rows(headers@, records@.take(k as int));
                    &&& (#[trigger] data_records@[i]).spec_row_idx() == rows[i].0
                    &&& data_records@[i].spec_cells() == rows[i].1
                },
            decreases n - k,
        {
            proof {
                assert(records@.take(k + 1).drop_last() =~= records@.take(k as int));
                assert(records@.take(k + 1).last() == records@[k as int]);
            }
            match &records[k] {
                Some(fields) => {
                    let row = record_row(&headers, fields, k);
                    data_records.push(row);
                },
                None => {},
            }
            k = k + 1;
        }
        proof {
            assert(records@.take(n as int) =~= records@);
        }
        Data::from_row_data(headers, data_records)
    }

    /// Reads all delimited-text data into a table: the first record of
    /// the text gives the headers, each further record a row.  Returns a
    /// table exactly when the named source parse yields one, built from
    /// precisely the named header and data records; a record-level error
    /// excludes only that record, leaving a gap in the row numbering.
    pub fn from_csv_reader(text: &str) -> (r: Option<Data>)
        ensures
            (r is Some) <==> (csv_source_of(text@) is Some),
            r matches Some(d) ==> csv_source_of(text@) matches Some(src) && {
                let rows = spec_csv_rows(src.0@, src.1@);
                &&& d.spec_headers() == src.0@
                &&& d.spec_records().len() == rows.len()
                &&& forall|i: int| 0 <= i < rows.len() ==> {
                    &&& (#[trigger] d.spec_records()[i]).spec_row_idx() == rows[i].0
                    &&& d.spec_records()[i].spec_cells() == rows[i].1
                }
            },
            r matches Some(d) ==> {
                &&& forall|i: int| 0 <= i < d.spec_records().len() ==> {
                    let row = #[trigger] d.spec_records()[i];
                    &&& row.spec_cells().len() <= d.spec_headers().len()
                    &&& forall|j: int| 0 <= j < row.spec_cells().len()
                        ==> (#[trigger] row.spec_cells()[j]).spec_header()
                            == d.spec_headers()[j]@
                }
                &&& forall|i: int, j: int| 0 <= i < j < d.spec_records().len()
                    ==> (#[trigger] d.spec_records()[i]).spec_row_idx()
                        < (#[trigger] d.spec_records()[j]).spec_row_idx()
            },
    {
        match read_csv_source(text) {
            Some((headers, records)) => {
                let data = Data::from_csv_records(headers, &records);
                proof {
                    lemma_csv_rows_shape(data.spec_headers(), records@);
                }
                Some(data)
            },
            None => None,
        }
    }
}

/// The rows a record sequence denotes have cells aligned with the headers
/// and strictly increasing row indexes below the record count.
proof fn lemma_csv_rows_shape(headers: Seq<String>, recs: Seq<Option<Vec<String>>>)
    ensures ({
        let rows = spec_csv_rows(headers, recs);
        &&& forall|i: int| 0 <= i < rows.len() ==> {
            &&& 0 <= (#[trigger] rows[i]).0 < recs.len()
            &&& rows[i].1.len() <= headers.len()
            &&& forall|j: int| 0 <= j < rows[i].1.len()
                ==> (#[trigger] rows[i].1[j]).spec_header() == headers[j]@
        }
        &&& forall|i: int, j: int| 0 <= i < j < rows.len()
            ==> (#[trigger] rows[i]).0 < (#[trigger] rows[j]).0
    }),
    decreases recs.len(),
{
    if recs.len() > 0 {
        lemma_csv_rows_shape(headers, recs.drop_last());
        let rows = spec_csv_rows(headers, recs);
        let pre = spec_csv_rows(headers, recs.drop_last());
        match recs.last() {
            Some(fields) => {
                assert forall|i: int| 0 <= i < rows.len() implies {
                    &&& 0 <= (#[trigger] rows[i]).0 < recs.len()
                    &&& rows[i].1.len() <= headers.len()
                    &&& forall|j: int| 0 <= j < rows[i].1.len()
                        ==> (#[trigger] rows[i].1[j]).spec_header() == headers[j]@
                } by {
                    if i < pre.len() {
                        assert(rows[i] == pre[i]);
                    } else {
                        assert(rows[i] == (recs.len() - 1,
                            spec_record_cells(headers, fields@)));
                        assert forall|j: int| 0 <= j < rows[i].1.len()
                            implies (#[trigger] rows[i].1[j]).spec_header() == headers[j]@ by {
                            crate::data::DataCell::lemma_spec_cell(headers[j], fields@[j]);
                        }
                    }
                }
            },
            None => {},
        }
    }
}

} // verus!
