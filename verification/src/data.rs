//! The tabular data model: typed cells, rows, column-indexed tables, and
//! the row-set algebra (filtering and grouping over references to rows).
//!
//! A table is built once, from a parser or from explicit headers and rows,
//! and never mutated; all downstream operations work on borrowed rows.

use vstd::prelude::*;

verus! {

use vstd::string::StrSliceExecFns;
use crate::dec::Dec;
use crate::token::{int_token_i64, int_token_val, dec_token_fits, dec_token_rep, try_parse_int, try_parse_dec};
use crate::render::{string_of_int, string_of_dec};

/// Why a row-set or statistics operation failed.
#[derive(Clone, Copy, PartialEq, Eq, Structural, Debug)]
pub enum DataError {
    /// A participant row has no cell at the requested column index.
    MissingCell { row_idx: usize, col_idx: usize },
    /// A text cell stood where a unified numeric statistic needs a number.
    NonNumeric { row_idx: usize, col_idx: usize },
    /// A unified statistic was asked of a column with no numeric cells.
    NoNumericData,
    /// An intermediate value left the representable range.
    Overflow,
}

/// Holds the value within a cell: an integer, a decimal scalar, or text.
#[derive(Clone, Debug)]
pub enum DataVal {
    Int(i64),
    Float(Dec),
    Text(String),
}

/// Structural equality of cell values: the variant and its value must
/// match; there is no cross-variant coercion.
pub open spec fn dv_eq(a: DataVal, b: DataVal) -> bool {
    match (a, b) {
        (DataVal::Int(x), DataVal::Int(y)) => x == y,
        (DataVal::Float(x), DataVal::Float(y)) => x == y,
        (DataVal::Text(x), DataVal::Text(y)) => x@ == y@,
        _ => false,
    }
}

impl PartialEq for DataVal {
    fn eq(&self, other: &DataVal) -> bool {
        match (self, other) {
            (DataVal::Int(x), DataVal::Int(y)) => *x == *y,
            (DataVal::Float(x), DataVal::Float(y)) => *x == *y,
            (DataVal::Text(x), DataVal::Text(y)) => *x == *y,
            _ => false,
        }
    }
}

impl vstd::std_specs::cmp::PartialEqSpecImpl for DataVal {
    open spec fn obeys_eq_spec() -> bool {
        true
    }

    open spec fn eq_spec(&self, other: &DataVal) -> bool {
        dv_eq(*self, *other)
    }
}

/// The most specific reading of a raw token: an integer where the integer
/// grammar matches and fits, else a decimal where that grammar matches and
/// fits, else the text itself, unchanged.
pub open spec fn classify_is(s: Seq<char>, v: DataVal) -> bool {
    if int_token_i64(s) {
        v matches DataVal::Int(i) && i as int == int_token_val(s)
    } else if dec_token_fits(s) {
        v matches DataVal::Float(d) && d.wf()
            && (d.mant as int, d.frac as nat) == dec_token_rep(s)
    } else {
        v matches DataVal::Text(t) && t@ == s
    }
}

/// The cell value a raw token denotes, as a specification-level function:
/// the integer where the integer grammar matches and fits, else the
/// decimal where that grammar matches and fits, else the text itself.
pub open spec fn spec_classify(s: String) -> DataVal {
    if int_token_i64(s@) {
        DataVal::Int(int_token_val(s@) as i64)
    } else if dec_token_fits(s@) {
        DataVal::Float(Dec {
            mant: dec_token_rep(s@).0 as i128,
            frac: dec_token_rep(s@).1 as u32,
        })
    } else {
        DataVal::Text(s)
    }
}

/// The rendered text of a cell value.
pub open spec fn string_of_val(v: DataVal) -> Seq<char> {
    match v {
        DataVal::Int(i) => string_of_int(i as int),
        DataVal::Float(d) => string_of_dec(d),
        DataVal::Text(s) => s@,
    }
}

/// The characters of a string slice, as a vector.
pub fn chars_of(s: &str) -> (r: Vec<char>)
    ensures r@ == s@,
{
    let n = s.unicode_len();
    let mut v: Vec<char> = Vec::new();
    let mut i: usize = 0;
    while i < n
        invariant
            i <= n,
            v@ == s@.take(i as int),
        decreases n - i,
    {
        let c = s.get_char(i);
        v.push(c);
        proof {
            assert(s@.take(i + 1) =~= s@.take(i as int).push(c));
        }
        i = i + 1;
    }
    proof {
        assert(s@.take(n as int) =~= s@);
    }
    v
}

impl DataVal {
    /// Reads a raw token as the most specific cell value.
    pub fn from_token(value: String) -> (r: DataVal)
        ensures
            classify_is(value@, r),
            r == spec_classify(value),
    {
        let cs = chars_of(value.as_str());
        match try_parse_int(&cs) {
            Some(i) => DataVal::Int(i),
            None => match try_parse_dec(&cs) {
                Some(d) => DataVal::Float(d),
                None => DataVal::Text(value),
            },
        }
    }

    /// An owned copy, equal to the original.
    pub fn duplicate(&self) -> (r: DataVal)
        ensures r == *self,
    {
        match self {
            DataVal::Int(i) => DataVal::Int(*i),
            DataVal::Float(d) => DataVal::Float(*d),
            DataVal::Text(s) => DataVal::Text(s.clone()),
        }
    }

    /// The string rendering of the underlying data.
    pub fn to_string(&self) -> (r: String)
        ensures r@ == string_of_val(*self),
    {
        match self {
            DataVal::Int(i) => crate::render::int_string(*i),
            DataVal::Float(d) => crate::render::dec_string(*d),
            DataVal::Text(s) => s.clone(),
        }
    }
}

/// Whether two string slices hold the same characters.
pub fn str_eq(a: &str, b: &str) -> (r: bool)
    ensures r == (a@ == b@),
{
    let n = a.unicode_len();
    if n != b.unicode_len() {
        return false;
    }
    let mut i: usize = 0;
    while i < n
        invariant
            i <= n,
            forall|j: int| 0 <= j < i ==> a@[j] == b@[j],
        decreases n - i,
    {
        if a.get_char(i) != b.get_char(i) {
            return false;
        }
        i = i + 1;
    }
    proof {
        assert(a@ =~= b@);
    }
    true
}

/// An individual cell of data, holding an owned copy of the header it is
/// under together with its value.
#[derive(Clone, Debug)]
pub struct DataCell {
    header: String,
    data: DataVal,
}

impl DataCell {
    /// The header label, for specifications.
    pub closed spec fn spec_header(self) -> Seq<char> {
        self.header@
    }

    /// The header label as an owned string value, for specifications
    /// that rebuild header lists.
    pub closed spec fn spec_header_string(self) -> String {
        self.header
    }

    /// The two header views agree.
    pub proof fn lemma_header_views(self)
        ensures self.spec_header_string()@ == self.spec_header(),
    {
    }

    /// The held value, for specifications.
    pub closed spec fn spec_data(self) -> DataVal {
        self.data
    }

    /// The cell that a header and raw token denote.
    pub closed spec fn spec_cell(header: String, value: String) -> DataCell {
        DataCell { header, data: spec_classify(value) }
    }

    /// What the denoted cell holds.
    pub proof fn lemma_spec_cell(header: String, value: String)
        ensures
            DataCell::spec_cell(header, value).spec_header() == header@,
            DataCell::spec_cell(header, value).spec_header_string() == header,
            DataCell::spec_cell(header, value).spec_data() == spec_classify(value),
    {
    }

    /// Constructs a cell, reading the raw token as the most specific value.
    pub fn new(header: &String, value: String) -> (r: DataCell)
        ensures
            r.spec_header() == header@,
            classify_is(value@, r.spec_data()),
            r == DataCell::spec_cell(*header, value),
    {
        DataCell { header: header.clone(), data: DataVal::from_token(value) }
    }

    /// Constructs a cell from an already-typed value.
    pub fn new_from_val(header: &String, value: DataVal) -> (r: DataCell)
        ensures
            r.spec_header() == header@,
            r.spec_data() == value,
    {
        DataCell { header: header.clone(), data: value }
    }

    /// Gets a reference to the header label of this cell.
    pub fn get_header(&self) -> (r: &String)
        ensures
            r@ == self.spec_header(),
            *r == self.spec_header_string(),
    {
        &self.header
    }

    /// Gets a reference to the value of this cell.
    pub fn get_data(&self) -> (r: &DataVal)
        ensures *r == self.spec_data(),
    {
        &self.data
    }
}

/// A single row of data: an ordered sequence of cells, plus the index of
/// this row within its originating table, assigned once at construction.
#[derive(Clone, Debug)]
pub struct DataRow {
    row_idx: usize,
    row_data: Vec<DataCell>,
}

impl DataRow {
    pub closed spec fn spec_row_idx(self) -> usize {
        self.row_idx
    }

    pub closed spec fn spec_cells(self) -> Seq<DataCell> {
        self.row_data@
    }

    /// Constructs a new row.
    pub fn new(row_idx: usize, row_data: Vec<DataCell>) -> (r: DataRow)
        ensures
            r.spec_row_idx() == row_idx,
            r.spec_cells() == row_data@,
    {
        DataRow { row_idx, row_data }
    }

    /// Gets a reference to this row's index.
    pub fn get_row_idx(&self) -> (r: &usize)
        ensures *r == self.spec_row_idx(),
    {
        &self.row_idx
    }

    /// Gets a reference to the cells of this row.
    pub fn get_row_data(&self) -> (r: &Vec<DataCell>)
        ensures r@ == self.spec_cells(),
    {
        &self.row_data
    }

    /// Gets the cell at the index, where the index is in bounds.
    pub fn get_data(&self, idx: usize) -> (r: Option<&DataCell>)
        ensures
            (r is Some) <==> idx < self.spec_cells().len(),
            r matches Some(c) ==> *c == self.spec_cells()[idx as int],
    {
        if idx < self.row_data.len() {
            Some(&self.row_data[idx])
        } else {
            None
        }
    }
}


/// Index of the first header equal to the target, or the length.
pub open spec fn header_index(hs: Seq<String>, t: Seq<char>) -> int
    decreases hs.len(),
{
    if hs.len() == 0 {
        0
    } else if hs[0]@ == t {
        0
    } else {
        1 + header_index(hs.drop_first(), t)
    }
}

/// `header_index` is characterized by "no match before, a match or the
/// end at".
pub proof fn lemma_header_index_at(hs: Seq<String>, t: Seq<char>, i: int)
    requires
        0 <= i <= hs.len(),
        forall|j: int| 0 <= j < i ==> (#[trigger] hs[j])@ != t,
        i < hs.len() ==> hs[i]@ == t,
    ensures header_index(hs, t) == i,
    decreases i,
{
    if hs.len() == 0 {
    } else if i == 0 {
    } else {
        lemma_header_index_at(hs.drop_first(), t, i - 1);
    }
}

/// Holds all the data read from one source: an ordered sequence of header
/// names plus an ordered sequence of rows.  Built once and then only read;
/// processing works on references to the rows.
#[derive(Clone, Debug)]
pub struct Data {
    headers: Vec<String>,
    records: Vec<DataRow>,
}

impl Data {
    pub closed spec fn spec_headers(self) -> Seq<String> {
        self.headers@
    }

    pub closed spec fn spec_records(self) -> Seq<DataRow> {
        self.records@
    }

    /// Constructs a table from a vector of headers and rows.
    pub fn from_row_data(headers: Vec<String>, row_data: Vec<DataRow>) -> (r: Data)
        ensures
            r.spec_headers() == headers@,
            r.spec_records() == row_data@,
    {
        Data { headers, records: row_data }
    }

    /// Returns a vector of references to the headers.
    pub fn get_headers(&self) -> (r: Vec<&String>)
        ensures
            r@.len() == self.spec_headers().len(),
            forall|i: int| 0 <= i < r@.len()
                ==> *(#[trigger] r@[i]) == self.spec_headers()[i],
    {
        let mut ref_vec: Vec<&String> = Vec::new();
        let n = self.headers.len();
        let mut i: usize = 0;
        while i < n
            invariant
                i <= n,
                ref_vec@.len() == i,
                forall|j: int| 0 <= j < i
                    ==> *(#[trigger] ref_vec@[j]) == self.spec_headers()[j],
            decreases n - i,
        {
            ref_vec.push(&self.headers[i]);
            i = i + 1;
        }
        ref_vec
    }

    /// Gets a reference to the vector of headers.
    pub fn get_headers_ref(&self) -> (r: &Vec<String>)
        ensures r@ == self.spec_headers(),
    {
        &self.headers
    }

    /// Finds the first index of the header, or nothing where it does not
    /// occur.
    pub fn get_header_index(&self, target_header: &str) -> (r: Option<usize>)
        ensures
            (r is Some) <==> header_index(self.spec_headers(), target_header@)
                < self.spec_headers().len(),
            r matches Some(i) ==> i as int
                == header_index(self.spec_headers(), target_header@),
    {
        let n = self.headers.len();
        let mut i: usize = 0;
        while i < n
            invariant
                i <= n,
                forall|j: int| 0 <= j < i
                    ==> (#[trigger] self.spec_headers()[j])@ != target_header@,
            decreases n - i,
        {
            if str_eq(self.headers[i].as_str(), target_header) {
                proof {
                    lemma_header_index_at(self.spec_headers(), target_header@, i as int);
                }
                return Some(i);
            }
            i = i + 1;
        }
        proof {
            lemma_header_index_at(self.spec_headers(), target_header@, n as int);
        }
        None
    }

    /// Gets the header at the index, where the index is in bounds.
    pub fn get_header_from_index(&self, index: usize) -> (r: Option<&String>)
        ensures
            (r is Some) <==> index < self.spec_headers().len(),
            r matches Some(h) ==> *h == self.spec_headers()[index as int],
    {
        if index < self.headers.len() {
            Some(&self.headers[index])
        } else {
            None
        }
    }

    /// Returns a vector of references to the rows.
    pub fn get_records(&self) -> (r: Vec<&DataRow>)
        ensures
            r@.len() == self.spec_records().len(),
            forall|i: int| 0 <= i < r@.len()
                ==> *(#[trigger] r@[i]) == self.spec_records()[i],
    {
        let mut ref_vec: Vec<&DataRow> = Vec::new();
        let n = self.records.len();
        let mut i: usize = 0;
        while i < n
            invariant
                i <= n,
                ref_vec@.len() == i,
                forall|j: int| 0 <= j < i
                    ==> *(#[trigger] ref_vec@[j]) == self.spec_records()[j],
            decreases n - i,
        {
            ref_vec.push(&self.records[i]);
            i = i + 1;
        }
        ref_vec
    }

    /// Gets a reference to the vector of rows.
    pub fn get_records_ref(&self) -> (r: &Vec<DataRow>)
        ensures r@ == self.spec_records(),
    {
        &self.records
    }

    /// Gets the cell at a row and column index, where both are in bounds.
    pub fn get_record(&self, row_idx: usize, col_idx: usize) -> (r: Option<&DataCell>)
        ensures
            (r is Some) <==> row_idx < self.spec_records().len()
                && row_has_cell(self.spec_records()[row_idx as int], col_idx as int),
            r matches Some(c) ==> *c
                == self.spec_records()[row_idx as int].spec_cells()[col_idx as int],
    {
        if row_idx < self.records.len() {
            self.records[row_idx].get_data(col_idx)
        } else {
            None
        }
    }
}


/// References to a sequence of rows, for stating contracts over tables.
pub open spec fn row_refs(s: Seq<DataRow>) -> Seq<&'static DataRow> {
    Seq::new(s.len(), |i: int| &s[i])
}

/// A row has a cell at the column.
pub open spec fn row_has_cell(r: DataRow, col: int) -> bool {
    0 <= col < r.spec_cells().len()
}

/// The value of the cell of a row at a column.
pub open spec fn row_cell_val(r: DataRow, col: int) -> DataVal {
    r.spec_cells()[col].spec_data()
}

/// Every row of the set has a cell at the column.
pub open spec fn all_have_cell(rows: Seq<&DataRow>, col: int) -> bool {
    forall|i: int| 0 <= i < rows.len() ==> row_has_cell(*(#[trigger] rows[i]), col)
}

/// Index of the first row without a cell at the column, or the length.
pub open spec fn first_missing(rows: Seq<&DataRow>, col: int) -> int
    decreases rows.len(),
{
    if rows.len() == 0 {
        0
    } else if !row_has_cell(*rows[0], col) {
        0
    } else {
        1 + first_missing(rows.drop_first(), col)
    }
}

/// `first_missing` is characterized by "cells before, no cell at".
pub proof fn lemma_first_missing_at(rows: Seq<&DataRow>, col: int, i: int)
    requires
        0 <= i <= rows.len(),
        forall|j: int| 0 <= j < i ==> row_has_cell(*(#[trigger] rows[j]), col),
        i < rows.len() ==> !row_has_cell(*rows[i], col),
    ensures first_missing(rows, col) == i,
    decreases i,
{
    if rows.len() == 0 {
    } else if i == 0 {
    } else {
        lemma_first_missing_at(rows.drop_first(), col, i - 1);
    }
}

/// The subsequence of rows whose cell at the column equals the key.
pub open spec fn filter_rows<'a>(rows: Seq<&'a DataRow>, col: int, key: DataVal) -> Seq<&'a DataRow>
    decreases rows.len(),
{
    if rows.len() == 0 {
        Seq::empty()
    } else {
        let pre = filter_rows(rows.drop_last(), col, key);
        if row_has_cell(*rows.last(), col) && dv_eq(row_cell_val(*rows.last(), col), key) {
            pre.push(rows.last())
        } else {
            pre
        }
    }
}

/// A key is in the sequence, up to structural value equality.
pub open spec fn contains_key(ks: Seq<DataVal>, k: DataVal) -> bool {
    exists|i: int| 0 <= i < ks.len() && dv_eq(#[trigger] ks[i], k)
}

/// The distinct values of the column, in order of first occurrence.
pub open spec fn distinct_keys(rows: Seq<&DataRow>, col: int) -> Seq<DataVal>
    decreases rows.len(),
{
    if rows.len() == 0 {
        Seq::empty()
    } else {
        let pre = distinct_keys(rows.drop_last(), col);
        if contains_key(pre, row_cell_val(*rows.last(), col)) {
            pre
        } else {
            pre.push(row_cell_val(*rows.last(), col))
        }
    }
}

/// Returns only the rows whose value at the column equals the expected
/// value, preserving row identity and order; a row without that cell is a
/// hard error naming the first such row.
pub fn get_filtered_records<'a>(records: &Vec<&'a DataRow>, col_idx: usize, expected: DataVal)
    -> (r: Result<Vec<&'a DataRow>, DataError>)
    ensures
        r matches Ok(v) ==> all_have_cell(records@, col_idx as int)
            && v@ == filter_rows(records@, col_idx as int, expected),
        (r is Err) <==> !all_have_cell(records@, col_idx as int),
        r matches Err(e) ==> e == (DataError::MissingCell {
            row_idx: records@[first_missing(records@, col_idx as int)].spec_row_idx(),
            col_idx,
        }),
{
    let ghost col = col_idx as int;
    let n = records.len();
    let mut filtered: Vec<&DataRow> = Vec::new();
    let mut i: usize = 0;
    while i < n
        invariant
            i <= n,
            forall|j: int| 0 <= j < i ==> row_has_cell(*(#[trigger] records@[j]), col),
            filtered@ == filter_rows(records@.take(i as int), col, expected),
        decreases n - i,
    {
        let row: &DataRow = records[i];
        match row.get_data(col_idx) {
            Some(data_cell) => {
                if expected == *data_cell.get_data() {
                    filtered.push(row);
                }
                proof {
                    assert(records@.take(i + 1).drop_last() =~= records@.take(i as int));
                    assert(records@.take(i + 1).last() == records@[i as int]);
                }
            },
            None => {
                proof { lemma_first_missing_at(records@, col, i as int); }
                return Err(DataError::MissingCell { row_idx: *row.get_row_idx(), col_idx });
            },
        }
        i = i + 1;
    }
    proof {
        assert(records@.take(n as int) =~= records@);
    }
    Ok(filtered)
}

/// Splits the rows into groups keyed by the distinct values of the column,
/// group order following the first occurrence of each value and each group
/// keeping its rows in input order; a row without that cell is a hard
/// error naming the first such row.
pub fn get_split_records<'a>(records: &Vec<&'a DataRow>, col_splt_idx: usize)
    -> (r: Result<Vec<(&'a DataVal, Vec<&'a DataRow>)>, DataError>)
    ensures
        r matches Ok(gs) ==> {
            let ks = distinct_keys(records@, col_splt_idx as int);
            &&& all_have_cell(records@, col_splt_idx as int)
            &&& gs@.len() == ks.len()
            &&& forall|i: int| 0 <= i < gs@.len() ==> {
                &&& *((#[trigger] gs@[i]).0) == ks[i]
                &&& gs@[i].1@ == filter_rows(records@, col_splt_idx as int, ks[i])
            }
        },
        (r is Err) <==> !all_have_cell(records@, col_splt_idx as int),
        r matches Err(e) ==> e == (DataError::MissingCell {
            row_idx: records@[first_missing(records@, col_splt_idx as int)].spec_row_idx(),
            col_idx: col_splt_idx,
        }),
{
    let ghost col = col_splt_idx as int;
    let n = records.len();

    // distinct key values, in order of first occurrence
    let mut keys: Vec<&DataVal> = Vec::new();
    let mut i: usize = 0;
    while i < n
        invariant
            i <= n,
            forall|j: int| 0 <= j < i ==> row_has_cell(*(#[trigger] records@[j]), col),
            keys@.len() == distinct_keys(records@.take(i as int), col).len(),
            forall|j: int| 0 <= j < keys@.len()
                ==> *(#[trigger] keys@[j]) == distinct_keys(records@.take(i as int), col)[j],
        decreases n - i,
    {
        let row: &DataRow = records[i];
        match row.get_data(col_splt_idx) {
            Some(data_cell) => {
                let this_val: &DataVal = data_cell.get_data();
                let ghost pre = distinct_keys(records@.take(i as int), col);
                let mut found = false;
                let mut k: usize = 0;
                let nk = keys.len();
                while k < nk
                    invariant
                        k <= nk,
                        nk == keys@.len(),
                        found <==> exists|j: int| 0 <= j < k && dv_eq(*(#[trigger] keys@[j]), *this_val),
                    decreases nk - k,
                {
                    if *keys[k] == *this_val {
                        found = true;
                    }
                    k = k + 1;
                }
                proof {
                    assert(keys@.len() == pre.len());
                    if found {
                        let j = choose|j: int| 0 <= j < keys@.len()
                            && dv_eq(*(#[trigger] keys@[j]), *this_val);
                        assert(dv_eq(pre[j], *this_val));
                        assert(contains_key(pre, *this_val));
                    }
                    if contains_key(pre, *this_val) {
                        let j = choose|j: int| 0 <= j < pre.len()
                            && dv_eq(#[trigger] pre[j], *this_val);
                        assert(dv_eq(*keys@[j], *this_val));
                    }
                    assert(found == contains_key(pre, row_cell_val(*records@[i as int], col)));
                    assert(records@.take(i + 1).drop_last() =~= records@.take(i as int));
                    assert(records@.take(i + 1).last() == records@[i as int]);
                }
                if !found {
                    keys.push(this_val);
                }
            },
            None => {
                proof { lemma_first_missing_at(records@, col, i as int); }
                return Err(DataError::MissingCell {
                    row_idx: *row.get_row_idx(),
                    col_idx: col_splt_idx,
                });
            },
        }
        i = i + 1;
    }
    proof {
        assert(records@.take(n as int) =~= records@);
    }

    // one group per key, in key order
    let ghost ks = distinct_keys(records@, col);
    let mut wrapping_vec: Vec<(&DataVal, Vec<&DataRow>)> = Vec::new();
    let mut g: usize = 0;
    let nk = keys.len();
    while g < nk
        invariant
            g <= nk,
            nk == keys@.len(),
            nk == ks.len(),
            forall|j: int| 0 <= j < nk ==> *(#[trigger] keys@[j]) == ks[j],
            all_have_cell(records@, col),
            wrapping_vec@.len() == g,
            forall|j: int| 0 <= j < g ==> {
                &&& *((#[trigger] wrapping_vec@[j]).0) == ks[j]
                &&& wrapping_vec@[j].1@ == filter_rows(records@, col, ks[j])
            },
        decreases nk - g,
    {
        let key: &DataVal = keys[g];
        let group = match get_filtered_records(records, col_splt_idx, key.duplicate()) {
            Ok(group) => group,
            Err(_) => {
                proof { assert(false); }
                Vec::new()
            },
        };
        wrapping_vec.push((key, group));
        g = g + 1;
    }
    Ok(wrapping_vec)
}


/// Round trip: a table built from explicit headers and rows reads back,
/// by position, exactly the headers and cell values it was built with.
pub proof fn lemma_table_round_trip(headers: Seq<String>, rows: Seq<DataRow>, d: Data)
    requires
        d.spec_headers() == headers,
        d.spec_records() == rows,
    ensures
        forall|p: int| 0 <= p < headers.len() ==> d.spec_headers()[p] == headers[p],
        forall|i: int, j: int| 0 <= i < rows.len()
            && 0 <= j < rows[i].spec_cells().len()
            ==> d.spec_records()[i].spec_cells()[j]
                == #[trigger] rows[i].spec_cells()[j],
{
}

/// Grouping keys are pairwise distinct and each occurs in some row of the
/// set at the grouping column.
pub proof fn lemma_distinct_keys_distinct(rows: Seq<&DataRow>, col: int)
    requires all_have_cell(rows, col),
    ensures ({
        let ks = distinct_keys(rows, col);
        &&& forall|i: int, j: int| 0 <= i < j < ks.len()
            ==> !dv_eq(#[trigger] ks[i], #[trigger] ks[j])
        &&& forall|i: int| 0 <= i < ks.len() ==> exists|k: int| 0 <= k < rows.len()
            && row_has_cell(*(#[trigger] rows[k]), col)
            && row_cell_val(*rows[k], col) == #[trigger] ks[i]
    }),
    decreases rows.len(),
{
    if rows.len() > 0 {
        assert(all_have_cell(rows.drop_last(), col)) by {
            assert forall|i: int| 0 <= i < rows.drop_last().len()
                implies row_has_cell(*(#[trigger] rows.drop_last()[i]), col) by {
                assert(rows.drop_last()[i] == rows[i]);
            }
        }
        lemma_distinct_keys_distinct(rows.drop_last(), col);
        let pre = distinct_keys(rows.drop_last(), col);
        let ks = distinct_keys(rows, col);
        let v = row_cell_val(*rows.last(), col);
        assert forall|i: int| 0 <= i < ks.len() implies exists|k: int| 0 <= k < rows.len()
            && row_has_cell(*(#[trigger] rows[k]), col)
            && row_cell_val(*rows[k], col) == #[trigger] ks[i] by {
            if i < pre.len() {
                let k = choose|k: int| 0 <= k < rows.drop_last().len()
                    && row_has_cell(*(#[trigger] rows.drop_last()[k]), col)
                    && row_cell_val(*rows.drop_last()[k], col) == pre[i];
                assert(rows[k] == rows.drop_last()[k]);
            } else {
                assert(ks[i] == v);
                assert(rows[rows.len() - 1] == rows.last());
            }
        }
    }
}

/// Filtering hands back references into the input row set itself: every
/// returned row is one of the given rows, unchanged.
pub proof fn lemma_filter_preserves_identity<'a>(rows: Seq<&'a DataRow>, col: int, key: DataVal)
    ensures ({
        let fr = filter_rows(rows, col, key);
        forall|i: int| 0 <= i < fr.len() ==> exists|k: int| 0 <= k < rows.len()
            && #[trigger] fr[i] == rows[k]
    }),
    decreases rows.len(),
{
    if rows.len() > 0 {
        lemma_filter_preserves_identity(rows.drop_last(), col, key);
        let pre = filter_rows(rows.drop_last(), col, key);
        let fr = filter_rows(rows, col, key);
        assert forall|i: int| 0 <= i < fr.len() implies exists|k: int| 0 <= k < rows.len()
            && #[trigger] fr[i] == rows[k] by {
            if i < pre.len() {
                assert(fr[i] == pre[i]);
                let k = choose|k: int| 0 <= k < rows.drop_last().len()
                    && #[trigger] pre[i] == rows.drop_last()[k];
                assert(rows[k] == rows.drop_last()[k]);
            } else {
                assert(fr[i] == rows.last());
                assert(rows[rows.len() - 1] == rows.last());
            }
        }
    }
}

} // verus!
