//! Per-column statistics over row sets, and the report builders that
//! combine filtering, grouping and the statistics under a configuration.
//!
//! Integer and decimal cells are kept as separate populations by the
//! plain reducers; the "unified" variants widen both into one population
//! of integers scaled to `STAT_FRAC` fractional digits.  All divisions
//! truncate toward zero and the standard deviation takes the floor of the
//! square root, so every result is an exact decimal.

use vstd::prelude::*;

verus! {

use crate::dec::{
    Dec, pow10, spec_abs, spec_norm, spec_trunc_div, spec_dec_scaled, spec_dec_scaled_fits,
    dec_to_scaled, norm_dec, add_i128_checked, add_u128_checked, mul_u128_checked,
    i128_mag, div_trunc_i128, isqrt_u128, lemma_pow10_pos,
};
use crate::data::{
    DataVal, DataRow, DataError, row_has_cell, row_cell_val, all_have_cell, first_missing,
    lemma_first_missing_at, str_eq,
};

/// The scale factor of the statistics: `10^STAT_FRAC`.
pub const STAT_POW: i128 = 1000000000;

/// Count of integer cells of the column.
pub open spec fn int_count(rows: Seq<&DataRow>, col: int) -> int
    decreases rows.len(),
{
    if rows.len() == 0 {
        0
    } else {
        int_count(rows.drop_last(), col)
            + if row_cell_val(*rows.last(), col) is Int { 1int } else { 0int }
    }
}

/// Count of decimal cells of the column.
pub open spec fn flt_count(rows: Seq<&DataRow>, col: int) -> int
    decreases rows.len(),
{
    if rows.len() == 0 {
        0
    } else {
        flt_count(rows.drop_last(), col)
            + if row_cell_val(*rows.last(), col) is Float { 1int } else { 0int }
    }
}

/// Count of text cells of the column.
pub open spec fn txt_count(rows: Seq<&DataRow>, col: int) -> int
    decreases rows.len(),
{
    if rows.len() == 0 {
        0
    } else {
        txt_count(rows.drop_last(), col)
            + if row_cell_val(*rows.last(), col) is Text { 1int } else { 0int }
    }
}

/// Sum of the integer cells of the column.
pub open spec fn int_sum(rows: Seq<&DataRow>, col: int) -> int
    decreases rows.len(),
{
    if rows.len() == 0 {
        0
    } else {
        int_sum(rows.drop_last(), col)
            + match row_cell_val(*rows.last(), col) {
                DataVal::Int(i) => i as int,
                _ => 0,
            }
    }
}

/// Sum of the decimal cells of the column, at the statistics scale.
pub open spec fn flt_sum_scaled(rows: Seq<&DataRow>, col: int) -> int
    decreases rows.len(),
{
    if rows.len() == 0 {
        0
    } else {
        flt_sum_scaled(rows.drop_last(), col)
            + match row_cell_val(*rows.last(), col) {
                DataVal::Float(d) => spec_dec_scaled(d),
                _ => 0,
            }
    }
}

/// The summation stays representable: every decimal cell's scaled form
/// fits, and every prefix of either running sum stays in `i128` range.
pub open spec fn sums_ok(rows: Seq<&DataRow>, col: int) -> bool {
    &&& forall|i: int| 0 <= i < rows.len()
        ==> (match row_cell_val(*(#[trigger] rows[i]), col) {
            DataVal::Float(d) => spec_dec_scaled_fits(d),
            _ => true,
        })
    &&& forall|n: int| 0 <= n <= rows.len()
        ==> -i128::MAX <= int_sum(#[trigger] rows.take(n), col) <= i128::MAX
    &&& forall|n: int| 0 <= n <= rows.len()
        ==> -i128::MAX <= flt_sum_scaled(#[trigger] rows.take(n), col) <= i128::MAX
}

/// A normalized decimal from a raw (mantissa, fraction) pair.
pub open spec fn spec_norm_dec(m: int, f: nat) -> Dec {
    let (m2, f2) = spec_norm(m, f);
    Dec { mant: m2 as i128, frac: f2 as u32 }
}

/// Sums and per-type counts of one column of a row set.
#[derive(Clone, Copy, Debug)]
pub struct SumCount {
    /// Sum of the integer cells.
    pub int_sum: i128,
    /// Sum of the decimal cells, as an exact decimal.
    pub float_sum: Dec,
    /// How many cells held an integer.
    pub int_count: usize,
    /// How many cells held a decimal.
    pub float_count: usize,
    /// How many cells held text.
    pub text_count: usize,
}

/// One pass over a column: integer sum, scaled decimal sum, and counts.
/// A missing cell is a hard error naming the first such row; a sum
/// leaving the representable range is an overflow error.
fn col_sums(records: &Vec<&DataRow>, col_idx: usize)
    -> (r: Result<(i128, i128, usize, usize, usize), DataError>)
    ensures
        r matches Ok(t) ==> {
            &&& all_have_cell(records@, col_idx as int)
            &&& sums_ok(records@, col_idx as int)
            &&& t.0 == int_sum(records@, col_idx as int)
            &&& t.1 == flt_sum_scaled(records@, col_idx as int)
            &&& t.2 == int_count(records@, col_idx as int)
            &&& t.3 == flt_count(records@, col_idx as int)
            &&& t.4 == txt_count(records@, col_idx as int)
            &&& t.2 + t.3 + t.4 == records@.len()
        },
        (r is Err) <==> !all_have_cell(records@, col_idx as int)
            || !sums_ok(records@, col_idx as int),
        r matches Err(e) ==> {
            if !all_have_cell(records@, col_idx as int) {
                e == (DataError::MissingCell {
                    row_idx: records@[first_missing(records@, col_idx as int)].spec_row_idx(),
                    col_idx,
                })
            } else {
                e == DataError::Overflow
            }
        },
{
    let ghost col = col_idx as int;
    let n = records.len();

    // every row must have the cell
    let mut i: usize = 0;
    while i < n
        invariant
            i <= n,
            forall|j: int| 0 <= j < i ==> row_has_cell(*(#[trigger] records@[j]), col),
        decreases n - i,
    {
        let row: &DataRow = records[i];
        if row.get_data(col_idx).is_none() {
            proof { lemma_first_missing_at(records@, col, i as int); }
            return Err(DataError::MissingCell { row_idx: *row.get_row_idx(), col_idx });
        }
        i = i + 1;
    }

    let mut isum: i128 = 0;
    let mut fsum: i128 = 0;
    let mut ic: usize = 0;
    let mut fc: usize = 0;
    let mut tc: usize = 0;
    let mut k: usize = 0;
    while k < n
        invariant
            k <= n,
            all_have_cell(records@, col),
            isum == int_sum(records@.take(k as int), col),
            fsum == flt_sum_scaled(records@.take(k as int), col),
            ic == int_count(records@.take(k as int), col),
            fc == flt_count(records@.take(k as int), col),
            tc == txt_count(records@.take(k as int), col),
            ic + fc + tc == k,
            forall|j: int| 0 <= j < k
                ==> (match row_cell_val(*(#[trigger] records@[j]), col) {
                    DataVal::Float(d) => spec_dec_scaled_fits(d),
                    _ => true,
                }),
            forall|m: int| 0 <= m <= k
                ==> -i128::MAX <= int_sum(#[trigger] records@.take(m), col) <= i128::MAX,
            forall|m: int| 0 <= m <= k
                ==> -i128::MAX <= flt_sum_scaled(#[trigger] records@.take(m), col) <= i128::MAX,
        decreases n - k,
    {
        let row: &DataRow = records[k];
        let cell = match row.get_data(col_idx) {
            Some(c) => c,
            None => {
                proof { assert(false); }
                return Err(DataError::Overflow);
            },
        };
        proof {
            assert(records@.take(k + 1).drop_last() =~= records@.take(k as int));
            assert(records@.take(k + 1).last() == records@[k as int]);
        }
        match cell.get_data() {
            DataVal::Int(v) => {
                match add_i128_checked(isum, *v as i128) {
                    Some(s) => {
                        if s == i128::MIN {
                            return Err(DataError::Overflow);
                        }
                        isum = s;
                    },
                    None => {
                        return Err(DataError::Overflow);
                    },
                }
                ic = ic + 1;
            },
            DataVal::Float(d) => {
                let ds = match dec_to_scaled(*d) {
                    Some(ds) => ds,
                    None => {
                        return Err(DataError::Overflow);
                    },
                };
                match add_i128_checked(fsum, ds) {
                    Some(s) => {
                        if s == i128::MIN {
                            return Err(DataError::Overflow);
                        }
                        fsum = s;
                    },
                    None => {
                        return Err(DataError::Overflow);
                    },
                }
                fc = fc + 1;
            },
            DataVal::Text(_) => {
                tc = tc + 1;
            },
        }
        k = k + 1;
    }
    proof {
        assert(records@.take(n as int) =~= records@);
        assert(forall|m: int| 0 <= m <= records@.len()
            ==> records@.take(m) == #[trigger] records@.take(m));
    }
    Ok((isum, fsum, ic, fc, tc))
}

/// Gets sums and counts of the data types within one column: the sum of
/// integer cells, the sum of decimal cells, and how many cells held each
/// type.  Integers and decimals are never combined here.
pub fn get_sum_count(records: &Vec<&DataRow>, col_idx: usize)
    -> (r: Result<SumCount, DataError>)
    ensures
        r matches Ok(sc) ==> {
            &&& all_have_cell(records@, col_idx as int)
            &&& sums_ok(records@, col_idx as int)
            &&& sc.int_sum == int_sum(records@, col_idx as int)
            &&& sc.float_sum == spec_norm_dec(flt_sum_scaled(records@, col_idx as int), 9)
            &&& sc.float_sum.wf()
            &&& sc.int_count == int_count(records@, col_idx as int)
            &&& sc.float_count == flt_count(records@, col_idx as int)
            &&& sc.text_count == txt_count(records@, col_idx as int)
        },
        (r is Err) <==> !all_have_cell(records@, col_idx as int)
            || !sums_ok(records@, col_idx as int),
        r matches Err(e) ==> {
            if !all_have_cell(records@, col_idx as int) {
                e == (DataError::MissingCell {
                    row_idx: records@[first_missing(records@, col_idx as int)].spec_row_idx(),
                    col_idx,
                })
            } else {
                e == DataError::Overflow
            }
        },
{
    match col_sums(records, col_idx) {
        Ok((isum, fsum, ic, fc, tc)) => Ok(SumCount {
            int_sum: isum,
            float_sum: norm_dec(fsum, 9),
            int_count: ic,
            float_count: fc,
            text_count: tc,
        }),
        Err(e) => Err(e),
    }
}

/// The integer average can be scaled without leaving the range.
pub open spec fn int_avg_ok(rows: Seq<&DataRow>, col: int) -> bool {
    int_count(rows, col) == 0
        || spec_abs(int_sum(rows, col) * pow10(9)) <= i128::MAX
}

/// Average of the integer cells, at the statistics scale (zero where the
/// column has no integer cells).
pub open spec fn spec_int_avg9(rows: Seq<&DataRow>, col: int) -> int {
    if int_count(rows, col) == 0 {
        0
    } else {
        spec_trunc_div(int_sum(rows, col) * pow10(9), int_count(rows, col))
    }
}

/// Average of the decimal cells, at the statistics scale (zero where the
/// column has no decimal cells).
pub open spec fn spec_flt_avg9(rows: Seq<&DataRow>, col: int) -> int {
    if flt_count(rows, col) == 0 {
        0
    } else {
        spec_trunc_div(flt_sum_scaled(rows, col), flt_count(rows, col))
    }
}

/// Scales an integer sum up to the statistics scale, reporting overflow.
fn scale_up(sum: i128) -> (r: Option<i128>)
    ensures
        r matches Some(v) ==> v == sum * pow10(9),
        r is None <==> spec_abs(sum * pow10(9)) > i128::MAX,
{
    proof {
        crate::dec::lemma_pow10_nine();
    }
    let mg = i128_mag(sum);
    let scaled = match mul_u128_checked(mg, STAT_POW as u128) {
        Some(m) => m,
        None => {
            proof { lemma_mag_scale(sum as int, mg as int); }
            return None;
        },
    };
    let r = crate::dec::mag_to_i128(sum < 0, scaled);
    proof { lemma_mag_scale(sum as int, mg as int); }
    r
}

/// Scaling by a positive factor scales the magnitude.
proof fn lemma_mag_scale(sum: int, mg: int)
    requires mg == spec_abs(sum),
    ensures
        spec_abs(sum * pow10(9)) == mg * pow10(9),
        (if sum < 0 { -(mg * pow10(9)) } else { mg * pow10(9) }) == sum * pow10(9),
{
    lemma_pow10_pos(9);
    assert(spec_abs(sum * pow10(9)) == mg * pow10(9)
        && (if sum < 0 { -(mg * pow10(9)) } else { mg * pow10(9) }) == sum * pow10(9))
        by (nonlinear_arith)
        requires mg == spec_abs(sum), pow10(9) >= 1,
    ;
}

/// Gets the average of a single column, keeping the integer and decimal
/// populations separate; a population with no cells averages to zero.
/// Also returns the count of text cells, for diagnostics.
pub fn get_col_avg(records: &Vec<&DataRow>, col_idx: usize)
    -> (r: Result<(Dec, Dec, usize), DataError>)
    ensures
        r matches Ok(t) ==> {
            &&& all_have_cell(records@, col_idx as int)
            &&& sums_ok(records@, col_idx as int)
            &&& int_avg_ok(records@, col_idx as int)
            &&& t.0 == spec_norm_dec(spec_int_avg9(records@, col_idx as int), 9)
            &&& t.1 == spec_norm_dec(spec_flt_avg9(records@, col_idx as int), 9)
            &&& t.0.wf() && t.1.wf()
            &&& t.2 == txt_count(records@, col_idx as int)
        },
        (r is Err) <==> !all_have_cell(records@, col_idx as int)
            || !sums_ok(records@, col_idx as int)
            || !int_avg_ok(records@, col_idx as int),
        r matches Err(e) ==> {
            if !all_have_cell(records@, col_idx as int) {
                e == (DataError::MissingCell {
                    row_idx: records@[first_missing(records@, col_idx as int)].spec_row_idx(),
                    col_idx,
                })
            } else {
                e == DataError::Overflow
            }
        },
{
    let (isum, fsum, ic, fc, tc) = match col_sums(records, col_idx) {
        Ok(t) => t,
        Err(e) => return Err(e),
    };
    let int_avg: Dec = if ic == 0 {
        norm_dec(0, 9)
    } else {
        let scaled = match scale_up(isum) {
            Some(s) => s,
            None => return Err(DataError::Overflow),
        };
        norm_dec(div_trunc_i128(scaled, ic as u128), 9)
    };
    let flt_avg: Dec = if fc == 0 {
        norm_dec(0, 9)
    } else {
        norm_dec(div_trunc_i128(fsum, fc as u128), 9)
    };
    Ok((int_avg, flt_avg, tc))
}

/// The unified sum of both numeric populations stays in range.
pub open spec fn sngl_ok(rows: Seq<&DataRow>, col: int) -> bool {
    &&& spec_abs(int_sum(rows, col) * pow10(9)) <= i128::MAX
    &&& -i128::MAX <= int_sum(rows, col) * pow10(9) + flt_sum_scaled(rows, col) <= i128::MAX
}

/// Unified average of all numeric cells, at the statistics scale (zero
/// where the column has no numeric cells).
pub open spec fn spec_avg_sngl9(rows: Seq<&DataRow>, col: int) -> int {
    let cnt = int_count(rows, col) + flt_count(rows, col);
    if cnt == 0 {
        0
    } else {
        spec_trunc_div(int_sum(rows, col) * pow10(9) + flt_sum_scaled(rows, col), cnt)
    }
}

/// Gets the average of a single column with integer and decimal cells
/// combined into one population (integers widened to decimals); a column
/// with no numeric cells averages to zero.
pub fn get_col_avg_sngl(records: &Vec<&DataRow>, col_idx: usize)
    -> (r: Result<Dec, DataError>)
    ensures
        r matches Ok(d) ==> {
            &&& all_have_cell(records@, col_idx as int)
            &&& sums_ok(records@, col_idx as int)
            &&& sngl_ok(records@, col_idx as int)
            &&& d == spec_norm_dec(spec_avg_sngl9(records@, col_idx as int), 9)
            &&& d.wf()
        },
        (r is Err) <==> !all_have_cell(records@, col_idx as int)
            || !sums_ok(records@, col_idx as int)
            || !sngl_ok(records@, col_idx as int),
        r matches Err(e) ==> {
            if !all_have_cell(records@, col_idx as int) {
                e == (DataError::MissingCell {
                    row_idx: records@[first_missing(records@, col_idx as int)].spec_row_idx(),
                    col_idx,
                })
            } else {
                e == DataError::Overflow
            }
        },
{
    let (isum, fsum, ic, fc, tc) = match col_sums(records, col_idx) {
        Ok(t) => t,
        Err(e) => return Err(e),
    };
    let scaled = match scale_up(isum) {
        Some(s) => s,
        None => return Err(DataError::Overflow),
    };
    let total = match add_i128_checked(scaled, fsum) {
        Some(t) => t,
        None => return Err(DataError::Overflow),
    };
    if total == i128::MIN {
        return Err(DataError::Overflow);
    }
    // the counts sum to the row count, so their sum cannot overflow
    let nrec = records.len();
    assert(ic + fc + tc == nrec);
    if ic + fc == 0 {
        Ok(norm_dec(0, 9))
    } else {
        Ok(norm_dec(div_trunc_i128(total, (ic + fc) as u128), 9))
    }
}


/// Floor of the square root of a nonnegative number.
pub open spec fn spec_isqrt(n: int) -> int
    recommends n >= 0,
{
    choose|r: int| 0 <= r && #[trigger] (r * r) <= n && n < (r + 1) * (r + 1)
}

/// Any witness of the floor-square-root property is the floor square root.
pub proof fn lemma_isqrt_is(n: int, r: int)
    requires 0 <= r, r * r <= n, n < (r + 1) * (r + 1),
    ensures spec_isqrt(n) == r,
{
    assert(exists|c: int| 0 <= c && #[trigger] (c * c) <= n && n < (c + 1) * (c + 1)) by {
        assert(0 <= r && #[trigger] (r * r) <= n && n < (r + 1) * (r + 1));
    }
    let c = spec_isqrt(n);
    assert(0 <= c && c * c <= n && n < (c + 1) * (c + 1));
    assert(c == r) by (nonlinear_arith)
        requires
            0 <= r, r * r <= n, n < (r + 1) * (r + 1),
            0 <= c, c * c <= n, n < (c + 1) * (c + 1),
    ;
}

/// Sum of squared deviations of the integer cells from a scaled mean.
pub open spec fn int_sqdev_sum(rows: Seq<&DataRow>, col: int, m9: int) -> int
    decreases rows.len(),
{
    if rows.len() == 0 {
        0
    } else {
        int_sqdev_sum(rows.drop_last(), col, m9)
            + match row_cell_val(*rows.last(), col) {
                DataVal::Int(i) => (i * pow10(9) - m9) * (i * pow10(9) - m9),
                _ => 0,
            }
    }
}

/// Sum of squared deviations of the decimal cells from a scaled mean.
pub open spec fn flt_sqdev_sum(rows: Seq<&DataRow>, col: int, m9: int) -> int
    decreases rows.len(),
{
    if rows.len() == 0 {
        0
    } else {
        flt_sqdev_sum(rows.drop_last(), col, m9)
            + match row_cell_val(*rows.last(), col) {
                DataVal::Float(d) => (spec_dec_scaled(d) - m9) * (spec_dec_scaled(d) - m9),
                _ => 0,
            }
    }
}

/// Sum of squared deviations of all numeric cells from a scaled mean.
pub open spec fn sngl_sqdev_sum(rows: Seq<&DataRow>, col: int, m9: int) -> int
    decreases rows.len(),
{
    if rows.len() == 0 {
        0
    } else {
        sngl_sqdev_sum(rows.drop_last(), col, m9)
            + match row_cell_val(*rows.last(), col) {
                DataVal::Int(i) => (i * pow10(9) - m9) * (i * pow10(9) - m9),
                DataVal::Float(d) => (spec_dec_scaled(d) - m9) * (spec_dec_scaled(d) - m9),
                _ => 0,
            }
    }
}

/// Every prefix of the integer squared-deviation sum stays representable.
pub open spec fn int_sq_ok(rows: Seq<&DataRow>, col: int, m9: int) -> bool {
    forall|n: int| 0 <= n <= rows.len()
        ==> int_sqdev_sum(#[trigger] rows.take(n), col, m9) <= u128::MAX
}

/// Every prefix of the decimal squared-deviation sum stays representable.
pub open spec fn flt_sq_ok(rows: Seq<&DataRow>, col: int, m9: int) -> bool {
    forall|n: int| 0 <= n <= rows.len()
        ==> flt_sqdev_sum(#[trigger] rows.take(n), col, m9) <= u128::MAX
}

/// Every prefix of the unified squared-deviation sum stays representable.
pub open spec fn sngl_sq_ok(rows: Seq<&DataRow>, col: int, m9: int) -> bool {
    forall|n: int| 0 <= n <= rows.len()
        ==> sngl_sqdev_sum(#[trigger] rows.take(n), col, m9) <= u128::MAX
}

/// Population standard deviation of the integer cells, at the statistics
/// scale (zero where the column has no integer cells).
pub open spec fn spec_int_stdev9(rows: Seq<&DataRow>, col: int) -> int {
    if int_count(rows, col) == 0 {
        0
    } else {
        spec_isqrt(spec_trunc_div(
            int_sqdev_sum(rows, col, spec_int_avg9(rows, col)), int_count(rows, col)))
    }
}

/// Population standard deviation of the decimal cells, at the statistics
/// scale (zero where the column has no decimal cells).
pub open spec fn spec_flt_stdev9(rows: Seq<&DataRow>, col: int) -> int {
    if flt_count(rows, col) == 0 {
        0
    } else {
        spec_isqrt(spec_trunc_div(
            flt_sqdev_sum(rows, col, spec_flt_avg9(rows, col)), flt_count(rows, col)))
    }
}

/// Unified population standard deviation of all numeric cells, at the
/// statistics scale.
pub open spec fn spec_stdev_sngl9(rows: Seq<&DataRow>, col: int) -> int {
    spec_isqrt(spec_trunc_div(
        sngl_sqdev_sum(rows, col, spec_avg_sngl9(rows, col)),
        int_count(rows, col) + flt_count(rows, col)))
}

/// Index of the first text cell of the column, or the length.
pub open spec fn first_text(rows: Seq<&DataRow>, col: int) -> int
    decreases rows.len(),
{
    if rows.len() == 0 {
        0
    } else if row_cell_val(*rows[0], col) is Text {
        0
    } else {
        1 + first_text(rows.drop_first(), col)
    }
}

/// `first_text` is characterized by "no text before, text or the end at".
pub proof fn lemma_first_text_at(rows: Seq<&DataRow>, col: int, i: int)
    requires
        0 <= i <= rows.len(),
        forall|j: int| 0 <= j < i ==> !(row_cell_val(*(#[trigger] rows[j]), col) is Text),
        i < rows.len() ==> row_cell_val(*rows[i], col) is Text,
    ensures first_text(rows, col) == i,
    decreases i,
{
    if rows.len() == 0 {
    } else if i == 0 {
    } else {
        lemma_first_text_at(rows.drop_first(), col, i - 1);
    }
}

/// Per-type cell counts are never negative.
pub proof fn lemma_counts_nonneg(rows: Seq<&DataRow>, col: int)
    ensures
        int_count(rows, col) >= 0,
        flt_count(rows, col) >= 0,
        txt_count(rows, col) >= 0,
    decreases rows.len(),
{
    if rows.len() > 0 {
        lemma_counts_nonneg(rows.drop_last(), col);
    }
}

/// A column with no text cells has no text cell at any row.
pub proof fn lemma_txt_zero(rows: Seq<&DataRow>, col: int, i: int)
    requires
        txt_count(rows, col) == 0,
        0 <= i < rows.len(),
    ensures !(row_cell_val(*rows[i], col) is Text),
    decreases rows.len(),
{
    lemma_counts_nonneg(rows.drop_last(), col);
    if i == rows.len() - 1 {
    } else {
        lemma_txt_zero(rows.drop_last(), col, i);
        assert(rows.drop_last()[i] == rows[i]);
    }
}

/// The squared deviation of one scaled cell from a scaled mean, where it
/// stays representable; otherwise the prefix sum has overflowed.
fn sq_dev(cell9: i128, m9: i128) -> (r: Option<u128>)
    requires -i128::MAX <= m9,
    ensures
        r matches Some(v) ==> v == (cell9 - m9) * (cell9 - m9),
        r is None <==> (cell9 - m9) * (cell9 - m9) > u128::MAX,
{
    let neg_m9 = -m9;
    let diff = match add_i128_checked(cell9, neg_m9) {
        Some(d) => d,
        None => {
            proof { lemma_sq_big(cell9 as int, m9 as int); }
            return None;
        },
    };
    let dm = i128_mag(diff);
    let sq = mul_u128_checked(dm, dm);
    proof {
        lemma_sq_mag(cell9 as int, m9 as int, dm as int);
    }
    sq
}

/// A difference beyond the `i128` range has a square beyond `u128`.
proof fn lemma_sq_big(cell9: int, m9: int)
    requires !(i128::MIN <= cell9 - m9 <= i128::MAX),
    ensures (cell9 - m9) * (cell9 - m9) > u128::MAX,
{
    let d = cell9 - m9;
    assert(d * d > u128::MAX) by (nonlinear_arith)
        requires d < i128::MIN || d > i128::MAX,
    ;
}

/// The square of the magnitude is the square of the difference.
proof fn lemma_sq_mag(cell9: int, m9: int, dm: int)
    requires dm == spec_abs(cell9 - m9),
    ensures dm * dm == (cell9 - m9) * (cell9 - m9),
{
    let d = cell9 - m9;
    assert(dm * dm == d * d) by (nonlinear_arith)
        requires dm == spec_abs(d),
    ;
}

/// An integer cell always has a representable scaled form.
proof fn lemma_int_cell_scaled_fits(i: int)
    requires i64::MIN <= i <= i64::MAX,
    ensures spec_abs(i * pow10(9)) <= i128::MAX,
{
    crate::dec::lemma_pow10_nine();
    assert(spec_abs(i * pow10(9)) <= i128::MAX) by (nonlinear_arith)
        requires i64::MIN <= i <= i64::MAX, pow10(9) == 1000000000,
    ;
}

/// Gets the standard deviation of a single column, keeping the integer
/// and decimal populations separate (each against its own mean); a
/// population with no cells deviates by zero.  Also returns the count of
/// text cells.
#[verifier::rlimit(100)]
#[verifier::spinoff_prover]
pub fn get_col_stdev(records: &Vec<&DataRow>, col_idx: usize)
    -> (r: Result<(Dec, Dec, usize), DataError>)
    ensures
        r matches Ok(t) ==> {
            &&& all_have_cell(records@, col_idx as int)
            &&& sums_ok(records@, col_idx as int)
            &&& int_avg_ok(records@, col_idx as int)
            &&& int_sq_ok(records@, col_idx as int, spec_int_avg9(records@, col_idx as int))
            &&& flt_sq_ok(records@, col_idx as int, spec_flt_avg9(records@, col_idx as int))
            &&& t.0 == spec_norm_dec(spec_int_stdev9(records@, col_idx as int), 9)
            &&& t.1 == spec_norm_dec(spec_flt_stdev9(records@, col_idx as int), 9)
            &&& t.0.wf() && t.1.wf()
            &&& t.2 == txt_count(records@, col_idx as int)
        },
        (r is Err) <==> !all_have_cell(records@, col_idx as int)
            || !sums_ok(records@, col_idx as int)
            || !int_avg_ok(records@, col_idx as int)
            || !int_sq_ok(records@, col_idx as int, spec_int_avg9(records@, col_idx as int))
            || !flt_sq_ok(records@, col_idx as int, spec_flt_avg9(records@, col_idx as int)),
        r matches Err(e) ==> {
            if !all_have_cell(records@, col_idx as int) {
                e == (DataError::MissingCell {
                    row_idx: records@[first_missing(records@, col_idx as int)].spec_row_idx(),
                    col_idx,
                })
            } else {
                e == DataError::Overflow
            }
        },
{
    let ghost col = col_idx as int;
    let (ia, fa, tc) = match get_col_avg(records, col_idx) {
        Ok(t) => t,
        Err(e) => return Err(e),
    };
    let ghost ia9 = spec_int_avg9(records@, col);
    let ghost fa9 = spec_flt_avg9(records@, col);
    proof {
        lemma_counts_nonneg(records@, col);
        if int_count(records@, col) != 0 {
            crate::dec::lemma_trunc_div_small(
                int_sum(records@, col) * pow10(9), int_count(records@, col));
        }
        if flt_count(records@, col) != 0 {
            crate::dec::lemma_trunc_div_small(
                flt_sum_scaled(records@, col), flt_count(records@, col));
        }
        assert(records@.take(records@.len() as int) =~= records@);
        assert(-i128::MAX <= ia9 <= i128::MAX);
        assert(-i128::MAX <= fa9 <= i128::MAX);
        lemma_norm_scaled_roundtrip(ia9);
        lemma_norm_scaled_roundtrip(fa9);
    }
    // recover the scaled means from the normalized averages
    let im9 = match dec_to_scaled(ia) {
        Some(v) => v,
        None => {
            proof { assert(false); }
            return Err(DataError::Overflow);
        },
    };
    let fm9 = match dec_to_scaled(fa) {
        Some(v) => v,
        None => {
            proof { assert(false); }
            return Err(DataError::Overflow);
        },
    };

    let n = records.len();
    let mut iacc: u128 = 0;
    let mut facc: u128 = 0;
    let mut k: usize = 0;
    while k < n
        invariant
            k <= n,
            n == records@.len(),
            all_have_cell(records@, col),
            sums_ok(records@, col),
            im9 == ia9,
            fm9 == fa9,
            iacc == int_sqdev_sum(records@.take(k as int), col, ia9),
            facc == flt_sqdev_sum(records@.take(k as int), col, fa9),
            forall|m: int| 0 <= m <= k
                ==> int_sqdev_sum(#[trigger] records@.take(m), col, ia9) <= u128::MAX,
            forall|m: int| 0 <= m <= k
                ==> flt_sqdev_sum(#[trigger] records@.take(m), col, fa9) <= u128::MAX,
        decreases n - k,
    {
        let row: &DataRow = records[k];
        let cell = match row.get_data(col_idx) {
            Some(c) => c,
            None => {
                proof { assert(false); }
                return Err(DataError::Overflow);
            },
        };
        proof {
            assert(records@.take(k + 1).drop_last() =~= records@.take(k as int));
            assert(records@.take(k + 1).last() == records@[k as int]);
        }
        match cell.get_data() {
            DataVal::Int(v) => {
                proof { lemma_int_cell_scaled_fits(*v as int); }
                let cell9 = match scale_up(*v as i128) {
                    Some(c) => c,
                    None => {
                        proof { assert(false); }
                        return Err(DataError::Overflow);
                    },
                };
                let sq = match sq_dev(cell9, im9) {
                    Some(s) => s,
                    None => return Err(DataError::Overflow),
                };
                match add_u128_checked(iacc, sq) {
                    Some(s) => { iacc = s; },
                    None => return Err(DataError::Overflow),
                }
            },
            DataVal::Float(d) => {
                let cell9 = match dec_to_scaled(*d) {
                    Some(c) => c,
                    None => {
                        proof { assert(false); }
                        return Err(DataError::Overflow);
                    },
                };
                let sq = match sq_dev(cell9, fm9) {
                    Some(s) => s,
                    None => return Err(DataError::Overflow),
                };
                match add_u128_checked(facc, sq) {
                    Some(s) => { facc = s; },
                    None => return Err(DataError::Overflow),
                }
            },
            DataVal::Text(_) => {},
        }
        k = k + 1;
    }
    proof {
        assert(records@.take(n as int) =~= records@);
        assert(forall|m: int| 0 <= m <= records@.len()
            ==> records@.take(m) == #[trigger] records@.take(m));
    }

    let (_, _, ic, fc, _) = match col_sums(records, col_idx) {
        Ok(t) => t,
        Err(_) => {
            proof { assert(false); }
            return Err(DataError::Overflow);
        },
    };
    let int_stdev: Dec = if ic == 0 {
        proof { lemma_isqrt_is(0, 0); }
        norm_dec(0, 9)
    } else {
        let var18 = iacc / (ic as u128);
        let s = isqrt_u128(var18);
        proof {
            assert(spec_trunc_div(iacc as int, ic as int) == iacc as int / ic as int);
            lemma_isqrt_is(var18 as int, s as int);
        }
        norm_dec(s as i128, 9)
    };
    let flt_stdev: Dec = if fc == 0 {
        proof { lemma_isqrt_is(0, 0); }
        norm_dec(0, 9)
    } else {
        let var18 = facc / (fc as u128);
        let s = isqrt_u128(var18);
        proof {
            assert(spec_trunc_div(facc as int, fc as int) == facc as int / fc as int);
            lemma_isqrt_is(var18 as int, s as int);
        }
        norm_dec(s as i128, 9)
    };
    Ok((int_stdev, flt_stdev, tc))
}

/// Normalizing a representable scaled value and scaling it back returns
/// the value: the scaled mean can be recovered from its decimal form.
pub proof fn lemma_norm_scaled_roundtrip(v9: int)
    requires -i128::MAX <= v9 <= i128::MAX,
    ensures ({
        let d = spec_norm_dec(v9, 9);
        &&& spec_dec_scaled_fits(d)
        &&& spec_dec_scaled(d) == v9
        &&& d.wf()
    }),
{
    crate::dec::lemma_norm_value(v9, 9);
    let (m2, f2) = spec_norm(v9, 9);
    let d = spec_norm_dec(v9, 9);
    lemma_pow10_pos(9);
    lemma_pow10_pos(f2);
    assert(spec_abs(m2) <= spec_abs(v9));
    assert(d.mant == m2 && d.frac == f2);
    assert(f2 <= 9);
    crate::dec::lemma_pow10_adds(f2, (9 - f2) as nat);
    // v9 * 10^f2 == m2 * 10^9 == m2 * 10^f2 * 10^(9 - f2)
    assert(m2 * (pow10(f2) * pow10((9 - f2) as nat))
        == (m2 * pow10((9 - f2) as nat)) * pow10(f2)) by (nonlinear_arith);
    assert(v9 * pow10(f2) == (m2 * pow10((9 - f2) as nat)) * pow10(f2));
    assert(v9 == m2 * pow10((9 - f2) as nat)) by (nonlinear_arith)
        requires
            v9 * pow10(f2) == (m2 * pow10((9 - f2) as nat)) * pow10(f2),
            pow10(f2) >= 1,
    ;
    assert(spec_dec_scaled(d) == d.mant * pow10((9 - d.frac) as nat));
    assert(spec_abs(spec_dec_scaled(d)) == spec_abs(v9));
}


/// Gets the standard deviation of a single column with all numeric cells
/// combined into one population against the unified mean.  A text cell in
/// the column is a distinct hard error naming the first such row, so a
/// caller can substitute a sentinel value and continue; a column with no
/// numeric cells at all is a hard error of its own.
#[verifier::rlimit(100)]
#[verifier::spinoff_prover]
pub fn get_col_stdev_sngl(records: &Vec<&DataRow>, col_idx: usize)
    -> (r: Result<Dec, DataError>)
    ensures
        r matches Ok(d) ==> {
            &&& all_have_cell(records@, col_idx as int)
            &&& sums_ok(records@, col_idx as int)
            &&& txt_count(records@, col_idx as int) == 0
            &&& int_count(records@, col_idx as int) + flt_count(records@, col_idx as int) > 0
            &&& sngl_ok(records@, col_idx as int)
            &&& sngl_sq_ok(records@, col_idx as int, spec_avg_sngl9(records@, col_idx as int))
            &&& d == spec_norm_dec(spec_stdev_sngl9(records@, col_idx as int), 9)
            &&& d.wf()
        },
        (r is Err) <==> !all_have_cell(records@, col_idx as int)
            || !sums_ok(records@, col_idx as int)
            || txt_count(records@, col_idx as int) != 0
            || int_count(records@, col_idx as int) + flt_count(records@, col_idx as int) == 0
            || !sngl_ok(records@, col_idx as int)
            || !sngl_sq_ok(records@, col_idx as int, spec_avg_sngl9(records@, col_idx as int)),
        r matches Err(e) ==> {
            if !all_have_cell(records@, col_idx as int) {
                e == (DataError::MissingCell {
                    row_idx: records@[first_missing(records@, col_idx as int)].spec_row_idx(),
                    col_idx,
                })
            } else if !sums_ok(records@, col_idx as int) {
                e == DataError::Overflow
            } else if txt_count(records@, col_idx as int) != 0 {
                e == (DataError::NonNumeric {
                    row_idx: records@[first_text(records@, col_idx as int)].spec_row_idx(),
                    col_idx,
                })
            } else if int_count(records@, col_idx as int)
                + flt_count(records@, col_idx as int) == 0 {
                e == DataError::NoNumericData
            } else {
                e == DataError::Overflow
            }
        },
{
    let ghost col = col_idx as int;
    let (isum, fsum, ic, fc, tc) = match col_sums(records, col_idx) {
        Ok(t) => t,
        Err(e) => return Err(e),
    };

    // a text cell makes the unified statistic meaningless
    let n = records.len();
    if tc != 0 {
        let mut i: usize = 0;
        while i < n
            invariant
                i <= n,
                n == records@.len(),
                all_have_cell(records@, col),
                forall|j: int| 0 <= j < i
                    ==> !(row_cell_val(*(#[trigger] records@[j]), col) is Text),
            decreases n - i,
        {
            let row: &DataRow = records[i];
            let cell = match row.get_data(col_idx) {
                Some(c) => c,
                None => {
                    proof { assert(false); }
                    return Err(DataError::NoNumericData);
                },
            };
            match cell.get_data() {
                DataVal::Text(_) => {
                    proof { lemma_first_text_at(records@, col, i as int); }
                    return Err(DataError::NonNumeric {
                        row_idx: *row.get_row_idx(),
                        col_idx,
                    });
                },
                _ => {},
            }
            i = i + 1;
        }
        // a nonzero text count guarantees a text cell
        proof {
            lemma_text_exists(records@, col);
            assert(false);
        }
        return Err(DataError::NoNumericData);
    }
    if ic + fc == 0 {
        return Err(DataError::NoNumericData);
    }

    // unified mean at the statistics scale
    let scaled = match scale_up(isum) {
        Some(s) => s,
        None => return Err(DataError::Overflow),
    };
    let total = match add_i128_checked(scaled, fsum) {
        Some(t) => t,
        None => return Err(DataError::Overflow),
    };
    if total == i128::MIN {
        return Err(DataError::Overflow);
    }
    let cnt = ic + fc;
    let m9 = div_trunc_i128(total, cnt as u128);
    let ghost am9 = spec_avg_sngl9(records@, col);
    proof {
        crate::dec::lemma_trunc_div_small(total as int, cnt as int);
        assert(m9 == am9);
        assert(-i128::MAX <= m9 <= i128::MAX);
    }

    // second pass: squared deviations from the unified mean
    let mut acc: u128 = 0;
    let mut k: usize = 0;
    while k < n
        invariant
            k <= n,
            n == records@.len(),
            all_have_cell(records@, col),
            sums_ok(records@, col),
            txt_count(records@, col) == 0,
            -i128::MAX <= m9 <= i128::MAX,
            m9 == am9,
            acc == sngl_sqdev_sum(records@.take(k as int), col, am9),
            forall|m: int| 0 <= m <= k
                ==> sngl_sqdev_sum(#[trigger] records@.take(m), col, am9) <= u128::MAX,
        decreases n - k,
    {
        let row: &DataRow = records[k];
        let cell = match row.get_data(col_idx) {
            Some(c) => c,
            None => {
                proof { assert(false); }
                return Err(DataError::Overflow);
            },
        };
        proof {
            assert(records@.take(k + 1).drop_last() =~= records@.take(k as int));
            assert(records@.take(k + 1).last() == records@[k as int]);
        }
        let cell9 = match cell.get_data() {
            DataVal::Int(v) => {
                proof { lemma_int_cell_scaled_fits(*v as int); }
                match scale_up(*v as i128) {
                    Some(c) => c,
                    None => {
                        proof { assert(false); }
                        return Err(DataError::Overflow);
                    },
                }
            },
            DataVal::Float(d) => {
                match dec_to_scaled(*d) {
                    Some(c) => c,
                    None => {
                        proof { assert(false); }
                        return Err(DataError::Overflow);
                    },
                }
            },
            DataVal::Text(_) => {
                proof {
                    lemma_txt_zero(records@, col, k as int);
                    assert(false);
                }
                return Err(DataError::Overflow);
            },
        };
        let sq = match sq_dev(cell9, m9) {
            Some(s) => s,
            None => return Err(DataError::Overflow),
        };
        match add_u128_checked(acc, sq) {
            Some(s) => { acc = s; },
            None => return Err(DataError::Overflow),
        }
        k = k + 1;
    }
    proof {
        assert(records@.take(n as int) =~= records@);
        assert(forall|m: int| 0 <= m <= records@.len()
            ==> records@.take(m) == #[trigger] records@.take(m));
    }

    let var18 = acc / (cnt as u128);
    let stdev = isqrt_u128(var18);
    proof {
        assert(spec_trunc_div(acc as int, cnt as int) == acc as int / cnt as int);
        lemma_isqrt_is(var18 as int, stdev as int);
    }
    Ok(norm_dec(stdev as i128, 9))
}

/// A positive text count guarantees a text cell somewhere.
pub proof fn lemma_text_exists(rows: Seq<&DataRow>, col: int)
    requires txt_count(rows, col) != 0,
    ensures exists|i: int| 0 <= i < rows.len()
        && row_cell_val(*(#[trigger] rows[i]), col) is Text,
    decreases rows.len(),
{
    if rows.len() == 0 {
    } else if row_cell_val(*rows.last(), col) is Text {
        assert(rows[rows.len() - 1] == rows.last());
    } else {
        lemma_text_exists(rows.drop_last(), col);
        let i = choose|i: int| 0 <= i < rows.drop_last().len()
            && row_cell_val(*(#[trigger] rows.drop_last()[i]), col) is Text;
        assert(rows[i] == rows.drop_last()[i]);
    }
}


/// A generic, sink-agnostic report: header descriptors (display name,
/// decimal places, percent flag) and one row of computed values per
/// sample, keyed by the sample's identifier string.
#[derive(Clone, Debug)]
pub struct SampleOutput {
    pub headers: Vec<(String, usize, bool)>,
    pub sample_row: Vec<(String, Vec<DataVal>)>,
}

/// Why a report could not be built.
#[derive(Clone, Copy, PartialEq, Eq, Structural, Debug)]
pub enum ProcError {
    /// The requested report is disabled in the configuration.
    Disabled,
    /// No columns are configured to compute statistics on.
    NoColumnsConfigured,
    /// A row-set or statistics operation failed.
    Data(DataError),
}

/// How many decimal places the report shows for a statistics column.
pub open spec fn spec_decimal_places(l: Seq<char>) -> int {
    if l == "Weight"@ || l == "Light"@ || l == "Saturation"@ {
        4
    } else if l == "Hue"@ || l == "Red"@ || l == "Green"@ || l == "Blue"@ {
        1
    } else {
        2
    }
}

/// Decimal places for one statistics column, by its header.
pub fn decimal_places_for(label: &String) -> (r: usize)
    ensures r == spec_decimal_places(label@),
{
    if str_eq(label.as_str(), "Weight") || str_eq(label.as_str(), "Light")
        || str_eq(label.as_str(), "Saturation") {
        4
    } else if str_eq(label.as_str(), "Hue") || str_eq(label.as_str(), "Red")
        || str_eq(label.as_str(), "Green") || str_eq(label.as_str(), "Blue") {
        1
    } else {
        2
    }
}

/// The unified standard deviation of a group's column, or the sentinel
/// value substituted where text stood among the numbers.
pub open spec fn spec_std_or_sub(grp: Seq<&DataRow>, col: int) -> Dec {
    if txt_count(grp, col) == 0 {
        spec_norm_dec(spec_stdev_sngl9(grp, col), 9)
    } else {
        Dec { mant: (-1000) as i128, frac: 0 }
    }
}

/// The column's statistics succeed: cells all present, sums and the
/// unified mean representable, and either text is present (the standard
/// deviation is substituted) or the squared deviations are representable.
pub open spec fn group_col_ok(grp: Seq<&DataRow>, col: int) -> bool {
    &&& all_have_cell(grp, col)
    &&& sums_ok(grp, col)
    &&& sngl_ok(grp, col)
    &&& (txt_count(grp, col) > 0
        || (int_count(grp, col) + flt_count(grp, col) > 0
            && sngl_sq_ok(grp, col, spec_avg_sngl9(grp, col))))
}

/// The values of one report row: for each configured column found among
/// the headers, the unified average then the unified standard deviation
/// (or its sentinel); columns not found are omitted.
pub open spec fn spec_stat_row(hs: Seq<String>, cols: Seq<String>, grp: Seq<&DataRow>)
    -> Seq<DataVal>
    decreases cols.len(),
{
    if cols.len() == 0 {
        Seq::empty()
    } else {
        let pre = spec_stat_row(hs, cols.drop_last(), grp);
        let hi = crate::data::header_index(hs, cols.last()@);
        if hi < hs.len() {
            pre + seq![
                DataVal::Float(spec_norm_dec(spec_avg_sngl9(grp, hi), 9)),
                DataVal::Float(spec_std_or_sub(grp, hi)),
            ]
        } else {
            pre
        }
    }
}

/// Every configured column found among the headers computes successfully.
pub open spec fn spec_stat_row_ok(hs: Seq<String>, cols: Seq<String>, grp: Seq<&DataRow>)
    -> bool
    decreases cols.len(),
{
    if cols.len() == 0 {
        true
    } else {
        spec_stat_row_ok(hs, cols.drop_last(), grp)
            && {
                let hi = crate::data::header_index(hs, cols.last()@);
                hi < hs.len() ==> group_col_ok(grp, hi)
            }
    }
}

/// Success of a whole column list implies success of each prefix.
proof fn lemma_stat_row_ok_prefix(hs: Seq<String>, cols: Seq<String>, grp: Seq<&DataRow>, m: int)
    requires
        spec_stat_row_ok(hs, cols, grp),
        0 <= m <= cols.len(),
    ensures spec_stat_row_ok(hs, cols.take(m), grp),
    decreases cols.len(),
{
    if m == cols.len() {
        assert(cols.take(m) =~= cols);
    } else {
        assert(cols.drop_last() =~= cols.take(cols.len() - 1));
        lemma_stat_row_ok_prefix(hs, cols.drop_last(), grp, m);
        assert(cols.drop_last().take(m) =~= cols.take(m));
    }
}

/// Computes the statistics values of one report row: the unified average
/// and standard deviation of each configured column that the table's
/// headers hold, in configuration order.
fn stat_row_for_group(data: &crate::data::Data, cols: &Vec<String>, rows: &Vec<&DataRow>)
    -> (r: Result<Vec<DataVal>, DataError>)
    ensures
        r matches Ok(v) ==> {
            &&& spec_stat_row_ok(data.spec_headers(), cols@, rows@)
            &&& v@ == spec_stat_row(data.spec_headers(), cols@, rows@)
        },
        (r is Err) <==> !spec_stat_row_ok(data.spec_headers(), cols@, rows@),
{
    let ghost hs = data.spec_headers();
    let n = cols.len();
    let mut out: Vec<DataVal> = Vec::new();
    let mut j: usize = 0;
    while j < n
        invariant
            j <= n,
            n == cols@.len(),
            spec_stat_row_ok(hs, cols@.take(j as int), rows@),
            out@ == spec_stat_row(hs, cols@.take(j as int), rows@),
        decreases n - j,
    {
        proof {
            assert(cols@.take(j + 1).drop_last() =~= cols@.take(j as int));
            assert(cols@.take(j + 1).last() == cols@[j as int]);
        }
        match data.get_header_index(cols[j].as_str()) {
            Some(ci) => {
                let avg = match get_col_avg_sngl(rows, ci) {
                    Ok(a) => a,
                    Err(e) => {
                        proof {
                            lemma_counts_nonneg(rows@, ci as int);
                            assert(!spec_stat_row_ok(hs, cols@.take(j + 1), rows@));
                            lemma_not_ok_extends(hs, cols@, rows@, j + 1);
                        }
                        return Err(e);
                    },
                };
                let std = match get_col_stdev_sngl(rows, ci) {
                    Ok(s) => s,
                    Err(DataError::NonNumeric { row_idx: _, col_idx: _ }) => {
                        Dec { mant: -1000, frac: 0 }
                    },
                    Err(e) => {
                        proof {
                            lemma_counts_nonneg(rows@, ci as int);
                            assert(!spec_stat_row_ok(hs, cols@.take(j + 1), rows@));
                            lemma_not_ok_extends(hs, cols@, rows@, j + 1);
                        }
                        return Err(e);
                    },
                };
                out.push(DataVal::Float(avg));
                out.push(DataVal::Float(std));
                proof {
                    lemma_counts_nonneg(rows@, ci as int);
                    assert(out@ =~= spec_stat_row(hs, cols@.take(j + 1), rows@));
                }
            },
            None => {
                proof {
                    assert(out@ =~= spec_stat_row(hs, cols@.take(j + 1), rows@));
                }
            },
        }
        j = j + 1;
    }
    proof {
        assert(cols@.take(n as int) =~= cols@);
    }
    Ok(out)
}

/// A failed prefix means the whole column list fails.
proof fn lemma_not_ok_extends(hs: Seq<String>, cols: Seq<String>, grp: Seq<&DataRow>, m: int)
    requires
        0 <= m <= cols.len(),
        !spec_stat_row_ok(hs, cols.take(m), grp),
    ensures !spec_stat_row_ok(hs, cols, grp),
{
    if spec_stat_row_ok(hs, cols, grp) {
        lemma_stat_row_ok_prefix(hs, cols, grp, m);
    }
}


/// The index of a named column: the header's first occurrence, or the
/// given fallback where it is absent.
pub open spec fn spec_col_or(hs: Seq<String>, name: Seq<char>, fallback: int) -> int {
    if crate::data::header_index(hs, name) < hs.len() {
        crate::data::header_index(hs, name)
    } else {
        fallback
    }
}

/// The index of the classification column for filtering, with its fixed
/// fallback.
pub open spec fn spec_class_col(hs: Seq<String>, class: Seq<char>) -> int {
    spec_col_or(hs, class, 5)
}

/// The same index, at the width the error payloads carry.
pub open spec fn spec_class_col_usize(hs: Seq<String>, class: Seq<char>) -> usize {
    spec_class_col(hs, class) as usize
}

/// The index of the sample-identifier column: the configured header's
/// first occurrence, or a fixed fallback where it is absent.
pub open spec fn spec_sample_col(hs: Seq<String>, sid: Seq<char>) -> int {
    if crate::data::header_index(hs, sid) < hs.len() {
        crate::data::header_index(hs, sid)
    } else {
        2
    }
}

/// The same index, at the width the error payloads carry.
pub open spec fn spec_sample_col_usize(hs: Seq<String>, sid: Seq<char>) -> usize {
    spec_sample_col(hs, sid) as usize
}

/// Rows matching any of the filter values, one filter at a time, results
/// appended in filter order.
pub open spec fn spec_multi_filter<'a>(base: Seq<&'a DataRow>, col: int, filters: Seq<String>)
    -> Seq<&'a DataRow>
    decreases filters.len(),
{
    if filters.len() == 0 {
        Seq::empty()
    } else {
        spec_multi_filter(base, col, filters.drop_last())
            + crate::data::filter_rows(base, col, DataVal::Text(filters.last()))
    }
}

/// The row set the statistics report works on: all rows, or the rows
/// matching the configured classification filters.
pub open spec fn spec_stat_rows(d: crate::data::Data, c: crate::config_store::ConfigStore)
    -> Seq<&'static DataRow>
{
    let base = crate::data::row_refs(d.spec_records());
    if c.csv_class_filter_enabled && c.csv_class_filter_filters@.len() > 0 {
        spec_multi_filter(
            base,
            spec_class_col(d.spec_headers(), c.csv_class_filter_class@),
            c.csv_class_filter_filters@,
        )
    } else {
        base
    }
}

/// The per-sample groups of the statistics report, keyed by the sample
/// identifier column.
pub open spec fn spec_stat_keys(d: crate::data::Data, c: crate::config_store::ConfigStore)
    -> Seq<DataVal>
{
    crate::data::distinct_keys(
        spec_stat_rows(d, c),
        spec_sample_col(d.spec_headers(), c.csv_sample_id_header@),
    )
}

/// Every stage of the statistics report succeeds: the filter column's
/// cells are present where filtering is on, the sample column's cells are
/// present, and each group's statistics compute.
pub open spec fn stat_pipeline_ok(d: crate::data::Data, c: crate::config_store::ConfigStore)
    -> bool
{
    let hs = d.spec_headers();
    let base = crate::data::row_refs(d.spec_records());
    let filtered = spec_stat_rows(d, c);
    let scol = spec_sample_col(hs, c.csv_sample_id_header@);
    let ks = spec_stat_keys(d, c);
    &&& (c.csv_class_filter_enabled && c.csv_class_filter_filters@.len() > 0
        ==> all_have_cell(base, spec_class_col(hs, c.csv_class_filter_class@)))
    &&& all_have_cell(filtered, scol)
    &&& forall|i: int| 0 <= i < ks.len() ==> spec_stat_row_ok(
        hs,
        c.csv_stat_columns_columns@,
        crate::data::filter_rows(filtered, scol, #[trigger] ks[i]),
    )
}

/// The configured statistics columns present among the table's headers,
/// in configuration order; a configured column absent from the table is
/// omitted from the report entirely.
pub open spec fn spec_found_cols(hs: Seq<String>, cols: Seq<String>) -> Seq<String>
    decreases cols.len(),
{
    if cols.len() == 0 {
        Seq::empty()
    } else {
        let pre = spec_found_cols(hs, cols.drop_last());
        if crate::data::header_index(hs, cols.last()@) < hs.len() {
            pre.push(cols.last())
        } else {
            pre
        }
    }
}

/// The statistics report's content: an average and standard-deviation
/// header pair per configured column present in the table (absent
/// columns are omitted, keeping headers aligned with values), and per
/// sample (in first-occurrence order) its identifier string and its
/// statistics row.
pub open spec fn stat_report_matches(
    d: crate::data::Data,
    c: crate::config_store::ConfigStore,
    out: SampleOutput,
) -> bool {
    let hs = d.spec_headers();
    let cols = c.csv_stat_columns_columns@;
    let filtered = spec_stat_rows(d, c);
    let scol = spec_sample_col(hs, c.csv_sample_id_header@);
    let ks = spec_stat_keys(d, c);
    &&& out.headers@.len() == 2 * spec_found_cols(hs, cols).len()
    &&& forall|i: int| 0 <= i < spec_found_cols(hs, cols).len() ==> {
        let fc = spec_found_cols(hs, cols);
        &&& (#[trigger] out.headers@[2 * i]).0@ == "Avg "@ + fc[i]@
        &&& out.headers@[2 * i].1 == spec_decimal_places(fc[i]@)
        &&& out.headers@[2 * i].2 == false
        &&& out.headers@[2 * i + 1].0@ == "Std "@ + fc[i]@
        &&& out.headers@[2 * i + 1].1 == spec_decimal_places(fc[i]@)
        &&& out.headers@[2 * i + 1].2 == false
    }
    &&& out.sample_row@.len() == ks.len()
    &&& forall|i: int| 0 <= i < ks.len() ==> {
        &&& (#[trigger] out.sample_row@[i]).0@ == crate::data::string_of_val(ks[i])
        &&& out.sample_row@[i].1@ == spec_stat_row(
            hs, cols, crate::data::filter_rows(filtered, scol, ks[i]))
    }
}

/// Builds the per-sample statistics report of a table: filters rows by
/// classification where configured, groups them by the sample identifier,
/// and computes each configured column's unified average and standard
/// deviation per group.
#[verifier::rlimit(100)]
#[verifier::spinoff_prover]
pub fn proc_csv_stat_cols(data: &crate::data::Data, config: &crate::config_store::ConfigStore)
    -> (r: Result<SampleOutput, ProcError>)
    ensures
        r == Result::<SampleOutput, ProcError>::Err(ProcError::Disabled)
            <==> !config.csv_stat_columns_enabled,
        r == Result::<SampleOutput, ProcError>::Err(ProcError::NoColumnsConfigured)
            <==> config.csv_stat_columns_enabled
                && config.csv_stat_columns_columns@.len() == 0,
        (r is Ok) <==> config.csv_stat_columns_enabled
            && config.csv_stat_columns_columns@.len() > 0
            && stat_pipeline_ok(*data, *config),
        r matches Ok(out) ==> stat_report_matches(*data, *config, out),
        r matches Err(e) ==> (e matches ProcError::Data(_)
            <==> config.csv_stat_columns_enabled
                && config.csv_stat_columns_columns@.len() > 0
                && !stat_pipeline_ok(*data, *config)),
        r matches Err(ProcError::Data(e)) ==> {
            let hs = data.spec_headers();
            let base = crate::data::row_refs(data.spec_records());
            let fcol = spec_class_col(hs, config.csv_class_filter_class@);
            let filtered = spec_stat_rows(*data, *config);
            let scol = spec_sample_col(hs, config.csv_sample_id_header@);
            if config.csv_class_filter_enabled && config.csv_class_filter_filters@.len() > 0
                && !all_have_cell(base, fcol) {
                e == (DataError::MissingCell {
                    row_idx: base[first_missing(base, fcol)].spec_row_idx(),
                    col_idx: spec_class_col_usize(hs, config.csv_class_filter_class@),
                })
            } else if !all_have_cell(filtered, scol) {
                e == (DataError::MissingCell {
                    row_idx: filtered[first_missing(filtered, scol)].spec_row_idx(),
                    col_idx: spec_sample_col_usize(hs, config.csv_sample_id_header@),
                })
            } else {
                // a group's statistics failed; the statistics functions
                // pin those errors at their own boundaries
                true
            }
        },
{
    let ghost hs = data.spec_headers();
    let ghost basev = crate::data::row_refs(data.spec_records());
    if !config.csv_stat_columns_enabled {
        return Err(ProcError::Disabled);
    }
    if config.csv_stat_columns_columns.len() < 1 {
        return Err(ProcError::NoColumnsConfigured);
    }

    let base_data = data.get_records();
    proof {
        assert(base_data@ =~= basev);
    }

    // filter to the configured classification values, where enabled
    let filter_on = config.csv_class_filter_enabled
        && config.csv_class_filter_filters.len() > 0;
    let ghost fcol = spec_class_col(hs, config.csv_class_filter_class@);
    let filtered_data: Vec<&DataRow> = if !filter_on {
        base_data
    } else {
        let filter_col_idx = match data.get_header_index(config.csv_class_filter_class.as_str()) {
            Some(i) => i,
            None => 5,
        };
        let mut holding: Vec<&DataRow> = Vec::new();
        let nf = config.csv_class_filter_filters.len();
        let mut i: usize = 0;
        while i < nf
            invariant
                i <= nf,
                nf == config.csv_class_filter_filters@.len(),
                filter_col_idx == fcol,
                basev == crate::data::row_refs(data.spec_records()),
                i > 0 ==> all_have_cell(basev, fcol),
                holding@ == spec_multi_filter(
                    basev, fcol, config.csv_class_filter_filters@.take(i as int)),
            decreases nf - i,
        {
            let filter = &config.csv_class_filter_filters[i];
            let mut single = match crate::data::get_filtered_records(
                &base_data, filter_col_idx, DataVal::Text(filter.clone())) {
                Ok(rows) => rows,
                Err(e) => {
                    return Err(ProcError::Data(e));
                },
            };
            holding.append(&mut single);
            proof {
                assert(config.csv_class_filter_filters@.take(i + 1).drop_last()
                    =~= config.csv_class_filter_filters@.take(i as int));
                assert(config.csv_class_filter_filters@.take(i + 1).last()
                    == config.csv_class_filter_filters@[i as int]);
            }
            i = i + 1;
        }
        proof {
            assert(config.csv_class_filter_filters@.take(nf as int)
                =~= config.csv_class_filter_filters@);
        }
        holding
    };
    let ghost filtered = spec_stat_rows(*data, *config);
    proof {
        assert(filtered_data@ == filtered);
    }

    // group by the sample identifier column
    let sample_id_col_idx = match data.get_header_index(config.csv_sample_id_header.as_str()) {
        Some(i) => i,
        None => 2,
    };
    let ghost scol = spec_sample_col(hs, config.csv_sample_id_header@);
    let split_data = match crate::data::get_split_records(&filtered_data, sample_id_col_idx) {
        Ok(gs) => gs,
        Err(e) => {
            return Err(ProcError::Data(e));
        },
    };
    let ghost ks = spec_stat_keys(*data, *config);

    // a header pair for each configured column present in the table, so
    // that headers stay aligned with the values computed below
    let mut headers: Vec<(String, usize, bool)> = Vec::new();
    let ncols = config.csv_stat_columns_columns.len();
    let mut j: usize = 0;
    while j < ncols
        invariant
            j <= ncols,
            ncols == config.csv_stat_columns_columns@.len(),
            hs == data.spec_headers(),
            ({
                let fc = spec_found_cols(hs, config.csv_stat_columns_columns@.take(j as int));
                &&& headers@.len() == 2 * fc.len()
                &&& forall|i: int| 0 <= i < fc.len() ==> {
                    &&& (#[trigger] headers@[2 * i]).0@ == "Avg "@ + fc[i]@
                    &&& headers@[2 * i].1 == spec_decimal_places(fc[i]@)
                    &&& headers@[2 * i].2 == false
                    &&& headers@[2 * i + 1].0@ == "Std "@ + fc[i]@
                    &&& headers@[2 * i + 1].1 == spec_decimal_places(fc[i]@)
                    &&& headers@[2 * i + 1].2 == false
                }
            }),
        decreases ncols - j,
    {
        proof {
            assert(config.csv_stat_columns_columns@.take(j + 1).drop_last()
                =~= config.csv_stat_columns_columns@.take(j as int));
            assert(config.csv_stat_columns_columns@.take(j + 1).last()
                == config.csv_stat_columns_columns@[j as int]);
        }
        let col_label = &config.csv_stat_columns_columns[j];
        if data.get_header_index(col_label.as_str()).is_some() {
            let decimal_places = decimal_places_for(col_label);
            let mut avg_h = String::from_str("Avg ");
            avg_h.append(col_label.as_str());
            let mut std_h = String::from_str("Std ");
            std_h.append(col_label.as_str());
            let ghost oldh = headers@;
            let ghost oldfc = spec_found_cols(
                hs, config.csv_stat_columns_columns@.take(j as int));
            let ghost av: Seq<char> = avg_h@;
            let ghost sv: Seq<char> = std_h@;
            headers.push((avg_h, decimal_places, false));
            headers.push((std_h, decimal_places, false));
            proof {
                let fc = spec_found_cols(
                    hs, config.csv_stat_columns_columns@.take(j + 1));
                assert(fc == oldfc.push(config.csv_stat_columns_columns@[j as int]));
                assert forall|i: int| 0 <= i < fc.len() implies {
                    &&& (#[trigger] headers@[2 * i]).0@ == "Avg "@ + fc[i]@
                    &&& headers@[2 * i].1 == spec_decimal_places(fc[i]@)
                    &&& headers@[2 * i].2 == false
                    &&& headers@[2 * i + 1].0@ == "Std "@ + fc[i]@
                    &&& headers@[2 * i + 1].1 == spec_decimal_places(fc[i]@)
                    &&& headers@[2 * i + 1].2 == false
                } by {
                    if i < oldfc.len() {
                        assert(headers@[2 * i] == oldh[2 * i]);
                        assert(headers@[2 * i + 1] == oldh[2 * i + 1]);
                        assert((#[trigger] oldh[2 * i]).0@ == "Avg "@ + oldfc[i]@);
                        assert(fc[i] == oldfc[i]);
                    } else {
                        assert(headers@[2 * i].0@ == av);
                        assert(headers@[2 * i + 1].0@ == sv);
                    }
                }
            }
        }
        j = j + 1;
    }
    proof {
        assert(config.csv_stat_columns_columns@.take(ncols as int)
            =~= config.csv_stat_columns_columns@);
    }

    // one report row per sample group
    let mut sample_row: Vec<(String, Vec<DataVal>)> = Vec::new();
    let ng = split_data.len();
    let mut g: usize = 0;
    while g < ng
        invariant
            g <= ng,
            ng == ks.len(),
            hs == data.spec_headers(),
            filtered == spec_stat_rows(*data, *config),
            scol == spec_sample_col(hs, config.csv_sample_id_header@),
            ks == spec_stat_keys(*data, *config),
            split_data@.len() == ng,
            all_have_cell(filtered, scol),
            forall|i: int| 0 <= i < ng ==> {
                &&& *((#[trigger] split_data@[i]).0) == ks[i]
                &&& split_data@[i].1@ == crate::data::filter_rows(filtered, scol, ks[i])
            },
            sample_row@.len() == g,
            forall|i: int| 0 <= i < g ==> {
                &&& (#[trigger] sample_row@[i]).0@ == crate::data::string_of_val(ks[i])
                &&& sample_row@[i].1@ == spec_stat_row(
                    hs, config.csv_stat_columns_columns@,
                    crate::data::filter_rows(filtered, scol, ks[i]))
            },
            forall|i: int| 0 <= i < g ==> spec_stat_row_ok(
                hs, config.csv_stat_columns_columns@,
                crate::data::filter_rows(filtered, scol, #[trigger] ks[i])),
        decreases ng - g,
    {
        let pair = &split_data[g];
        let row_vals = match stat_row_for_group(
            data, &config.csv_stat_columns_columns, &pair.1) {
            Ok(v) => v,
            Err(e) => {
                return Err(ProcError::Data(e));
            },
        };
        sample_row.push((pair.0.to_string(), row_vals));
        g = g + 1;
    }

    Ok(SampleOutput { headers, sample_row })
}

/// The statistics report is a function of the table and configuration
/// alone: any two reports that match them are identical, so re-running
/// the builder on the same inputs reproduces the same report.
pub proof fn lemma_stat_report_deterministic(
    d: crate::data::Data,
    c: crate::config_store::ConfigStore,
    o1: SampleOutput,
    o2: SampleOutput,
)
    requires
        stat_report_matches(d, c, o1),
        stat_report_matches(d, c, o2),
    ensures
        o1.headers@.len() == o2.headers@.len(),
        forall|i: int| 0 <= i < o1.headers@.len() ==> {
            &&& (#[trigger] o1.headers@[i]).0@ == (#[trigger] o2.headers@[i]).0@
            &&& o1.headers@[i].1 == o2.headers@[i].1
            &&& o1.headers@[i].2 == o2.headers@[i].2
        },
        o1.sample_row@.len() == o2.sample_row@.len(),
        forall|i: int| 0 <= i < o1.sample_row@.len() ==> {
            &&& (#[trigger] o1.sample_row@[i]).0@ == (#[trigger] o2.sample_row@[i]).0@
            &&& o1.sample_row@[i].1@ == o2.sample_row@[i].1@
        },
{
    let fc = spec_found_cols(d.spec_headers(), c.csv_stat_columns_columns@);
    assert forall|i: int| 0 <= i < o1.headers@.len() implies {
        &&& (#[trigger] o1.headers@[i]).0@ == (#[trigger] o2.headers@[i]).0@
        &&& o1.headers@[i].1 == o2.headers@[i].1
        &&& o1.headers@[i].2 == o2.headers@[i].2
    } by {
        let j = i / 2;
        assert(0 <= j < fc.len());
        assert(i == 2 * j || i == 2 * j + 1);
        assert((#[trigger] o1.headers@[2 * j]).0@ == "Avg "@ + fc[j]@);
        assert((#[trigger] o2.headers@[2 * j]).0@ == "Avg "@ + fc[j]@);
        assert(o1.headers@[2 * j + 1].0@ == "Std "@ + fc[j]@);
        assert(o2.headers@[2 * j + 1].0@ == "Std "@ + fc[j]@);
    }
}


/// How many rows hold a cell at the column equal to the key (rows
/// without that cell are skipped, not errors).
pub open spec fn count_key(rows: Seq<&DataRow>, col: int, k: DataVal) -> int
    decreases rows.len(),
{
    if rows.len() == 0 {
        0
    } else {
        count_key(rows.drop_last(), col, k)
            + if row_has_cell(*rows.last(), col)
                && crate::data::dv_eq(row_cell_val(*rows.last(), col), k) { 1int } else { 0int }
    }
}

/// How many rows hold any cell at the column.
pub open spec fn present_count(rows: Seq<&DataRow>, col: int) -> int
    decreases rows.len(),
{
    if rows.len() == 0 {
        0
    } else {
        present_count(rows.drop_last(), col)
            + if row_has_cell(*rows.last(), col) { 1int } else { 0int }
    }
}

/// Extends an ordered key list with the unseen values of a column of a
/// row group, skipping rows without the cell.
pub open spec fn add_row_keys(acc: Seq<DataVal>, grp: Seq<&DataRow>, col: int) -> Seq<DataVal>
    decreases grp.len(),
{
    if grp.len() == 0 {
        acc
    } else {
        let pre = add_row_keys(acc, grp.drop_last(), col);
        if row_has_cell(*grp.last(), col)
            && !crate::data::contains_key(pre, row_cell_val(*grp.last(), col)) {
            pre.push(row_cell_val(*grp.last(), col))
        } else {
            pre
        }
    }
}

/// The distinct classification values seen across the first `m` sample
/// groups, in order of first occurrence.
pub open spec fn class_options_upto(
    rows: Seq<&DataRow>, scol: int, ccol: int, m: int,
) -> Seq<DataVal>
    decreases m,
{
    if m <= 0 {
        Seq::empty()
    } else {
        let ks = crate::data::distinct_keys(rows, scol);
        add_row_keys(
            class_options_upto(rows, scol, ccol, m - 1),
            crate::data::filter_rows(rows, scol, ks[m - 1]),
            ccol,
        )
    }
}

/// The ratio of a count to a total, at the statistics scale; an empty
/// total gives zero.
pub open spec fn spec_ratio9(count: int, total: int) -> Dec {
    if total == 0 {
        Dec { mant: 0, frac: 0 }
    } else {
        spec_norm_dec(spec_trunc_div(count * pow10(9), total), 9)
    }
}

/// Counts the rows whose cell at the column equals the key, skipping
/// rows without that cell.
fn count_matching(rows: &Vec<&DataRow>, col_idx: usize, key: &DataVal) -> (r: usize)
    ensures r == count_key(rows@, col_idx as int, *key),
{
    let ghost col = col_idx as int;
    let n = rows.len();
    let mut count: usize = 0;
    let mut i: usize = 0;
    while i < n
        invariant
            i <= n,
            count == count_key(rows@.take(i as int), col, *key),
            count <= i,
        decreases n - i,
    {
        proof {
            assert(rows@.take(i + 1).drop_last() =~= rows@.take(i as int));
            assert(rows@.take(i + 1).last() == rows@[i as int]);
        }
        let row: &DataRow = rows[i];
        match row.get_data(col_idx) {
            Some(cell) => {
                if *cell.get_data() == *key {
                    count = count + 1;
                }
            },
            None => {},
        }
        i = i + 1;
    }
    proof {
        assert(rows@.take(n as int) =~= rows@);
    }
    count
}

/// Counts the rows holding any cell at the column.
fn count_present(rows: &Vec<&DataRow>, col_idx: usize) -> (r: usize)
    ensures r == present_count(rows@, col_idx as int),
{
    let ghost col = col_idx as int;
    let n = rows.len();
    let mut count: usize = 0;
    let mut i: usize = 0;
    while i < n
        invariant
            i <= n,
            count == present_count(rows@.take(i as int), col),
            count <= i,
        decreases n - i,
    {
        proof {
            assert(rows@.take(i + 1).drop_last() =~= rows@.take(i as int));
            assert(rows@.take(i + 1).last() == rows@[i as int]);
        }
        let row: &DataRow = rows[i];
        if row.get_data(col_idx).is_some() {
            count = count + 1;
        }
        i = i + 1;
    }
    proof {
        assert(rows@.take(n as int) =~= rows@);
    }
    count
}

/// The ratio of a count to a total at the statistics scale.
fn ratio_dec(count: usize, total: usize) -> (r: Dec)
    ensures r == spec_ratio9(count as int, total as int), r.wf(),
{
    if total == 0 {
        Dec { mant: 0, frac: 0 }
    } else {
        proof {
            crate::dec::lemma_pow10_nine();
            assert((count as int) * pow10(9) <= i128::MAX) by (nonlinear_arith)
                requires count <= u64::MAX as int + 18446744073709551615int,
                    pow10(9) == 1000000000,
            ;
        }
        let scaled: i128 = (count as i128) * STAT_POW;
        proof {
            assert(scaled == (count as int) * pow10(9));
            assert(spec_trunc_div(scaled as int, total as int) == scaled as int / total as int);
            vstd::arithmetic::div_mod::lemma_div_pos_is_pos(scaled as int, total as int);
        }
        norm_dec(div_trunc_i128(scaled, total as u128), 9)
    }
}

/// The per-sample class-percentage report: a percent header per distinct
/// classification value, and per sample its identifier and the share of
/// its classified rows holding each value.
pub open spec fn per_report_matches(
    d: crate::data::Data,
    c: crate::config_store::ConfigStore,
    out: SampleOutput,
) -> bool {
    let hs = d.spec_headers();
    let base = crate::data::row_refs(d.spec_records());
    let scol = spec_sample_col(hs, c.csv_sample_id_header@);
    let ccol = spec_col_or(hs, c.csv_class_filter_class@, 6);
    let ks = crate::data::distinct_keys(base, scol);
    let opts = class_options_upto(base, scol, ccol, ks.len() as int);
    &&& out.headers@.len() == opts.len()
    &&& forall|i: int| 0 <= i < opts.len() ==> {
        &&& (#[trigger] out.headers@[i]).0@ == "%"@ + crate::data::string_of_val(opts[i])
        &&& out.headers@[i].1 == 1
        &&& out.headers@[i].2 == true
    }
    &&& out.sample_row@.len() == ks.len()
    &&& forall|i: int| 0 <= i < ks.len() ==> {
        let grp = crate::data::filter_rows(base, scol, ks[i]);
        &&& (#[trigger] out.sample_row@[i]).0@ == crate::data::string_of_val(ks[i])
        &&& out.sample_row@[i].1@.len() == opts.len()
        &&& forall|j: int| 0 <= j < opts.len()
            ==> out.sample_row@[i].1@[j] == DataVal::Float(spec_ratio9(
                count_key(grp, ccol, #[trigger] opts[j]),
                present_count(grp, ccol)))
    }
}

/// Builds the per-sample classification-percentage report of a table:
/// groups rows by the sample identifier and reports, per sample, the
/// share of its classified rows holding each classification value seen
/// anywhere in the table.  Rows without a classification cell are
/// skipped, not errors.
#[verifier::rlimit(100)]
#[verifier::spinoff_prover]
pub fn proc_csv_class_per(data: &crate::data::Data, config: &crate::config_store::ConfigStore)
    -> (r: Result<SampleOutput, ProcError>)
    ensures
        r == Result::<SampleOutput, ProcError>::Err(ProcError::Disabled)
            <==> !config.csv_class_percent_enabled,
        (r is Ok) <==> config.csv_class_percent_enabled
            && all_have_cell(
                crate::data::row_refs(data.spec_records()),
                spec_sample_col(data.spec_headers(), config.csv_sample_id_header@)),
        r matches Ok(out) ==> per_report_matches(*data, *config, out),
        r matches Err(e) ==> (config.csv_class_percent_enabled ==> {
            let base = crate::data::row_refs(data.spec_records());
            let scol = spec_sample_col(data.spec_headers(), config.csv_sample_id_header@);
            e == ProcError::Data(DataError::MissingCell {
                row_idx: base[first_missing(base, scol)].spec_row_idx(),
                col_idx: spec_sample_col_usize(data.spec_headers(), config.csv_sample_id_header@),
            })
        }),
{
    let ghost hs = data.spec_headers();
    let ghost basev = crate::data::row_refs(data.spec_records());
    if !config.csv_class_percent_enabled {
        return Err(ProcError::Disabled);
    }

    let base_data = data.get_records();
    proof {
        assert(base_data@ =~= basev);
    }

    let sample_id_col_idx = match data.get_header_index(config.csv_sample_id_header.as_str()) {
        Some(i) => i,
        None => 2,
    };
    let ghost scol = spec_sample_col(hs, config.csv_sample_id_header@);
    let split_data = match crate::data::get_split_records(&base_data, sample_id_col_idx) {
        Ok(gs) => gs,
        Err(e) => {
            return Err(ProcError::Data(e));
        },
    };
    let class_idx = match data.get_header_index(config.csv_class_filter_class.as_str()) {
        Some(i) => i,
        None => 6,
    };
    let ghost ccol = spec_col_or(hs, config.csv_class_filter_class@, 6);
    let ghost ks = crate::data::distinct_keys(basev, scol);

    // every classification value seen, in order of first occurrence
    let mut options: Vec<&DataVal> = Vec::new();
    let ng = split_data.len();
    let mut g: usize = 0;
    while g < ng
        invariant
            g <= ng,
            ng == ks.len(),
            class_idx == ccol,
            forall|i: int| 0 <= i < ng ==> {
                &&& *((#[trigger] split_data@[i]).0) == ks[i]
                &&& split_data@[i].1@ == crate::data::filter_rows(basev, scol, ks[i])
            },
            split_data@.len() == ng,
            options@.len() == class_options_upto(basev, scol, ccol, g as int).len(),
            forall|j: int| 0 <= j < options@.len()
                ==> *(#[trigger] options@[j])
                    == class_options_upto(basev, scol, ccol, g as int)[j],
        decreases ng - g,
    {
        let grp: &Vec<&DataRow> = &split_data[g].1;
        let nr = grp.len();
        let ghost acc0 = class_options_upto(basev, scol, ccol, g as int);
        let mut ri: usize = 0;
        while ri < nr
            invariant
                ri <= nr,
                nr == grp@.len(),
                class_idx == ccol,
                options@.len() == add_row_keys(acc0, grp@.take(ri as int), ccol).len(),
                forall|j: int| 0 <= j < options@.len()
                    ==> *(#[trigger] options@[j])
                        == add_row_keys(acc0, grp@.take(ri as int), ccol)[j],
            decreases nr - ri,
        {
            proof {
                assert(grp@.take(ri + 1).drop_last() =~= grp@.take(ri as int));
                assert(grp@.take(ri + 1).last() == grp@[ri as int]);
            }
            let row: &DataRow = grp[ri];
            match row.get_data(class_idx) {
                Some(cell) => {
                    let this_val: &DataVal = cell.get_data();
                    let ghost pre = add_row_keys(acc0, grp@.take(ri as int), ccol);
                    let mut found = false;
                    let mut k: usize = 0;
                    let nk = options.len();
                    while k < nk
                        invariant
                            k <= nk,
                            nk == options@.len(),
                            found <==> exists|j: int| 0 <= j < k
                                && crate::data::dv_eq(*(#[trigger] options@[j]), *this_val),
                        decreases nk - k,
                    {
                        if *options[k] == *this_val {
                            found = true;
                        }
                        k = k + 1;
                    }
                    proof {
                        assert(options@.len() == pre.len());
                        if found {
                            let j = choose|j: int| 0 <= j < options@.len()
                                && crate::data::dv_eq(*(#[trigger] options@[j]), *this_val);
                            assert(crate::data::dv_eq(pre[j], *this_val));
                            assert(crate::data::contains_key(pre, *this_val));
                        }
                        if crate::data::contains_key(pre, *this_val) {
                            let j = choose|j: int| 0 <= j < pre.len()
                                && crate::data::dv_eq(#[trigger] pre[j], *this_val);
                            assert(crate::data::dv_eq(*options@[j], *this_val));
                        }
                        assert(found == crate::data::contains_key(
                            pre, row_cell_val(*grp@[ri as int], ccol)));
                    }
                    if !found {
                        options.push(this_val);
                    }
                },
                None => {},
            }
            ri = ri + 1;
        }
        proof {
            assert(grp@.take(nr as int) =~= grp@);
        }
        g = g + 1;
    }
    let ghost opts = class_options_upto(basev, scol, ccol, ks.len() as int);

    // one percent header per classification value
    let mut headers: Vec<(String, usize, bool)> = Vec::new();
    let nopt = options.len();
    let mut h: usize = 0;
    while h < nopt
        invariant
            h <= nopt,
            nopt == opts.len(),
            forall|j: int| 0 <= j < nopt ==> *(#[trigger] options@[j]) == opts[j],
            options@.len() == nopt,
            headers@.len() == h,
            forall|i: int| 0 <= i < h ==> {
                &&& (#[trigger] headers@[i]).0@ == "%"@ + crate::data::string_of_val(opts[i])
                &&& headers@[i].1 == 1
                &&& headers@[i].2 == true
            },
        decreases nopt - h,
    {
        let mut label = String::from_str("%");
        let opt_string = options[h].to_string();
        label.append(opt_string.as_str());
        headers.push((label, 1, true));
        h = h + 1;
    }

    // one percentage row per sample group
    let mut sample_row: Vec<(String, Vec<DataVal>)> = Vec::new();
    let mut g2: usize = 0;
    while g2 < ng
        invariant
            g2 <= ng,
            ng == ks.len(),
            class_idx == ccol,
            split_data@.len() == ng,
            forall|i: int| 0 <= i < ng ==> {
                &&& *((#[trigger] split_data@[i]).0) == ks[i]
                &&& split_data@[i].1@ == crate::data::filter_rows(basev, scol, ks[i])
            },
            nopt == opts.len(),
            options@.len() == nopt,
            forall|j: int| 0 <= j < nopt ==> *(#[trigger] options@[j]) == opts[j],
            sample_row@.len() == g2,
            forall|i: int| 0 <= i < g2 ==> {
                let grp = crate::data::filter_rows(basev, scol, ks[i]);
                &&& (#[trigger] sample_row@[i]).0@ == crate::data::string_of_val(ks[i])
                &&& sample_row@[i].1@.len() == opts.len()
                &&& forall|j: int| 0 <= j < opts.len()
                    ==> sample_row@[i].1@[j] == DataVal::Float(spec_ratio9(
                        count_key(grp, ccol, #[trigger] opts[j]),
                        present_count(grp, ccol)))
            },
        decreases ng - g2,
    {
        let pair = &split_data[g2];
        let total = count_present(&pair.1, class_idx);
        let mut vals: Vec<DataVal> = Vec::new();
        let mut j: usize = 0;
        while j < nopt
            invariant
                j <= nopt,
                nopt == opts.len(),
                options@.len() == nopt,
                class_idx == ccol,
                forall|q: int| 0 <= q < nopt ==> *(#[trigger] options@[q]) == opts[q],
                split_data@[g2 as int].1@ == crate::data::filter_rows(basev, scol, ks[g2 as int]),
                g2 < split_data@.len(),
                total == present_count(split_data@[g2 as int].1@, ccol),
                vals@.len() == j,
                forall|q: int| 0 <= q < j
                    ==> vals@[q] == DataVal::Float(spec_ratio9(
                        count_key(split_data@[g2 as int].1@, ccol, #[trigger] opts[q]),
                        present_count(split_data@[g2 as int].1@, ccol))),
            decreases nopt - j,
        {
            let cnt = count_matching(&pair.1, class_idx, options[j]);
            vals.push(DataVal::Float(ratio_dec(cnt, total)));
            j = j + 1;
        }
        sample_row.push((pair.0.to_string(), vals));
        g2 = g2 + 1;
    }

    Ok(SampleOutput { headers, sample_row })
}

/// The class-percentage report is a function of the table and
/// configuration alone: two matching reports are identical.
pub proof fn lemma_per_report_deterministic(
    d: crate::data::Data,
    c: crate::config_store::ConfigStore,
    o1: SampleOutput,
    o2: SampleOutput,
)
    requires
        per_report_matches(d, c, o1),
        per_report_matches(d, c, o2),
    ensures
        o1.headers@.len() == o2.headers@.len(),
        forall|i: int| 0 <= i < o1.headers@.len() ==> {
            &&& (#[trigger] o1.headers@[i]).0@ == (#[trigger] o2.headers@[i]).0@
            &&& o1.headers@[i].1 == o2.headers@[i].1
            &&& o1.headers@[i].2 == o2.headers@[i].2
        },
        o1.sample_row@.len() == o2.sample_row@.len(),
        forall|i: int| 0 <= i < o1.sample_row@.len() ==> {
            &&& (#[trigger] o1.sample_row@[i]).0@ == (#[trigger] o2.sample_row@[i]).0@
            &&& o1.sample_row@[i].1@ =~= o2.sample_row@[i].1@
        },
{
    assert forall|i: int| 0 <= i < o1.sample_row@.len() implies {
        &&& (#[trigger] o1.sample_row@[i]).0@ == (#[trigger] o2.sample_row@[i]).0@
        &&& o1.sample_row@[i].1@ =~= o2.sample_row@[i].1@
    } by {
        let hs = d.spec_headers();
        let base = crate::data::row_refs(d.spec_records());
        let scol = spec_sample_col(hs, c.csv_sample_id_header@);
        let ccol = spec_col_or(hs, c.csv_class_filter_class@, 6);
        let ks = crate::data::distinct_keys(base, scol);
        let opts = class_options_upto(base, scol, ccol, ks.len() as int);
        let grp = crate::data::filter_rows(base, scol, ks[i]);
        assert forall|j: int| 0 <= j < opts.len()
            implies o1.sample_row@[i].1@[j] == o2.sample_row@[i].1@[j] by {
            assert(o1.sample_row@[i].1@[j] == DataVal::Float(spec_ratio9(
                count_key(grp, ccol, #[trigger] opts[j]), present_count(grp, ccol))));
            assert(o2.sample_row@[i].1@[j] == DataVal::Float(spec_ratio9(
                count_key(grp, ccol, opts[j]), present_count(grp, ccol))));
        }
        assert(o1.sample_row@[i].1@ =~= o2.sample_row@[i].1@);
    }
}


/// The values of one row past the sample-identifier column, in cell
/// order (empty where the row is too short).
pub open spec fn row_tail_vals(r: DataRow, scol: int) -> Seq<DataVal> {
    if r.spec_cells().len() > scol + 1 {
        Seq::new((r.spec_cells().len() - (scol + 1)) as nat,
            |j: int| r.spec_cells()[scol + 1 + j].spec_data())
    } else {
        Seq::empty()
    }
}

/// The sieve rows of a table: for each record holding a sample-identifier
/// cell, in order, its identifier string and the values of its remaining
/// cells; records without that cell are skipped.
pub open spec fn sieve_rows(recs: Seq<DataRow>, scol: int) -> Seq<(Seq<char>, Seq<DataVal>)>
    decreases recs.len(),
{
    if recs.len() == 0 {
        Seq::empty()
    } else {
        let pre = sieve_rows(recs.drop_last(), scol);
        if 0 <= scol < recs.last().spec_cells().len() {
            pre.push((
                crate::data::string_of_val(recs.last().spec_cells()[scol].spec_data()),
                row_tail_vals(recs.last(), scol),
            ))
        } else {
            pre
        }
    }
}

/// The sieve report: one header per table column past the sample
/// identifier, and the raw remaining values of each identified record.
pub open spec fn sieve_report_matches(
    d: crate::data::Data,
    c: crate::config_store::ConfigStore,
    out: SampleOutput,
) -> bool {
    let hs = d.spec_headers();
    let scol = spec_col_or(hs, c.xml_sample_id_header@, 0);
    let rows = sieve_rows(d.spec_records(), scol);
    &&& out.headers@.len() == if hs.len() > scol + 1 { hs.len() - (scol + 1) } else { 0int }
    &&& forall|i: int| 0 <= i < out.headers@.len() ==> {
        &&& (#[trigger] out.headers@[i]).0@ == hs[scol + 1 + i]@
        &&& out.headers@[i].1 == 2
        &&& out.headers@[i].2 == false
    }
    &&& out.sample_row@.len() == rows.len()
    &&& forall|i: int| 0 <= i < rows.len() ==> {
        &&& (#[trigger] out.sample_row@[i]).0@ == rows[i].0
        &&& out.sample_row@[i].1@ == rows[i].1
    }
}

/// Converts a markup-sourced table into a report: the sample identifier
/// of each record followed by its remaining cell values, unprocessed.
/// Records without an identifier cell are skipped, not errors.
pub fn proc_xml_sieve_data(data: &crate::data::Data, config: &crate::config_store::ConfigStore)
    -> (r: Result<SampleOutput, ProcError>)
    ensures
        (r is Ok) <==> config.xml_sieve_cols_enabled,
        r matches Err(e) ==> e == ProcError::Disabled,
        r matches Ok(out) ==> sieve_report_matches(*data, *config, out),
{
    let ghost hs = data.spec_headers();
    if !config.xml_sieve_cols_enabled {
        return Err(ProcError::Disabled);
    }

    let sample_id_col_idx = match data.get_header_index(config.xml_sample_id_header.as_str()) {
        Some(i) => i,
        None => 0,
    };
    let ghost scol = spec_col_or(hs, config.xml_sample_id_header@, 0);

    // headers past the sample identifier column
    let nh = data.get_headers_ref().len();
    let mut headers: Vec<(String, usize, bool)> = Vec::new();
    let mut i: usize = if sample_id_col_idx < nh { sample_id_col_idx + 1 } else { nh };
    let start = i;
    while i < nh
        invariant
            start <= i <= nh,
            nh == hs.len(),
            sample_id_col_idx == scol,
            start == if scol + 1 < nh as int { scol + 1 } else { nh as int },
            headers@.len() == i - start,
            forall|q: int| 0 <= q < headers@.len() ==> {
                &&& (#[trigger] headers@[q]).0@ == hs[start + q]@
                &&& headers@[q].1 == 2
                &&& headers@[q].2 == false
            },
        decreases nh - i,
    {
        let hd: &String = match data.get_header_from_index(i) {
            Some(h) => h,
            None => {
                proof { assert(false); }
                return Err(ProcError::Disabled);
            },
        };
        headers.push((hd.clone(), 2, false));
        i = i + 1;
    }

    // the raw remaining values of each identified record
    let recs = data.get_records_ref();
    let nr = recs.len();
    let mut sample_row: Vec<(String, Vec<DataVal>)> = Vec::new();
    let mut k: usize = 0;
    while k < nr
        invariant
            k <= nr,
            nr == data.spec_records().len(),
            recs@ == data.spec_records(),
            sample_id_col_idx == scol,
            sample_row@.len() == sieve_rows(data.spec_records().take(k as int), scol).len(),
            forall|q: int| 0 <= q < sample_row@.len() ==> {
                let rows = sieve_rows(data.spec_records().take(k as int), scol);
                &&& (#[trigger] sample_row@[q]).0@ == rows[q].0
                &&& sample_row@[q].1@ == rows[q].1
            },
        decreases nr - k,
    {
        proof {
            assert(data.spec_records().take(k + 1).drop_last()
                =~= data.spec_records().take(k as int));
            assert(data.spec_records().take(k + 1).last() == data.spec_records()[k as int]);
        }
        let row: &DataRow = &recs[k];
        match row.get_data(sample_id_col_idx) {
            Some(sample_id) => {
                let id_string = sample_id.get_data().to_string();
                let cells = row.get_row_data();
                let nc = cells.len();
                let mut vals: Vec<DataVal> = Vec::new();
                let mut ci: usize = sample_id_col_idx + 1;
                let cstart = ci;
                while ci < nc
                    invariant
                        cstart <= ci <= nc || (cstart > nc && ci == cstart),
                        nc == row.spec_cells().len(),
                        cstart == scol + 1,
                        ci <= nc ==> vals@.len() == ci - cstart,
                        ci > nc ==> vals@.len() == 0,
                        forall|q: int| 0 <= q < vals@.len()
                            ==> #[trigger] vals@[q] == row.spec_cells()[cstart + q].spec_data(),
                    decreases nc - ci,
                {
                    let cell = match row.get_data(ci) {
                        Some(c) => c,
                        None => {
                            proof { assert(false); }
                            return Err(ProcError::Disabled);
                        },
                    };
                    vals.push(cell.get_data().duplicate());
                    ci = ci + 1;
                }
                proof {
                    assert(vals@ =~= row_tail_vals(*row, scol));
                }
                sample_row.push((id_string, vals));
            },
            None => {},
        }
        k = k + 1;
    }
    proof {
        assert(data.spec_records().take(nr as int) =~= data.spec_records());
    }
    Ok(SampleOutput { headers, sample_row })
}

/// The sieve report is a function of the table and configuration alone:
/// two matching reports are identical.
pub proof fn lemma_sieve_report_deterministic(
    d: crate::data::Data,
    c: crate::config_store::ConfigStore,
    o1: SampleOutput,
    o2: SampleOutput,
)
    requires
        sieve_report_matches(d, c, o1),
        sieve_report_matches(d, c, o2),
    ensures
        o1.headers@.len() == o2.headers@.len(),
        forall|i: int| 0 <= i < o1.headers@.len() ==> {
            &&& (#[trigger] o1.headers@[i]).0@ == (#[trigger] o2.headers@[i]).0@
            &&& o1.headers@[i].1 == o2.headers@[i].1
            &&& o1.headers@[i].2 == o2.headers@[i].2
        },
        o1.sample_row@.len() == o2.sample_row@.len(),
        forall|i: int| 0 <= i < o1.sample_row@.len() ==> {
            &&& (#[trigger] o1.sample_row@[i]).0@ == (#[trigger] o2.sample_row@[i]).0@
            &&& o1.sample_row@[i].1@ == o2.sample_row@[i].1@
        },
{
}


/// The number-format pattern of one report column: a leading zero, a
/// decimal point, one zero per decimal place, and a percent mark where
/// the column holds percentages.
pub fn number_format_string(decimals: usize, is_percent: bool) -> (r: String)
    ensures r@ == "0."@ + crate::render::zeros(decimals as nat)
        + if is_percent { "%"@ } else { Seq::<char>::empty() },
{
    proof {
        reveal_strlit("0.");
        reveal_strlit("0");
        reveal_strlit("%");
    }
    let mut s = String::from_str("0.");
    let mut z: usize = 0;
    while z < decimals
        invariant
            z <= decimals,
            s@ == "0."@ + crate::render::zeros(z as nat),
        decreases decimals - z,
    {
        s.append("0");
        proof {
            assert(crate::render::zeros((z + 1) as nat)
                =~= crate::render::zeros(z as nat).push('0'));
            assert(s@ =~= "0."@ + crate::render::zeros((z + 1) as nat));
        }
        z = z + 1;
    }
    if is_percent {
        s.append("%");
    }
    s
}

/// Stripping trailing zeros from a zero mantissa gives the zero decimal.
pub proof fn lemma_norm_zero(f: nat)
    ensures spec_norm(0, f) == (0int, 0nat),
    decreases f,
{
    if f > 0 {
        lemma_norm_zero((f - 1) as nat);
    }
}

/// A column with no numeric cells has average zero and standard
/// deviation zero for each numeric population, whatever text it holds.
pub proof fn lemma_empty_population_stats(rows: Seq<&DataRow>, col: int)
    requires
        int_count(rows, col) == 0,
        flt_count(rows, col) == 0,
    ensures
        spec_norm_dec(spec_int_avg9(rows, col), 9) == (Dec { mant: 0, frac: 0 }),
        spec_norm_dec(spec_flt_avg9(rows, col), 9) == (Dec { mant: 0, frac: 0 }),
        spec_norm_dec(spec_int_stdev9(rows, col), 9) == (Dec { mant: 0, frac: 0 }),
        spec_norm_dec(spec_flt_stdev9(rows, col), 9) == (Dec { mant: 0, frac: 0 }),
{
    lemma_norm_zero(9);
}

} // verus!
