//! Text rendering of scalar cells.
//!
//! Integers render as an optional minus sign and base-10 digits; decimals
//! render with an explicit decimal point and zero-padding for values below
//! one.  The rendered form of each value is defined as a specification
//! function over character sequences, and the executable renderers are
//! proved against it.

use vstd::prelude::*;

verus! {

use vstd::string::StringExecFns;
use vstd::string::StrSliceExecFns;
use crate::dec::{Dec, spec_abs};

/// The character of one digit value.
pub open spec fn digit_char(d: int) -> char {
    if d == 0 { '0' }
    else if d == 1 { '1' }
    else if d == 2 { '2' }
    else if d == 3 { '3' }
    else if d == 4 { '4' }
    else if d == 5 { '5' }
    else if d == 6 { '6' }
    else if d == 7 { '7' }
    else if d == 8 { '8' }
    else { '9' }
}

/// Base-10 digits of a nonnegative number, most significant first.
pub open spec fn digits_str(n: nat) -> Seq<char>
    decreases n,
{
    if n < 10 {
        seq![digit_char(n as int)]
    } else {
        digits_str(n / 10).push(digit_char(n as int % 10))
    }
}

/// A run of zero characters.
pub open spec fn zeros(n: nat) -> Seq<char> {
    Seq::new(n, |i: int| '0')
}

/// The rendering of a signed integer.
pub open spec fn string_of_int(i: int) -> Seq<char> {
    if i < 0 {
        seq!['-'] + digits_str((-i) as nat)
    } else {
        digits_str(i as nat)
    }
}

/// The rendering of a decimal scalar: its digits with a decimal point
/// before the last `frac` of them, zero-padded below one.
pub open spec fn string_of_dec(d: Dec) -> Seq<char> {
    let mg = spec_abs(d.mant as int) as nat;
    let ds = digits_str(mg);
    let sign: Seq<char> = if d.mant < 0 { seq!['-'] } else { Seq::empty() };
    if d.frac == 0 {
        sign + ds
    } else if ds.len() > d.frac {
        sign + ds.take(ds.len() - d.frac) + seq!['.'] + ds.subrange(ds.len() - d.frac, ds.len() as int)
    } else {
        sign + seq!['0', '.'] + zeros((d.frac - ds.len()) as nat) + ds
    }
}

/// The single-character string of one digit value.
fn digit_str(d: u128) -> (r: &'static str)
    requires d < 10,
    ensures r@ == seq![digit_char(d as int)],
{
    proof {
        reveal_strlit("0"); reveal_strlit("1"); reveal_strlit("2");
        reveal_strlit("3"); reveal_strlit("4"); reveal_strlit("5");
        reveal_strlit("6"); reveal_strlit("7"); reveal_strlit("8");
        reveal_strlit("9");
    }
    match d {
        0 => "0",
        1 => "1",
        2 => "2",
        3 => "3",
        4 => "4",
        5 => "5",
        6 => "6",
        7 => "7",
        8 => "8",
        _ => {
            assert(d == 9);
            "9"
        },
    }
}

/// Appends the digits of `n` to `s`.
fn push_digits(s: &mut String, n: u128)
    ensures final(s)@ == old(s)@ + digits_str(n as nat),
    decreases n,
{
    if n < 10 {
        s.append(digit_str(n));
    } else {
        proof {
            vstd::arithmetic::div_mod::lemma_div_is_strictly_smaller(n as int, 10);
        }
        push_digits(s, n / 10);
        s.append(digit_str(n % 10));
        proof {
            assert(final(s)@ =~= old(s)@ + digits_str(n as nat));
        }
    }
}

/// The digits of `n` as a string.
pub fn digits_string(n: u128) -> (r: String)
    ensures r@ == digits_str(n as nat),
{
    let mut s = String::new();
    push_digits(&mut s, n);
    proof {
        assert(s@ =~= digits_str(n as nat));
    }
    s
}

/// Renders a signed 64-bit integer.
pub fn int_string(i: i64) -> (r: String)
    ensures r@ == string_of_int(i as int),
{
    let mut s = String::new();
    if i < 0 {
        proof { reveal_strlit("-"); }
        s.append("-");
        let mg = crate::dec::i128_mag(i as i128);
        push_digits(&mut s, mg);
        proof { assert(s@ =~= string_of_int(i as int)); }
    } else {
        push_digits(&mut s, i as u128);
        proof { assert(s@ =~= string_of_int(i as int)); }
    }
    s
}

/// Renders a decimal scalar.
pub fn dec_string(d: Dec) -> (r: String)
    ensures r@ == string_of_dec(d),
{
    let neg = d.mant < 0;
    let mg = crate::dec::i128_mag(d.mant);
    let ds = digits_string(mg);
    let mut s = String::new();
    if neg {
        proof { reveal_strlit("-"); }
        s.append("-");
    }
    if d.frac == 0 {
        s.append(ds.as_str());
        proof { assert(s@ =~= string_of_dec(d)); }
        s
    } else {
        let dl = ds.as_str().unicode_len();
        if dl > d.frac as usize {
            let cut = dl - d.frac as usize;
            s.append(ds.as_str().substring_char(0, cut));
            proof { reveal_strlit("."); }
            s.append(".");
            s.append(ds.as_str().substring_char(cut, dl));
            proof {
                assert(ds@.subrange(0, cut as int) =~= ds@.take(cut as int));
                assert(s@ =~= string_of_dec(d));
            }
            s
        } else {
            proof { reveal_strlit("0."); }
            s.append("0.");
            let mut z: usize = d.frac as usize - dl;
            let ghost ztotal = (d.frac - dl) as nat;
            proof { reveal_strlit("0"); }
            while z > 0
                invariant
                    z <= ztotal,
                    s@ == (if neg { seq!['-'] } else { Seq::<char>::empty() })
                        + seq!['0', '.'] + zeros((ztotal - z) as nat),
                decreases z,
            {
                s.append("0");
                proof {
                    assert(zeros((ztotal - z + 1) as nat)
                        =~= zeros((ztotal - z) as nat).push('0'));
                    assert(s@ =~= (if neg { seq!['-'] } else { Seq::<char>::empty() })
                        + seq!['0', '.'] + zeros((ztotal - z + 1) as nat));
                }
                z = z - 1;
            }
            s.append(ds.as_str());
            proof {
                assert(seq!['0', '.'] =~= "0."@) by { reveal_strlit("0."); }
                assert(s@ =~= string_of_dec(d));
            }
            s
        }
    }
}

} // verus!
