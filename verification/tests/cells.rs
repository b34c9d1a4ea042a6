//! Cell construction and rendering.

use usda_c_grain_sum::data::{DataCell, DataVal};
use usda_c_grain_sum::dec::Dec;

fn cell(token: &str) -> DataVal {
    let header = String::from("H");
    let c = DataCell::new(&header, token.to_string());
    assert_eq!(c.get_header(), "H");
    c.get_data().clone()
}

#[test]
fn float_token_becomes_float() {
    assert_eq!(cell("5.2"), DataVal::Float(Dec { mant: 52, frac: 1 }));
}

#[test]
fn integer_token_becomes_integer() {
    assert_eq!(cell("55"), DataVal::Int(55));
}

#[test]
fn text_token_stays_text() {
    assert_eq!(cell("abc"), DataVal::Text(String::from("abc")));
}

#[test]
fn leading_zeros_parse_as_integer() {
    assert_eq!(cell("007"), DataVal::Int(7));
}

#[test]
fn signed_tokens() {
    assert_eq!(cell("+7"), DataVal::Int(7));
    assert_eq!(cell("-12"), DataVal::Int(-12));
    assert_eq!(cell("-2.50"), DataVal::Float(Dec { mant: -25, frac: 1 }));
}

#[test]
fn exponent_tokens() {
    assert_eq!(cell("1e3"), DataVal::Float(Dec { mant: 1000, frac: 0 }));
    assert_eq!(cell("2.5e-2"), DataVal::Float(Dec { mant: 25, frac: 3 }));
    assert_eq!(cell("1E2"), DataVal::Float(Dec { mant: 100, frac: 0 }));
}

#[test]
fn fraction_only_and_trailing_dot() {
    assert_eq!(cell(".5"), DataVal::Float(Dec { mant: 5, frac: 1 }));
    assert_eq!(cell("5."), DataVal::Float(Dec { mant: 5, frac: 0 }));
}

#[test]
fn integral_float_normalizes() {
    assert_eq!(cell("5.0"), DataVal::Float(Dec { mant: 5, frac: 0 }));
    assert_eq!(cell("5.20"), DataVal::Float(Dec { mant: 52, frac: 1 }));
}

#[test]
fn malformed_numbers_stay_text() {
    assert_eq!(cell(""), DataVal::Text(String::new()));
    assert_eq!(cell("1e"), DataVal::Text(String::from("1e")));
    assert_eq!(cell("1.2.3"), DataVal::Text(String::from("1.2.3")));
    assert_eq!(cell("--5"), DataVal::Text(String::from("--5")));
    assert_eq!(cell("5 "), DataVal::Text(String::from("5 ")));
}

#[test]
fn oversized_integer_becomes_float() {
    // beyond i64, within the decimal mantissa range
    assert_eq!(
        cell("99999999999999999999"),
        DataVal::Float(Dec { mant: 99999999999999999999, frac: 0 })
    );
}

#[test]
fn construction_is_deterministic() {
    for token in ["5.2", "55", "abc", "007", "-0.125e2"] {
        assert_eq!(cell(token), cell(token));
    }
}

#[test]
fn rendering_values() {
    assert_eq!(cell("55").to_string(), "55");
    assert_eq!(cell("-12").to_string(), "-12");
    assert_eq!(cell("5.2").to_string(), "5.2");
    assert_eq!(cell("-2.50").to_string(), "-2.5");
    assert_eq!(cell("5.0").to_string(), "5");
    assert_eq!(cell("0.05").to_string(), "0.05");
    assert_eq!(cell("abc").to_string(), "abc");
    assert_eq!(DataVal::Float(Dec { mant: -1000, frac: 0 }).to_string(), "-1000");
}

#[test]
fn structural_equality_has_no_coercion() {
    assert_ne!(cell("5"), cell("5.0"));
    assert_ne!(cell("5"), cell("five"));
    assert_eq!(cell("5.0"), cell("5.000"));
}
