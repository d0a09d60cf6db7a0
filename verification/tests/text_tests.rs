#![allow(dead_code)]

use spreadsheet_engine::value_types::{NumberArithmetic, SingleCellValue};
use spreadsheet_engine::{CellAddress, Spreadsheet};

/// Numbers as `f64`, the way a spreadsheet computes them.
struct F64Numbers;

impl NumberArithmetic for F64Numbers {
    fn number_from_literal(&self, literal: &str) -> u64 {
        literal.parse::<f64>().unwrap().to_bits()
    }

    fn add(&self, a: u64, b: u64) -> u64 {
        (f64::from_bits(a) + f64::from_bits(b)).to_bits()
    }

    fn integer_value(&self, a: u64) -> Option<i64> {
        let n = f64::from_bits(a);
        if n.fract() == 0.0 {
            Some(n as i64)
        } else {
            None
        }
    }

    fn count_value(&self, a: u64) -> Option<usize> {
        let n = f64::from_bits(a);
        if n.fract() == 0.0 && n >= 1.0 {
            Some(n as usize)
        } else {
            None
        }
    }

    fn from_integer(&self, n: i64) -> u64 {
        (n as f64).to_bits()
    }

    fn from_count(&self, n: usize) -> u64 {
        (n as f64).to_bits()
    }
}

fn new_spreadsheet() -> Spreadsheet<F64Numbers> {
    Spreadsheet::new(F64Numbers)
}

fn adr(column: u32, row: u32) -> CellAddress {
    CellAddress::new(column, row)
}

fn number(x: f64) -> Option<Option<SingleCellValue>> {
    Some(Some(SingleCellValue::Number(x.to_bits())))
}

fn boolean(b: bool) -> Option<Option<SingleCellValue>> {
    Some(Some(SingleCellValue::Boolean(b)))
}

fn text(t: &str) -> Option<Option<SingleCellValue>> {
    Some(Some(SingleCellValue::Text(t.to_string())))
}

fn error(message: &str) -> Option<Option<SingleCellValue>> {
    Some(Some(SingleCellValue::Error(message.to_string())))
}

fn unevaluated() -> Option<Option<SingleCellValue>> {
    Some(None)
}

#[test]
fn simple_text_literal() {
    let mut spreadsheet = new_spreadsheet();
    spreadsheet.input_raw_formula(adr(0, 0), r#""text""#);

    assert_eq!(spreadsheet.cell_value(adr(0, 0)), text("text"));
}

#[test]
fn text_literal_with_spaces_and_capitalization() {
    let mut spreadsheet = new_spreadsheet();
    spreadsheet.input_raw_formula(adr(0, 0), r#""Test Text""#);

    assert_eq!(spreadsheet.cell_value(adr(0, 0)), text("Test Text"));
}

#[test]
fn text_literal_error() {
    let mut spreadsheet = new_spreadsheet();
    spreadsheet.input_raw_formula(adr(0, 0), r#""Test Text"#);

    assert_eq!(spreadsheet.cell_value(adr(0, 0)), error(r#""Test Text"#));
}

#[test]
fn whitespace_matches_the_unicode_property() {
    for u in 0u32..0x3100 {
        if let Some(c) = char::from_u32(u) {
            assert_eq!(spreadsheet_engine::text::is_whitespace(c), c.is_whitespace(), "{:x}", u);
        }
    }
    assert!(!spreadsheet_engine::text::is_whitespace('\u{10ffff}'));
}

#[test]
fn ascii_letters_are_lowered_outside_quotes() {
    let n = spreadsheet_engine::text::normalize_chars(&['S', 'U', 'M', '(', '"', 'A', '"', ')']);
    assert_eq!(n, vec!['s', 'u', 'm', '(', '"', 'A', '"', ')']);
}

#[test]
fn printed_addresses_read_back() {
    for (c, r) in [(0u32, 0u32), (7, 12), (4294967295, 1), (10, 4294967295)] {
        let text: Vec<char> = format!("{},{}", c, r).chars().collect();
        assert_eq!(
            spreadsheet_engine::text::parse_cell_address(&text),
            Some(spreadsheet_engine::CellAddress::new(c, r))
        );
    }
}
