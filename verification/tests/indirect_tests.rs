#![allow(dead_code)]

use spreadsheet_engine::value_types::{NumberArithmetic, SingleCellValue};
use spreadsheet_engine::{CellAddress, Spreadsheet};

/// Numbers as `f64`, the way a spreadsheet computes them.
struct F64Numbers;

impl NumberArithmetic for F64Numbers {
    fn number_from_literal(&self, literal: &str) -> u64 {
        literal.parse::<f64>().unwrap().to_bits()
    }

    fn add(&self, a: u64, b: u64) -> u64 {
        (f64::from_bits(a) + f64::from_bits(b)).to_bits()
    }

    fn integer_value(&self, a: u64) -> Option<i64> {
        let n = f64::from_bits(a);
        if n.fract() == 0.0 {
            Some(n as i64)
        } else {
            None
        }
    }

    fn count_value(&self, a: u64) -> Option<usize> {
        let n = f64::from_bits(a);
        if n.fract() == 0.0 && n >= 1.0 {
            Some(n as usize)
        } else {
            None
        }
    }

    fn from_integer(&self, n: i64) -> u64 {
        (n as f64).to_bits()
    }

    fn from_count(&self, n: usize) -> u64 {
        (n as f64).to_bits()
    }
}

fn new_spreadsheet() -> Spreadsheet<F64Numbers> {
    Spreadsheet::new(F64Numbers)
}

fn adr(column: u32, row: u32) -> CellAddress {
    CellAddress::new(column, row)
}

fn number(x: f64) -> Option<Option<SingleCellValue>> {
    Some(Some(SingleCellValue::Number(x.to_bits())))
}

fn boolean(b: bool) -> Option<Option<SingleCellValue>> {
    Some(Some(SingleCellValue::Boolean(b)))
}

fn text(t: &str) -> Option<Option<SingleCellValue>> {
    Some(Some(SingleCellValue::Text(t.to_string())))
}

fn error(message: &str) -> Option<Option<SingleCellValue>> {
    Some(Some(SingleCellValue::Error(message.to_string())))
}

fn unevaluated() -> Option<Option<SingleCellValue>> {
    Some(None)
}

#[test]
fn indirect_with_text() {
    let mut spreadsheet = new_spreadsheet();
    spreadsheet.input_raw_formula(adr(0, 0), r#"indirect("0,1")"#);
    spreadsheet.input_raw_formula(adr(0, 1), "1");

    assert_eq!(spreadsheet.cell_value(adr(0, 0)), number(1.0));

    spreadsheet.input_raw_formula(adr(0, 1), "2");

    assert_eq!(spreadsheet.cell_value(adr(0, 0)), number(2.0));
}


#[test]
fn indirect_with_reference_to_text() {
    let mut spreadsheet = new_spreadsheet();
    spreadsheet.input_raw_formula(adr(0, 0), "indirect((0,1))");
    spreadsheet.input_raw_formula(adr(0, 1), r#""0,2""#);
    spreadsheet.input_raw_formula(adr(0, 2), "2");
    spreadsheet.input_raw_formula(adr(0, 3), "3");
    assert_eq!(spreadsheet.cell_value(adr(0, 0)), number(2.0));

    spreadsheet.input_raw_formula(adr(0, 1), r#""0,3""#);
    assert_eq!(spreadsheet.cell_value(adr(0, 0)), number(3.0));

    spreadsheet.input_raw_formula(adr(0, 3), "4");
    assert_eq!(spreadsheet.cell_value(adr(0, 0)), number(4.0));
}

#[test]
fn indirect_to_absent_cell() {
    let mut spreadsheet = new_spreadsheet();
    spreadsheet.input_raw_formula(adr(0, 0), r#"indirect("0,1")"#);

    assert_eq!(spreadsheet.cell_value(adr(0, 0)), number(0.0));
}

#[test]
fn indirect_to_unevaluated_cell() {
    let mut spreadsheet = new_spreadsheet();
    spreadsheet.input_raw_formula(adr(0, 0), "(0,1)");
    spreadsheet.input_raw_formula(adr(0, 1), "(0,0)");
    spreadsheet.input_raw_formula(adr(0, 2), r#"indirect("0,0")"#);

    assert_eq!(spreadsheet.cell_value(adr(0, 2)), unevaluated());
}

#[test]
fn indirect_invalid_address() {
    let mut spreadsheet = new_spreadsheet();
    spreadsheet.input_raw_formula(adr(0, 0), r#"indirect("notanaddress")"#);

    assert_eq!(spreadsheet.cell_value(adr(0, 0)), error("Indirect reference is not a valid cell address"));
}

#[test]
fn indirect_non_text_reference() {
    let mut spreadsheet = new_spreadsheet();
    spreadsheet.input_raw_formula(adr(0, 0), "indirect(1)");

    assert_eq!(spreadsheet.cell_value(adr(0, 0)), error("Indirect reference is not text"));
}
