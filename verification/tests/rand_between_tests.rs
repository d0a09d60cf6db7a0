#![allow(dead_code)]

use spreadsheet_engine::value_types::{NumberArithmetic, SingleCellValue};
use spreadsheet_engine::{CellAddress, Spreadsheet};

/// Numbers as `f64`, the way a spreadsheet computes them.
struct F64Numbers;

impl NumberArithmetic for F64Numbers {
    fn number_from_literal(&self, literal: &str) -> u64 {
        literal.parse::<f64>().unwrap().to_bits()
    }

    fn add(&self, a: u64, b: u64) -> u64 {
        (f64::from_bits(a) + f64::from_bits(b)).to_bits()
    }

    fn integer_value(&self, a: u64) -> Option<i64> {
        let n = f64::from_bits(a);
        if n.fract() == 0.0 {
            Some(n as i64)
        } else {
            None
        }
    }

    fn count_value(&self, a: u64) -> Option<usize> {
        let n = f64::from_bits(a);
        if n.fract() == 0.0 && n >= 1.0 {
            Some(n as usize)
        } else {
            None
        }
    }

    fn from_integer(&self, n: i64) -> u64 {
        (n as f64).to_bits()
    }

    fn from_count(&self, n: usize) -> u64 {
        (n as f64).to_bits()
    }
}

fn new_spreadsheet() -> Spreadsheet<F64Numbers> {
    Spreadsheet::new(F64Numbers)
}

fn adr(column: u32, row: u32) -> CellAddress {
    CellAddress::new(column, row)
}

fn number(x: f64) -> Option<Option<SingleCellValue>> {
    Some(Some(SingleCellValue::Number(x.to_bits())))
}

fn boolean(b: bool) -> Option<Option<SingleCellValue>> {
    Some(Some(SingleCellValue::Boolean(b)))
}

fn text(t: &str) -> Option<Option<SingleCellValue>> {
    Some(Some(SingleCellValue::Text(t.to_string())))
}

fn error(message: &str) -> Option<Option<SingleCellValue>> {
    Some(Some(SingleCellValue::Error(message.to_string())))
}

fn unevaluated() -> Option<Option<SingleCellValue>> {
    Some(None)
}

fn assert_integer_in_range(spreadsheet: &Spreadsheet<F64Numbers>, address: CellAddress, low: i64, high: i64) {
    match spreadsheet.cell_value(address) {
        Some(Some(SingleCellValue::Number(bits))) => {
            let n = f64::from_bits(bits);
            assert_eq!(n.fract(), 0.0, "Expected integer, got {n}");
            assert!(n >= low as f64 && n <= high as f64,
                "Expected number in [{}, {}], got {n}", low, high);
        }
        other => panic!("Expected Number in [{}, {}], got {other:?}", low, high),
    }
}

#[test]
fn simple_randbetween() {
    let mut spreadsheet = new_spreadsheet();
    spreadsheet.input_raw_formula(adr(0, 0), "randbetween(1, 10)");

    assert_integer_in_range(&spreadsheet, adr(0, 0), 1, 10);
}

#[test]
fn randbetween_single_value() {
    let mut spreadsheet = new_spreadsheet();
    spreadsheet.input_raw_formula(adr(0, 0), "randbetween(5, 5)");

    assert_eq!(spreadsheet.cell_value(adr(0, 0)), number(5.0));
}

#[test]
fn randbetween_negative_range() {
    let mut spreadsheet = new_spreadsheet();
    spreadsheet.input_raw_formula(adr(0, 0), "randbetween(-10, -1)");

    assert_integer_in_range(&spreadsheet, adr(0, 0), -10, -1);
}

#[test]
fn randbetween_lower_greater_than_upper() {
    let mut spreadsheet = new_spreadsheet();
    spreadsheet.input_raw_formula(adr(0, 0), "randbetween(10, 1)");

    assert_eq!(spreadsheet.cell_value(adr(0, 0)), error("The lower bound is greater than the upper bound"));
}

#[test]
fn randbetween_non_integer_lower() {
    let mut spreadsheet = new_spreadsheet();
    spreadsheet.input_raw_formula(adr(0, 0), "randbetween(1.5, 10)");

    assert_eq!(spreadsheet.cell_value(adr(0, 0)), error("The lower bound is not an integer"));
}

#[test]
fn randbetween_non_integer_upper() {
    let mut spreadsheet = new_spreadsheet();
    spreadsheet.input_raw_formula(adr(0, 0), "randbetween(1, 10.5)");

    assert_eq!(spreadsheet.cell_value(adr(0, 0)), error("The upper bound is not an integer"));
}

#[test]
fn randbetween_non_number_lower() {
    let mut spreadsheet = new_spreadsheet();
    spreadsheet.input_raw_formula(adr(0, 0), "randbetween(true, 10)");

    assert_eq!(spreadsheet.cell_value(adr(0, 0)), error("The lower bound is not an integer"));
}

#[test]
fn randbetween_non_number_upper() {
    let mut spreadsheet = new_spreadsheet();
    spreadsheet.input_raw_formula(adr(0, 0), "randbetween(1, true)");

    assert_eq!(spreadsheet.cell_value(adr(0, 0)), error("The upper bound is not an integer"));
}

#[test]
fn randbetween_with_cell_references() {
    let mut spreadsheet = new_spreadsheet();
    spreadsheet.input_raw_formula(adr(0, 0), "randbetween((0,1), (0,2))");
    spreadsheet.input_raw_formula(adr(0, 1), "3");
    spreadsheet.input_raw_formula(adr(0, 2), "7");

    assert_integer_in_range(&spreadsheet, adr(0, 0), 3, 7);
}

#[test]
fn randbetween_updates_when_bounds_change() {
    let mut spreadsheet = new_spreadsheet();
    spreadsheet.input_raw_formula(adr(0, 0), "randbetween((0,1), (0,2))");
    spreadsheet.input_raw_formula(adr(0, 1), "1");
    spreadsheet.input_raw_formula(adr(0, 2), "1");

    assert_eq!(spreadsheet.cell_value(adr(0, 0)), number(1.0));

    spreadsheet.input_raw_formula(adr(0, 1), "5");
    spreadsheet.input_raw_formula(adr(0, 2), "5");

    assert_eq!(spreadsheet.cell_value(adr(0, 0)), number(5.0));
}

#[test]
fn randbetween_inside_conditional() {
    let mut spreadsheet = new_spreadsheet();
    spreadsheet.input_raw_formula(adr(0, 0), "if(true, randbetween(1, 10), 0)");

    assert_integer_in_range(&spreadsheet, adr(0, 0), 1, 10);
}

#[test]
fn randbetween_with_conditional_bound() {
    let mut spreadsheet = new_spreadsheet();
    spreadsheet.input_raw_formula(adr(0, 0), "randbetween(if(true, 10, -1000000), 10)");

    assert_eq!(spreadsheet.cell_value(adr(0, 0)), number(10.0));
}

#[test]
fn randbetween_with_area_sum_bound() {
    let mut spreadsheet = new_spreadsheet();
    spreadsheet.input_raw_formula(adr(0, 0), "randbetween(1, SUM(0,1:0,2))");
    spreadsheet.input_raw_formula(adr(0, 1), "4");
    spreadsheet.input_raw_formula(adr(0, 2), "-3");

    assert_eq!(spreadsheet.cell_value(adr(0, 0)), number(1.0));
}
