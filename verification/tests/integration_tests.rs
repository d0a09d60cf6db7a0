#![allow(dead_code)]

use spreadsheet_engine::value_types::{NumberArithmetic, SingleCellValue};
use spreadsheet_engine::{CellAddress, Spreadsheet};

/// Numbers as `f64`, the way a spreadsheet computes them.
struct F64Numbers;

impl NumberArithmetic for F64Numbers {
    fn number_from_literal(&self, literal: &str) -> u64 {
        literal.parse::<f64>().unwrap().to_bits()
    }

    fn add(&self, a: u64, b: u64) -> u64 {
        (f64::from_bits(a) + f64::from_bits(b)).to_bits()
    }

    fn integer_value(&self, a: u64) -> Option<i64> {
        let n = f64::from_bits(a);
        if n.fract() == 0.0 {
            Some(n as i64)
        } else {
            None
        }
    }

    fn count_value(&self, a: u64) -> Option<usize> {
        let n = f64::from_bits(a);
        if n.fract() == 0.0 && n >= 1.0 {
            Some(n as usize)
        } else {
            None
        }
    }

    fn from_integer(&self, n: i64) -> u64 {
        (n as f64).to_bits()
    }

    fn from_count(&self, n: usize) -> u64 {
        (n as f64).to_bits()
    }
}

fn new_spreadsheet() -> Spreadsheet<F64Numbers> {
    Spreadsheet::new(F64Numbers)
}

fn adr(column: u32, row: u32) -> CellAddress {
    CellAddress::new(column, row)
}

fn number(x: f64) -> Option<Option<SingleCellValue>> {
    Some(Some(SingleCellValue::Number(x.to_bits())))
}

fn boolean(b: bool) -> Option<Option<SingleCellValue>> {
    Some(Some(SingleCellValue::Boolean(b)))
}

fn text(t: &str) -> Option<Option<SingleCellValue>> {
    Some(Some(SingleCellValue::Text(t.to_string())))
}

fn error(message: &str) -> Option<Option<SingleCellValue>> {
    Some(Some(SingleCellValue::Error(message.to_string())))
}

fn unevaluated() -> Option<Option<SingleCellValue>> {
    Some(None)
}

#[test]
fn integration_tests_single_cell_number_literal() {
    let mut spreadsheet = new_spreadsheet();
    spreadsheet.input_raw_formula(adr(0, 0), "1");

    assert_eq!(spreadsheet.cell_value(adr(0, 0)), number(1.0));
}

#[test]
fn single_self_referencing_cell() {
    let mut spreadsheet = new_spreadsheet();
    spreadsheet.input_raw_formula(adr(0, 0), "(0,0)");

    assert_eq!(spreadsheet.cell_value(adr(0, 0)), unevaluated());
}

#[test]
fn single_cell_with_invalid_formula() {
    let mut spreadsheet = new_spreadsheet();
    spreadsheet.input_raw_formula(adr(0, 0), "invalid formula");

    assert_eq!(spreadsheet.cell_value(adr(0, 0)), error("invalid formula"));
}

#[test]
fn integration_tests_one_cell_referencing_another() {
    let mut spreadsheet = new_spreadsheet();
    spreadsheet.input_raw_formula(adr(0, 0), "(0,1)");

    assert_eq!(spreadsheet.cell_value(adr(0, 0)), number(0.0));
    
    spreadsheet.input_raw_formula(adr(0, 1), "1");

    assert_eq!(spreadsheet.cell_value(adr(0, 0)), number(1.0));
    assert_eq!(spreadsheet.cell_value(adr(0, 1)), number(1.0));
}

#[test]
fn two_cells_referencing_each_other() {
    let mut spreadsheet = new_spreadsheet();
    spreadsheet.input_raw_formula(adr(0, 0), "(0,1)");

    assert_eq!(spreadsheet.cell_value(adr(0, 0)), number(0.0));

    spreadsheet.input_raw_formula(adr(0, 1), "(0,0)");

    assert_eq!(spreadsheet.cell_value(adr(0, 0)), unevaluated());
    assert_eq!(spreadsheet.cell_value(adr(0, 1)), unevaluated());
}

#[test]
fn one_cell_referencing_self_referencing_cell() {
    let mut spreadsheet = new_spreadsheet();
    spreadsheet.input_raw_formula(adr(0, 0), "(0,0)");
    spreadsheet.input_raw_formula(adr(0, 1), "(0,0)");

    assert_eq!(spreadsheet.cell_value(adr(0, 0)), unevaluated());
    assert_eq!(spreadsheet.cell_value(adr(0, 1)), unevaluated());
}

#[test]
fn chain_of_three_cells() {
    let mut spreadsheet = new_spreadsheet();
    spreadsheet.input_raw_formula(adr(0, 0), "(0,1)");
    spreadsheet.input_raw_formula(adr(0, 1), "(0,2)");
    spreadsheet.input_raw_formula(adr(0, 2), "1.1");

    assert_eq!(spreadsheet.cell_value(adr(0, 0)), number(1.1));
    assert_eq!(spreadsheet.cell_value(adr(0, 1)), number(1.1));
    assert_eq!(spreadsheet.cell_value(adr(0, 2)), number(1.1));
}

#[test]
fn modification() {
    let mut spreadsheet = new_spreadsheet();
    spreadsheet.input_raw_formula(adr(0, 0), "(0,1)");
    spreadsheet.input_raw_formula(adr(0, 1), "(0,2)");
    spreadsheet.input_raw_formula(adr(0, 2), "1.1");
    spreadsheet.input_raw_formula(adr(1, 2), "2.2");
    spreadsheet.input_raw_formula(adr(0, 1), "(1,2)");

    assert_eq!(spreadsheet.cell_value(adr(0, 0)), number(2.2));
    assert_eq!(spreadsheet.cell_value(adr(0, 1)), number(2.2));
    assert_eq!(spreadsheet.cell_value(adr(0, 2)), number(1.1));
    assert_eq!(spreadsheet.cell_value(adr(1, 2)), number(2.2));
}

#[test]
fn deletion() {
    let mut spreadsheet = new_spreadsheet();
    spreadsheet.input_raw_formula(adr(0, 0), "(0,1)");
    spreadsheet.input_raw_formula(adr(0, 1), "(0,2)");
    spreadsheet.input_raw_formula(adr(0, 2), "1.1");
    spreadsheet.input_raw_formula(adr(0, 1), "");

    assert_eq!(spreadsheet.cell_value(adr(0, 0)), number(0.0));
    assert_eq!(spreadsheet.cell_value(adr(0, 1)), None);
    assert_eq!(spreadsheet.cell_value(adr(0, 2)), number(1.1));
}

#[test]
fn keep_absent() {
    let mut spreadsheet = new_spreadsheet();
    spreadsheet.input_raw_formula(adr(0, 0), "(0,1)");
    spreadsheet.input_raw_formula(adr(0, 1), "");

    assert_eq!(spreadsheet.cell_value(adr(0, 0)), number(0.0));
    assert_eq!(spreadsheet.cell_value(adr(0, 1)), None);
}
#[test]
fn formula_reading_no_cell_gets_its_value() {
    let mut spreadsheet = new_spreadsheet();
    spreadsheet.input_raw_formula(adr(0, 0), "SEQUENCE(2,2)");
    spreadsheet.input_raw_formula(adr(3, 0), "SUM(0,0:1,1)");
    assert_eq!(spreadsheet.cell_value(adr(1, 1)), number(4.0));
    assert_eq!(spreadsheet.cell_value(adr(3, 0)), number(10.0));

    spreadsheet.input_raw_formula(adr(1, 1), "if(false, 1, true)");
    assert_eq!(spreadsheet.cell_value(adr(1, 1)), boolean(true));
    assert_eq!(
        spreadsheet.cell_value(adr(0, 0)),
        error("The required cells are not free")
    );

    spreadsheet.input_raw_formula(adr(3, 0), "if(true, 7, 8)");
    assert_eq!(spreadsheet.cell_value(adr(3, 0)), number(7.0));
}

#[test]
fn values_follow_formulas_after_edits() {
    let mut spreadsheet = new_spreadsheet();
    spreadsheet.input_raw_formula(adr(0, 0), "SUM(1,0:2,0)");
    spreadsheet.input_raw_formula(adr(1, 0), "1");
    spreadsheet.input_raw_formula(adr(2, 0), "(1,0)");
    assert_eq!(spreadsheet.cell_value(adr(0, 0)), number(2.0));

    spreadsheet.input_raw_formula(adr(1, 0), "5");
    assert_eq!(spreadsheet.cell_value(adr(2, 0)), number(5.0));
    assert_eq!(spreadsheet.cell_value(adr(0, 0)), number(10.0));

    spreadsheet.input_raw_formula(adr(2, 0), "");
    assert_eq!(spreadsheet.cell_value(adr(0, 0)), number(5.0));

    spreadsheet.input_raw_formula(adr(1, 0), "true");
    assert_eq!(
        spreadsheet.cell_value(adr(0, 0)),
        error("Summing over area with boolean")
    );
}

#[test]
fn breaking_a_cycle_gives_values_back() {
    let mut spreadsheet = new_spreadsheet();
    spreadsheet.input_raw_formula(adr(0, 0), "(0,1)");
    spreadsheet.input_raw_formula(adr(0, 1), "(0,2)");
    spreadsheet.input_raw_formula(adr(0, 2), "(0,0)");
    spreadsheet.input_raw_formula(adr(1, 0), "(0,0)");

    assert_eq!(spreadsheet.cell_value(adr(0, 0)), unevaluated());
    assert_eq!(spreadsheet.cell_value(adr(0, 1)), unevaluated());
    assert_eq!(spreadsheet.cell_value(adr(0, 2)), unevaluated());
    assert_eq!(spreadsheet.cell_value(adr(1, 0)), unevaluated());

    spreadsheet.input_raw_formula(adr(0, 2), "2");

    assert_eq!(spreadsheet.cell_value(adr(0, 0)), number(2.0));
    assert_eq!(spreadsheet.cell_value(adr(0, 1)), number(2.0));
    assert_eq!(spreadsheet.cell_value(adr(0, 2)), number(2.0));
    assert_eq!(spreadsheet.cell_value(adr(1, 0)), number(2.0));
}
