#![allow(dead_code)]

use spreadsheet_engine::value_types::{NumberArithmetic, SingleCellValue};
use spreadsheet_engine::{CellAddress, Spreadsheet};

/// Numbers as `f64`, the way a spreadsheet computes them.
struct F64Numbers;

impl NumberArithmetic for F64Numbers {
    fn number_from_literal(&self, literal: &str) -> u64 {
        literal.parse::<f64>().unwrap().to_bits()
    }

    fn add(&self, a: u64, b: u64) -> u64 {
        (f64::from_bits(a) + f64::from_bits(b)).to_bits()
    }

    fn integer_value(&self, a: u64) -> Option<i64> {
        let n = f64::from_bits(a);
        if n.fract() == 0.0 {
            Some(n as i64)
        } else {
            None
        }
    }

    fn count_value(&self, a: u64) -> Option<usize> {
        let n = f64::from_bits(a);
        if n.fract() == 0.0 && n >= 1.0 {
            Some(n as usize)
        } else {
            None
        }
    }

    fn from_integer(&self, n: i64) -> u64 {
        (n as f64).to_bits()
    }

    fn from_count(&self, n: usize) -> u64 {
        (n as f64).to_bits()
    }
}

fn new_spreadsheet() -> Spreadsheet<F64Numbers> {
    Spreadsheet::new(F64Numbers)
}

fn adr(column: u32, row: u32) -> CellAddress {
    CellAddress::new(column, row)
}

fn number(x: f64) -> Option<Option<SingleCellValue>> {
    Some(Some(SingleCellValue::Number(x.to_bits())))
}

fn boolean(b: bool) -> Option<Option<SingleCellValue>> {
    Some(Some(SingleCellValue::Boolean(b)))
}

fn text(t: &str) -> Option<Option<SingleCellValue>> {
    Some(Some(SingleCellValue::Text(t.to_string())))
}

fn error(message: &str) -> Option<Option<SingleCellValue>> {
    Some(Some(SingleCellValue::Error(message.to_string())))
}

fn unevaluated() -> Option<Option<SingleCellValue>> {
    Some(None)
}

// INDIRECT resolves in two Request stages (evaluate sub-formula → fetch resolved cell).
// Using it as IF's condition means both IF's lazy-eval Request cycle and INDIRECT's
// two-stage Request cycle must interleave correctly.
#[test]
fn if_condition_is_indirect() {
    let mut spreadsheet = new_spreadsheet();

    spreadsheet.input_raw_formula(adr(0, 0), r#"if(indirect("1,0"), 10, 20)"#);
    spreadsheet.input_raw_formula(adr(1, 0), "true");
    assert_eq!(spreadsheet.cell_value(adr(0, 0)), number(10.0));

    spreadsheet.input_raw_formula(adr(1, 0), "false");
    assert_eq!(spreadsheet.cell_value(adr(0, 0)), number(20.0));
}

// IF is a sub-formula of INDIRECT. IF resolves first (selecting the address string),
// then INDIRECT makes its Request for the resolved cell.
#[test]
fn indirect_address_from_if() {
    let mut spreadsheet = new_spreadsheet();

    spreadsheet.input_raw_formula(adr(0, 0), r#"indirect(if(true, "1,0", "1,1"))"#);
    spreadsheet.input_raw_formula(adr(1, 0), "42");
    spreadsheet.input_raw_formula(adr(1, 1), "99");
    assert_eq!(spreadsheet.cell_value(adr(0, 0)), number(42.0));

    spreadsheet.input_raw_formula(adr(0, 0), r#"indirect(if(false, "1,0", "1,1"))"#);
    assert_eq!(spreadsheet.cell_value(adr(0, 0)), number(99.0));
}

// IF's lazy evaluation must gate not just simple cell references but also complex
// sub-formulas like INDIRECT. The else-branch INDIRECT must not run (and must not
// attempt to fetch the self-referencing cell that would block evaluation).
#[test]
fn if_lazy_eval_with_indirect_branches() {
    let mut spreadsheet = new_spreadsheet();

    spreadsheet.input_raw_formula(adr(0, 0), r#"if((0,1), indirect("1,0"), indirect("2,0"))"#);
    spreadsheet.input_raw_formula(adr(0, 1), "true");
    spreadsheet.input_raw_formula(adr(1, 0), "42");
    spreadsheet.input_raw_formula(adr(2, 0), "(2,0)");
    assert_eq!(spreadsheet.cell_value(adr(0, 0)), number(42.0));
    assert_eq!(spreadsheet.cell_value(adr(2, 0)), unevaluated());
}
