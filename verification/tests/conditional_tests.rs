#![allow(dead_code)]

use spreadsheet_engine::value_types::{NumberArithmetic, SingleCellValue};
use spreadsheet_engine::{CellAddress, Spreadsheet};

/// Numbers as `f64`, the way a spreadsheet computes them.
struct F64Numbers;

impl NumberArithmetic for F64Numbers {
    fn number_from_literal(&self, literal: &str) -> u64 {
        literal.parse::<f64>().unwrap().to_bits()
    }

    fn add(&self, a: u64, b: u64) -> u64 {
        (f64::from_bits(a) + f64::from_bits(b)).to_bits()
    }

    fn integer_value(&self, a: u64) -> Option<i64> {
        let n = f64::from_bits(a);
        if n.fract() == 0.0 {
            Some(n as i64)
        } else {
            None
        }
    }

    fn count_value(&self, a: u64) -> Option<usize> {
        let n = f64::from_bits(a);
        if n.fract() == 0.0 && n >= 1.0 {
            Some(n as usize)
        } else {
            None
        }
    }

    fn from_integer(&self, n: i64) -> u64 {
        (n as f64).to_bits()
    }

    fn from_count(&self, n: usize) -> u64 {
        (n as f64).to_bits()
    }
}

fn new_spreadsheet() -> Spreadsheet<F64Numbers> {
    Spreadsheet::new(F64Numbers)
}

fn adr(column: u32, row: u32) -> CellAddress {
    CellAddress::new(column, row)
}

fn number(x: f64) -> Option<Option<SingleCellValue>> {
    Some(Some(SingleCellValue::Number(x.to_bits())))
}

fn boolean(b: bool) -> Option<Option<SingleCellValue>> {
    Some(Some(SingleCellValue::Boolean(b)))
}

fn text(t: &str) -> Option<Option<SingleCellValue>> {
    Some(Some(SingleCellValue::Text(t.to_string())))
}

fn error(message: &str) -> Option<Option<SingleCellValue>> {
    Some(Some(SingleCellValue::Error(message.to_string())))
}

fn unevaluated() -> Option<Option<SingleCellValue>> {
    Some(None)
}

#[test]
fn single_cell_conditional() {
    let test_cases = [
        ("if(true, 1, 2)", number(1.0)),
        ("if(false, 1, 2)", number(2.0)),
        ("if(false, 1, true)", boolean(true)),
        ("if(   false  , 1,    invalid-formula  )", error("invalid-formula")),
        ("if(   false  , 1 )", error("if(   false  , 1 )")),
        ("if(   false  , 1,    invalid-formula  ))", error("invalid-formula)")),
    ];

    for (raw_formula, expected_value) in test_cases {
        let mut spreadsheet = new_spreadsheet();
        spreadsheet.input_raw_formula(adr(0, 0), raw_formula);

        assert_eq!(spreadsheet.cell_value(adr(0, 0)), expected_value);
    }
}

#[test]
fn conditional_with_references() {
    let mut spreadsheet = new_spreadsheet();

    spreadsheet.input_raw_formula(adr(0, 0), "if((0,1), (0,2), (0,3))");
    assert_eq!(spreadsheet.cell_value(adr(0, 0)), error("Condition is not boolean"));

    spreadsheet.input_raw_formula(adr(0, 1), "true");
    assert_eq!(spreadsheet.cell_value(adr(0, 0)), number(0.0));

    spreadsheet.input_raw_formula(adr(0, 2), "1");
    assert_eq!(spreadsheet.cell_value(adr(0, 0)), number(1.0));

    spreadsheet.input_raw_formula(adr(0, 3), "2");
    assert_eq!(spreadsheet.cell_value(adr(0, 0)), number(1.0));

    spreadsheet.input_raw_formula(adr(0, 1), "false");
    assert_eq!(spreadsheet.cell_value(adr(0, 0)), number(2.0));
}

#[test]
fn conditional_with_area_sum() {
    let mut spreadsheet = new_spreadsheet();

    spreadsheet.input_raw_formula(adr(0, 0), "if((0,1), (0,2), SUM(1,0:1,1))");
    spreadsheet.input_raw_formula(adr(0, 1), "false");
    spreadsheet.input_raw_formula(adr(1, 0), "2");
    spreadsheet.input_raw_formula(adr(1, 1), "3");
    assert_eq!(spreadsheet.cell_value(adr(0, 0)), number(5.0));
}

#[test]
fn iterated_conditional() {
    let mut spreadsheet = new_spreadsheet();
    spreadsheet.input_raw_formula(adr(0, 0),
        "if( if(true, false, 2), 3, if(false, 4, 5) )");
    assert_eq!(spreadsheet.cell_value(adr(0, 0)), number(5.0));
}

#[test]
fn conditional_lazy_eval_true() {
    let mut spreadsheet = new_spreadsheet();

    spreadsheet.input_raw_formula(adr(0, 0), "if(true, (0,1), (0,2))");
    spreadsheet.input_raw_formula(adr(0, 1), "2");
    spreadsheet.input_raw_formula(adr(0, 2), "(0,2)");
    assert_eq!(spreadsheet.cell_value(adr(0, 0)), number(2.0));
    assert_eq!(spreadsheet.cell_value(adr(0, 2)), unevaluated());
}

#[test]
fn conditional_lazy_eval_false() {
    let mut spreadsheet = new_spreadsheet();

    spreadsheet.input_raw_formula(adr(0, 0), "if(false, (0,1), (0,2))");
    spreadsheet.input_raw_formula(adr(0, 1), "(0,1)");
    spreadsheet.input_raw_formula(adr(0, 2), "2");
    assert_eq!(spreadsheet.cell_value(adr(0, 0)), number(2.0));
    assert_eq!(spreadsheet.cell_value(adr(0, 1)), unevaluated());
}

#[test]
fn conditional_complex() {
    let mut spreadsheet = new_spreadsheet();

    spreadsheet.input_raw_formula(adr(0, 0), "if( if(true, false, 2), 3, if((0,1), 4, SUM(1,0:1,1)) )");
    spreadsheet.input_raw_formula(adr(0, 1), "false");
    spreadsheet.input_raw_formula(adr(1, 0), "2");
    spreadsheet.input_raw_formula(adr(1, 1), "3");
    assert_eq!(spreadsheet.cell_value(adr(0, 0)), number(5.0));

    spreadsheet.input_raw_formula(adr(1, 1), "6");
    assert_eq!(spreadsheet.cell_value(adr(0, 0)), number(8.0));
}

#[test]
fn conditional_resetting_children() {
    let mut spreadsheet = new_spreadsheet();

    spreadsheet.input_raw_formula(adr(0, 0), "if((1,0), (1,1), (1,2))");
    spreadsheet.input_raw_formula(adr(1, 0), "true");
    spreadsheet.input_raw_formula(adr(1, 1), "(1,1)");
    spreadsheet.input_raw_formula(adr(1, 2), "3");
    assert_eq!(spreadsheet.cell_value(adr(0, 0)), unevaluated());

    spreadsheet.input_raw_formula(adr(1, 0), "false");
    assert_eq!(spreadsheet.cell_value(adr(0, 0)), number(3.0));
}
