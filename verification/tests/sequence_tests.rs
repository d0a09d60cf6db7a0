#![allow(dead_code)]

use spreadsheet_engine::value_types::{NumberArithmetic, SingleCellValue};
use spreadsheet_engine::{CellAddress, Spreadsheet};

/// Numbers as `f64`, the way a spreadsheet computes them.
struct F64Numbers;

impl NumberArithmetic for F64Numbers {
    fn number_from_literal(&self, literal: &str) -> u64 {
        literal.parse::<f64>().unwrap().to_bits()
    }

    fn add(&self, a: u64, b: u64) -> u64 {
        (f64::from_bits(a) + f64::from_bits(b)).to_bits()
    }

    fn integer_value(&self, a: u64) -> Option<i64> {
        let n = f64::from_bits(a);
        if n.fract() == 0.0 {
            Some(n as i64)
        } else {
            None
        }
    }

    fn count_value(&self, a: u64) -> Option<usize> {
        let n = f64::from_bits(a);
        if n.fract() == 0.0 && n >= 1.0 {
            Some(n as usize)
        } else {
            None
        }
    }

    fn from_integer(&self, n: i64) -> u64 {
        (n as f64).to_bits()
    }

    fn from_count(&self, n: usize) -> u64 {
        (n as f64).to_bits()
    }
}

fn new_spreadsheet() -> Spreadsheet<F64Numbers> {
    Spreadsheet::new(F64Numbers)
}

fn adr(column: u32, row: u32) -> CellAddress {
    CellAddress::new(column, row)
}

fn number(x: f64) -> Option<Option<SingleCellValue>> {
    Some(Some(SingleCellValue::Number(x.to_bits())))
}

fn boolean(b: bool) -> Option<Option<SingleCellValue>> {
    Some(Some(SingleCellValue::Boolean(b)))
}

fn text(t: &str) -> Option<Option<SingleCellValue>> {
    Some(Some(SingleCellValue::Text(t.to_string())))
}

fn error(message: &str) -> Option<Option<SingleCellValue>> {
    Some(Some(SingleCellValue::Error(message.to_string())))
}

fn unevaluated() -> Option<Option<SingleCellValue>> {
    Some(None)
}

fn extract_positive_integer(spreadsheet: &Spreadsheet<F64Numbers>, address: CellAddress) -> u32 {
    match spreadsheet.cell_value(address) {
        Some(Some(SingleCellValue::Number(bits)))
            if f64::from_bits(bits) >= 1.0 && f64::from_bits(bits).fract() == 0.0 =>
        {
            f64::from_bits(bits) as u32
        }
        other => panic!("expected positive integer at {:?}, got {:?}", address, other),
    }
}

#[test]
fn sequence_single_cell() {
    let mut spreadsheet = new_spreadsheet();
    spreadsheet.input_raw_formula(adr(0, 0), "SEQUENCE(1,1)");

    assert_eq!(spreadsheet.cell_value(adr(0, 0)), number(1.0));
}

#[test]
fn sequence_single_row() {
    let mut spreadsheet = new_spreadsheet();
    spreadsheet.input_raw_formula(adr(0, 0), "SEQUENCE(1,3)");

    assert_eq!(spreadsheet.cell_value(adr(0, 0)), number(1.0));
    assert_eq!(spreadsheet.cell_value(adr(1, 0)), number(2.0));
    assert_eq!(spreadsheet.cell_value(adr(2, 0)), number(3.0));
    assert_eq!(spreadsheet.cell_value(adr(3, 0)), None);
}

#[test]
fn sequence_single_column() {
    let mut spreadsheet = new_spreadsheet();
    spreadsheet.input_raw_formula(adr(0, 0), "SEQUENCE(3,1)");

    assert_eq!(spreadsheet.cell_value(adr(0, 0)), number(1.0));
    assert_eq!(spreadsheet.cell_value(adr(0, 1)), number(2.0));
    assert_eq!(spreadsheet.cell_value(adr(0, 2)), number(3.0));
    assert_eq!(spreadsheet.cell_value(adr(0, 3)), None);
}

#[test]
fn sequence_2d() {
    let mut spreadsheet = new_spreadsheet();
    spreadsheet.input_raw_formula(adr(0, 0), "SEQUENCE(2,3)");

    assert_eq!(spreadsheet.cell_value(adr(0, 0)), number(1.0));
    assert_eq!(spreadsheet.cell_value(adr(1, 0)), number(2.0));
    assert_eq!(spreadsheet.cell_value(adr(2, 0)), number(3.0));
    assert_eq!(spreadsheet.cell_value(adr(0, 1)), number(4.0));
    assert_eq!(spreadsheet.cell_value(adr(1, 1)), number(5.0));
    assert_eq!(spreadsheet.cell_value(adr(2, 1)), number(6.0));
    assert_eq!(spreadsheet.cell_value(adr(3, 0)), None);
    assert_eq!(spreadsheet.cell_value(adr(0, 2)), None);
}

#[test]
fn sequence_non_integer_rows() {
    let mut spreadsheet = new_spreadsheet();
    spreadsheet.input_raw_formula(adr(0, 0), "SEQUENCE(1.5,1)");

    assert_eq!(spreadsheet.cell_value(adr(0, 0)), error("rows must be a positive integer"));
}

#[test]
fn sequence_non_positive_rows() {
    let mut spreadsheet = new_spreadsheet();
    spreadsheet.input_raw_formula(adr(0, 0), "SEQUENCE(0,1)");

    assert_eq!(spreadsheet.cell_value(adr(0, 0)), error("rows must be a positive integer"));
}

#[test]
fn sequence_non_integer_columns() {
    let mut spreadsheet = new_spreadsheet();
    spreadsheet.input_raw_formula(adr(0, 0), "SEQUENCE(1,2.5)");

    assert_eq!(spreadsheet.cell_value(adr(0, 0)), error("columns must be a positive integer"));
}

#[test]
fn sequence_spill_blocked() {
    let mut spreadsheet = new_spreadsheet();
    spreadsheet.input_raw_formula(adr(0, 1), "1");
    spreadsheet.input_raw_formula(adr(0, 0), "SEQUENCE(3,1)");

    assert_eq!(spreadsheet.cell_value(adr(0, 0)), error("The required cells are not free"));
}

#[test]
fn sequence_updates_with_volatile_arguments() {
    let mut spreadsheet = new_spreadsheet();
    spreadsheet.input_raw_formula(adr(10, 0), "RANDBETWEEN(1,3)");
    spreadsheet.input_raw_formula(adr(11, 0), "RANDBETWEEN(1,3)");
    spreadsheet.input_raw_formula(adr(0, 0), "SEQUENCE((10,0),(11,0))");

    let check_consistency = |spreadsheet: &Spreadsheet<F64Numbers>| {
        let rows = extract_positive_integer(spreadsheet, adr(10, 0));
        let cols = extract_positive_integer(spreadsheet, adr(11, 0));
        assert_eq!(spreadsheet.cell_value(adr(0, 0)), number(1.0));
        assert_eq!(spreadsheet.cell_value(adr(cols - 1, rows - 1)), number((rows * cols) as f64));
    };

    check_consistency(&spreadsheet);
    spreadsheet.input_raw_formula(adr(20, 0), "1");
    check_consistency(&spreadsheet);
}

#[test]
fn sequence_with_cell_reference_arguments() {
    let mut spreadsheet = new_spreadsheet();
    spreadsheet.input_raw_formula(adr(5, 0), "3");
    spreadsheet.input_raw_formula(adr(6, 0), "2");
    spreadsheet.input_raw_formula(adr(0, 0), "SEQUENCE((5,0),(6,0))");

    assert_eq!(spreadsheet.cell_value(adr(0, 0)), number(1.0));
    assert_eq!(spreadsheet.cell_value(adr(1, 0)), number(2.0));
    assert_eq!(spreadsheet.cell_value(adr(0, 1)), number(3.0));
    assert_eq!(spreadsheet.cell_value(adr(1, 1)), number(4.0));
    assert_eq!(spreadsheet.cell_value(adr(0, 2)), number(5.0));
    assert_eq!(spreadsheet.cell_value(adr(1, 2)), number(6.0));
}

#[test]
fn sequence_area_gets_freed_up() {
    let mut spreadsheet = new_spreadsheet();
    spreadsheet.input_raw_formula(adr(0, 0), "5");
    spreadsheet.input_raw_formula(adr(0, 1), "5");
    spreadsheet.input_raw_formula(adr(1, 0), "SEQUENCE((0,0),(0,1))");
    spreadsheet.input_raw_formula(adr(0, 3), "SEQUENCE(2,2)");
    assert_eq!(spreadsheet.cell_value(adr(0, 3)), error("The required cells are not free"));

    spreadsheet.input_raw_formula(adr(0, 0), "1");
    spreadsheet.input_raw_formula(adr(0, 1), "1");
    assert_eq!(spreadsheet.cell_value(adr(0, 3)), number(1.0));
    assert_eq!(spreadsheet.cell_value(adr(1, 3)), number(2.0));
    assert_eq!(spreadsheet.cell_value(adr(0, 4)), number(3.0));
    assert_eq!(spreadsheet.cell_value(adr(1, 4)), number(4.0));
}
#[test]
fn blocked_array_is_evaluated_again_when_an_input_changes() {
    let mut spreadsheet = new_spreadsheet();
    spreadsheet.input_raw_formula(adr(5, 0), "true");
    spreadsheet.input_raw_formula(adr(6, 0), "2");
    spreadsheet.input_raw_formula(adr(0, 1), "1");
    spreadsheet.input_raw_formula(adr(0, 0), "if((5,0), SEQUENCE((6,0),2), 0)");
    assert_eq!(
        spreadsheet.cell_value(adr(0, 0)),
        error("The required cells are not free")
    );

    // The count is among the blocked cell's child rectangles, so changing
    // it evaluates the cell again.
    spreadsheet.input_raw_formula(adr(6, 0), "false");
    assert_eq!(
        spreadsheet.cell_value(adr(0, 0)),
        error("rows must be a positive integer")
    );
}

#[test]
fn blank_text_deletes_spilled_cell() {
    let mut s = new_spreadsheet();
    s.input_raw_formula(adr(0, 0), "SEQUENCE(3,1)");
    s.input_raw_formula(adr(0, 1), "  ");
    assert_eq!(s.cell_value(adr(0, 1)), None);
    assert_eq!(s.cell_value(adr(0, 0)), number(1.0));
    assert_eq!(s.cell_value(adr(0, 2)), number(3.0));
}

#[test]
fn spill_beyond_the_right_edge() {
    let mut s = new_spreadsheet();
    s.input_raw_formula(adr(4294967295, 0), "SEQUENCE(1,2)");
    assert_eq!(
        s.cell_value(adr(4294967295, 0)),
        error("The required cells would extend beyond the edges of the spreadsheet")
    );
    assert_eq!(s.cell_value(adr(0, 0)), None);
    assert_eq!(s.cell_value(adr(4294967295, 1)), None);
}

#[test]
fn parent_of_blocked_anchor_gets_its_error() {
    let mut s = new_spreadsheet();
    s.input_raw_formula(adr(0, 1), "1");
    s.input_raw_formula(adr(1, 0), "(0,0)");
    s.input_raw_formula(adr(0, 0), "SEQUENCE(3,1)");
    assert_eq!(s.cell_value(adr(0, 0)), error("The required cells are not free"));
    assert_eq!(s.cell_value(adr(1, 0)), error("The required cells are not free"));
    assert_eq!(s.cell_value(adr(0, 1)), number(1.0));
    assert_eq!(s.cell_value(adr(0, 2)), None);
}

#[test]
fn blank_text_frees_a_blocked_area_which_spills_again() {
    let mut s = new_spreadsheet();
    s.input_raw_formula(adr(0, 1), "5");
    s.input_raw_formula(adr(0, 0), "SEQUENCE(2,1)");
    assert_eq!(s.cell_value(adr(0, 0)), error("The required cells are not free"));
    s.input_raw_formula(adr(0, 1), "");
    assert_eq!(s.cell_value(adr(0, 0)), number(1.0));
    assert_eq!(s.cell_value(adr(0, 1)), number(2.0));
}
