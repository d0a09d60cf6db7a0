use vstd::prelude::*;
use crate::address::{CellAddress, CellRectangle};

verus! {

/// The value of one cell.
///
/// A number is held as the 64 bits of its IEEE 754 double-precision
/// encoding (what `f64::to_bits` gives); arithmetic on numbers is supplied by
/// a [`NumberArithmetic`], so that this library never computes with floating
/// point itself.
#[derive(Debug, Clone, PartialEq)]
pub enum SingleCellValue {
    Number(u64),
    Boolean(bool),
    Text(String),
    Error(String),
}

/// The mathematical form of a [`SingleCellValue`].
pub enum ValueView {
    Number(u64),
    Boolean(bool),
    Text(Seq<char>),
    Error(Seq<char>),
}

impl View for SingleCellValue {
    type V = ValueView;

    open spec fn view(&self) -> ValueView {
        match self {
            SingleCellValue::Number(n) => ValueView::Number(*n),
            SingleCellValue::Boolean(b) => ValueView::Boolean(*b),
            SingleCellValue::Text(t) => ValueView::Text(t@),
            SingleCellValue::Error(e) => ValueView::Error(e@),
        }
    }
}

/// Copies a value.
pub fn copy_value(value: &SingleCellValue) -> (result: SingleCellValue)
    ensures
        result@ == value@,
{
    match value {
        SingleCellValue::Number(n) => SingleCellValue::Number(*n),
        SingleCellValue::Boolean(b) => SingleCellValue::Boolean(*b),
        SingleCellValue::Text(t) => SingleCellValue::Text(t.clone()),
        SingleCellValue::Error(e) => SingleCellValue::Error(e.clone()),
    }
}

/// The value of a cell as the spreadsheet reports it: `None` while the cell
/// has not been evaluated (for instance because it lies on a cycle).
pub type Value = Option<SingleCellValue>;

/// The number arithmetic that formulas need, on numbers held as IEEE 754
/// double-precision bit patterns. The library assumes nothing of their
/// results; its contracts say from which results of these calls each number
/// it computes comes.
pub trait NumberArithmetic {
    /// The number that a literal denotes; the literal is text that
    /// `f64::from_str` accepts.
    fn number_from_literal(&self, literal: &str) -> u64;

    /// The sum of two numbers.
    fn add(&self, a: u64, b: u64) -> u64;

    /// The number as a 64-bit integer when it has no fractional part.
    fn integer_value(&self, a: u64) -> Option<i64>;

    /// The number as a count when it has no fractional part and is at
    /// least one.
    fn count_value(&self, a: u64) -> Option<usize>;

    /// The number closest to an integer.
    fn from_integer(&self, n: i64) -> u64;

    /// The number closest to a count.
    fn from_count(&self, n: usize) -> u64;
}

/// The bit pattern of the number zero.
pub const ZERO: u64 = 0;

/// A two-dimensional array of values, the result of a dynamic-array formula,
/// held in an `ndarray::Array2`.
#[verifier::external_body]
pub struct ArrayValue {
    values: ndarray::Array2<SingleCellValue>,
}

/// The elements of an array, row after row.
pub uninterp spec fn array_elements(array: ArrayValue) -> Seq<SingleCellValue>;

/// The number of rows and of columns that an array was made with.
pub uninterp spec fn array_shape(array: ArrayValue) -> (usize, usize);

/// Makes an array of `rows` rows and `columns` columns from its elements,
/// row after row.
///
/// Calls `ndarray::Array2::from_shape_vec`, which takes the elements in this
/// (row-major) order. It fails when the number of elements differs from
/// `rows * columns`, or when the product of the nonzero dimensions exceeds
/// `isize::MAX` (so a zero dimension beside a huge one fails too). `requires`
/// excludes both: the count must match and both dimensions must be at least
/// one, so the product is the length of a vector, which never exceeds
/// `isize::MAX`.
#[verifier::external_body]
pub(crate) fn array_from_elements(rows: usize, columns: usize, elements: Vec<SingleCellValue>) -> (array:
    ArrayValue)
    requires
        rows >= 1,
        columns >= 1,
        elements@.len() == rows * columns,
    ensures
        array_shape(array) == (rows, columns),
        array_elements(array) == elements@,
{
    ArrayValue { values: ndarray::Array2::from_shape_vec((rows, columns), elements).unwrap() }
}

/// The number of rows and of columns of an array (`ndarray::ArrayBase::dim`).
#[verifier::external_body]
pub(crate) fn array_dimensions(array: &ArrayValue) -> (shape: (usize, usize))
    ensures
        shape == array_shape(*array),
{
    array.values.dim()
}

/// Copies of the elements of an array, row after row
/// (`ndarray::ArrayBase::iter`, which visits elements in logical order, the
/// last index varying fastest).
#[verifier::external_body]
pub(crate) fn array_element_list(array: &ArrayValue) -> (elements: Vec<SingleCellValue>)
    ensures
        elements@ == array_elements(*array),
        elements@.len() == array_shape(*array).0 * array_shape(*array).1,
{
    array.values.iter().cloned().collect()
}

/// The rectangle that an array of `rows` rows and `columns` columns fills
/// when its first element stands at `anchor`, unless the array is empty or
/// would reach beyond the last column or row.
pub open spec fn spill_rectangle_of(anchor: CellAddress, rows: int, columns: int) -> Option<
    CellRectangle,
> {
    if rows >= 1 && columns >= 1 && anchor.column + columns - 1 <= u32::MAX && anchor.row + rows
        - 1 <= u32::MAX {
        Some(
            CellRectangle {
                upper_left: anchor,
                lower_right: CellAddress {
                    column: (anchor.column + columns - 1) as u32,
                    row: (anchor.row + rows - 1) as u32,
                },
            },
        )
    } else {
        None
    }
}

impl ArrayValue {
    /// The rectangle that the array fills when its first element stands at
    /// `anchor` (see [`spill_rectangle_of`]).
    pub fn spill_rectangle(&self, anchor: CellAddress) -> (rectangle: Option<CellRectangle>)
        ensures
            rectangle == spill_rectangle_of(anchor, array_shape(*self).0 as int, array_shape(
                *self,
            ).1 as int),
            rectangle matches Some(r) ==> r.well_formed(),
    {
        let (rows, columns) = array_dimensions(self);
        if rows == 0 || columns == 0 {
            return None;
        }
        let extra_columns: u64 = (columns - 1) as u64;
        let extra_rows: u64 = (rows - 1) as u64;
        if extra_columns > (u32::MAX - anchor.column) as u64 || extra_rows > (u32::MAX
            - anchor.row) as u64 {
            return None;
        }
        Some(
            CellRectangle {
                upper_left: anchor,
                lower_right: CellAddress {
                    column: anchor.column + extra_columns as u32,
                    row: anchor.row + extra_rows as u32,
                },
            },
        )
    }
}

/// The result of evaluating a formula: one value, or an array of values that
/// spills over neighbouring cells.
pub enum EvaluatedValue {
    SingleCellValue(SingleCellValue),
    ArrayValue(ArrayValue),
}

/// The mathematical form of an [`EvaluatedValue`]: one value, or the elements
/// of an array row after row, with its numbers of rows and of columns.
pub enum EvaluatedView {
    Single(ValueView),
    Array(Seq<ValueView>, usize, usize),
}

impl View for EvaluatedValue {
    type V = EvaluatedView;

    open spec fn view(&self) -> EvaluatedView {
        match self {
            EvaluatedValue::SingleCellValue(v) => EvaluatedView::Single(v@),
            EvaluatedValue::ArrayValue(a) => EvaluatedView::Array(
                array_elements(*a).map_values(|v: SingleCellValue| v@),
                array_shape(*a).0,
                array_shape(*a).1,
            ),
        }
    }
}

/// A completed evaluation: the value, and the rectangles whose cells it was
/// computed from (each once).
pub struct CompletedEvaluationResult(pub EvaluatedValue, pub Vec<CellRectangle>);

} // verus!
