use vstd::prelude::*;
use crate::address::{CellAddress, CellRectangle};
use crate::cell::{Cell, lemma_set_insert, rectangles_insert};
use crate::cell_map::{CellMap, address_before};
use crate::formula::{Formula, FormulaView, rectangles_well_formed};
use crate::text::{chars_of, parse_cell_address, spec_parse_cell_address};
use crate::value_types::{
    ArrayValue, CompletedEvaluationResult, EvaluatedValue, EvaluatedView, NumberArithmetic,
    SingleCellValue, ValueView, ZERO, array_elements, array_from_elements, copy_value,
};

verus! {

// ---------------------------------------------------------------------------
// Messages of the error values that evaluation produces.

pub open spec fn message_sum_boolean() -> Seq<char> {
    "Summing over area with boolean"@
}

pub open spec fn message_sum_text() -> Seq<char> {
    "Summing over area with text"@
}

pub open spec fn message_sum_error() -> Seq<char> {
    "Summing over area with error"@
}

pub open spec fn message_condition() -> Seq<char> {
    "Condition is not boolean"@
}

pub open spec fn message_indirect_address() -> Seq<char> {
    "Indirect reference is not a valid cell address"@
}

pub open spec fn message_indirect_text() -> Seq<char> {
    "Indirect reference is not text"@
}

pub open spec fn message_lower_bound() -> Seq<char> {
    "The lower bound is not an integer"@
}

pub open spec fn message_upper_bound() -> Seq<char> {
    "The upper bound is not an integer"@
}

pub open spec fn message_bounds_order() -> Seq<char> {
    "The lower bound is greater than the upper bound"@
}

pub open spec fn message_rows() -> Seq<char> {
    "rows must be a positive integer"@
}

pub open spec fn message_columns() -> Seq<char> {
    "columns must be a positive integer"@
}

pub open spec fn message_edges() -> Seq<char> {
    "The required cells would extend beyond the edges of the spreadsheet"@
}

pub open spec fn message_not_free() -> Seq<char> {
    "The required cells are not free"@
}

/// The error value with message `m`.
pub open spec fn error_value(m: Seq<char>) -> Option<EvaluatedView> {
    Some(EvaluatedView::Single(ValueView::Error(m)))
}

// ---------------------------------------------------------------------------
// What evaluation reads from the cells.

/// The rectangle made of the one cell at `a`.
pub open spec fn single_cell(a: CellAddress) -> CellRectangle {
    CellRectangle { upper_left: a, lower_right: a }
}

/// Whether every cell that exists inside `r` has a value.
pub open spec fn rectangle_ready(cells: Map<CellAddress, Cell>, r: CellRectangle) -> bool {
    forall|a: CellAddress| #[trigger]
        cells.contains_key(a) && r.spec_contains(a) ==> cells[a].value is Some
}

/// Whether every rectangle of `rs` is ready.
pub open spec fn rectangles_ready(cells: Map<CellAddress, Cell>, rs: Set<CellRectangle>) -> bool {
    forall|r: CellRectangle| #[trigger] rs.contains(r) ==> rectangle_ready(cells, r)
}

/// The rectangles that a formula reads whatever its sub-formulas evaluate to:
/// those of its cell references and sums, except inside the branches of a
/// conditional and except the cell that an indirect reference resolves to.
pub open spec fn initial_rectangles(f: FormulaView) -> Set<CellRectangle>
    decreases f,
{
    match f {
        FormulaView::CellReference(a) => set![single_cell(a)],
        FormulaView::AreaSum(r) => set![r],
        FormulaView::Conditional(c, _, _) => initial_rectangles(*c),
        FormulaView::Indirect(r) => initial_rectangles(*r),
        FormulaView::RandBetween(l, u) => initial_rectangles(*l) + initial_rectangles(*u),
        FormulaView::Sequence(r, c) => initial_rectangles(*r) + initial_rectangles(*c),
        _ => Set::empty(),
    }
}

/// The value that a reference to the cell at `a` gives: the cell's value, or
/// the number zero when no cell exists there.
pub open spec fn referenced_value(cells: Map<CellAddress, Cell>, a: CellAddress) -> ValueView {
    if cells.contains_key(a) {
        match cells[a].value {
            Some(v) => v@,
            None => ValueView::Number(ZERO),
        }
    } else {
        ValueView::Number(ZERO)
    }
}

/// Whether the cell at `a` holds a number.
pub open spec fn holds_number(cells: Map<CellAddress, Cell>, a: CellAddress) -> bool {
    cells[a].value matches Some(v) && v@ is Number
}

/// Whether `a` is, in the order column by column and row by row, the first
/// cell inside `r` that does not hold a number.
pub open spec fn is_first_non_number(
    cells: Map<CellAddress, Cell>,
    r: CellRectangle,
    a: CellAddress,
) -> bool {
    &&& cells.contains_key(a)
    &&& r.spec_contains(a)
    &&& !holds_number(cells, a)
    &&& forall|b: CellAddress| #[trigger]
        cells.contains_key(b) && r.spec_contains(b) && address_before(b, a) ==> holds_number(
            cells,
            b,
        )
}

/// The message of the error that summing over a cell with value `v` gives.
pub open spec fn sum_error_message(v: Option<SingleCellValue>) -> Seq<char> {
    match v {
        Some(SingleCellValue::Boolean(_)) => message_sum_boolean(),
        Some(SingleCellValue::Text(_)) => message_sum_text(),
        Some(SingleCellValue::Error(_)) => message_sum_error(),
        _ => Seq::empty(),
    }
}

/// What a sum over `r` may give: the error for the first cell that does not
/// hold a number, or else a number (the sum, in the order of the cells, which
/// the number arithmetic computes); zero over an area without cells.
pub open spec fn sum_outcome(
    cells: Map<CellAddress, Cell>,
    r: CellRectangle,
    outcome: Option<EvaluatedView>,
) -> bool {
    if exists|a: CellAddress| #[trigger] is_first_non_number(cells, r, a) {
        let a = choose|a: CellAddress| #[trigger] is_first_non_number(cells, r, a);
        outcome == error_value(sum_error_message(cells[a].value))
    } else if forall|a: CellAddress| #[trigger] cells.contains_key(a) ==> !r.spec_contains(a) {
        outcome == Some(EvaluatedView::Single(ValueView::Number(ZERO)))
    } else {
        outcome matches Some(EvaluatedView::Single(ValueView::Number(_)))
    }
}

/// Whether `addresses` lists exactly the cells of `cells` inside `r`, in the
/// order column by column and row by row.
pub open spec fn lists_area(cells: Map<CellAddress, Cell>, r: CellRectangle, addresses: Seq<CellAddress>) -> bool {
    &&& forall|a: CellAddress| #[trigger]
        addresses.contains(a) <==> (cells.contains_key(a) && r.spec_contains(a))
    &&& forall|i: int, j: int|
        0 <= i < j < addresses.len() ==> address_before(addresses[i], addresses[j])
}

/// The number that the cell at `a` holds; zero when it holds none.
pub open spec fn number_in(cells: Map<CellAddress, Cell>, a: CellAddress) -> u64 {
    match cells[a].value {
        Some(SingleCellValue::Number(n)) => n,
        _ => ZERO,
    }
}

/// Whether `partial` holds the running sums of the numbers in the cells at
/// `addresses`: it starts at zero, and each next entry is what the
/// arithmetic's addition gives for the entry before and the next number.
pub open spec fn running_sums<A: NumberArithmetic>(
    arith: &A,
    cells: Map<CellAddress, Cell>,
    addresses: Seq<CellAddress>,
    partial: Seq<u64>,
) -> bool {
    &&& partial.len() == addresses.len() + 1
    &&& partial[0] == ZERO
    &&& forall|i: int|
        #![trigger addresses[i]]
        0 <= i < addresses.len() ==> call_ensures(
            A::add,
            (arith, partial[i], number_in(cells, addresses[i])),
            partial[i + 1],
        )
}

/// Whether `value` is the array of `rows` rows and `columns` columns whose
/// element at position `k`, row after row, is the number that the
/// arithmetic gives for the count `k + 1`; or, when the array would have more
/// elements than a `usize` counts, the error for an area beyond the edges.
pub open spec fn counted_array<A: NumberArithmetic>(
    arith: &A,
    rows: usize,
    columns: usize,
    value: EvaluatedView,
) -> bool {
    if rows * columns <= usize::MAX {
        &&& value matches EvaluatedView::Array(elements, r, c)
        &&& r == rows
        &&& c == columns
        &&& elements.len() == rows * columns
        &&& forall|k: int| 0 <= k < elements.len() ==> (#[trigger] elements[k] matches ValueView::Number(x)
            && call_ensures(A::from_count, (arith, (k + 1) as usize), x))
    } else {
        value == EvaluatedView::Single(ValueView::Error(message_edges()))
    }
}

/// Whether `value` is what a sequence with `rows` rows gives for the
/// evaluated number of columns `columns`: the columns error unless the
/// arithmetic reads `columns` as a count of at least one, and otherwise the
/// counted array.
pub open spec fn sequence_columns<A: NumberArithmetic>(
    arith: &A,
    rows: usize,
    columns: EvaluatedView,
    value: EvaluatedView,
) -> bool {
    match columns {
        EvaluatedView::Single(ValueView::Number(n)) => exists|c: Option<usize>|
            #![trigger call_ensures(A::count_value, (arith, n), c)]
            call_ensures(A::count_value, (arith, n), c) && if c is Some && c.unwrap() >= 1 {
                counted_array(arith, rows, c.unwrap(), value)
            } else {
                value == EvaluatedView::Single(ValueView::Error(message_columns()))
            },
        _ => value == EvaluatedView::Single(ValueView::Error(message_columns())),
    }
}

/// Whether `value` is what a sequence gives for the evaluated numbers of
/// rows and of columns: the rows error unless the arithmetic reads `rows` as
/// a count of at least one, and otherwise what [`sequence_columns`] says.
pub open spec fn sequence_result<A: NumberArithmetic>(
    arith: &A,
    rows: EvaluatedView,
    columns: EvaluatedView,
    value: EvaluatedView,
) -> bool {
    match rows {
        EvaluatedView::Single(ValueView::Number(n)) => exists|r: Option<usize>|
            #![trigger call_ensures(A::count_value, (arith, n), r)]
            call_ensures(A::count_value, (arith, n), r) && if r is Some && r.unwrap() >= 1 {
                sequence_columns(arith, r.unwrap(), columns, value)
            } else {
                value == EvaluatedView::Single(ValueView::Error(message_rows()))
            },
        _ => value == EvaluatedView::Single(ValueView::Error(message_rows())),
    }
}

/// Whether `value` is what a random number with the integer lower bound
/// `lower` gives for the evaluated upper bound `upper`: the upper-bound error
/// unless the arithmetic reads `upper` as an integer, the order error when
/// that integer is below `lower`, and otherwise the number that the
/// arithmetic gives for some integer between the two, both included.
pub open spec fn random_upper<A: NumberArithmetic>(
    arith: &A,
    lower: i64,
    upper: EvaluatedView,
    value: EvaluatedView,
) -> bool {
    match upper {
        EvaluatedView::Single(ValueView::Number(un)) => exists|hi: Option<i64>|
            #![trigger call_ensures(A::integer_value, (arith, un), hi)]
            call_ensures(A::integer_value, (arith, un), hi) && match hi {
                Some(h) => if lower > h {
                    value == EvaluatedView::Single(ValueView::Error(message_bounds_order()))
                } else {
                    exists|n: i64, x: u64|
                        #![trigger call_ensures(A::from_integer, (arith, n), x)]
                        lower <= n <= h && call_ensures(A::from_integer, (arith, n), x) && value
                            == EvaluatedView::Single(ValueView::Number(x))
                },
                None => value == EvaluatedView::Single(ValueView::Error(message_upper_bound())),
            },
        _ => value == EvaluatedView::Single(ValueView::Error(message_upper_bound())),
    }
}

/// Whether `value` is what a random number gives for the evaluated bounds
/// `lower` and `upper`: the lower-bound error unless the arithmetic reads
/// `lower` as an integer, and otherwise what [`random_upper`] says.
pub open spec fn random_result<A: NumberArithmetic>(
    arith: &A,
    lower: EvaluatedView,
    upper: EvaluatedView,
    value: EvaluatedView,
) -> bool {
    match lower {
        EvaluatedView::Single(ValueView::Number(ln)) => exists|lo: Option<i64>|
            #![trigger call_ensures(A::integer_value, (arith, ln), lo)]
            call_ensures(A::integer_value, (arith, ln), lo) && match lo {
                Some(l) => random_upper(arith, l, upper, value),
                None => value == EvaluatedView::Single(ValueView::Error(message_lower_bound())),
            },
        _ => value == EvaluatedView::Single(ValueView::Error(message_lower_bound())),
    }
}

/// Whether `outcome` is the number that the arithmetic gives for the
/// literal text `t`.
pub open spec fn literal_result<A: NumberArithmetic>(arith: &A, t: Seq<char>, outcome: Option<EvaluatedView>) -> bool {
    exists|s: &str, x: u64|
        #![trigger call_ensures(A::number_from_literal, (arith, s), x)]
        s@ == t && call_ensures(A::number_from_literal, (arith, s), x) && outcome == Some(
            EvaluatedView::Single(ValueView::Number(x)),
        )
}

/// Whether `v` is what a sum over `r` gives when every cell inside `r`
/// holds a number: the last of the running sums, from zero, of the numbers
/// of those cells, column by column and row by row.
pub open spec fn sum_result<A: NumberArithmetic>(
    arith: &A,
    cells: Map<CellAddress, Cell>,
    r: CellRectangle,
    v: EvaluatedView,
) -> bool {
    (forall|a: CellAddress| #[trigger]
        cells.contains_key(a) && r.spec_contains(a) ==> holds_number(cells, a))
        ==> exists|addresses: Seq<CellAddress>, partial: Seq<u64>|
        lists_area(cells, r, addresses) && running_sums(arith, cells, addresses, partial) && v
            == EvaluatedView::Single(ValueView::Number(partial.last()))
}

/// Whether the numbers in the evaluation of `f` recorded by `d`, giving
/// `outcome`, are the ones that the number arithmetic `arith` computes: a
/// number literal's number, the running sums of an area, the integer drawn
/// between the bounds of a random number and the counts of a sequence, each
/// from the values that the sub-formulas gave.
pub open spec fn computes_by<A: NumberArithmetic>(
    arith: &A,
    f: FormulaView,
    cells: Map<CellAddress, Cell>,
    outcome: Option<EvaluatedView>,
    d: Derivation,
) -> bool
    decreases f,
{
    match f {
        FormulaView::NumberLiteral(t) => outcome is Some ==> literal_result(arith, t, outcome),
        FormulaView::AreaSum(r) => outcome is Some ==> sum_result(arith, cells, r, outcome.unwrap()),
        FormulaView::Conditional(c, t, e) => match d {
            Derivation::Step(d1, co, _, d2, _, _) => computes_by(arith, *c, cells, co, *d1) && match co {
                Some(EvaluatedView::Single(ValueView::Boolean(true))) => computes_by(arith, *t, cells, outcome, *d2),
                Some(EvaluatedView::Single(ValueView::Boolean(false))) => computes_by(arith, *e, cells, outcome, *d2),
                _ => true,
            },
            Derivation::Done => true,
        },
        FormulaView::Indirect(r) => match d {
            Derivation::Step(d1, ro, _, _, _, _) => computes_by(arith, *r, cells, ro, *d1),
            Derivation::Done => true,
        },
        FormulaView::RandBetween(l, u) => match d {
            Derivation::Step(d1, lo, _, d2, uo, _) => {
                &&& computes_by(arith, *l, cells, lo, *d1)
                &&& computes_by(arith, *u, cells, uo, *d2)
                &&& (lo is Some && uo is Some && outcome is Some) ==> random_result(
                    arith,
                    lo.unwrap(),
                    uo.unwrap(),
                    outcome.unwrap(),
                )
            },
            Derivation::Done => true,
        },
        FormulaView::Sequence(r, c) => match d {
            Derivation::Step(d1, ro, _, d2, co, _) => {
                &&& computes_by(arith, *r, cells, ro, *d1)
                &&& computes_by(arith, *c, cells, co, *d2)
                &&& (ro is Some && co is Some && outcome is Some) ==> sequence_result(
                    arith,
                    ro.unwrap(),
                    co.unwrap(),
                    outcome.unwrap(),
                )
            },
            Derivation::Done => true,
        },
        _ => true,
    }
}

/// A pending evaluation computes no number.
proof fn lemma_computes_pending<A: NumberArithmetic>(arith: &A, f: FormulaView, cells: Map<CellAddress, Cell>)
    ensures
        computes_by(arith, f, cells, None, Derivation::Done),
{
    match f {
        FormulaView::NumberLiteral(_) => {},
        FormulaView::AreaSum(_) => {},
        _ => {},
    }
}

/// Whether `d` records an evaluation of `f` (see [`evaluates_by`]) whose
/// numbers the arithmetic `arith` computes (see [`computes_by`]).
pub open spec fn evaluates_by_with<A: NumberArithmetic>(
    arith: &A,
    f: FormulaView,
    cells: Map<CellAddress, Cell>,
    used: Set<CellRectangle>,
    outcome: Option<EvaluatedView>,
    used_after: Set<CellRectangle>,
    d: Derivation,
) -> bool {
    evaluates_by(f, cells, used, outcome, used_after, d) && computes_by(arith, f, cells, outcome, d)
}

/// Whether evaluating `f` with the number arithmetic `arith` may give
/// `outcome` (see [`evaluates`]), its numbers being the ones that `arith`
/// computes.
pub open spec fn evaluates_with<A: NumberArithmetic>(
    arith: &A,
    f: FormulaView,
    cells: Map<CellAddress, Cell>,
    used: Set<CellRectangle>,
    outcome: Option<EvaluatedView>,
    used_after: Set<CellRectangle>,
) -> bool {
    exists|d: Derivation| #[trigger] evaluates_by_with(arith, f, cells, used, outcome, used_after, d)
}

/// A number literal gives the number that the arithmetic reads from its
/// text.
pub proof fn lemma_literal_gives_its_number<A: NumberArithmetic>(
    arith: &A,
    t: Seq<char>,
    cells: Map<CellAddress, Cell>,
    used: Set<CellRectangle>,
    outcome: Option<EvaluatedView>,
    used_after: Set<CellRectangle>,
)
    requires
        evaluates_with(arith, FormulaView::NumberLiteral(t), cells, used, outcome, used_after),
    ensures
        exists|s: &str, x: u64|
            #![trigger call_ensures(A::number_from_literal, (arith, s), x)]
            s@ == t && call_ensures(A::number_from_literal, (arith, s), x) && outcome == Some(
                EvaluatedView::Single(ValueView::Number(x)),
            ),
{
    let d = choose|d: Derivation| #[trigger] evaluates_by_with(arith, FormulaView::NumberLiteral(t), cells, used, outcome, used_after, d);
    assert(evaluates_by_with(arith, FormulaView::NumberLiteral(t), cells, used, outcome, used_after, d));
}

/// A sum over an area whose cells all hold numbers gives the last of the
/// running sums, from zero, of those numbers, taken column by column and row
/// by row.
pub proof fn lemma_sum_adds_the_numbers<A: NumberArithmetic>(
    arith: &A,
    r: CellRectangle,
    cells: Map<CellAddress, Cell>,
    used: Set<CellRectangle>,
    v: EvaluatedView,
    used_after: Set<CellRectangle>,
)
    requires
        evaluates_with(arith, FormulaView::AreaSum(r), cells, used, Some(v), used_after),
        forall|a: CellAddress| #[trigger]
            cells.contains_key(a) && r.spec_contains(a) ==> holds_number(cells, a),
    ensures
        exists|addresses: Seq<CellAddress>, partial: Seq<u64>|
            lists_area(cells, r, addresses) && running_sums(arith, cells, addresses, partial) && v
                == EvaluatedView::Single(ValueView::Number(partial.last())),
{
    let d = choose|d: Derivation| #[trigger] evaluates_by_with(arith, FormulaView::AreaSum(r), cells, used, Some(v), used_after, d);
    assert(evaluates_by_with(arith, FormulaView::AreaSum(r), cells, used, Some(v), used_after, d));
    assert(sum_result(arith, cells, r, v));
}

/// A random number gives, for the values its bounds give, what
/// [`random_result`] says: an error unless the arithmetic reads both bounds
/// as integers in order, and otherwise the number for an integer between
/// them, both included.
pub proof fn lemma_random_between_its_bounds<A: NumberArithmetic>(
    arith: &A,
    l: FormulaView,
    u: FormulaView,
    cells: Map<CellAddress, Cell>,
    used: Set<CellRectangle>,
    v: EvaluatedView,
    used_after: Set<CellRectangle>,
)
    requires
        evaluates_with(arith, FormulaView::RandBetween(Box::new(l), Box::new(u)), cells, used, Some(v), used_after),
    ensures
        exists|lv: EvaluatedView, uv: EvaluatedView, u1: Set<CellRectangle>|
            #![trigger evaluates_with(arith, l, cells, used, Some(lv), u1), evaluates_with(arith, u, cells, u1, Some(uv), used_after)]
            evaluates_with(arith, l, cells, used, Some(lv), u1) && evaluates_with(
                arith,
                u,
                cells,
                u1,
                Some(uv),
                used_after,
            ) && random_result(arith, lv, uv, v),
{
    let f = FormulaView::RandBetween(Box::new(l), Box::new(u));
    let d = choose|d: Derivation| #[trigger] evaluates_by_with(arith, f, cells, used, Some(v), used_after, d);
    assert(evaluates_by_with(arith, f, cells, used, Some(v), used_after, d));
    match d {
        Derivation::Step(d1, lo, u1, d2, uo, u2) => {
            assert(evaluates_by_with(arith, l, cells, used, lo, u1, *d1));
            assert(evaluates_by_with(arith, u, cells, u1, uo, u2, *d2));
            assert(evaluates_with(arith, l, cells, used, Some(lo.unwrap()), u1));
            assert(evaluates_with(arith, u, cells, u1, Some(uo.unwrap()), used_after));
        },
        Derivation::Done => {},
    }
}

/// A sequence gives, for the values its numbers of rows and of columns
/// give, what [`sequence_result`] says: an error unless the arithmetic reads
/// both as counts of at least one, and otherwise the array of that many rows
/// and columns whose element at position `k`, row after row, is the number
/// for the count `k + 1`.
pub proof fn lemma_sequence_counts<A: NumberArithmetic>(
    arith: &A,
    r: FormulaView,
    c: FormulaView,
    cells: Map<CellAddress, Cell>,
    used: Set<CellRectangle>,
    v: EvaluatedView,
    used_after: Set<CellRectangle>,
)
    requires
        evaluates_with(arith, FormulaView::Sequence(Box::new(r), Box::new(c)), cells, used, Some(v), used_after),
    ensures
        exists|rv: EvaluatedView, cv: EvaluatedView, u1: Set<CellRectangle>|
            #![trigger evaluates_with(arith, r, cells, used, Some(rv), u1), evaluates_with(arith, c, cells, u1, Some(cv), used_after)]
            evaluates_with(arith, r, cells, used, Some(rv), u1) && evaluates_with(
                arith,
                c,
                cells,
                u1,
                Some(cv),
                used_after,
            ) && sequence_result(arith, rv, cv, v),
{
    let f = FormulaView::Sequence(Box::new(r), Box::new(c));
    let d = choose|d: Derivation| #[trigger] evaluates_by_with(arith, f, cells, used, Some(v), used_after, d);
    assert(evaluates_by_with(arith, f, cells, used, Some(v), used_after, d));
    match d {
        Derivation::Step(d1, ro, u1, d2, co, u2) => {
            assert(evaluates_by_with(arith, r, cells, used, ro, u1, *d1));
            assert(evaluates_by_with(arith, c, cells, u1, co, u2, *d2));
            assert(evaluates_with(arith, r, cells, used, Some(ro.unwrap()), u1));
            assert(evaluates_with(arith, c, cells, u1, Some(co.unwrap()), used_after));
        },
        Derivation::Done => {},
    }
}

/// An evaluation with an arithmetic is an evaluation.
proof fn lemma_with_evaluates<A: NumberArithmetic>(
    arith: &A,
    f: FormulaView,
    cells: Map<CellAddress, Cell>,
    used: Set<CellRectangle>,
    outcome: Option<EvaluatedView>,
    used_after: Set<CellRectangle>,
)
    requires
        evaluates_with(arith, f, cells, used, outcome, used_after),
    ensures
        evaluates(f, cells, used, outcome, used_after),
{
    let d = choose|d: Derivation| #[trigger] evaluates_by_with(arith, f, cells, used, outcome, used_after, d);
    assert(evaluates_by(f, cells, used, outcome, used_after, d));
}

/// Whether an evaluated value is a number.
pub open spec fn is_number(v: EvaluatedView) -> bool {
    v matches EvaluatedView::Single(ValueView::Number(_))
}

/// What a random number between values `lower` and `upper` may give. Only
/// numbers can be bounds; whether a number is an integer, and which integer,
/// the number arithmetic decides.
pub open spec fn random_outcome(
    lower: EvaluatedView,
    upper: EvaluatedView,
    outcome: Option<EvaluatedView>,
) -> bool {
    ||| outcome == error_value(message_lower_bound())
    ||| is_number(lower) && outcome == error_value(message_upper_bound())
    ||| is_number(lower) && is_number(upper) && outcome == error_value(message_bounds_order())
    ||| is_number(lower) && is_number(upper) && outcome matches Some(
        EvaluatedView::Single(ValueView::Number(_)),
    )
}

/// What a sequence with `rows` rows and `columns` columns may give: an array
/// of at least one row and one column whose elements are numbers (counting
/// from one, row after row), or an error. Only positive integers count; which
/// numbers those are, the number arithmetic decides.
pub open spec fn sequence_outcome(
    rows: EvaluatedView,
    columns: EvaluatedView,
    outcome: Option<EvaluatedView>,
) -> bool {
    ||| outcome == error_value(message_rows())
    ||| is_number(rows) && outcome == error_value(message_columns())
    ||| is_number(rows) && is_number(columns) && outcome == error_value(message_edges())
    ||| is_number(rows) && is_number(columns) && match outcome {
        Some(EvaluatedView::Array(elements, r, c)) => {
            &&& r >= 1
            &&& c >= 1
            &&& elements.len() == r * c
            &&& forall|k: int| 0 <= k < elements.len() ==> #[trigger] elements[k] is Number
        },
        _ => false,
    }
}

/// How the sub-formulas of a formula evaluated: for the first and the second
/// sub-formula evaluated (condition and branch, reference, lower and upper
/// bound, rows and columns), how each of their own sub-formulas evaluated,
/// its outcome, and the rectangles read once it was done.
pub enum Derivation {
    Done,
    Step(
        Box<Derivation>,
        Option<EvaluatedView>,
        Set<CellRectangle>,
        Box<Derivation>,
        Option<EvaluatedView>,
        Set<CellRectangle>,
    ),
}

/// Whether evaluating `f`, having already read the rectangles `used`, gives
/// `outcome` (`None` when a rectangle it needs holds a cell without a value)
/// having read the rectangles `used_after`, its sub-formulas evaluating as
/// `d` records.
///
/// Sub-formulas are evaluated first, left to right; the branch of a
/// conditional that the condition selects, and the cell that an indirect
/// reference names, are read only once the condition and the reference have
/// their values. Texts, booleans and errors are determined exactly; numbers
/// are left to the number arithmetic.
pub open spec fn evaluates_by(
    f: FormulaView,
    cells: Map<CellAddress, Cell>,
    used: Set<CellRectangle>,
    outcome: Option<EvaluatedView>,
    used_after: Set<CellRectangle>,
    d: Derivation,
) -> bool
    decreases f,
{
    match f {
        FormulaView::NumberLiteral(_) => used_after == used && outcome matches Some(
            EvaluatedView::Single(ValueView::Number(_)),
        ),
        FormulaView::BooleanLiteral(b) => used_after == used && outcome == Some(
            EvaluatedView::Single(ValueView::Boolean(b)),
        ),
        FormulaView::TextLiteral(t) => used_after == used && outcome == Some(
            EvaluatedView::Single(ValueView::Text(t)),
        ),
        FormulaView::IllFormed(t) => used_after == used && outcome == error_value(t),
        FormulaView::CellReference(a) => used_after == used && outcome == Some(
            EvaluatedView::Single(referenced_value(cells, a)),
        ),
        FormulaView::AreaSum(r) => used_after == used && sum_outcome(cells, r, outcome),
        FormulaView::Conditional(c, t, e) => match d {
            Derivation::Step(d1, co, u1, d2, _, _) => evaluates_by(*c, cells, used, co, u1, *d1)
                && match co {
                None => outcome is None && used_after == u1,
                Some(EvaluatedView::Single(ValueView::Boolean(true))) => {
                    let u2 = u1 + initial_rectangles(*t);
                    if rectangles_ready(cells, initial_rectangles(*t)) {
                        evaluates_by(*t, cells, u2, outcome, used_after, *d2)
                    } else {
                        outcome is None && used_after == u2
                    }
                },
                Some(EvaluatedView::Single(ValueView::Boolean(false))) => {
                    let u2 = u1 + initial_rectangles(*e);
                    if rectangles_ready(cells, initial_rectangles(*e)) {
                        evaluates_by(*e, cells, u2, outcome, used_after, *d2)
                    } else {
                        outcome is None && used_after == u2
                    }
                },
                Some(_) => outcome == error_value(message_condition()) && used_after == u1,
            },
            Derivation::Done => false,
        },
        FormulaView::Indirect(r) => match d {
            Derivation::Step(d1, ro, u1, _, _, _) => evaluates_by(*r, cells, used, ro, u1, *d1)
                && match ro {
                None => outcome is None && used_after == u1,
                Some(EvaluatedView::Single(ValueView::Text(s))) => match spec_parse_cell_address(s) {
                    Some(a) => {
                        &&& used_after == u1.insert(single_cell(a))
                        &&& if rectangle_ready(cells, single_cell(a)) {
                            outcome == Some(EvaluatedView::Single(referenced_value(cells, a)))
                        } else {
                            outcome is None
                        }
                    },
                    None => outcome == error_value(message_indirect_address()) && used_after == u1,
                },
                Some(_) => outcome == error_value(message_indirect_text()) && used_after == u1,
            },
            Derivation::Done => false,
        },
        FormulaView::RandBetween(l, u) => match d {
            Derivation::Step(d1, lo, u1, d2, uo, u2) => evaluates_by(*l, cells, used, lo, u1, *d1)
                && match lo {
                None => outcome is None && used_after == u1,
                Some(lv) => evaluates_by(*u, cells, u1, uo, u2, *d2) && used_after == u2 && match uo {
                    None => outcome is None,
                    Some(uv) => random_outcome(lv, uv, outcome),
                },
            },
            Derivation::Done => false,
        },
        FormulaView::Sequence(r, c) => match d {
            Derivation::Step(d1, ro, u1, d2, co, u2) => evaluates_by(*r, cells, used, ro, u1, *d1)
                && match ro {
                None => outcome is None && used_after == u1,
                Some(rv) => evaluates_by(*c, cells, u1, co, u2, *d2) && used_after == u2 && match co {
                    None => outcome is None,
                    Some(cv) => sequence_outcome(rv, cv, outcome),
                },
            },
            Derivation::Done => false,
        },
    }
}

/// Whether evaluating `f`, having already read the rectangles `used`, may
/// give `outcome` having read the rectangles `used_after` (see
/// [`evaluates_by`]).
pub open spec fn evaluates(
    f: FormulaView,
    cells: Map<CellAddress, Cell>,
    used: Set<CellRectangle>,
    outcome: Option<EvaluatedView>,
    used_after: Set<CellRectangle>,
) -> bool {
    exists|d: Derivation| #[trigger] evaluates_by(f, cells, used, outcome, used_after, d)
}

/// Whether `f` reads no cell: it is built from literals, conditionals and
/// random numbers alone.
pub open spec fn reads_no_cells(f: FormulaView) -> bool
    decreases f,
{
    match f {
        FormulaView::NumberLiteral(_) => true,
        FormulaView::BooleanLiteral(_) => true,
        FormulaView::TextLiteral(_) => true,
        FormulaView::IllFormed(_) => true,
        FormulaView::Conditional(c, t, e) => reads_no_cells(*c) && reads_no_cells(*t)
            && reads_no_cells(*e),
        FormulaView::RandBetween(l, u) => reads_no_cells(*l) && reads_no_cells(*u),
        _ => false,
    }
}

/// A formula that reads no cell has no initial rectangles, reads nothing
/// while it is evaluated, and gives a single value whatever the cells hold.
pub proof fn lemma_reads_no_cells(
    f: FormulaView,
    cells: Map<CellAddress, Cell>,
    used: Set<CellRectangle>,
    outcome: Option<EvaluatedView>,
    used_after: Set<CellRectangle>,
    d: Derivation,
    other_cells: Map<CellAddress, Cell>,
)
    requires
        reads_no_cells(f),
        evaluates_by(f, cells, used, outcome, used_after, d),
    ensures
        initial_rectangles(f) == Set::<CellRectangle>::empty(),
        used_after == used,
        outcome matches Some(EvaluatedView::Single(_)),
        evaluates_by(f, other_cells, used, outcome, used, d),
    decreases f,
{
    lemma_no_initial_rectangles(f);
    match f {
        FormulaView::Conditional(c, t, e) => {
            lemma_no_initial_rectangles(*t);
            lemma_no_initial_rectangles(*e);
            match d {
                Derivation::Step(d1, co, u1, d2, _, _) => {
                    lemma_reads_no_cells(*c, cells, used, co, u1, *d1, other_cells);
                    assert(u1 + Set::<CellRectangle>::empty() =~= u1);
                    assert(rectangles_ready(cells, Set::<CellRectangle>::empty()));
                    assert(rectangles_ready(other_cells, Set::<CellRectangle>::empty()));
                    match co {
                        Some(EvaluatedView::Single(ValueView::Boolean(true))) => {
                            lemma_reads_no_cells(*t, cells, u1, outcome, used_after, *d2, other_cells);
                        },
                        Some(EvaluatedView::Single(ValueView::Boolean(false))) => {
                            lemma_reads_no_cells(*e, cells, u1, outcome, used_after, *d2, other_cells);
                        },
                        _ => {},
                    }
                },
                Derivation::Done => {},
            }
        },
        FormulaView::RandBetween(l, u) => {
            match d {
                Derivation::Step(d1, lo, u1, d2, uo, u2) => {
                    lemma_reads_no_cells(*l, cells, used, lo, u1, *d1, other_cells);
                    if lo is Some {
                        lemma_reads_no_cells(*u, cells, u1, uo, u2, *d2, other_cells);
                    }
                },
                Derivation::Done => {},
            }
        },
        _ => {},
    }
}

/// Evaluating a formula that reads no cell, from its initial rectangles,
/// reads nothing and gives a single value, the same whatever the cells hold.
pub proof fn lemma_reads_no_cells_evaluates(
    f: FormulaView,
    cells: Map<CellAddress, Cell>,
    outcome: Option<EvaluatedView>,
    used_after: Set<CellRectangle>,
)
    requires
        reads_no_cells(f),
        evaluates(f, cells, initial_rectangles(f), outcome, used_after),
    ensures
        used_after == Set::<CellRectangle>::empty(),
        outcome matches Some(EvaluatedView::Single(_)),
        evaluates(
            f,
            Map::<CellAddress, Cell>::empty(),
            Set::<CellRectangle>::empty(),
            outcome,
            Set::<CellRectangle>::empty(),
        ),
{
    lemma_no_initial_rectangles(f);
    let d = choose|d: Derivation| #[trigger]
        evaluates_by(f, cells, initial_rectangles(f), outcome, used_after, d);
    lemma_reads_no_cells(
        f,
        cells,
        initial_rectangles(f),
        outcome,
        used_after,
        d,
        Map::<CellAddress, Cell>::empty(),
    );
    assert(evaluates_by(
        f,
        Map::<CellAddress, Cell>::empty(),
        Set::<CellRectangle>::empty(),
        outcome,
        Set::<CellRectangle>::empty(),
        d,
    ));
}

/// A formula that reads no cell has no initial rectangles.
pub proof fn lemma_no_initial_rectangles(f: FormulaView)
    requires
        reads_no_cells(f),
    ensures
        initial_rectangles(f) == Set::<CellRectangle>::empty(),
    decreases f,
{
    match f {
        FormulaView::Conditional(c, _, _) => {
            lemma_no_initial_rectangles(*c);
        },
        FormulaView::RandBetween(l, u) => {
            lemma_no_initial_rectangles(*l);
            lemma_no_initial_rectangles(*u);
            assert(Set::<CellRectangle>::empty() + Set::<CellRectangle>::empty() =~= Set::<CellRectangle>::empty());
        },
        _ => {},
    }
}

/// Whether one of the rectangles `rs` contains `a`.
pub open spec fn covers(rs: Set<CellRectangle>, a: CellAddress) -> bool {
    exists|r: CellRectangle| #[trigger] rs.contains(r) && r.spec_contains(a)
}

/// Whether `c1` and `c2` hold a cell at `a` alike, with the same value.
pub open spec fn same_cell_at(c1: Map<CellAddress, Cell>, c2: Map<CellAddress, Cell>, a: CellAddress) -> bool {
    &&& c1.contains_key(a) == c2.contains_key(a)
    &&& c1.contains_key(a) ==> c1[a].value == c2[a].value
}

/// Whether `c1` and `c2` hold the same cells, with the same values, inside
/// the rectangles `rs`.
pub open spec fn agree_on(
    c1: Map<CellAddress, Cell>,
    c2: Map<CellAddress, Cell>,
    rs: Set<CellRectangle>,
) -> bool {
    forall|a: CellAddress| #[trigger] covers(rs, a) ==> same_cell_at(c1, c2, a)
}

/// Evaluation only adds to the rectangles read.
pub proof fn lemma_used_grows(
    f: FormulaView,
    cells: Map<CellAddress, Cell>,
    used: Set<CellRectangle>,
    outcome: Option<EvaluatedView>,
    used_after: Set<CellRectangle>,
    d: Derivation,
)
    requires
        evaluates_by(f, cells, used, outcome, used_after, d),
    ensures
        used.subset_of(used_after),
    decreases f,
{
    match f {
        FormulaView::Conditional(c, t, e) => match d {
            Derivation::Step(d1, co, u1, d2, _, _) => {
                lemma_used_grows(*c, cells, used, co, u1, *d1);
                match co {
                    Some(EvaluatedView::Single(ValueView::Boolean(true))) => {
                        if rectangles_ready(cells, initial_rectangles(*t)) {
                            lemma_used_grows(*t, cells, u1 + initial_rectangles(*t), outcome, used_after, *d2);
                        }
                    },
                    Some(EvaluatedView::Single(ValueView::Boolean(false))) => {
                        if rectangles_ready(cells, initial_rectangles(*e)) {
                            lemma_used_grows(*e, cells, u1 + initial_rectangles(*e), outcome, used_after, *d2);
                        }
                    },
                    _ => {},
                }
            },
            Derivation::Done => {},
        },
        FormulaView::Indirect(r) => match d {
            Derivation::Step(d1, ro, u1, _, _, _) => {
                lemma_used_grows(*r, cells, used, ro, u1, *d1);
            },
            Derivation::Done => {},
        },
        FormulaView::RandBetween(l, u) => match d {
            Derivation::Step(d1, lo, u1, d2, uo, u2) => {
                lemma_used_grows(*l, cells, used, lo, u1, *d1);
                if lo is Some {
                    lemma_used_grows(*u, cells, u1, uo, u2, *d2);
                }
            },
            Derivation::Done => {},
        },
        FormulaView::Sequence(r, c) => match d {
            Derivation::Step(d1, ro, u1, d2, co, u2) => {
                lemma_used_grows(*r, cells, used, ro, u1, *d1);
                if ro is Some {
                    lemma_used_grows(*c, cells, u1, co, u2, *d2);
                }
            },
            Derivation::Done => {},
        },
        _ => {},
    }
}

/// An evaluation that gives no outcome has read a rectangle with a cell
/// without a value.
pub proof fn lemma_no_outcome_unready(
    f: FormulaView,
    cells: Map<CellAddress, Cell>,
    used: Set<CellRectangle>,
    used_after: Set<CellRectangle>,
    d: Derivation,
)
    requires
        evaluates_by(f, cells, used, None, used_after, d),
    ensures
        !rectangles_ready(cells, used_after),
    decreases f,
{
    match f {
        FormulaView::Conditional(c, t, e) => match d {
            Derivation::Step(d1, co, u1, d2, _, _) => {
                match co {
                    None => {
                        lemma_no_outcome_unready(*c, cells, used, u1, *d1);
                    },
                    Some(EvaluatedView::Single(ValueView::Boolean(b))) => {
                        let g = if b { *t } else { *e };
                        if rectangles_ready(cells, initial_rectangles(g)) {
                            lemma_no_outcome_unready(g, cells, u1 + initial_rectangles(g), used_after, *d2);
                        } else {
                            let r = choose|r: CellRectangle| #[trigger]
                                initial_rectangles(g).contains(r) && !rectangle_ready(cells, r);
                            assert(used_after.contains(r));
                        }
                    },
                    Some(_) => {},
                }
            },
            Derivation::Done => {},
        },
        FormulaView::Indirect(r) => match d {
            Derivation::Step(d1, ro, u1, _, _, _) => {
                if ro is None {
                    lemma_no_outcome_unready(*r, cells, used, u1, *d1);
                } else if let Some(EvaluatedView::Single(ValueView::Text(s))) = ro {
                    if let Some(a) = spec_parse_cell_address(s) {
                        assert(used_after.contains(single_cell(a)));
                    }
                }
            },
            Derivation::Done => {},
        },
        FormulaView::RandBetween(l, u) => match d {
            Derivation::Step(d1, lo, u1, d2, uo, u2) => {
                if lo is None {
                    lemma_no_outcome_unready(*l, cells, used, u1, *d1);
                } else if uo is None {
                    lemma_no_outcome_unready(*u, cells, u1, u2, *d2);
                }
            },
            Derivation::Done => {},
        },
        FormulaView::Sequence(r, c) => match d {
            Derivation::Step(d1, ro, u1, d2, co, u2) => {
                if ro is None {
                    lemma_no_outcome_unready(*r, cells, used, u1, *d1);
                } else if co is None {
                    lemma_no_outcome_unready(*c, cells, u1, u2, *d2);
                }
            },
            Derivation::Done => {},
        },
        FormulaView::AreaSum(r) => {
            if exists|a: CellAddress| #[trigger] is_first_non_number(cells, r, a) {
            }
        },
        _ => {},
    }
}

/// An evaluation that gives a value, started with ready rectangles, read
/// only ready rectangles.
pub proof fn lemma_outcome_ready(
    f: FormulaView,
    cells: Map<CellAddress, Cell>,
    used: Set<CellRectangle>,
    outcome: Option<EvaluatedView>,
    used_after: Set<CellRectangle>,
    d: Derivation,
)
    requires
        evaluates_by(f, cells, used, outcome, used_after, d),
        outcome is Some,
        rectangles_ready(cells, used),
    ensures
        rectangles_ready(cells, used_after),
    decreases f,
{
    match f {
        FormulaView::Conditional(c, t, e) => match d {
            Derivation::Step(d1, co, u1, d2, _, _) => {
                if co is Some {
                    lemma_outcome_ready(*c, cells, used, co, u1, *d1);
                }
                match co {
                    Some(EvaluatedView::Single(ValueView::Boolean(true))) => {
                        if rectangles_ready(cells, initial_rectangles(*t)) {
                            lemma_outcome_ready(*t, cells, u1 + initial_rectangles(*t), outcome, used_after, *d2);
                        }
                    },
                    Some(EvaluatedView::Single(ValueView::Boolean(false))) => {
                        if rectangles_ready(cells, initial_rectangles(*e)) {
                            lemma_outcome_ready(*e, cells, u1 + initial_rectangles(*e), outcome, used_after, *d2);
                        }
                    },
                    _ => {},
                }
            },
            Derivation::Done => {},
        },
        FormulaView::Indirect(r) => match d {
            Derivation::Step(d1, ro, u1, _, _, _) => {
                if ro is Some {
                    lemma_outcome_ready(*r, cells, used, ro, u1, *d1);
                }
            },
            Derivation::Done => {},
        },
        FormulaView::RandBetween(l, u) => match d {
            Derivation::Step(d1, lo, u1, d2, uo, u2) => {
                if lo is Some {
                    lemma_outcome_ready(*l, cells, used, lo, u1, *d1);
                    if uo is Some {
                        lemma_outcome_ready(*u, cells, u1, uo, u2, *d2);
                    }
                }
            },
            Derivation::Done => {},
        },
        FormulaView::Sequence(r, c) => match d {
            Derivation::Step(d1, ro, u1, d2, co, u2) => {
                if ro is Some {
                    lemma_outcome_ready(*r, cells, used, ro, u1, *d1);
                    if co is Some {
                        lemma_outcome_ready(*c, cells, u1, co, u2, *d2);
                    }
                }
            },
            Derivation::Done => {},
        },
        _ => {},
    }
}

/// A cell inside a rectangle of `rs` is covered by `rs`.
proof fn lemma_covers(rs: Set<CellRectangle>, r: CellRectangle, a: CellAddress)
    requires
        rs.contains(r),
        r.spec_contains(a),
    ensures
        covers(rs, a),
{
}

/// Agreeing inside more rectangles is agreeing inside fewer.
proof fn lemma_agree_on_subset(
    c1: Map<CellAddress, Cell>,
    c2: Map<CellAddress, Cell>,
    small: Set<CellRectangle>,
    large: Set<CellRectangle>,
)
    requires
        agree_on(c1, c2, large),
        small.subset_of(large),
    ensures
        agree_on(c1, c2, small),
{
    assert forall|a: CellAddress| #[trigger] covers(small, a) implies same_cell_at(c1, c2, a) by {
        let r = choose|r: CellRectangle| #[trigger] small.contains(r) && r.spec_contains(a);
        lemma_covers(large, r, a);
    }
}

/// Sums over a rectangle inside which two states of the cells agree give
/// alike.
proof fn lemma_sum_agree(
    c1: Map<CellAddress, Cell>,
    c2: Map<CellAddress, Cell>,
    rs: Set<CellRectangle>,
    r: CellRectangle,
    outcome: Option<EvaluatedView>,
)
    requires
        agree_on(c1, c2, rs),
        rs.contains(r),
        sum_outcome(c1, r, outcome),
    ensures
        sum_outcome(c2, r, outcome),
{
    assert forall|b: CellAddress| r.spec_contains(b) implies #[trigger] same_cell_at(c1, c2, b) by {
        lemma_covers(rs, r, b);
    }
    assert forall|a: CellAddress| #[trigger]
        is_first_non_number(c1, r, a) == is_first_non_number(c2, r, a) by {
        if r.spec_contains(a) {
            assert(same_cell_at(c1, c2, a));
        }
        assert forall|b: CellAddress| #[trigger] r.spec_contains(b) implies (c1.contains_key(b)
            == c2.contains_key(b) && (c1.contains_key(b) ==> holds_number(c1, b) == holds_number(
            c2,
            b,
        ))) by {
            assert(same_cell_at(c1, c2, b));
        }
    }
    if exists|a: CellAddress| #[trigger] is_first_non_number(c1, r, a) {
        let a1 = choose|a: CellAddress| #[trigger] is_first_non_number(c1, r, a);
        let a2 = choose|a: CellAddress| #[trigger] is_first_non_number(c2, r, a);
        assert(is_first_non_number(c2, r, a1));
        lemma_first_non_number_unique(c2, r, a1, a2);
        assert(same_cell_at(c1, c2, a1));
    } else {
        assert forall|a: CellAddress| !is_first_non_number(c2, r, a) by {
            assert(is_first_non_number(c1, r, a) == is_first_non_number(c2, r, a));
        }
        assert forall|a: CellAddress| r.spec_contains(a) implies #[trigger] c1.contains_key(a)
            == c2.contains_key(a) by {
            assert(same_cell_at(c1, c2, a));
        }
        if forall|a: CellAddress| #[trigger] c1.contains_key(a) ==> !r.spec_contains(a) {
            assert forall|a: CellAddress| #[trigger] c2.contains_key(a) implies !r.spec_contains(a) by {
                if r.spec_contains(a) {
                    assert(c1.contains_key(a));
                }
            }
        } else {
            let a = choose|a: CellAddress| #[trigger] c1.contains_key(a) && r.spec_contains(a);
            assert(c2.contains_key(a));
        }
    }
}

/// Evaluation reads only the cells inside the rectangles it reads: two
/// states of the cells that agree there evaluate a formula alike.
pub proof fn lemma_evaluates_agree(
    f: FormulaView,
    c1: Map<CellAddress, Cell>,
    c2: Map<CellAddress, Cell>,
    used: Set<CellRectangle>,
    outcome: Option<EvaluatedView>,
    used_after: Set<CellRectangle>,
    d: Derivation,
)
    requires
        evaluates_by(f, c1, used, outcome, used_after, d),
        initial_rectangles(f).subset_of(used),
        agree_on(c1, c2, used_after),
    ensures
        evaluates_by(f, c2, used, outcome, used_after, d),
    decreases f,
{
    lemma_used_grows(f, c1, used, outcome, used_after, d);
    match f {
        FormulaView::CellReference(a) => {
            assert(used.contains(single_cell(a)));
            lemma_covers(used_after, single_cell(a), a);
        },
        FormulaView::AreaSum(r) => {
            assert(used.contains(r));
            lemma_sum_agree(c1, c2, used_after, r, outcome);
        },
        FormulaView::Conditional(c, t, e) => match d {
            Derivation::Step(d1, co, u1, d2, _, _) => {
                if let Some(EvaluatedView::Single(ValueView::Boolean(b))) = co {
                    let branch = if b { *t } else { *e };
                    let u2 = u1 + initial_rectangles(branch);
                    if rectangles_ready(c1, initial_rectangles(branch)) {
                        lemma_used_grows(branch, c1, u2, outcome, used_after, *d2);
                        lemma_evaluates_agree(branch, c1, c2, u2, outcome, used_after, *d2);
                    }
                    assert(u2.subset_of(used_after));
                    assert forall|r: CellRectangle| #[trigger]
                        initial_rectangles(branch).contains(r) implies rectangle_ready(c1, r)
                        == rectangle_ready(c2, r) by {
                        assert(u2.contains(r));
                        assert(used_after.contains(r));
                        if rectangle_ready(c1, r) {
                            assert forall|a: CellAddress| #[trigger]
                                c2.contains_key(a) && r.spec_contains(a) implies c2[a].value is Some by {
                                lemma_covers(used_after, r, a);
                                assert(same_cell_at(c1, c2, a));
                            }
                        }
                        if rectangle_ready(c2, r) {
                            assert forall|a: CellAddress| #[trigger]
                                c1.contains_key(a) && r.spec_contains(a) implies c1[a].value is Some by {
                                lemma_covers(used_after, r, a);
                                assert(same_cell_at(c1, c2, a));
                            }
                        }
                    }
                    assert(rectangles_ready(c1, initial_rectangles(branch)) == rectangles_ready(
                        c2,
                        initial_rectangles(branch),
                    ));
                }
                lemma_used_grows(*c, c1, used, co, u1, *d1);
                assert(u1.subset_of(used_after)) by {
                    if let Some(EvaluatedView::Single(ValueView::Boolean(b))) = co {
                        let branch = if b { *t } else { *e };
                        if rectangles_ready(c1, initial_rectangles(branch)) {
                            lemma_used_grows(branch, c1, u1 + initial_rectangles(branch), outcome, used_after, *d2);
                        }
                    }
                }
                lemma_agree_on_subset(c1, c2, u1, used_after);
                lemma_evaluates_agree(*c, c1, c2, used, co, u1, *d1);
            },
            Derivation::Done => {},
        },
        FormulaView::Indirect(r) => match d {
            Derivation::Step(d1, ro, u1, _, _, _) => {
                lemma_used_grows(*r, c1, used, ro, u1, *d1);
                assert(u1.subset_of(used_after));
                lemma_agree_on_subset(c1, c2, u1, used_after);
                lemma_evaluates_agree(*r, c1, c2, used, ro, u1, *d1);
                if let Some(EvaluatedView::Single(ValueView::Text(s))) = ro {
                    if let Some(a) = spec_parse_cell_address(s) {
                        lemma_covers(used_after, single_cell(a), a);
                        assert(same_cell_at(c1, c2, a));
                        assert(rectangle_ready(c1, single_cell(a)) == rectangle_ready(c2, single_cell(a)));
                    }
                }
            },
            Derivation::Done => {},
        },
        FormulaView::RandBetween(l, u) => match d {
            Derivation::Step(d1, lo, u1, d2, uo, u2) => {
                lemma_used_grows(*l, c1, used, lo, u1, *d1);
                if lo is Some {
                    lemma_used_grows(*u, c1, u1, uo, u2, *d2);
                    lemma_evaluates_agree(*u, c1, c2, u1, uo, u2, *d2);
                }
                lemma_agree_on_subset(c1, c2, u1, used_after);
                lemma_evaluates_agree(*l, c1, c2, used, lo, u1, *d1);
            },
            Derivation::Done => {},
        },
        FormulaView::Sequence(r, c) => match d {
            Derivation::Step(d1, ro, u1, d2, co, u2) => {
                lemma_used_grows(*r, c1, used, ro, u1, *d1);
                if ro is Some {
                    lemma_used_grows(*c, c1, u1, co, u2, *d2);
                    lemma_evaluates_agree(*c, c1, c2, u1, co, u2, *d2);
                }
                lemma_agree_on_subset(c1, c2, u1, used_after);
                lemma_evaluates_agree(*r, c1, c2, used, ro, u1, *d1);
            },
            Derivation::Done => {},
        },
        _ => {},
    }
}

// ---------------------------------------------------------------------------
// Evaluation.

/// The view of an optional evaluated value.
pub open spec fn outcome_view(o: Option<EvaluatedValue>) -> Option<EvaluatedView> {
    match o {
        Some(v) => Some(v@),
        None => None,
    }
}

/// The error value with message `message`.
fn error(message: &str) -> (value: EvaluatedValue)
    ensures
        value@ == EvaluatedView::Single(ValueView::Error(message@)),
{
    EvaluatedValue::SingleCellValue(SingleCellValue::Error(message.to_owned()))
}

/// Whether every cell that exists inside `rectangle` has a value.
pub fn rectangle_is_ready(cells: &CellMap, rectangle: &CellRectangle) -> (ready: bool)
    requires
        rectangle.well_formed(),
    ensures
        ready == rectangle_ready(cells@, *rectangle),
{
    let addresses = cells.get_all_in_rectangle(rectangle);
    let mut i: usize = 0;
    while i < addresses.len()
        invariant
            i <= addresses.len(),
            forall|a: CellAddress|
                #![trigger addresses@.contains(a)]
                #![trigger cells@.contains_key(a)]
                addresses@.contains(a) <==> (cells@.contains_key(a) && rectangle.spec_contains(a)),
            forall|x: int| 0 <= x < i ==> cells@[#[trigger] addresses@[x]].value is Some,
        decreases addresses.len() - i,
    {
        let a = addresses[i];
        assert(addresses@.contains(a));
        match cells.get(&a) {
            Some(cell) => {
                if cell.value.is_none() {
                    assert(cells@.contains_key(a) && rectangle.spec_contains(a));
                    assert(cells@[a].value is None);
                    return false;
                }
            },
            None => {
                assert(false);
                return false;
            },
        }
        i += 1;
    }
    proof {
        assert forall|a: CellAddress| #[trigger]
            cells@.contains_key(a) && rectangle.spec_contains(a) implies cells@[a].value is Some by {
            assert(addresses@.contains(a));
            let x = choose|x: int| 0 <= x < addresses@.len() && addresses@[x] == a;
            assert(cells@[addresses@[x]].value is Some);
        }
    }
    true
}

/// Whether every rectangle of `rectangles` is ready.
pub fn rectangles_are_ready(cells: &CellMap, rectangles: &Vec<CellRectangle>) -> (ready: bool)
    requires
        forall|r: CellRectangle| #[trigger] rectangles@.contains(r) ==> r.well_formed(),
    ensures
        ready == rectangles_ready(cells@, rectangles@.to_set()),
{
    let mut i: usize = 0;
    while i < rectangles.len()
        invariant
            i <= rectangles.len(),
            forall|r: CellRectangle| #[trigger] rectangles@.contains(r) ==> r.well_formed(),
            forall|x: int| 0 <= x < i ==> rectangle_ready(cells@, #[trigger] rectangles@[x]),
        decreases rectangles.len() - i,
    {
        assert(rectangles@.contains(rectangles@[i as int]));
        if !rectangle_is_ready(cells, &rectangles[i]) {
            assert(rectangles@.to_set().contains(rectangles@[i as int]));
            return false;
        }
        i += 1;
    }
    proof {
        assert forall|r: CellRectangle| #[trigger] rectangles@.to_set().contains(r) implies rectangle_ready(
            cells@,
            r,
        ) by {
            let x = choose|x: int| 0 <= x < rectangles@.len() && rectangles@[x] == r;
            assert(rectangle_ready(cells@, rectangles@[x]));
        }
    }
    true
}

/// Adds the initial rectangles of `f` to `out`, keeping its elements distinct.
fn collect_initial_rectangles(f: &Formula, out: &mut Vec<CellRectangle>)
    requires
        rectangles_well_formed(f@),
        old(out)@.no_duplicates(),
        forall|r: CellRectangle| #[trigger] old(out)@.contains(r) ==> r.well_formed(),
    ensures
        final(out)@.no_duplicates(),
        forall|r: CellRectangle| #[trigger] final(out)@.contains(r) ==> r.well_formed(),
        final(out)@.to_set() == old(out)@.to_set() + initial_rectangles(f@),
    decreases f,
{
    match f {
        Formula::CellReference(a) => {
            proof {
                lemma_set_insert(out@, single_cell(*a));
            }
            rectangles_insert(out, CellRectangle::from_cell(*a));
            assert(out@.to_set() =~= old(out)@.to_set() + initial_rectangles(f@));
        },
        Formula::AreaSum(r) => {
            proof {
                lemma_set_insert(out@, *r);
            }
            rectangles_insert(out, *r);
            assert(out@.to_set() =~= old(out)@.to_set() + initial_rectangles(f@));
        },
        Formula::Conditional(c, _, _) => {
            collect_initial_rectangles(c, out);
        },
        Formula::Indirect(r) => {
            collect_initial_rectangles(r, out);
        },
        Formula::RandBetween(l, u) => {
            collect_initial_rectangles(l, out);
            collect_initial_rectangles(u, out);
            assert(out@.to_set() =~= old(out)@.to_set() + initial_rectangles(f@));
        },
        Formula::Sequence(r, c) => {
            collect_initial_rectangles(r, out);
            collect_initial_rectangles(c, out);
            assert(out@.to_set() =~= old(out)@.to_set() + initial_rectangles(f@));
        },
        _ => {
            assert(out@.to_set() =~= old(out)@.to_set() + initial_rectangles(f@));
        },
    }
}

/// The rectangles that any evaluation of `formula` reads (see
/// [`initial_rectangles`]), each once.
pub fn get_initial_child_rectangles(formula: &Formula) -> (rectangles: Vec<CellRectangle>)
    requires
        rectangles_well_formed(formula@),
    ensures
        rectangles@.no_duplicates(),
        forall|r: CellRectangle| #[trigger] rectangles@.contains(r) ==> r.well_formed(),
        rectangles@.to_set() == initial_rectangles(formula@),
{
    let mut rectangles: Vec<CellRectangle> = Vec::new();
    collect_initial_rectangles(formula, &mut rectangles);
    assert(rectangles@.to_set() =~= initial_rectangles(formula@));
    rectangles
}

/// At most one cell is the first in a rectangle that does not hold a
/// number.
proof fn lemma_first_non_number_unique(
    cells: Map<CellAddress, Cell>,
    r: CellRectangle,
    a1: CellAddress,
    a2: CellAddress,
)
    requires
        is_first_non_number(cells, r, a1),
        is_first_non_number(cells, r, a2),
    ensures
        a1 == a2,
{
    if a1 != a2 {
        if address_before(a1, a2) {
            assert(holds_number(cells, a1));
        } else {
            assert(address_before(a2, a1));
            assert(holds_number(cells, a2));
        }
    }
}

/// The value of the cell at `address` as a reference reads it.
fn referenced(cells: &CellMap, address: CellAddress) -> (value: SingleCellValue)
    ensures
        value@ == referenced_value(cells@, address),
{
    match cells.get(&address) {
        Some(cell) => match &cell.value {
            Some(v) => copy_value(v),
            None => SingleCellValue::Number(ZERO),
        },
        None => SingleCellValue::Number(ZERO),
    }
}

/// The sum over the numbers inside `rectangle`, added in the order column by
/// column and row by row, or the error for the first cell that does not hold
/// a number.
fn sum_area<A: NumberArithmetic>(cells: &CellMap, rectangle: &CellRectangle, arith: &A) -> (value:
    EvaluatedValue)
    requires
        rectangle.well_formed(),
        rectangle_ready(cells@, *rectangle),
    ensures
        sum_outcome(cells@, *rectangle, Some(value@)),
        sum_result(arith, cells@, *rectangle, value@),
{
    let addresses = cells.get_all_in_rectangle(rectangle);
    let mut sum: u64 = ZERO;
    let mut i: usize = 0;
    let ghost mut partial: Seq<u64> = seq![ZERO];
    while i < addresses.len()
        invariant
            i <= addresses.len(),
            forall|a: CellAddress|
                #![trigger addresses@.contains(a)]
                #![trigger cells@.contains_key(a)]
                addresses@.contains(a) <==> (cells@.contains_key(a) && rectangle.spec_contains(a)),
            forall|x: int, y: int|
                0 <= x < y < addresses@.len() ==> address_before(addresses@[x], addresses@[y]),
            rectangle_ready(cells@, *rectangle),
            forall|x: int| 0 <= x < i ==> holds_number(cells@, #[trigger] addresses@[x]),
            i == 0 ==> sum == ZERO,
            partial.len() == i + 1,
            partial.last() == sum,
            running_sums(arith, cells@, addresses@.take(i as int), partial),
        decreases addresses.len() - i,
    {
        let a = addresses[i];
        assert(addresses@.contains(a));
        let cell = match cells.get(&a) {
            Some(cell) => cell,
            None => {
                assert(false);
                return EvaluatedValue::SingleCellValue(SingleCellValue::Number(sum));
            },
        };
        let message = match &cell.value {
            Some(SingleCellValue::Number(n)) => {
                let ghost before = sum;
                sum = arith.add(sum, *n);
                proof {
                    let taken = addresses@.take(i as int);
                    let next = addresses@.take(i + 1);
                    let grown = partial.push(sum);
                    assert(number_in(cells@, a) == *n);
                    assert forall|x: int|
                        #![trigger next[x]]
                        0 <= x < next.len() implies call_ensures(
                        A::add,
                        (arith, grown[x], number_in(cells@, next[x])),
                        grown[x + 1],
                    ) by {
                        if x < i {
                            assert(next[x] == taken[x]);
                        } else {
                            assert(next[x] == a);
                        }
                    }
                    partial = grown;
                }
                i += 1;
                continue ;
            },
            Some(SingleCellValue::Boolean(_)) => "Summing over area with boolean",
            Some(SingleCellValue::Text(_)) => "Summing over area with text",
            Some(SingleCellValue::Error(_)) => "Summing over area with error",
            None => {
                assert(false);
                "Summing over area with error"
            },
        };
        proof {
            assert forall|b: CellAddress| #[trigger]
                cells@.contains_key(b) && rectangle.spec_contains(b) && address_before(b, a) implies holds_number(cells@, b) by {
                assert(addresses@.contains(b));
                let k = choose|k: int| 0 <= k < addresses@.len() && addresses@[k] == b;
                if k > i {
                    assert(address_before(addresses@[i as int], addresses@[k]));
                }
                assert(holds_number(cells@, addresses@[k]));
            }
            assert(is_first_non_number(cells@, *rectangle, a));
            let chosen = choose|c: CellAddress| #[trigger] is_first_non_number(cells@, *rectangle, c);
            lemma_first_non_number_unique(cells@, *rectangle, a, chosen);
        }
        return error(message);
    }
    proof {
        assert forall|a: CellAddress| !is_first_non_number(cells@, *rectangle, a) by {
            if is_first_non_number(cells@, *rectangle, a) {
                assert(addresses@.contains(a));
                let k = choose|k: int| 0 <= k < addresses@.len() && addresses@[k] == a;
                assert(holds_number(cells@, addresses@[k]));
            }
        }
        assert(addresses@.take(addresses@.len() as int) =~= addresses@);
        assert(lists_area(cells@, *rectangle, addresses@));
        if addresses@.len() == 0 {
            assert forall|a: CellAddress| #[trigger] cells@.contains_key(a) implies !rectangle.spec_contains(a) by {
                if rectangle.spec_contains(a) {
                    assert(addresses@.contains(a));
                }
            }
        } else {
            let a = addresses@[0];
            assert(addresses@.contains(a));
            assert(cells@.contains_key(a) && rectangle.spec_contains(a));
        }
    }
    EvaluatedValue::SingleCellValue(SingleCellValue::Number(sum))
}

/// A random integer between `lower` and `upper`, both included.
///
/// Calls `rand::Rng::random_range` on the thread-local generator
/// `rand::rng()` with the inclusive range `lower..=upper`; its documentation
/// states that the value lies in the range, and that the call panics only when
/// the range is empty, which `requires` excludes. Which integer comes out is
/// left to chance.
#[verifier::external_body]
fn random_integer_between(lower: i64, upper: i64) -> (n: i64)
    requires
        lower <= upper,
    ensures
        lower <= n <= upper,
{
    rand::Rng::random_range(&mut rand::rng(), lower..=upper)
}

/// Adds the rectangles of `extra` to `used`, keeping its elements distinct.
pub fn extend_rectangles(used: &mut Vec<CellRectangle>, extra: &Vec<CellRectangle>)
    requires
        old(used)@.no_duplicates(),
    ensures
        final(used)@.no_duplicates(),
        final(used)@.to_set() == old(used)@.to_set() + extra@.to_set(),
        forall|r: CellRectangle| #[trigger]
            final(used)@.contains(r) <==> (old(used)@.contains(r) || extra@.contains(r)),
{
    let mut i: usize = 0;
    while i < extra.len()
        invariant
            i <= extra.len(),
            used@.no_duplicates(),
            forall|r: CellRectangle| #[trigger]
                used@.contains(r) <==> (old(used)@.contains(r) || extra@.take(i as int).contains(r)),
        decreases extra.len() - i,
    {
        proof {
            lemma_set_insert(used@, extra@[i as int]);
            let p1 = extra@.take(i as int);
            let p2 = extra@.take(i + 1);
            assert(p2 =~= p1.push(extra@[i as int]));
            assert forall|r: CellRectangle| #[trigger] p2.contains(r) <==> (p1.contains(r) || r
                == extra@[i as int]) by {
                if p2.contains(r) {
                    let k = choose|k: int| 0 <= k < p2.len() && p2[k] == r;
                    if k < i {
                        assert(p1[k] == r);
                    }
                }
                if p1.contains(r) {
                    let k = choose|k: int| 0 <= k < p1.len() && p1[k] == r;
                    assert(p2[k] == r);
                }
                if r == extra@[i as int] {
                    assert(p2[i as int] == r);
                }
            }
        }
        rectangles_insert(used, extra[i]);
        i += 1;
    }
    assert(extra@.take(extra@.len() as int) == extra@);
    assert(used@.to_set() =~= old(used)@.to_set() + extra@.to_set());
}

/// How a conditional evaluates, given how its condition evaluated.
proof fn lemma_conditional_evaluates<A: NumberArithmetic>(
    arith: &A,
    c: FormulaView,
    t: FormulaView,
    e: FormulaView,
    cells: Map<CellAddress, Cell>,
    used: Set<CellRectangle>,
    co: Option<EvaluatedView>,
    u1: Set<CellRectangle>,
    outcome: Option<EvaluatedView>,
    used_after: Set<CellRectangle>,
)
    requires
        evaluates_with(arith, c, cells, used, co, u1),
        match co {
            None => outcome is None && used_after == u1,
            Some(EvaluatedView::Single(ValueView::Boolean(true))) => {
                let u2 = u1 + initial_rectangles(t);
                if rectangles_ready(cells, initial_rectangles(t)) {
                    evaluates_with(arith, t, cells, u2, outcome, used_after)
                } else {
                    outcome is None && used_after == u2
                }
            },
            Some(EvaluatedView::Single(ValueView::Boolean(false))) => {
                let u2 = u1 + initial_rectangles(e);
                if rectangles_ready(cells, initial_rectangles(e)) {
                    evaluates_with(arith, e, cells, u2, outcome, used_after)
                } else {
                    outcome is None && used_after == u2
                }
            },
            Some(_) => outcome == error_value(message_condition()) && used_after == u1,
        },
    ensures
        evaluates_with(arith, 
            FormulaView::Conditional(Box::new(c), Box::new(t), Box::new(e)),
            cells,
            used,
            outcome,
            used_after,
        ),
{
    let d1 = choose|d: Derivation| #[trigger] evaluates_by_with(arith, c, cells, used, co, u1, d);
    let f = FormulaView::Conditional(Box::new(c), Box::new(t), Box::new(e));
    match co {
        Some(EvaluatedView::Single(ValueView::Boolean(b))) => {
            let g = if b { t } else { e };
            let u2 = u1 + initial_rectangles(g);
            if rectangles_ready(cells, initial_rectangles(g)) {
                let d2 = choose|d: Derivation| #[trigger] evaluates_by_with(arith, g, cells, u2, outcome, used_after, d);
                assert(evaluates_by_with(arith, f, cells, used, outcome, used_after,
                    Derivation::Step(Box::new(d1), co, u1, Box::new(d2), None, Set::empty())));
            } else {
                lemma_computes_pending(arith, g, cells);
                assert(evaluates_by_with(arith, f, cells, used, outcome, used_after,
                    Derivation::Step(Box::new(d1), co, u1, Box::new(Derivation::Done), None, Set::empty())));
            }
        },
        _ => {
            assert(evaluates_by_with(arith, f, cells, used, outcome, used_after,
                Derivation::Step(Box::new(d1), co, u1, Box::new(Derivation::Done), None, Set::empty())));
        },
    }
}

/// How an indirect reference evaluates, given how its reference evaluated.
proof fn lemma_indirect_evaluates<A: NumberArithmetic>(
    arith: &A,
    r: FormulaView,
    cells: Map<CellAddress, Cell>,
    used: Set<CellRectangle>,
    ro: Option<EvaluatedView>,
    u1: Set<CellRectangle>,
    outcome: Option<EvaluatedView>,
    used_after: Set<CellRectangle>,
)
    requires
        evaluates_with(arith, r, cells, used, ro, u1),
        match ro {
            None => outcome is None && used_after == u1,
            Some(EvaluatedView::Single(ValueView::Text(s))) => match spec_parse_cell_address(s) {
                Some(a) => {
                    &&& used_after == u1.insert(single_cell(a))
                    &&& if rectangle_ready(cells, single_cell(a)) {
                        outcome == Some(EvaluatedView::Single(referenced_value(cells, a)))
                    } else {
                        outcome is None
                    }
                },
                None => outcome == error_value(message_indirect_address()) && used_after == u1,
            },
            Some(_) => outcome == error_value(message_indirect_text()) && used_after == u1,
        },
    ensures
        evaluates_with(arith, FormulaView::Indirect(Box::new(r)), cells, used, outcome, used_after),
{
    let d1 = choose|d: Derivation| #[trigger] evaluates_by_with(arith, r, cells, used, ro, u1, d);
    assert(evaluates_by_with(arith, FormulaView::Indirect(Box::new(r)), cells, used, outcome, used_after,
        Derivation::Step(Box::new(d1), ro, u1, Box::new(Derivation::Done), None, Set::empty())));
}

/// How a random number evaluates when its lower bound is pending.
proof fn lemma_random_pending<A: NumberArithmetic>(
    arith: &A,
    l: FormulaView,
    u: FormulaView,
    cells: Map<CellAddress, Cell>,
    used: Set<CellRectangle>,
    u1: Set<CellRectangle>,
)
    requires
        evaluates_with(arith, l, cells, used, None, u1),
    ensures
        evaluates_with(arith, FormulaView::RandBetween(Box::new(l), Box::new(u)), cells, used, None, u1),
{
    let d1 = choose|d: Derivation| #[trigger] evaluates_by_with(arith, l, cells, used, None, u1, d);
    lemma_computes_pending(arith, u, cells);
    assert(evaluates_by_with(arith, FormulaView::RandBetween(Box::new(l), Box::new(u)), cells, used, None, u1,
        Derivation::Step(Box::new(d1), None, u1, Box::new(Derivation::Done), None, Set::empty())));
}

/// How a random number evaluates, given how both bounds evaluated.
proof fn lemma_random_evaluates<A: NumberArithmetic>(
    arith: &A,
    l: FormulaView,
    u: FormulaView,
    cells: Map<CellAddress, Cell>,
    used: Set<CellRectangle>,
    lv: EvaluatedView,
    u1: Set<CellRectangle>,
    uo: Option<EvaluatedView>,
    u2: Set<CellRectangle>,
    outcome: Option<EvaluatedView>,
)
    requires
        evaluates_with(arith, l, cells, used, Some(lv), u1),
        evaluates_with(arith, u, cells, u1, uo, u2),
        match uo {
            None => outcome is None,
            Some(uv) => random_outcome(lv, uv, outcome) && (outcome is Some ==> random_result(
                arith,
                lv,
                uv,
                outcome.unwrap(),
            )),
        },
    ensures
        evaluates_with(arith, FormulaView::RandBetween(Box::new(l), Box::new(u)), cells, used, outcome, u2),
{
    let d1 = choose|d: Derivation| #[trigger] evaluates_by_with(arith, l, cells, used, Some(lv), u1, d);
    let d2 = choose|d: Derivation| #[trigger] evaluates_by_with(arith, u, cells, u1, uo, u2, d);
    assert(evaluates_by_with(arith, FormulaView::RandBetween(Box::new(l), Box::new(u)), cells, used, outcome, u2,
        Derivation::Step(Box::new(d1), Some(lv), u1, Box::new(d2), uo, u2)));
}

/// How a sequence evaluates when its number of rows is pending.
proof fn lemma_sequence_pending<A: NumberArithmetic>(
    arith: &A,
    r: FormulaView,
    c: FormulaView,
    cells: Map<CellAddress, Cell>,
    used: Set<CellRectangle>,
    u1: Set<CellRectangle>,
)
    requires
        evaluates_with(arith, r, cells, used, None, u1),
    ensures
        evaluates_with(arith, FormulaView::Sequence(Box::new(r), Box::new(c)), cells, used, None, u1),
{
    let d1 = choose|d: Derivation| #[trigger] evaluates_by_with(arith, r, cells, used, None, u1, d);
    lemma_computes_pending(arith, c, cells);
    assert(evaluates_by_with(arith, FormulaView::Sequence(Box::new(r), Box::new(c)), cells, used, None, u1,
        Derivation::Step(Box::new(d1), None, u1, Box::new(Derivation::Done), None, Set::empty())));
}

/// How a sequence evaluates, given how its numbers of rows and of columns
/// evaluated.
proof fn lemma_sequence_evaluates<A: NumberArithmetic>(
    arith: &A,
    r: FormulaView,
    c: FormulaView,
    cells: Map<CellAddress, Cell>,
    used: Set<CellRectangle>,
    rv: EvaluatedView,
    u1: Set<CellRectangle>,
    co: Option<EvaluatedView>,
    u2: Set<CellRectangle>,
    outcome: Option<EvaluatedView>,
)
    requires
        evaluates_with(arith, r, cells, used, Some(rv), u1),
        evaluates_with(arith, c, cells, u1, co, u2),
        match co {
            None => outcome is None,
            Some(cv) => sequence_outcome(rv, cv, outcome) && (outcome is Some ==> sequence_result(
                arith,
                rv,
                cv,
                outcome.unwrap(),
            )),
        },
    ensures
        evaluates_with(arith, FormulaView::Sequence(Box::new(r), Box::new(c)), cells, used, outcome, u2),
{
    let d1 = choose|d: Derivation| #[trigger] evaluates_by_with(arith, r, cells, used, Some(rv), u1, d);
    let d2 = choose|d: Derivation| #[trigger] evaluates_by_with(arith, c, cells, u1, co, u2, d);
    assert(evaluates_by_with(arith, FormulaView::Sequence(Box::new(r), Box::new(c)), cells, used, outcome, u2,
        Derivation::Step(Box::new(d1), Some(rv), u1, Box::new(d2), co, u2)));
}

/// Evaluates `f`, adding the rectangles it reads beyond its initial ones to
/// `used` (see [`evaluates`]); `None` when a rectangle it needs holds a cell
/// without a value.
fn evaluate_node<A: NumberArithmetic>(
    cells: &CellMap,
    f: &Formula,
    arith: &A,
    used: &mut Vec<CellRectangle>,
) -> (outcome: Option<EvaluatedValue>)
    requires
        rectangles_well_formed(f@),
        rectangles_ready(cells@, initial_rectangles(f@)),
        old(used)@.no_duplicates(),
        forall|r: CellRectangle| #[trigger] old(used)@.contains(r) ==> r.well_formed(),
    ensures
        final(used)@.no_duplicates(),
        forall|r: CellRectangle| #[trigger] final(used)@.contains(r) ==> r.well_formed(),
        evaluates_with(arith, f@, cells@, old(used)@.to_set(), outcome_view(outcome), final(used)@.to_set()),
        f is NumberLiteral ==> literal_result(arith, f->NumberLiteral_0@, outcome_view(outcome)),
    decreases f, 1nat,
{
    let ghost u0 = used@.to_set();
    let leaf: EvaluatedValue = match f {
        Formula::NumberLiteral(t) => EvaluatedValue::SingleCellValue(
            SingleCellValue::Number(arith.number_from_literal(t.as_str())),
        ),
        Formula::BooleanLiteral(b) => EvaluatedValue::SingleCellValue(SingleCellValue::Boolean(*b)),
        Formula::TextLiteral(t) => EvaluatedValue::SingleCellValue(SingleCellValue::Text(t.clone())),
        Formula::IllFormed(t) => EvaluatedValue::SingleCellValue(SingleCellValue::Error(t.clone())),
        Formula::CellReference(a) => EvaluatedValue::SingleCellValue(referenced(cells, *a)),
        Formula::AreaSum(r) => {
            assert(initial_rectangles(f@).contains(*r));
            sum_area(cells, r, arith)
        },
        Formula::Conditional(_, _, _) => {
            return evaluate_conditional(cells, f, arith, used);
        },
        Formula::Indirect(_) => {
            return evaluate_indirect(cells, f, arith, used);
        },
        Formula::RandBetween(_, _) => {
            return evaluate_random(cells, f, arith, used);
        },
        Formula::Sequence(_, _) => {
            return evaluate_sequence(cells, f, arith, used);
        },
    };
    assert(evaluates_by_with(arith, f@, cells@, u0, Some(leaf@), u0, Derivation::Done));
    Some(leaf)
}

/// Evaluates a conditional: its condition, then the branch that the
/// condition selects.
fn evaluate_conditional<A: NumberArithmetic>(
    cells: &CellMap,
    f: &Formula,
    arith: &A,
    used: &mut Vec<CellRectangle>,
) -> (outcome: Option<EvaluatedValue>)
    requires
        rectangles_well_formed(f@),
        rectangles_ready(cells@, initial_rectangles(f@)),
        old(used)@.no_duplicates(),
        forall|r: CellRectangle| #[trigger] old(used)@.contains(r) ==> r.well_formed(),
        f is Conditional,
    ensures
        final(used)@.no_duplicates(),
        forall|r: CellRectangle| #[trigger] final(used)@.contains(r) ==> r.well_formed(),
        evaluates_with(arith, f@, cells@, old(used)@.to_set(), outcome_view(outcome), final(used)@.to_set()),
    decreases f, 0nat,
{
    let ghost u0 = used@.to_set();
    let (c, t, e) = match f {
        Formula::Conditional(c, t, e) => (c, t, e),
        _ => {
            assert(false);
            return None;
        },
    };
    assert(f@ == FormulaView::Conditional(Box::new(c@), Box::new(t@), Box::new(e@)));
    let co = evaluate_node(cells, c, arith, used);
    let ghost u1 = used@.to_set();
    let ghost cov = outcome_view(co);
    let result = match co {
        None => None,
        Some(EvaluatedValue::SingleCellValue(SingleCellValue::Boolean(b))) => {
            let branch: &Formula = if b {
                t
            } else {
                e
            };
            let initial = get_initial_child_rectangles(branch);
            extend_rectangles(used, &initial);
            assert(initial@.to_set() == initial_rectangles(branch@));
            assert(used@.to_set() == u1 + initial_rectangles(branch@));
            if rectangles_are_ready(cells, &initial) {
                evaluate_node(cells, branch, arith, used)
            } else {
                None
            }
        },
        Some(_) => Some(error("Condition is not boolean")),
    };
    proof {
        lemma_conditional_evaluates(arith, 
            c@,
            t@,
            e@,
            cells@,
            u0,
            cov,
            u1,
            outcome_view(result),
            used@.to_set(),
        );
    }
    result
}

/// Evaluates an indirect reference: the reference, then the cell whose
/// address it gives.
fn evaluate_indirect<A: NumberArithmetic>(
    cells: &CellMap,
    f: &Formula,
    arith: &A,
    used: &mut Vec<CellRectangle>,
) -> (outcome: Option<EvaluatedValue>)
    requires
        rectangles_well_formed(f@),
        rectangles_ready(cells@, initial_rectangles(f@)),
        old(used)@.no_duplicates(),
        forall|r: CellRectangle| #[trigger] old(used)@.contains(r) ==> r.well_formed(),
        f is Indirect,
    ensures
        final(used)@.no_duplicates(),
        forall|r: CellRectangle| #[trigger] final(used)@.contains(r) ==> r.well_formed(),
        evaluates_with(arith, f@, cells@, old(used)@.to_set(), outcome_view(outcome), final(used)@.to_set()),
    decreases f, 0nat,
{
    let ghost u0 = used@.to_set();
    let r = match f {
        Formula::Indirect(r) => r,
        _ => {
            assert(false);
            return None;
        },
    };
    assert(f@ == FormulaView::Indirect(Box::new(r@)));
    let ro = evaluate_node(cells, r, arith, used);
    let ghost u1 = used@.to_set();
    let ghost rov = outcome_view(ro);
    let result = match ro {
        None => None,
        Some(EvaluatedValue::SingleCellValue(SingleCellValue::Text(text))) => {
            let chars = chars_of(text.as_str());
            match parse_cell_address(chars.as_slice()) {
                Some(a) => {
                    let rectangle = CellRectangle::from_cell(a);
                    proof {
                        lemma_set_insert(used@, rectangle);
                    }
                    rectangles_insert(used, rectangle);
                    assert(rectangle == single_cell(a));
                    assert(used@.to_set() == u1.insert(single_cell(a)));
                    if rectangle_is_ready(cells, &rectangle) {
                        Some(EvaluatedValue::SingleCellValue(referenced(cells, a)))
                    } else {
                        None
                    }
                },
                None => Some(error("Indirect reference is not a valid cell address")),
            }
        },
        Some(_) => Some(error("Indirect reference is not text")),
    };
    proof {
        lemma_indirect_evaluates(arith, r@, cells@, u0, rov, u1, outcome_view(result), used@.to_set());
    }
    result
}

/// Evaluates a random number: both bounds, then a random integer between
/// them.
fn evaluate_random<A: NumberArithmetic>(
    cells: &CellMap,
    f: &Formula,
    arith: &A,
    used: &mut Vec<CellRectangle>,
) -> (outcome: Option<EvaluatedValue>)
    requires
        rectangles_well_formed(f@),
        rectangles_ready(cells@, initial_rectangles(f@)),
        old(used)@.no_duplicates(),
        forall|r: CellRectangle| #[trigger] old(used)@.contains(r) ==> r.well_formed(),
        f is RandBetween,
    ensures
        final(used)@.no_duplicates(),
        forall|r: CellRectangle| #[trigger] final(used)@.contains(r) ==> r.well_formed(),
        evaluates_with(arith, f@, cells@, old(used)@.to_set(), outcome_view(outcome), final(used)@.to_set()),
    decreases f, 0nat,
{
    let ghost u0 = used@.to_set();
    let (l, u) = match f {
        Formula::RandBetween(l, u) => (l, u),
        _ => {
            assert(false);
            return None;
        },
    };
    assert(f@ == FormulaView::RandBetween(Box::new(l@), Box::new(u@)));
    assert(initial_rectangles(l@).subset_of(initial_rectangles(f@)));
    assert(initial_rectangles(u@).subset_of(initial_rectangles(f@)));
    let lo = evaluate_node(cells, l, arith, used);
    let ghost u1 = used@.to_set();
    let lower_value = match lo {
        None => {
            proof {
                lemma_random_pending(arith, l@, u@, cells@, u0, u1);
            }
            return None;
        },
        Some(v) => v,
    };
    let uo = evaluate_node(cells, u, arith, used);
    let ghost u2 = used@.to_set();
    let ghost uov = outcome_view(uo);
    let result = match uo {
        None => None,
        Some(upper_value) => Some(random_between_values(&lower_value, &upper_value, arith)),
    };
    proof {
        lemma_random_evaluates(arith, l@, u@, cells@, u0, lower_value@, u1, uov, u2, outcome_view(result));
    }
    result
}

/// A random integer between two evaluated bounds, or the error that the
/// bounds call for.
fn random_between_values<A: NumberArithmetic>(
    lower_value: &EvaluatedValue,
    upper_value: &EvaluatedValue,
    arith: &A,
) -> (value: EvaluatedValue)
    ensures
        random_outcome(lower_value@, upper_value@, Some(value@)),
        random_result(arith, lower_value@, upper_value@, value@),
{
    let lower = match lower_value {
        EvaluatedValue::SingleCellValue(SingleCellValue::Number(n)) => {
            let read = arith.integer_value(*n);
            assert(call_ensures(A::integer_value, (arith, *n), read));
            read
        },
        _ => None,
    };
    let ghost lower_read = lower;
    assert(lower_value@ matches EvaluatedView::Single(ValueView::Number(n)) ==> call_ensures(
        A::integer_value,
        (arith, n),
        lower_read,
    ));
    let lower = match lower {
        Some(x) => x,
        None => return error("The lower bound is not an integer"),
    };
    let upper = match upper_value {
        EvaluatedValue::SingleCellValue(SingleCellValue::Number(n)) => {
            let read = arith.integer_value(*n);
            assert(call_ensures(A::integer_value, (arith, *n), read));
            read
        },
        _ => None,
    };
    let ghost upper_read = upper;
    assert(upper_value@ matches EvaluatedView::Single(ValueView::Number(n)) ==> call_ensures(
        A::integer_value,
        (arith, n),
        upper_read,
    ));
    let upper = match upper {
        Some(x) => x,
        None => return error("The upper bound is not an integer"),
    };
    if lower > upper {
        return error("The lower bound is greater than the upper bound");
    }
    let n = random_integer_between(lower, upper);
    let number = arith.from_integer(n);
    assert(call_ensures(A::from_integer, (arith, n), number));
    let value = EvaluatedValue::SingleCellValue(SingleCellValue::Number(number));
    proof {
        assert(lower <= n <= upper);
        assert(upper_read == Some(upper));
        let un = match upper_value@ {
            EvaluatedView::Single(ValueView::Number(x)) => x,
            _ => 0,
        };
        assert(upper_value@ == EvaluatedView::Single(ValueView::Number(un)));
        assert(call_ensures(A::integer_value, (arith, un), upper_read));
        assert(random_upper(arith, lower, upper_value@, value@));
        assert(random_result(arith, lower_value@, upper_value@, value@));
    }
    value
}

/// Evaluates a sequence: the numbers of rows and of columns, then the array
/// that counts from one, row after row.
fn evaluate_sequence<A: NumberArithmetic>(
    cells: &CellMap,
    f: &Formula,
    arith: &A,
    used: &mut Vec<CellRectangle>,
) -> (outcome: Option<EvaluatedValue>)
    requires
        rectangles_well_formed(f@),
        rectangles_ready(cells@, initial_rectangles(f@)),
        old(used)@.no_duplicates(),
        forall|r: CellRectangle| #[trigger] old(used)@.contains(r) ==> r.well_formed(),
        f is Sequence,
    ensures
        final(used)@.no_duplicates(),
        forall|r: CellRectangle| #[trigger] final(used)@.contains(r) ==> r.well_formed(),
        evaluates_with(arith, f@, cells@, old(used)@.to_set(), outcome_view(outcome), final(used)@.to_set()),
    decreases f, 0nat,
{
    let ghost u0 = used@.to_set();
    let (r, c) = match f {
        Formula::Sequence(r, c) => (r, c),
        _ => {
            assert(false);
            return None;
        },
    };
    assert(f@ == FormulaView::Sequence(Box::new(r@), Box::new(c@)));
    assert(initial_rectangles(r@).subset_of(initial_rectangles(f@)));
    assert(initial_rectangles(c@).subset_of(initial_rectangles(f@)));
    let ro = evaluate_node(cells, r, arith, used);
    let ghost u1 = used@.to_set();
    let rows_value = match ro {
        None => {
            proof {
                lemma_sequence_pending(arith, r@, c@, cells@, u0, u1);
            }
            return None;
        },
        Some(v) => v,
    };
    let co = evaluate_node(cells, c, arith, used);
    let ghost u2 = used@.to_set();
    let ghost cov = outcome_view(co);
    let result = match co {
        None => None,
        Some(columns_value) => Some(sequence_of_values(&rows_value, &columns_value, arith)),
    };
    proof {
        lemma_sequence_evaluates(arith, r@, c@, cells@, u0, rows_value@, u1, cov, u2, outcome_view(result));
    }
    result
}

/// The array that counts from one, row after row, with the given numbers of
/// rows and of columns, or the error that they call for.
fn sequence_of_values<A: NumberArithmetic>(
    rows_value: &EvaluatedValue,
    columns_value: &EvaluatedValue,
    arith: &A,
) -> (value: EvaluatedValue)
    ensures
        sequence_outcome(rows_value@, columns_value@, Some(value@)),
        sequence_result(arith, rows_value@, columns_value@, value@),
{
    let rows = match rows_value {
        EvaluatedValue::SingleCellValue(SingleCellValue::Number(n)) => {
            let counted = arith.count_value(*n);
            assert(call_ensures(A::count_value, (arith, *n), counted));
            counted
        },
        _ => None,
    };
    let ghost rows_read = rows;
    assert(rows_value@ matches EvaluatedView::Single(ValueView::Number(n)) ==> call_ensures(
        A::count_value,
        (arith, n),
        rows_read,
    ));
    let rows: usize = match rows {
        Some(k) => if k >= 1 {
            k
        } else {
            return error("rows must be a positive integer");
        },
        None => return error("rows must be a positive integer"),
    };
    let columns = match columns_value {
        EvaluatedValue::SingleCellValue(SingleCellValue::Number(n)) => {
            let counted = arith.count_value(*n);
            assert(call_ensures(A::count_value, (arith, *n), counted));
            counted
        },
        _ => None,
    };
    let ghost columns_read = columns;
    assert(columns_value@ matches EvaluatedView::Single(ValueView::Number(n)) ==> call_ensures(
        A::count_value,
        (arith, n),
        columns_read,
    ));
    let columns: usize = match columns {
        Some(k) => if k >= 1 {
            k
        } else {
            return error("columns must be a positive integer");
        },
        None => return error("columns must be a positive integer"),
    };
    let total: usize = match rows.checked_mul(columns) {
        Some(total) => total,
        None => return error("The required cells would extend beyond the edges of the spreadsheet"),
    };
    let mut elements: Vec<SingleCellValue> = Vec::new();
    let mut k: usize = 0;
    while k < total
        invariant
            k <= total,
            elements@.len() == k,
            forall|j: int| 0 <= j < k ==> #[trigger] elements@[j] is Number,
            forall|j: int| 0 <= j < k ==> (#[trigger] elements@[j] matches SingleCellValue::Number(x)
                && call_ensures(A::from_count, (arith, (j + 1) as usize), x)),
            total == rows * columns,
        decreases total - k,
    {
        let element = arith.from_count(k + 1);
        elements.push(SingleCellValue::Number(element));
        k += 1;
    }
    let array = array_from_elements(rows, columns, elements);
    proof {
        let ev = array_elements_view(array);
        assert(ev.len() == rows * columns);
        assert forall|j: int| 0 <= j < ev.len() implies #[trigger] ev[j] is Number by {
            assert(array_elements(array)[j] is Number);
        }
        assert forall|j: int| 0 <= j < ev.len() implies (#[trigger] ev[j] matches ValueView::Number(x)
            && call_ensures(A::from_count, (arith, (j + 1) as usize), x)) by {
            assert(array_elements(array)[j] == elements@[j]);
        }
        assert(counted_array(arith, rows, columns, EvaluatedValue::ArrayValue(array)@));
    }
    EvaluatedValue::ArrayValue(array)
}

/// The views of the elements of an array.
pub open spec fn array_elements_view(array: ArrayValue) -> Seq<ValueView> {
    array_elements(array).map_values(|v: SingleCellValue| v@)
}

/// Evaluates `formula` on the values of `cells`.
///
/// When a cell inside one of the formula's initial rectangles has no value,
/// the result is `Err` with those rectangles. Otherwise the formula is
/// evaluated as [`evaluates`] describes, having read its initial rectangles
/// first, with its numbers computed by `arith` as [`evaluates_with`]
/// describes: `Ok` holds the value and every rectangle read, `Err` every
/// rectangle read up to the one whose cells are not all evaluated.
pub fn evaluate_formula<A: NumberArithmetic>(cells: &CellMap, formula: &Formula, arith: &A) -> (result:
    Result<CompletedEvaluationResult, Vec<CellRectangle>>)
    requires
        rectangles_well_formed(formula@),
    ensures
        match result {
            Ok(done) => {
                &&& rectangles_ready(cells@, initial_rectangles(formula@))
                &&& done.1@.no_duplicates()
                &&& forall|r: CellRectangle| #[trigger] done.1@.contains(r) ==> r.well_formed()
                &&& evaluates(
                    formula@,
                    cells@,
                    initial_rectangles(formula@),
                    Some(done.0@),
                    done.1@.to_set(),
                )
                &&& evaluates_with(
                    arith,
                    formula@,
                    cells@,
                    initial_rectangles(formula@),
                    Some(done.0@),
                    done.1@.to_set(),
                )
            },
            Err(rectangles) => {
                &&& rectangles@.no_duplicates()
                &&& forall|r: CellRectangle| #[trigger] rectangles@.contains(r) ==> r.well_formed()
                &&& if rectangles_ready(cells@, initial_rectangles(formula@)) {
                    &&& evaluates(
                        formula@,
                        cells@,
                        initial_rectangles(formula@),
                        None,
                        rectangles@.to_set(),
                    )
                    &&& evaluates_with(
                        arith,
                        formula@,
                        cells@,
                        initial_rectangles(formula@),
                        None,
                        rectangles@.to_set(),
                    )
                } else {
                    rectangles@.to_set() == initial_rectangles(formula@)
                }
            },
        },
{
    let mut used = get_initial_child_rectangles(formula);
    if !rectangles_are_ready(cells, &used) {
        return Err(used);
    }
    let ghost initial = used@.to_set();
    let outcome = evaluate_node(cells, formula, arith, &mut used);
    proof {
        lemma_with_evaluates(arith, formula@, cells@, initial, outcome_view(outcome), used@.to_set());
    }
    match outcome {
        Some(value) => Ok(CompletedEvaluationResult(value, used)),
        None => Err(used),
    }
}

} // verus!
