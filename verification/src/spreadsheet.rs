use vstd::prelude::*;
use crate::address::{CellAddress, CellRectangle};
use crate::cell::{Cell, IndependentData, Kind, vec_insert, vec_remove};
use crate::cell_map::CellMap;
use crate::evaluation::{
    evaluate_formula, extend_rectangles, get_initial_child_rectangles, initial_rectangles,
    lemma_no_initial_rectangles, lemma_reads_no_cells_evaluates, reads_no_cells, evaluates,
    rectangles_ready, rectangle_ready, message_edges, message_not_free, agree_on, covers, same_cell_at, Derivation,
    array_elements_view,
    evaluates_by, lemma_evaluates_agree, evaluates_with,
};
use crate::evaluation_queue::{
    queued_or_exhausted, lemma_extend_covers, count_in, MAX_ADDITIONS,
    EvaluationQueue, extend_model, lemma_extend_queues, lemma_extend_work, remaining_work,
};
use crate::formula::{
    FormulaView, lemma_parsed_rectangles_well_formed, parse, spec_is_volatile, spec_parse,
};
use crate::parent_lookup_tree::ParentLookupTree;
use crate::spill_ownership_map::{ClaimStatus, SpillOwnershipMap};
use crate::text::{chars_of, is_whitespace, spec_is_whitespace, spec_normalize};
use crate::value_types::{
    CompletedEvaluationResult, EvaluatedValue, EvaluatedView, NumberArithmetic, SingleCellValue, Value,
    ValueView, array_dimensions, array_element_list, copy_value, spill_rectangle_of, ArrayValue,
};

verus! {

/// What a cell holds of its own: its raw and parsed formula, for a cell with
/// a formula of its own at `a`; `None` for spill-over or no cell.
pub open spec fn formula_at(cells: Map<CellAddress, Cell>, a: CellAddress) -> Option<
    (Seq<char>, FormulaView),
> {
    if cells.contains_key(a) {
        cells[a].formula_part()
    } else {
        None
    }
}

/// Whether two states of the cells hold the same formulas at the same
/// addresses.
pub open spec fn same_formulas(c1: Map<CellAddress, Cell>, c2: Map<CellAddress, Cell>) -> bool {
    forall|a: CellAddress|
        #![trigger formula_at(c1, a)]
        #![trigger formula_at(c2, a)]
        formula_at(c1, a) == formula_at(c2, a)
}

/// Whether every cell of `c1` has the same value in `c2`.
pub open spec fn same_values(c1: Map<CellAddress, Cell>, c2: Map<CellAddress, Cell>) -> bool {
    forall|a: CellAddress| #[trigger] c1.contains_key(a) ==> c2[a].value == c1[a].value
}

/// A cell with a formula of its own holds the parse of its raw formula and
/// only well-formed child rectangles.
pub open spec fn cell_well_formed(c: Cell) -> bool {
    match c.kind {
        Kind::Independent(data) => {
            &&& data.parsed_formula@ == spec_parse(data.raw_formula@)
            &&& forall|r: CellRectangle| #[trigger]
                data.child_rectangles@.contains(r) ==> r.well_formed()
        },
        Kind::Dependent => true,
    }
}

/// Whether `r` is one of the child rectangles of the cell at `p`.
pub open spec fn child_rectangle_of(cells: Map<CellAddress, Cell>, p: CellAddress, r: CellRectangle) -> bool {
    cells.contains_key(p) && cells[p].spec_child_rectangles().contains(r)
}

/// Whether the cell at `x` has `y` among its children.
pub open spec fn has_child(cells: Map<CellAddress, Cell>, x: CellAddress, y: CellAddress) -> bool {
    cells.contains_key(x) && cells[x].spec_children().contains(y)
}

/// Whether the cell at `y` has `x` among its parents.
pub open spec fn has_parent(cells: Map<CellAddress, Cell>, y: CellAddress, x: CellAddress) -> bool {
    cells.contains_key(y) && cells[y].parents@.contains(x)
}

/// Whether children and parents agree: `y` is a child of `x` exactly when
/// `x` is a parent of `y`.
pub open spec fn links_agree(cells: Map<CellAddress, Cell>) -> bool {
    forall|x: CellAddress, y: CellAddress|
        #![trigger has_child(cells, x, y)]
        #![trigger has_parent(cells, y, x)]
        has_child(cells, x, y) <==> has_parent(cells, y, x)
}

/// Whether the cell at `y` lies inside one of the child rectangles of the
/// cell at `x`.
pub open spec fn in_child_rectangles(cells: Map<CellAddress, Cell>, x: CellAddress, y: CellAddress) -> bool {
    exists|r: CellRectangle| #[trigger] child_rectangle_of(cells, x, r) && r.spec_contains(y)
}

/// Whether `y` is a child of `x` exactly when a cell exists at `y` inside
/// one of `x`'s child rectangles.
pub open spec fn children_exact(cells: Map<CellAddress, Cell>, x: CellAddress, y: CellAddress) -> bool {
    has_child(cells, x, y) <==> (cells.contains_key(y) && in_child_rectangles(cells, x, y))
}

/// Whether every cell's children are exactly the cells inside its child
/// rectangles.
pub open spec fn children_complete(cells: Map<CellAddress, Cell>) -> bool {
    forall|x: CellAddress, y: CellAddress| #[trigger] children_exact(cells, x, y)
}

/// Whether `change` may alter which cells are children of the changed cell,
/// or its child rectangles, where `y` is concerned.
spec fn touches_children(change: CellChange, y: CellAddress) -> bool {
    match change {
        CellChange::AddChild(c) => y == c,
        CellChange::RemoveChild(c) => y == c,
        CellChange::ClearChildren => true,
        CellChange::SetChildRectangles(_) => true,
        _ => false,
    }
}

/// Whether `y` is a parent of `cell` after `change`.
spec fn parent_after(change: CellChange, cell: Cell, y: CellAddress) -> bool {
    match change {
        CellChange::AddParent(p) => cell.parents@.contains(y) || y == p,
        CellChange::RemoveParent(p) => cell.parents@.contains(y) && y != p,
        CellChange::ClearParents => false,
        _ => cell.parents@.contains(y),
    }
}

/// Whether `y` is a child of `cell` after `change`.
spec fn child_after(change: CellChange, cell: Cell, y: CellAddress) -> bool {
    match change {
        CellChange::AddChild(c) => cell.spec_children().contains(y) || (y == c
            && cell.is_independent()),
        CellChange::RemoveChild(c) => cell.spec_children().contains(y) && y != c,
        CellChange::ClearChildren => false,
        _ => cell.spec_children().contains(y),
    }
}

/// The child rectangles of `cell` after `change`.
spec fn rectangles_after(change: CellChange, cell: Cell) -> Seq<CellRectangle> {
    match change {
        CellChange::SetChildRectangles(rs) => if cell.is_independent() {
            rs@
        } else {
            cell.spec_child_rectangles()
        },
        _ => cell.spec_child_rectangles(),
    }
}

/// Whether the cell at `b` has a formula of its own that reads no cell.
pub open spec fn reads_nothing_at(cells: Map<CellAddress, Cell>, b: CellAddress) -> bool {
    match formula_at(cells, b) {
        Some(p) => reads_no_cells(p.1),
        None => false,
    }
}

/// Whether the cell at `b` holds a value that its formula, which reads no
/// cell, gives.
pub open spec fn holds_own_value(cells: Map<CellAddress, Cell>, b: CellAddress) -> bool {
    match formula_at(cells, b) {
        Some(p) => cells[b].value matches Some(v) && evaluates(
            p.1,
            Map::<CellAddress, Cell>::empty(),
            Set::<CellRectangle>::empty(),
            Some(EvaluatedView::Single(v@)),
            Set::<CellRectangle>::empty(),
        ),
        None => false,
    }
}

/// The claim of the cell at `a`, if it has one.
pub open spec fn claim_of(
    claims: Map<CellAddress, (CellRectangle, ClaimStatus)>,
    a: CellAddress,
) -> Option<(CellRectangle, ClaimStatus)> {
    if claims.contains_key(a) {
        Some(claims[a])
    } else {
        None
    }
}

/// Whether a cell at `a` with value `w` and claim `claim` shows the outcome
/// `o` of its formula: without a claim, `o` is that single value; with an
/// active claim, `o` is an array whose first element is `w` and that spills
/// over exactly the claimed rectangle.
pub open spec fn shows(
    o: EvaluatedView,
    w: ValueView,
    claim: Option<(CellRectangle, ClaimStatus)>,
    a: CellAddress,
) -> bool {
    match claim {
        None => o == EvaluatedView::Single(w),
        Some(c) => c.1 == ClaimStatus::Active && match o {
            EvaluatedView::Array(elements, rows, columns) => elements.len() > 0 && elements[0] == w
                && spill_rectangle_of(a, rows as int, columns as int) == Some(c.0),
            EvaluatedView::Single(_) => false,
        },
    }
}

/// Whether no cell of `cells` inside `r` stands anywhere but at `owner`.
pub open spec fn spill_area_free(cells: Map<CellAddress, Cell>, r: CellRectangle, owner: CellAddress) -> bool {
    forall|b: CellAddress| #[trigger] cells.contains_key(b) && r.spec_contains(b) ==> b == owner
}

/// Whether every cell of `cells` in `area` other than its first is
/// spill-over holding the element of `elements`, laid out row after row in
/// rows of `columns`, at its row and column offset, and lies before the
/// offset (`row`, `column`).
pub open spec fn spilled_before(
    cells: Map<CellAddress, Cell>,
    area: CellRectangle,
    elements: Seq<ValueView>,
    columns: int,
    row: int,
    column: int,
) -> bool {
    forall|b: CellAddress| #[trigger]
        cells.contains_key(b) && area.spec_contains(b) && b != area.upper_left ==> {
            let r = b.row - area.upper_left.row;
            let c = b.column - area.upper_left.column;
            &&& r < row || (r == row && c < column)
            &&& !cells[b].is_independent()
            &&& cells[b].value is Some
            &&& cells[b].value.unwrap()@ == elements[r * columns + c]
        }
}

/// Whether the cell at `a`, evaluated on the cells `c0` with outcome `o`,
/// recorded it in the cells `c1` and claims `m1`: no outcome leaves it
/// without a value and claim; a single value is its value; an array whose
/// area would extend beyond the edges gives the error for that; one whose
/// area is not free gives a blocked claim and the error for that; one whose
/// area is free gives an active claim and its first element as the value,
/// unless spilling it cleared the cell again, and every other cell of the
/// area that stands is spill-over holding the element at its offset.
pub open spec fn records_outcome(
    c0: Map<CellAddress, Cell>,
    c1: Map<CellAddress, Cell>,
    m1: Map<CellAddress, (CellRectangle, ClaimStatus)>,
    a: CellAddress,
    o: Option<EvaluatedView>,
) -> bool {
    match o {
        None => c1.contains_key(a) && c1[a].value is None && claim_of(m1, a) is None,
        Some(EvaluatedView::Single(v)) => c1.contains_key(a) && c1[a].value is Some
            && c1[a].value.unwrap()@ == v && claim_of(m1, a) is None,
        Some(EvaluatedView::Array(elements, rows, columns)) => match spill_rectangle_of(
            a,
            rows as int,
            columns as int,
        ) {
            None => c1.contains_key(a) && c1[a].value is Some && c1[a].value.unwrap()@
                == ValueView::Error(message_edges()) && claim_of(m1, a) is None,
            Some(area) => if spill_area_free(c0, area, a) {
                &&& c1.contains_key(a) && c1[a].value is Some ==> claim_of(m1, a) == Some(
                    (area, ClaimStatus::Active),
                ) && c1[a].value.unwrap()@ == elements[0]
                &&& forall|b: CellAddress| #[trigger]
                    c1.contains_key(b) && area.spec_contains(b) && b != a ==> {
                        &&& !c1[b].is_independent()
                        &&& c1[b].value is Some
                        &&& c1[b].value.unwrap()@ == elements[(b.row - a.row) * columns + (b.column
                            - a.column)]
                    }
            } else {
                &&& claim_of(m1, a) == Some((area, ClaimStatus::Blocked))
                &&& c1.contains_key(a)
                &&& c1[a].value is Some
                &&& c1[a].value.unwrap()@ == ValueView::Error(message_not_free())
            },
        },
    }
}

/// Whether the cell at `a` is sound: a spill claim belongs to a cell with a
/// formula of its own and a value, the error for an area that is not free
/// when the claim is blocked; and a cell with a formula of its own, a
/// value other than the error for a spill area beyond the edges, and no
/// blocked claim, shows an outcome that its formula gives on the values of
/// the cells, having read exactly its child rectangles, whose cells all
/// have values.
pub open spec fn sound_at(
    cells: Map<CellAddress, Cell>,
    claims: Map<CellAddress, (CellRectangle, ClaimStatus)>,
    a: CellAddress,
) -> bool {
    &&& claims.contains_key(a) ==> cells.contains_key(a) && cells[a].is_independent()
        && cells[a].value is Some
    &&& claims.contains_key(a) && claims[a].1 == ClaimStatus::Blocked ==> cells[a].value.unwrap()@
        == ValueView::Error(message_not_free())
    &&& cells.contains_key(a) && cells[a].is_independent() && (claims.contains_key(a)
        ==> claims[a].1 == ClaimStatus::Active) && cells[a].value is Some
        && cells[a].value.unwrap()@ != ValueView::Error(message_edges()) ==> {
        let f = cells[a].formula_part().unwrap().1;
        let rs = cells[a].spec_child_rectangles().to_set();
        let w = cells[a].value.unwrap()@;
        &&& rectangles_ready(cells, rs)
        &&& exists|o: EvaluatedView| #[trigger]
            evaluates(f, cells, initial_rectangles(f), Some(o), rs) && shows(
                o,
                w,
                claim_of(claims, a),
                a,
            )
    }
}

/// A sound cell stays sound when the cells inside its child rectangles, and
/// the cell itself, stay alike.
proof fn lemma_sound_at_kept(
    c1: Map<CellAddress, Cell>,
    m1: Map<CellAddress, (CellRectangle, ClaimStatus)>,
    c2: Map<CellAddress, Cell>,
    m2: Map<CellAddress, (CellRectangle, ClaimStatus)>,
    b: CellAddress,
)
    requires
        sound_at(c1, m1, b),
        c1.contains_key(b) == c2.contains_key(b),
        claim_of(m1, b) == claim_of(m2, b),
        c1.contains_key(b) ==> {
            &&& c2[b].is_independent() == c1[b].is_independent()
            &&& c2[b].value == c1[b].value
            &&& c2[b].formula_part() == c1[b].formula_part()
            &&& c2[b].spec_child_rectangles().to_set() == c1[b].spec_child_rectangles().to_set()
            &&& agree_on(c1, c2, c1[b].spec_child_rectangles().to_set())
        },
    ensures
        sound_at(c2, m2, b),
{
    assert(m1.contains_key(b) == m2.contains_key(b) && (m1.contains_key(b) ==> m1[b] == m2[b])) by {
        if m1.contains_key(b) {
            assert(claim_of(m1, b) == Some(m1[b]));
        }
        if m2.contains_key(b) {
            assert(claim_of(m2, b) == Some(m2[b]));
        }
    }
    if c2.contains_key(b) && c2[b].is_independent() && (m2.contains_key(b) ==> m2[b].1
        == ClaimStatus::Active) && c2[b].value is Some && c2[b].value.unwrap()@ != ValueView::Error(
        message_edges(),
    ) {
        let f = c1[b].formula_part().unwrap().1;
        let rs = c1[b].spec_child_rectangles().to_set();
        let w = c1[b].value.unwrap()@;
        let oo = choose|o: EvaluatedView| #[trigger]
            evaluates(f, c1, initial_rectangles(f), Some(o), rs) && shows(o, w, claim_of(m1, b), b);
        let o = Some(oo);
        let d = choose|d: Derivation| #[trigger] evaluates_by(f, c1, initial_rectangles(f), o, rs, d);
        lemma_evaluates_agree(f, c1, c2, initial_rectangles(f), o, rs, d);
        assert(evaluates_by(f, c2, initial_rectangles(f), o, rs, d));
        assert(evaluates(f, c2, initial_rectangles(f), Some(oo), rs) && shows(oo, w, claim_of(m2, b), b));
        assert forall|r: CellRectangle| #[trigger] rs.contains(r) implies rectangle_ready(c2, r) by {
            assert forall|a: CellAddress| #[trigger]
                c2.contains_key(a) && r.spec_contains(a) implies c2[a].value is Some by {
                assert(covers(rs, a));
                assert(same_cell_at(c1, c2, a));
            }
        }
    }
}

/// Whether every value in `c1` was there in `c0`: values are only cleared.
pub open spec fn values_cleared(c0: Map<CellAddress, Cell>, c1: Map<CellAddress, Cell>) -> bool {
    forall|y: CellAddress| #[trigger]
        c1.contains_key(y) && c1[y].value is Some ==> c0.contains_key(y) && c0[y].value == c1[y].value
}

/// Whether every cell of `c1` was a cell of `c0`: cells only disappear.
pub open spec fn cells_shrink(c0: Map<CellAddress, Cell>, c1: Map<CellAddress, Cell>) -> bool {
    forall|y: CellAddress| #[trigger] c1.contains_key(y) ==> c0.contains_key(y)
}

/// Whether the cell at `y` had a value in `c0` and has none in `c1`.
pub open spec fn cleared(c0: Map<CellAddress, Cell>, c1: Map<CellAddress, Cell>, y: CellAddress) -> bool {
    &&& c0.contains_key(y)
    &&& c0[y].value is Some
    &&& c1.contains_key(y)
    &&& c1[y].value is None
}

/// Whether every cell that lost its value from `c0` to `c1` is listed.
pub open spec fn cleared_listed(
    c0: Map<CellAddress, Cell>,
    c1: Map<CellAddress, Cell>,
    listed: Seq<CellAddress>,
) -> bool {
    forall|y: CellAddress| #[trigger] cleared(c0, c1, y) ==> listed.contains(y)
}

/// A sound cell whose child rectangles cover a cell without a value is
/// sound whatever that cell becomes: it has no value, a claim, or the edges
/// error.
proof fn lemma_sound_one_change(
    c1: Map<CellAddress, Cell>,
    m1: Map<CellAddress, (CellRectangle, ClaimStatus)>,
    c2: Map<CellAddress, Cell>,
    m2: Map<CellAddress, (CellRectangle, ClaimStatus)>,
    b: CellAddress,
    a: CellAddress,
)
    requires
        sound_at(c1, m1, b),
        b != a,
        c1.contains_key(b) == c2.contains_key(b),
        c1.contains_key(b) ==> c2[b] == c1[b],
        claim_of(m1, b) == claim_of(m2, b),
        forall|y: CellAddress| y != a ==> #[trigger] same_cell_at(c1, c2, y),
        c1.contains_key(b) && covers(c1[b].spec_child_rectangles().to_set(), a) ==> (c1.contains_key(a)
            && c1[a].value is None) || same_cell_at(c1, c2, a),
    ensures
        sound_at(c2, m2, b),
{
    if c1.contains_key(b) {
        let rs = c1[b].spec_child_rectangles().to_set();
        if covers(rs, a) && !same_cell_at(c1, c2, a) {
            let r = choose|r: CellRectangle| #[trigger] rs.contains(r) && r.spec_contains(a);
            assert(!rectangle_ready(c1, r));
        } else {
            assert forall|y: CellAddress| #[trigger] covers(rs, y) implies same_cell_at(c1, c2, y) by {
                if y != a {
                    assert(same_cell_at(c1, c2, y));
                }
            }
            lemma_sound_at_kept(c1, m1, c2, m2, b);
        }
    }
}

/// An evaluation of the formula of the cell at `a`, which has no value,
/// started from ready initial rectangles and giving a value, read only ready
/// rectangles, none of which covers `a`; it holds alike once only `a` and
/// the links between cells have changed.
proof fn lemma_evaluation_carries_over(
    c0: Map<CellAddress, Cell>,
    c1: Map<CellAddress, Cell>,
    f: FormulaView,
    o: EvaluatedView,
    used: Set<CellRectangle>,
    a: CellAddress,
)
    requires
        evaluates(f, c0, initial_rectangles(f), Some(o), used),
        rectangles_ready(c0, used),
        c0.contains_key(a),
        c0[a].value is None,
        c0.dom() == c1.dom(),
        forall|y: CellAddress| y != a && #[trigger] c0.contains_key(y) ==> c1[y].value == c0[y].value,
    ensures
        rectangles_ready(c1, used),
        evaluates(f, c1, initial_rectangles(f), Some(o), used),
        !covers(used, a),
{
    let d = choose|d: Derivation| #[trigger] evaluates_by(f, c0, initial_rectangles(f), Some(o), used, d);
    assert forall|y: CellAddress| #[trigger] covers(used, y) implies same_cell_at(c0, c1, y) by {
        let r = choose|r: CellRectangle| #[trigger] used.contains(r) && r.spec_contains(y);
        assert(rectangle_ready(c0, r));
    }
    if covers(used, a) {
        let r = choose|r: CellRectangle| #[trigger] used.contains(r) && r.spec_contains(a);
        assert(rectangle_ready(c0, r));
    }
    lemma_evaluates_agree(f, c0, c1, initial_rectangles(f), Some(o), used, d);
    assert(evaluates_by(f, c1, initial_rectangles(f), Some(o), used, d));
    assert forall|r: CellRectangle| #[trigger] used.contains(r) implies rectangle_ready(c1, r) by {
        assert forall|y: CellAddress| #[trigger]
            c1.contains_key(y) && r.spec_contains(y) implies c1[y].value is Some by {
            assert(covers(used, y));
            assert(same_cell_at(c0, c1, y));
        }
    }
}

/// Giving an array's cell, which claims the array's spill area and has no
/// value yet, the array's first element makes every cell sound, when every
/// other cell was.
proof fn lemma_anchor_sound(
    c0: Map<CellAddress, Cell>,
    m0: Map<CellAddress, (CellRectangle, ClaimStatus)>,
    c1: Map<CellAddress, Cell>,
    anchor: CellAddress,
    av: EvaluatedView,
    area: CellRectangle,
)
    requires
        forall|b: CellAddress| b != anchor ==> #[trigger] sound_at(c0, m0, b),
        m0.contains_key(anchor),
        m0[anchor] == (area, ClaimStatus::Active),
        c0.contains_key(anchor),
        c0[anchor].is_independent(),
        c0[anchor].value is None,
        rectangles_ready(c0, c0[anchor].spec_child_rectangles().to_set()),
        evaluates(
            c0[anchor].formula_part().unwrap().1,
            c0,
            initial_rectangles(c0[anchor].formula_part().unwrap().1),
            Some(av),
            c0[anchor].spec_child_rectangles().to_set(),
        ),
        av matches EvaluatedView::Array(elements, rows, columns) && elements.len() > 0
            && spill_rectangle_of(anchor, rows as int, columns as int) == Some(area),
        c0.dom() == c1.dom(),
        forall|y: CellAddress| y != anchor && #[trigger] c0.contains_key(y) ==> c1[y] == c0[y],
        c1[anchor].is_independent(),
        c1[anchor].formula_part() == c0[anchor].formula_part(),
        c1[anchor].spec_child_rectangles() == c0[anchor].spec_child_rectangles(),
        c1[anchor].value matches Some(w) && av matches EvaluatedView::Array(elements, _, _)
            && w@ == elements[0],
    ensures
        forall|b: CellAddress| #[trigger] sound_at(c1, m0, b),
{
    lemma_sound_after_set(c0, m0, c1, m0, anchor);
    let fa = c0[anchor].formula_part().unwrap().1;
    let rs = c0[anchor].spec_child_rectangles().to_set();
    lemma_evaluation_carries_over(c0, c1, fa, av, rs, anchor);
    assert(shows(av, c1[anchor].value.unwrap()@, claim_of(m0, anchor), anchor));
    assert(sound_at(c1, m0, anchor));
}

/// A cell with a formula of its own, a blocked claim and the error for an
/// area that is not free is sound.
proof fn lemma_blocked_sound(
    cells: Map<CellAddress, Cell>,
    claims: Map<CellAddress, (CellRectangle, ClaimStatus)>,
    a: CellAddress,
)
    requires
        cells.contains_key(a),
        cells[a].is_independent(),
        cells[a].value is Some,
        cells[a].value.unwrap()@ == ValueView::Error(message_not_free()),
        claims.contains_key(a),
        claims[a].1 == ClaimStatus::Blocked,
    ensures
        sound_at(cells, claims, a),
{
}

/// Giving a value to a cell that had none, or changing how it is linked,
/// keeps every other cell sound.
proof fn lemma_sound_after_set(
    c1: Map<CellAddress, Cell>,
    m1: Map<CellAddress, (CellRectangle, ClaimStatus)>,
    c2: Map<CellAddress, Cell>,
    m2: Map<CellAddress, (CellRectangle, ClaimStatus)>,
    a: CellAddress,
)
    requires
        forall|b: CellAddress| b != a ==> #[trigger] sound_at(c1, m1, b),
        c1.contains_key(a) ==> c1[a].value is None,
        c1.dom() == c2.dom(),
        forall|b: CellAddress| b != a && #[trigger] c1.contains_key(b) ==> c2[b] == c1[b],
        forall|b: CellAddress| b != a ==> #[trigger] claim_of(m1, b) == claim_of(m2, b),
    ensures
        forall|b: CellAddress| b != a ==> #[trigger] sound_at(c2, m2, b),
{
    assert forall|b: CellAddress| b != a implies #[trigger] sound_at(c2, m2, b) by {
        assert(sound_at(c1, m1, b));
        assert forall|y: CellAddress| y != a implies #[trigger] same_cell_at(c1, c2, y) by {
            if c1.contains_key(y) {
                assert(c2[y] == c1[y]);
            }
        }
        lemma_sound_one_change(c1, m1, c2, m2, b, a);
    }
}

/// Whether every claim of `m1` was there, the same, in `m0`: claims are
/// only forgotten.
pub open spec fn claims_kept(
    m0: Map<CellAddress, (CellRectangle, ClaimStatus)>,
    m1: Map<CellAddress, (CellRectangle, ClaimStatus)>,
) -> bool {
    forall|o: CellAddress| #[trigger] m1.contains_key(o) ==> m0.contains_key(o) && m1[o] == m0[o]
}

/// Whether every claim forgotten from `m0` to `m1` belongs to a cell that
/// has no value in `c1`: a claim goes only with its cell's value.
pub open spec fn released_without_values(
    m0: Map<CellAddress, (CellRectangle, ClaimStatus)>,
    m1: Map<CellAddress, (CellRectangle, ClaimStatus)>,
    c1: Map<CellAddress, Cell>,
) -> bool {
    forall|o: CellAddress| #[trigger]
        m0.contains_key(o) && !m1.contains_key(o) ==> !(c1.contains_key(o) && c1[o].value is Some)
}

/// Forgetting claims with the values of their cells, in two steps that only
/// clear values, forgets them with their values.
proof fn lemma_released_chain(
    m0: Map<CellAddress, (CellRectangle, ClaimStatus)>,
    m1: Map<CellAddress, (CellRectangle, ClaimStatus)>,
    m2: Map<CellAddress, (CellRectangle, ClaimStatus)>,
    c1: Map<CellAddress, Cell>,
    c2: Map<CellAddress, Cell>,
)
    requires
        released_without_values(m0, m1, c1),
        released_without_values(m1, m2, c2),
        values_cleared(c1, c2),
    ensures
        released_without_values(m0, m2, c2),
{
    assert forall|o: CellAddress| #[trigger]
        m0.contains_key(o) && !m2.contains_key(o) implies !(c2.contains_key(o) && c2[o].value is Some) by {
        if !m1.contains_key(o) && c2.contains_key(o) && c2[o].value is Some {
            assert(c1.contains_key(o) && c1[o].value is Some);
        }
    }
}

/// Whether the cell at `x` has a formula of its own and no value, while all
/// its children have values: it is ready to be evaluated.
pub open spec fn waiting(cells: Map<CellAddress, Cell>, x: CellAddress) -> bool {
    &&& cells.contains_key(x)
    &&& cells[x].is_independent()
    &&& cells[x].value is None
    &&& children_evaluated(cells, x)
}

/// Whether every cell waiting in `c1` is listed or was waiting in `c0`.
pub open spec fn waiting_listed(c0: Map<CellAddress, Cell>, c1: Map<CellAddress, Cell>, listed: Seq<CellAddress>) -> bool {
    forall|x: CellAddress| #[trigger] waiting(c1, x) ==> listed.contains(x) || waiting(c0, x)
}

/// Whether every link from a parent to a child in `c1` that was not in `c0`
/// starts at a listed cell.
pub open spec fn links_from_listed(c0: Map<CellAddress, Cell>, c1: Map<CellAddress, Cell>, listed: Seq<CellAddress>) -> bool {
    forall|x: CellAddress, y: CellAddress| #[trigger]
        has_child(c1, x, y) && !has_child(c0, x, y) ==> listed.contains(x)
}

/// Whether `rank` orders the values of `cells`: every child of a cell with
/// a value has a value and a lower rank.
pub open spec fn ordered_by(cells: Map<CellAddress, Cell>, rank: Map<CellAddress, nat>) -> bool {
    forall|x: CellAddress, y: CellAddress| #[trigger]
        has_child(cells, x, y) && cells[x].value is Some ==> cells.contains_key(y) && cells[y].value is Some
            && rank[y] < rank[x]
}

/// Whether some ranking orders the values of `cells`: values were given in
/// an order in which every child came first.
pub open spec fn values_ordered(cells: Map<CellAddress, Cell>) -> bool {
    exists|rank: Map<CellAddress, nat>| ordered_by(cells, rank)
}

/// The highest rank among `s`, zero for none.
pub open spec fn max_rank(rank: Map<CellAddress, nat>, s: Seq<CellAddress>) -> nat
    decreases s.len(),
{
    if s.len() == 0 {
        0
    } else {
        let m = max_rank(rank, s.drop_last());
        if rank[s.last()] > m {
            rank[s.last()]
        } else {
            m
        }
    }
}

proof fn lemma_max_rank(rank: Map<CellAddress, nat>, s: Seq<CellAddress>)
    ensures
        forall|i: int| 0 <= i < s.len() ==> rank[#[trigger] s[i]] <= max_rank(rank, s),
    decreases s.len(),
{
    if s.len() > 0 {
        lemma_max_rank(rank, s.drop_last());
        assert forall|i: int| 0 <= i < s.len() implies rank[#[trigger] s[i]] <= max_rank(rank, s) by {
            if i < s.len() - 1 {
                assert(s[i] == s.drop_last()[i]);
            }
        }
    }
}

/// Whether each cell of `s` but the last has the next one as a child in
/// `cells`.
pub open spec fn chain_in(cells: Map<CellAddress, Cell>, s: Seq<CellAddress>) -> bool {
    forall|i: int, j: int| #![trigger s[i], s[j]] 0 <= i && j == i + 1 && j < s.len() ==> has_child(cells, s[i], s[j])
}

/// Along a chain of children that starts at a cell with a value, every cell
/// has a value and a lower rank than the cells before it.
proof fn lemma_chain_descends(cells: Map<CellAddress, Cell>, rank: Map<CellAddress, nat>, s: Seq<CellAddress>, i: int, j: int)
    requires
        ordered_by(cells, rank),
        chain_in(cells, s),
        0 <= i <= j < s.len(),
        cells.contains_key(s[i]),
        cells[s[i]].value is Some,
    ensures
        cells.contains_key(s[j]),
        cells[s[j]].value is Some,
        i < j ==> rank[s[j]] < rank[s[i]],
    decreases j - i,
{
    if i < j {
        lemma_chain_descends(cells, rank, s, i, j - 1);
        assert(has_child(cells, s[j - 1], s[j]));
    }
}

/// Values stay ordered when every cell with a value in `c1` that has a
/// child there had it in `c0`, had a value there, and the child keeps one.
proof fn lemma_ordered_kept(c0: Map<CellAddress, Cell>, c1: Map<CellAddress, Cell>)
    requires
        values_ordered(c0),
        forall|x: CellAddress, y: CellAddress| #[trigger]
            has_child(c1, x, y) && c1[x].value is Some ==> has_child(c0, x, y) && c0[x].value is Some
                && c1.contains_key(y) && c1[y].value == c0[y].value,
    ensures
        values_ordered(c1),
{
    let rank = choose|rank: Map<CellAddress, nat>| ordered_by(c0, rank);
    assert(ordered_by(c1, rank));
}

/// Values stay ordered over a step that resets listed cells: values are
/// only cleared from cells with a formula of their own, listed cells with a
/// formula of their own have no value, parents of listed cells are listed,
/// and new links start at listed cells.
proof fn lemma_ordered_after_reset(c0: Map<CellAddress, Cell>, c1: Map<CellAddress, Cell>, listed: Seq<CellAddress>)
    requires
        values_ordered(c0),
        children_complete(c1),
        forall|x: CellAddress| #[trigger]
            c1.contains_key(x) && c1[x].value is Some && c1[x].is_independent() ==> c0.contains_key(x)
                && c0[x].value is Some,
        cleared_listed(c0, c1, listed),
        links_from_listed(c0, c1, listed),
        parents_listed(c1, listed),
        forall|y: CellAddress| #[trigger]
            listed.contains(y) && c1.contains_key(y) && c1[y].is_independent() ==> c1[y].value is None,
    ensures
        values_ordered(c1),
{
    let rank = choose|rank: Map<CellAddress, nat>| ordered_by(c0, rank);
    assert forall|x: CellAddress, y: CellAddress| #[trigger]
        has_child(c1, x, y) && c1[x].value is Some implies c1.contains_key(y) && c1[y].value is Some
        && rank[y] < rank[x] by {
        assert(c1[x].is_independent());
        assert(!listed.contains(x));
        assert(has_child(c0, x, y));
        assert(c0[x].value is Some);
        assert(children_exact(c1, x, y));
        if c1[y].value is None {
            assert(cleared(c0, c1, y));
        }
    }
    assert(ordered_by(c1, rank));
}

/// Values stay ordered when the cell at `a`, which had no value, gets one
/// while every child it has is another cell that had a value, and nothing
/// else changes but links from `a`.
proof fn lemma_ordered_after_evaluation(c0: Map<CellAddress, Cell>, c1: Map<CellAddress, Cell>, a: CellAddress)
    requires
        values_ordered(c0),
        c0.contains_key(a),
        c0[a].value is None,
        forall|y: CellAddress| #[trigger]
            has_child(c1, a, y) ==> y != a && c0.contains_key(y) && c0[y].value is Some && c1.contains_key(y)
                && c1[y].value is Some,
        forall|x: CellAddress, y: CellAddress|
            #![trigger has_child(c1, x, y)]
            #![trigger has_child(c0, x, y)]
            x != a ==> has_child(c1, x, y) == has_child(c0, x, y),
        forall|y: CellAddress| #[trigger]
            c1.contains_key(y) && y != a ==> c0.contains_key(y) && c1[y].value == c0[y].value,
        children_complete(c1),
    ensures
        values_ordered(c1),
{
    let rank = choose|rank: Map<CellAddress, nat>| ordered_by(c0, rank);
    let children = c1[a].spec_children();
    lemma_max_rank(rank, children);
    let rank1 = rank.insert(a, max_rank(rank, children) + 1);
    assert forall|x: CellAddress, y: CellAddress| #[trigger]
        has_child(c1, x, y) && c1[x].value is Some implies c1.contains_key(y) && c1[y].value is Some
        && rank1[y] < rank1[x] by {
        if x == a {
            let k = choose|k: int| 0 <= k < children.len() && children[k] == y;
            assert(rank[children[k]] <= max_rank(rank, children));
        } else {
            assert(has_child(c0, x, y));
            assert(c0[x].value is Some);
            assert(y != a);
            assert(children_exact(c1, x, y));
        }
    }
    assert(ordered_by(c1, rank1));
}

/// Values stay ordered over an edit that first changes only links to or
/// from the cell at `a`, keeping every value it does not clear, and then
/// resets the listed cells, `a` among them.
proof fn lemma_ordered_after_edit(
    c0: Map<CellAddress, Cell>,
    t: Map<CellAddress, Cell>,
    c1: Map<CellAddress, Cell>,
    listed: Seq<CellAddress>,
    a: CellAddress,
)
    requires
        values_ordered(c0),
        children_complete(c1),
        values_cleared(c0, t),
        values_cleared(t, c1),
        cleared_listed(c0, c1, listed),
        links_from_listed(t, c1, listed),
        forall|x: CellAddress, y: CellAddress| #[trigger]
            has_child(t, x, y) && !has_child(c0, x, y) ==> x == a || y == a,
        c1.contains_key(a) ==> listed.contains(a),
        parents_listed(c1, listed),
        forall|y: CellAddress| #[trigger]
            listed.contains(y) && c1.contains_key(y) && c1[y].is_independent() ==> c1[y].value is None,
    ensures
        values_ordered(c1),
{
    assert forall|x: CellAddress, y: CellAddress| #[trigger]
        has_child(c1, x, y) && !has_child(c0, x, y) implies listed.contains(x) by {
        if has_child(t, x, y) {
            if y == a {
                assert(children_exact(c1, x, y));
            }
        }
    }
    assert forall|x: CellAddress| #[trigger]
        c1.contains_key(x) && c1[x].value is Some && c1[x].is_independent() implies c0.contains_key(x)
            && c0[x].value is Some by {
        assert(t.contains_key(x) && t[x].value == c1[x].value);
    }
    lemma_ordered_after_reset(c0, c1, listed);
}

/// Whether every parent in `cells` of a listed cell is listed.
pub open spec fn parents_listed(cells: Map<CellAddress, Cell>, listed: Seq<CellAddress>) -> bool {
    forall|x: CellAddress, y: CellAddress| #[trigger]
        has_child(cells, x, y) && listed.contains(y) ==> listed.contains(x)
}

/// Whether every cell of `c0` missing from `c1` held spill-over in `c0`.
pub open spec fn only_spill_over_removed(c0: Map<CellAddress, Cell>, c1: Map<CellAddress, Cell>) -> bool {
    forall|y: CellAddress| #[trigger]
        c0.contains_key(y) && !c1.contains_key(y) ==> !c0[y].is_independent()
}

/// Removing only spill-over in two steps that keep formulas removes only
/// spill-over.
proof fn lemma_removed_chain(c0: Map<CellAddress, Cell>, c1: Map<CellAddress, Cell>, c2: Map<CellAddress, Cell>)
    requires
        only_spill_over_removed(c0, c1),
        only_spill_over_removed(c1, c2),
        same_formulas(c0, c1),
    ensures
        only_spill_over_removed(c0, c2),
{
    assert forall|y: CellAddress| #[trigger] c0.contains_key(y) && !c2.contains_key(y) implies !c0[y].is_independent() by {
        assert(formula_at(c0, y) == formula_at(c1, y));
    }
}

/// A cell waiting in `c1` was waiting in `c0` when it had no value there,
/// every child it had in `c0` is a child in `c1`, its children in `c1` exist,
/// and values were only cleared.
proof fn lemma_waiting_back(c0: Map<CellAddress, Cell>, c1: Map<CellAddress, Cell>, x: CellAddress)
    requires
        waiting(c1, x),
        c0.contains_key(x),
        c0[x].is_independent(),
        c0[x].value is None,
        forall|y: CellAddress| #[trigger] has_child(c0, x, y) ==> has_child(c1, x, y),
        forall|y: CellAddress| #[trigger] has_child(c1, x, y) ==> c1.contains_key(y),
        values_cleared(c0, c1),
    ensures
        waiting(c0, x),
{
    assert forall|y: CellAddress| #[trigger] has_child(c0, x, y) && c1.contains_key(y) && c1[y].value is Some
        implies c0.contains_key(y) && c0[y].value is Some by {}
    lemma_waiting_back_children(c0, c1, x);
}

/// Like [`lemma_waiting_back`], with only the children's values kept.
proof fn lemma_waiting_back_children(c0: Map<CellAddress, Cell>, c1: Map<CellAddress, Cell>, x: CellAddress)
    requires
        waiting(c1, x),
        c0.contains_key(x),
        c0[x].is_independent(),
        c0[x].value is None,
        forall|y: CellAddress| #[trigger] has_child(c0, x, y) ==> has_child(c1, x, y),
        forall|y: CellAddress| #[trigger] has_child(c1, x, y) ==> c1.contains_key(y),
        forall|y: CellAddress| #[trigger]
            has_child(c0, x, y) && c1.contains_key(y) && c1[y].value is Some ==> c0.contains_key(y)
                && c0[y].value is Some,
    ensures
        waiting(c0, x),
{
    assert forall|j: int| 0 <= j < c0[x].spec_children().len() implies child_evaluated(
        c0,
        #[trigger] c0[x].spec_children()[j],
    ) by {
        let y = c0[x].spec_children()[j];
        assert(has_child(c0, x, y));
        assert(has_child(c1, x, y));
        let k = choose|k: int| 0 <= k < c1[x].spec_children().len() && c1[x].spec_children()[k] == y;
        assert(child_evaluated(c1, c1[x].spec_children()[k]));
    }
}

/// A cell whose child rectangles are alike in two states of the cells with
/// the same addresses has the same children in both.
proof fn lemma_children_same(c0: Map<CellAddress, Cell>, c1: Map<CellAddress, Cell>, x: CellAddress)
    requires
        children_complete(c0),
        children_complete(c1),
        c0.dom() == c1.dom(),
        forall|r: CellRectangle| #[trigger] child_rectangle_of(c0, x, r) == child_rectangle_of(c1, x, r),
    ensures
        forall|y: CellAddress| #[trigger] has_child(c0, x, y) == has_child(c1, x, y),
{
    assert forall|y: CellAddress| #[trigger] has_child(c0, x, y) == has_child(c1, x, y) by {
        assert(children_exact(c0, x, y));
        assert(children_exact(c1, x, y));
        if in_child_rectangles(c0, x, y) {
            let r = choose|r: CellRectangle| #[trigger] child_rectangle_of(c0, x, r) && r.spec_contains(y);
            assert(child_rectangle_of(c1, x, r));
        }
        if in_child_rectangles(c1, x, y) {
            let r = choose|r: CellRectangle| #[trigger] child_rectangle_of(c1, x, r) && r.spec_contains(y);
            assert(child_rectangle_of(c0, x, r));
        }
    }
}

/// Whether every waiting cell of `cells` is queued or exhausted in `q`, or
/// among `refused`.
pub open spec fn covered(
    cells: Map<CellAddress, Cell>,
    q: (Seq<CellAddress>, Map<CellAddress, nat>),
    refused: Set<CellAddress>,
) -> bool {
    forall|x: CellAddress| #[trigger]
        waiting(cells, x) ==> queued_or_exhausted(q, x) || refused.contains(x)
}

/// Like [`covered`], for every waiting cell but the one at `a`.
pub open spec fn covered_but(
    cells: Map<CellAddress, Cell>,
    q: (Seq<CellAddress>, Map<CellAddress, nat>),
    refused: Set<CellAddress>,
    a: CellAddress,
) -> bool {
    forall|x: CellAddress| #[trigger]
        waiting(cells, x) && x != a ==> queued_or_exhausted(q, x) || refused.contains(x)
}

/// An element of a sequence that meets a predicate is kept by filtering.
proof fn lemma_in_filter(s: Seq<CellAddress>, pred: spec_fn(CellAddress) -> bool, x: CellAddress)
    requires
        s.contains(x),
        pred(x),
    ensures
        s.filter(pred).contains(x),
{
    let i = choose|i: int| 0 <= i < s.len() && s[i] == x;
    s.lemma_filter_contains(pred, i);
}

/// After the cell at `a` was evaluated, leaving it not waiting and every
/// other cell alike but for links to `a`, every waiting cell is covered when
/// the parents of `a` that wait were queued.
proof fn lemma_covered_after_evaluation(
    c0: Map<CellAddress, Cell>,
    c1: Map<CellAddress, Cell>,
    q0: (Seq<CellAddress>, Map<CellAddress, nat>),
    q1: (Seq<CellAddress>, Map<CellAddress, nat>),
    refused: Set<CellAddress>,
    a: CellAddress,
)
    requires
        covered_but(c0, q0, refused, a),
        !waiting(c1, a),
        forall|x: CellAddress, y: CellAddress|
            #![trigger has_child(c1, x, y)]
            #![trigger has_child(c0, x, y)]
            x != a ==> has_child(c1, x, y) == has_child(c0, x, y),
        forall|y: CellAddress| #[trigger]
            c1.contains_key(y) && y != a ==> c0.contains_key(y) && c1[y].value == c0[y].value
                && c1[y].is_independent() == c0[y].is_independent(),
        children_complete(c1),
        links_agree(c1),
        forall|x: CellAddress| #[trigger]
            has_parent(c1, a, x) && waiting(c1, x) ==> queued_or_exhausted(q1, x),
        forall|x: CellAddress| #[trigger] queued_or_exhausted(q0, x) ==> queued_or_exhausted(q1, x),
    ensures
        covered(c1, q1, refused),
{
    assert forall|x: CellAddress| #[trigger] waiting(c1, x) implies queued_or_exhausted(q1, x)
        || refused.contains(x) by {
        if has_child(c1, x, a) {
            assert(has_parent(c1, a, x));
        } else {
            assert(x != a);
            assert forall|y: CellAddress| #[trigger] has_child(c0, x, y) implies has_child(c1, x, y) by {}
            assert forall|y: CellAddress| #[trigger] has_child(c1, x, y) implies c1.contains_key(y) by {
                assert(children_exact(c1, x, y));
            }
            assert forall|y: CellAddress| #[trigger]
                has_child(c0, x, y) && c1.contains_key(y) && c1[y].value is Some implies c0.contains_key(y)
                && c0[y].value is Some by {
                assert(y != a);
            }
            lemma_waiting_back_children(c0, c1, x);
            assert(queued_or_exhausted(q0, x) || refused.contains(x));
        }
    }
}

/// Cells other than the one at `a` that keep their children, and cells
/// that keep their values, keep what is covered but `a`.
proof fn lemma_covered_but_kept(
    c0: Map<CellAddress, Cell>,
    c1: Map<CellAddress, Cell>,
    q: (Seq<CellAddress>, Map<CellAddress, nat>),
    refused: Set<CellAddress>,
    a: CellAddress,
)
    requires
        covered_but(c0, q, refused, a),
        forall|x: CellAddress, y: CellAddress|
            #![trigger has_child(c1, x, y)]
            #![trigger has_child(c0, x, y)]
            x != a ==> has_child(c1, x, y) == has_child(c0, x, y),
        forall|y: CellAddress| #[trigger]
            c1.contains_key(y) ==> c0.contains_key(y) && c1[y].value == c0[y].value
                && c1[y].is_independent() == c0[y].is_independent(),
        children_complete(c1),
    ensures
        covered_but(c1, q, refused, a),
{
    assert forall|x: CellAddress| #[trigger] waiting(c1, x) && x != a implies queued_or_exhausted(q, x)
        || refused.contains(x) by {
        assert forall|y: CellAddress| #[trigger] has_child(c0, x, y) implies has_child(c1, x, y) by {}
        assert forall|y: CellAddress| #[trigger] has_child(c1, x, y) implies c1.contains_key(y) by {
            assert(children_exact(c1, x, y));
        }
        assert forall|y: CellAddress| #[trigger]
            has_child(c0, x, y) && c1.contains_key(y) && c1[y].value is Some implies c0.contains_key(y)
            && c0[y].value is Some by {}
        lemma_waiting_back_children(c0, c1, x);
    }
}

/// Cells other than the one at `a`, whose child rectangles stay alike over
/// the same addresses, keep their children.
proof fn lemma_others_keep_children(c0: Map<CellAddress, Cell>, c1: Map<CellAddress, Cell>, a: CellAddress)
    requires
        children_complete(c0),
        children_complete(c1),
        c0.dom() == c1.dom(),
        forall|x: CellAddress, r: CellRectangle| #[trigger]
            child_rectangle_of(c1, x, r) && x != a ==> child_rectangle_of(c0, x, r),
        forall|x: CellAddress, r: CellRectangle| #[trigger]
            child_rectangle_of(c0, x, r) && x != a ==> child_rectangle_of(c1, x, r),
    ensures
        forall|x: CellAddress, y: CellAddress|
            #![trigger has_child(c1, x, y)]
            #![trigger has_child(c0, x, y)]
            x != a ==> has_child(c1, x, y) == has_child(c0, x, y),
{
    assert forall|x: CellAddress, y: CellAddress| x != a implies #[trigger] has_child(c1, x, y)
        == has_child(c0, x, y) by {
        assert forall|r: CellRectangle| #[trigger] child_rectangle_of(c0, x, r) == child_rectangle_of(c1, x, r) by {
            if child_rectangle_of(c0, x, r) {
                assert(child_rectangle_of(c1, x, r));
            }
            if child_rectangle_of(c1, x, r) {
                assert(child_rectangle_of(c0, x, r));
            }
        }
        lemma_children_same(c0, c1, x);
    }
}

/// Waiting cells listed in two steps are listed in both lists together.
proof fn lemma_waiting_chain(
    c0: Map<CellAddress, Cell>,
    c1: Map<CellAddress, Cell>,
    c2: Map<CellAddress, Cell>,
    l1: Seq<CellAddress>,
    l2: Seq<CellAddress>,
    l: Seq<CellAddress>,
)
    requires
        waiting_listed(c0, c1, l1),
        waiting_listed(c1, c2, l2),
        forall|y: CellAddress| #[trigger] l1.contains(y) ==> l.contains(y),
        forall|y: CellAddress| #[trigger] l2.contains(y) ==> l.contains(y),
    ensures
        waiting_listed(c0, c2, l),
{
    assert forall|x: CellAddress| #[trigger] waiting(c2, x) implies l.contains(x) || waiting(c0, x) by {
        if !l2.contains(x) {
            assert(waiting(c1, x));
        }
    }
}

/// New links listed in two steps are listed in both lists together.
proof fn lemma_links_chain(
    c0: Map<CellAddress, Cell>,
    c1: Map<CellAddress, Cell>,
    c2: Map<CellAddress, Cell>,
    l1: Seq<CellAddress>,
    l2: Seq<CellAddress>,
    l: Seq<CellAddress>,
)
    requires
        links_from_listed(c0, c1, l1),
        links_from_listed(c1, c2, l2),
        forall|y: CellAddress| #[trigger] l1.contains(y) ==> l.contains(y),
        forall|y: CellAddress| #[trigger] l2.contains(y) ==> l.contains(y),
    ensures
        links_from_listed(c0, c2, l),
{
    assert forall|x: CellAddress, y: CellAddress| #[trigger]
        has_child(c2, x, y) && !has_child(c0, x, y) implies l.contains(x) by {
        if has_child(c1, x, y) {
            assert(l1.contains(x));
        } else {
            assert(l2.contains(x));
        }
    }
}

/// Whether every claim forgotten from `m0` to `m1` belongs to a listed cell.
pub open spec fn dropped_listed(
    m0: Map<CellAddress, (CellRectangle, ClaimStatus)>,
    m1: Map<CellAddress, (CellRectangle, ClaimStatus)>,
    listed: Seq<CellAddress>,
) -> bool {
    forall|o: CellAddress| #[trigger] m0.contains_key(o) && !m1.contains_key(o) ==> listed.contains(o)
}

/// Whether, for every listed cell not in `except` that claimed an area in
/// `m0`, the spill-over cells of `c0` in that area are gone in `c1` or are
/// listed themselves.
pub open spec fn spill_cleared(
    c0: Map<CellAddress, Cell>,
    m0: Map<CellAddress, (CellRectangle, ClaimStatus)>,
    c1: Map<CellAddress, Cell>,
    listed: Seq<CellAddress>,
    except: Seq<CellAddress>,
) -> bool {
    forall|o: CellAddress, b: CellAddress|
        #![trigger listed.contains(o), c0.contains_key(b)]
        listed.contains(o) && !except.contains(o) && m0.contains_key(o) && m0[o].0.spec_contains(b)
            && b != o && c0.contains_key(b) && !c0[b].is_independent() ==> !c1.contains_key(b)
            || listed.contains(b)
}

/// The child rectangles of the cell at `y`, as a set.
pub open spec fn rectangles_at(cells: Map<CellAddress, Cell>, y: CellAddress) -> Set<CellRectangle> {
    cells[y].spec_child_rectangles().to_set()
}

/// The initial child rectangles of the formula of the cell at `y`.
pub open spec fn initial_at(cells: Map<CellAddress, Cell>, y: CellAddress) -> Set<CellRectangle> {
    initial_rectangles(cells[y].formula_part().unwrap().1)
}

/// Whether every cell with a formula of its own in `c1` has the child
/// rectangles it had in `c0` or those of its formula alone.
pub open spec fn rectangles_kept_or_reset(c0: Map<CellAddress, Cell>, c1: Map<CellAddress, Cell>) -> bool {
    forall|y: CellAddress| #[trigger]
        c1.contains_key(y) && c1[y].is_independent() ==> rectangles_at(c1, y) == rectangles_at(c0, y)
            || rectangles_at(c1, y) == initial_at(c1, y)
}

/// Whether every listed cell with a formula of its own in `cells` has the
/// child rectangles of its formula alone.
pub open spec fn listed_rectangles_reset(cells: Map<CellAddress, Cell>, listed: Seq<CellAddress>) -> bool {
    forall|y: CellAddress| #[trigger]
        listed.contains(y) && cells.contains_key(y) && cells[y].is_independent() ==> rectangles_at(cells, y)
            == initial_at(cells, y)
}

/// Two steps that keep or reset child rectangles, over cells that only
/// disappear and keep their formulas, keep or reset them.
proof fn lemma_rectangles_chain(
    c0: Map<CellAddress, Cell>,
    c1: Map<CellAddress, Cell>,
    c2: Map<CellAddress, Cell>,
    listed: Seq<CellAddress>,
)
    requires
        rectangles_kept_or_reset(c0, c1),
        rectangles_kept_or_reset(c1, c2),
        listed_rectangles_reset(c1, listed),
        cells_shrink(c1, c2),
        same_formulas(c1, c2),
    ensures
        rectangles_kept_or_reset(c0, c2),
        listed_rectangles_reset(c2, listed),
{
    assert forall|y: CellAddress| #[trigger] c2.contains_key(y) && c2[y].is_independent() implies rectangles_at(c2, y)
        == rectangles_at(c0, y) || rectangles_at(c2, y) == initial_at(c2, y) by {
        assert(c1.contains_key(y));
        assert(formula_at(c1, y) == formula_at(c2, y));
    }
    assert forall|y: CellAddress| #[trigger]
        listed.contains(y) && c2.contains_key(y) && c2[y].is_independent() implies rectangles_at(c2, y)
        == initial_at(c2, y) by {
        assert(c1.contains_key(y));
        assert(formula_at(c1, y) == formula_at(c2, y));
    }
}

/// Whether every spill-over cell of `c0`, but the one at `except`, that is
/// still in `c1` is spill-over there with the same value.
pub open spec fn spill_over_kept(c0: Map<CellAddress, Cell>, c1: Map<CellAddress, Cell>, except: CellAddress) -> bool {
    forall|y: CellAddress| #[trigger]
        c1.contains_key(y) && y != except && c0.contains_key(y) && !c0[y].is_independent()
            ==> !c1[y].is_independent() && c1[y].value == c0[y].value
}

/// Two steps that keep spill-over cells keep them, when the second one
/// removes its excepted cell if that is spill-over and no cell appears.
proof fn lemma_spill_over_chain(
    c0: Map<CellAddress, Cell>,
    c1: Map<CellAddress, Cell>,
    c2: Map<CellAddress, Cell>,
    e1: CellAddress,
    e2: CellAddress,
)
    requires
        spill_over_kept(c0, c1, e1),
        spill_over_kept(c1, c2, e2),
        cells_shrink(c1, c2),
        c1.contains_key(e2) && !c1[e2].is_independent() && e2 != e1 ==> !c2.contains_key(e2),
    ensures
        spill_over_kept(c0, c2, e1),
{
    assert forall|y: CellAddress| #[trigger]
        c2.contains_key(y) && y != e1 && c0.contains_key(y) && !c0[y].is_independent() implies !c2[y].is_independent()
        && c2[y].value == c0[y].value by {
        assert(c1.contains_key(y));
    }
}

/// Whether the cell at `a` has a formula of its own that is volatile.
pub open spec fn volatile_formula_at(cells: Map<CellAddress, Cell>, a: CellAddress) -> bool {
    match formula_at(cells, a) {
        Some((_, f)) => spec_is_volatile(f),
        None => false,
    }
}

/// Whether `raw` holds anything but whitespace.
pub open spec fn has_content(raw: Seq<char>) -> bool {
    exists|i: int| 0 <= i < raw.len() && !spec_is_whitespace(#[trigger] raw[i])
}

/// A change to one cell that leaves its formula alone.
enum CellChange {
    SetValue(Value),
    AddParent(CellAddress),
    RemoveParent(CellAddress),
    ClearParents,
    AddChild(CellAddress),
    RemoveChild(CellAddress),
    ClearChildren,
    SetChildRectangles(Vec<CellRectangle>),
}

/// What a change to a cell needs: new child rectangles must be well formed.
spec fn change_allowed(change: CellChange) -> bool {
    match change {
        CellChange::SetChildRectangles(rs) => forall|r: CellRectangle| #[trigger]
            rs@.contains(r) ==> r.well_formed(),
        _ => true,
    }
}

/// How the child rectangles of a cell are to be updated.
enum ChildDataUpdateType {
    /// Back to those of the formula alone.
    Reset,
    /// To these.
    Replace(Vec<CellRectangle>),
    /// With these added.
    Extend(Vec<CellRectangle>),
}

/// What an edit of a cell amounts to.
enum CellUpdateType {
    CreateIndependentCell,
    ModifyIndependentCell,
    DeleteIndependentCell,
    KeepAbsent,
    ReplaceDependentCell,
}

/// A spreadsheet: its cells, the index from areas to the cells whose
/// formulas read them, the spill areas of dynamic arrays, and the cells that
/// are evaluated again after every change.
pub struct Spreadsheet<A: NumberArithmetic> {
    cells: CellMap,
    parent_lookup_tree: ParentLookupTree,
    spill_ownership_map: SpillOwnershipMap,
    volatile_cells: Vec<CellAddress>,
    arith: A,
    /// The addresses that the evaluation queue refused once they had been
    /// added as often as its limit allows, in any evaluation so far.
    refused: Ghost<Set<CellAddress>>,
}

/// Whether `v` holds `a`.
fn contains_address(v: &Vec<CellAddress>, a: CellAddress) -> (found: bool)
    ensures
        found == v@.contains(a),
{
    let mut i: usize = 0;
    while i < v.len()
        invariant
            i <= v.len(),
            forall|j: int| 0 <= j < i ==> v@[j] != a,
        decreases v.len() - i,
    {
        if v[i] == a {
            assert(v@[i as int] == a);
            return true;
        }
        i += 1;
    }
    false
}

/// A copy of a list of addresses.
fn copy_addresses(v: &Vec<CellAddress>) -> (copy: Vec<CellAddress>)
    ensures
        copy@ == v@,
{
    let mut copy: Vec<CellAddress> = Vec::new();
    let mut i: usize = 0;
    while i < v.len()
        invariant
            i <= v.len(),
            copy@ == v@.take(i as int),
        decreases v.len() - i,
    {
        copy.push(v[i]);
        assert(v@.take(i + 1) == v@.take(i as int).push(v@[i as int]));
        i += 1;
    }
    assert(v@.take(v@.len() as int) == v@);
    copy
}

/// Whether `raw` holds anything but whitespace (what `str::trim` leaves of
/// it is not empty).
fn raw_has_content(raw: &str) -> (result: bool)
    ensures
        result == has_content(raw@),
{
    let chars = chars_of(raw);
    let mut i: usize = 0;
    while i < chars.len()
        invariant
            i <= chars.len(),
            chars@ == raw@,
            forall|j: int| 0 <= j < i ==> spec_is_whitespace(#[trigger] chars@[j]),
        decreases chars.len() - i,
    {
        if !is_whitespace(chars[i]) {
            return true;
        }
        i += 1;
    }
    false
}

impl<A: NumberArithmetic> Spreadsheet<A> {
    /// The internal consistency of the spreadsheet's structures: those of
    /// the cells, the lookup tree and the spill areas, the cells themselves,
    /// the volatile cells, and the lookup tree holding exactly the child
    /// rectangles of the cells.
    pub closed spec fn well_formed(&self) -> bool {
        &&& self.core_well_formed()
        &&& children_complete(self.cells@)
    }

    /// All of [`Spreadsheet::well_formed`] but the children being exactly
    /// the cells inside the child rectangles.
    closed spec fn core_well_formed(&self) -> bool {
        &&& self.structure_well_formed()
        &&& self.links_mirrored()
        &&& links_agree(self.cells@)
    }

    /// All of [`Spreadsheet::well_formed`] but the lookup tree mirroring the
    /// child rectangles.
    closed spec fn structure_well_formed(&self) -> bool {
        &&& self.cells.well_formed()
        &&& self.parent_lookup_tree.well_formed()
        &&& self.spill_ownership_map.well_formed()
        &&& forall|a: CellAddress| #[trigger]
            self.cells@.contains_key(a) ==> cell_well_formed(self.cells@[a])
        &&& self.volatile_cells@.no_duplicates()
        &&& forall|a: CellAddress| #[trigger]
            self.volatile_cells@.contains(a) <==> volatile_formula_at(self.cells@, a)
        &&& forall|o: CellAddress| #[trigger]
            self.spill_ownership_map@.contains_key(o) ==> self.cells@.contains_key(o)
                && self.cells@[o].is_independent()
    }

    /// The lookup tree registers a cell with a rectangle exactly when the
    /// rectangle is one of the cell's child rectangles.
    pub closed spec fn links_mirrored(&self) -> bool {
        forall|p: CellAddress, r: CellRectangle| #[trigger]
            self.parent_lookup_tree.links(p, r) <==> child_rectangle_of(self.cells@, p, r)
    }

    /// The raw formulas of the cells that have a formula of their own.
    pub closed spec fn formulas(&self) -> Map<CellAddress, Seq<char>> {
        Map::new(
            |a: CellAddress| formula_at(self.cells@, a) is Some,
            |a: CellAddress|
                match formula_at(self.cells@, a) {
                    Some(p) => p.0,
                    None => Seq::empty(),
                },
        )
    }

    /// The value of each cell: `None` for a cell that has not been
    /// evaluated.
    pub closed spec fn values(&self) -> Map<CellAddress, Option<ValueView>> {
        Map::new(
            |a: CellAddress| self.cells@.contains_key(a),
            |a: CellAddress|
                match self.cells@[a].value {
                    Some(v) => Some(v@),
                    None => None,
                },
        )
    }

    /// Whether the cell at `y` is a child of the cell at `x`: `x`'s formula
    /// reads `y`.
    pub closed spec fn is_child(&self, x: CellAddress, y: CellAddress) -> bool {
        has_child(self.cells@, x, y)
    }

    /// Whether the cell at `x` is recorded among the parents of the cell at
    /// `y`.
    pub closed spec fn is_parent(&self, y: CellAddress, x: CellAddress) -> bool {
        has_parent(self.cells@, y, x)
    }

    /// Whether `r` is one of the child rectangles of the cell at `p`.
    pub closed spec fn has_child_rectangle(&self, p: CellAddress, r: CellRectangle) -> bool {
        child_rectangle_of(self.cells@, p, r)
    }

    /// Whether the lookup tree registers the cell at `p` with `r`.
    pub closed spec fn is_registered(&self, p: CellAddress, r: CellRectangle) -> bool {
        self.parent_lookup_tree.links(p, r)
    }

    /// Children and parents agree: `y` is a child of `x` exactly when `x` is
    /// a parent of `y`.
    pub proof fn lemma_children_and_parents_agree(&self)
        requires
            self.well_formed(),
        ensures
            forall|x: CellAddress, y: CellAddress| #[trigger]
                self.is_child(x, y) <==> self.is_parent(y, x),
    {
        assert forall|x: CellAddress, y: CellAddress| #[trigger]
            self.is_child(x, y) <==> self.is_parent(y, x) by {
            assert(has_child(self.cells@, x, y) <==> has_parent(self.cells@, y, x));
        }
    }

    /// The children of a cell are exactly the existing cells that lie inside
    /// one of its child rectangles.
    pub proof fn lemma_children_are_the_cells_in_child_rectangles(&self)
        requires
            self.well_formed(),
        ensures
            forall|x: CellAddress, y: CellAddress| #[trigger]
                self.is_child(x, y) <==> (self.values().contains_key(y) && exists|r: CellRectangle|
                    #[trigger] self.has_child_rectangle(x, r) && r.spec_contains(y)),
    {
        assert forall|x: CellAddress, y: CellAddress| #[trigger]
            self.is_child(x, y) <==> (self.values().contains_key(y) && exists|r: CellRectangle|
                #[trigger] self.has_child_rectangle(x, r) && r.spec_contains(y)) by {
            assert(children_exact(self.cells@, x, y));
            if in_child_rectangles(self.cells@, x, y) {
                let r = choose|r: CellRectangle| #[trigger]
                    child_rectangle_of(self.cells@, x, r) && r.spec_contains(y);
                assert(self.has_child_rectangle(x, r));
            }
        }
    }

    /// The lookup tree registers a cell with a rectangle exactly when the
    /// rectangle is one of the cell's child rectangles.
    pub proof fn lemma_lookup_tree_mirrors_child_rectangles(&self)
        requires
            self.well_formed(),
        ensures
            forall|p: CellAddress, r: CellRectangle| #[trigger]
                self.is_registered(p, r) <==> self.has_child_rectangle(p, r),
    {
        assert forall|p: CellAddress, r: CellRectangle| #[trigger]
            self.is_registered(p, r) <==> self.has_child_rectangle(p, r) by {
            assert(self.parent_lookup_tree.links(p, r) <==> child_rectangle_of(self.cells@, p, r));
        }
    }

    /// The cells, by address.
    pub closed spec fn cell_map(&self) -> Map<CellAddress, Cell> {
        self.cells@
    }

    /// The spill claim of the cell at `a`: the rectangle it claims and
    /// whether the claim is active or blocked.
    pub closed spec fn spill_claim(&self, a: CellAddress) -> Option<(CellRectangle, ClaimStatus)> {
        claim_of(self.spill_ownership_map@, a)
    }

    /// The child rectangles of the cell at `a`.
    pub closed spec fn child_rectangles(&self, a: CellAddress) -> Set<CellRectangle> {
        self.cells@[a].spec_child_rectangles().to_set()
    }

    /// Values follow formulas. A spill claim belongs to a cell with a
    /// formula of its own and a value; a blocked claim, to one holding the
    /// error for an area that is not free. Every cell with a formula of its own
    /// and a value, but one with a blocked claim or holding the error for a
    /// spill area beyond the edges, shows an outcome that its formula gives
    /// on the values of the cells, having read exactly its child rectangles,
    /// whose cells all have values: without a claim, its value is that
    /// outcome; with an active claim, the outcome is an array whose first
    /// element is its value and which spills over exactly the claimed
    /// rectangle.
    pub proof fn lemma_values_follow_formulas(&self)
        requires
            self.well_formed(),
            self.values_sound(),
        ensures
            forall|a: CellAddress| #[trigger]
                self.spill_claim(a) is Some ==> self.formulas().contains_key(a)
                    && self.values()[a] is Some,
            forall|a: CellAddress|
                (#[trigger] self.spill_claim(a) matches Some(c) && c.1 == ClaimStatus::Blocked)
                    ==> self.values()[a] == Some(ValueView::Error(message_not_free())),
            forall|a: CellAddress| #[trigger]
                self.formulas().contains_key(a) && !(self.spill_claim(a) matches Some(c) && c.1
                    == ClaimStatus::Blocked) ==> match self.values()[a] {
                    Some(v) => v != ValueView::Error(message_edges()) ==> {
                        &&& rectangles_ready(self.cell_map(), self.child_rectangles(a))
                        &&& exists|o: EvaluatedView| #[trigger]
                            evaluates(
                                spec_parse(self.formulas()[a]),
                                self.cell_map(),
                                initial_rectangles(spec_parse(self.formulas()[a])),
                                Some(o),
                                self.child_rectangles(a),
                            ) && shows(o, v, self.spill_claim(a), a)
                    },
                    None => true,
                },
    {
        assert forall|a: CellAddress| #[trigger]
            self.spill_claim(a) is Some implies self.formulas().contains_key(a)
                && self.values()[a] is Some by {
            assert(sound_at(self.cells@, self.spill_ownership_map@, a));
        }
        assert forall|a: CellAddress|
            (#[trigger] self.spill_claim(a) matches Some(c) && c.1 == ClaimStatus::Blocked) implies self.values()[a]
            == Some(ValueView::Error(message_not_free())) by {
            assert(sound_at(self.cells@, self.spill_ownership_map@, a));
        }
        assert forall|a: CellAddress| #[trigger]
            self.formulas().contains_key(a) && !(self.spill_claim(a) matches Some(c) && c.1
                == ClaimStatus::Blocked) implies match self.values()[a] {
                Some(v) => v != ValueView::Error(message_edges()) ==> {
                    &&& rectangles_ready(self.cell_map(), self.child_rectangles(a))
                    &&& exists|o: EvaluatedView| #[trigger]
                        evaluates(
                            spec_parse(self.formulas()[a]),
                            self.cell_map(),
                            initial_rectangles(spec_parse(self.formulas()[a])),
                            Some(o),
                            self.child_rectangles(a),
                        ) && shows(o, v, self.spill_claim(a), a)
                },
                None => true,
            } by {
            assert(sound_at(self.cells@, self.spill_ownership_map@, a));
            assert(cell_well_formed(self.cells@[a]));
            assert(self.cells@.contains_key(a));
            if self.spill_ownership_map@.contains_key(a) {
                assert(claim_of(self.spill_ownership_map@, a) == Some(self.spill_ownership_map@[a]));
                assert(self.spill_ownership_map@[a].1 != ClaimStatus::Blocked);
            }
            if self.cells@[a].value is Some && self.cells@[a].value.unwrap()@ != ValueView::Error(
                message_edges(),
            ) {
                let f = self.cells@[a].formula_part().unwrap().1;
                let rs = self.cells@[a].spec_child_rectangles().to_set();
                let w = self.cells@[a].value.unwrap()@;
                assert(f == spec_parse(self.formulas()[a]));
                assert(self.values()[a] == Some(w));
                let o = choose|o: EvaluatedView| #[trigger]
                    evaluates(f, self.cells@, initial_rectangles(f), Some(o), rs) && shows(
                        o,
                        w,
                        claim_of(self.spill_ownership_map@, a),
                        a,
                    );
                assert(evaluates(f, self.cell_map(), initial_rectangles(f), Some(o), self.child_rectangles(a)));
            }
        }
    }

    /// Evaluation reaches every cell it can: a cell with a formula of its
    /// own that is left without a value has a child without a value (as on
    /// or above a cycle), or the evaluation queue refused it after adding it
    /// as often as its limit allows.
    pub proof fn lemma_unvalued_cells_wait(&self)
        requires
            self.well_formed(),
            self.values_live(),
        ensures
            forall|a: CellAddress| #[trigger]
                self.formulas().contains_key(a) && self.values()[a] is None ==> self.refused().contains(a)
                    || exists|y: CellAddress| #[trigger]
                    self.is_child(a, y) && self.values().contains_key(y) && self.values()[y] is None,
    {
        assert forall|a: CellAddress| #[trigger]
            self.formulas().contains_key(a) && self.values()[a] is None implies self.refused().contains(a)
                || exists|y: CellAddress| #[trigger]
                self.is_child(a, y) && self.values().contains_key(y) && self.values()[y] is None by {
            if !self.refused().contains(a) {
                assert(!waiting(self.cells@, a));
                let j = choose|j: int|
                    0 <= j < self.cells@[a].spec_children().len() && !child_evaluated(
                        self.cells@,
                        self.cells@[a].spec_children()[j],
                    );
                let y = self.cells@[a].spec_children()[j];
                assert(self.is_child(a, y));
            }
        }
    }

    /// Values were given in an order in which every child came first: some
    /// ranking of the cells gives every child of a cell with a value a
    /// value and a lower rank.
    pub closed spec fn values_in_order(&self) -> bool {
        values_ordered(self.cells@)
    }

    /// Whether each cell of `s` but the last has the next one as a child.
    pub open spec fn is_child_chain(&self, s: Seq<CellAddress>) -> bool {
        forall|i: int, j: int| #![trigger s[i], s[j]] 0 <= i && j == i + 1 && j < s.len() ==> self.is_child(s[i], s[j])
    }

    /// A cell that reaches, through a chain of children, a cell without a
    /// value has no value itself, nor has any cell along the chain: a
    /// value is only ever computed from children that have values.
    pub proof fn lemma_unvalued_below(&self, s: Seq<CellAddress>)
        requires
            self.values_in_order(),
            self.is_child_chain(s),
            s.len() >= 1,
            self.values().contains_key(s.last()),
            self.values()[s.last()] is None,
        ensures
            forall|k: int| 0 <= k < s.len() ==> #[trigger] self.values().contains_key(s[k]) && self.values()[s[k]] is None,
    {
        let rank = choose|rank: Map<CellAddress, nat>| ordered_by(self.cells@, rank);
        assert(chain_in(self.cells@, s)) by {
            assert forall|i: int, j: int| #![trigger s[i], s[j]] 0 <= i && j == i + 1 && j < s.len() implies has_child(self.cells@, s[i], s[j]) by {
                assert(self.is_child(s[i], s[j]));
            }
        }
        assert forall|k: int| 0 <= k < s.len() implies #[trigger] self.values().contains_key(s[k]) && self.values()[s[k]] is None by {
            if k < s.len() - 1 {
                assert(has_child(self.cells@, s[k], s[k + 1]));
            }
            if self.cells@[s[k]].value is Some {
                lemma_chain_descends(self.cells@, rank, s, k, s.len() - 1);
            }
        }
    }

    /// The cells on a cycle of children have no value: a chain of children
    /// that returns to its first cell holds no cell with a value.
    pub proof fn lemma_cycle_unvalued(&self, s: Seq<CellAddress>)
        requires
            self.values_in_order(),
            self.is_child_chain(s),
            s.len() >= 2,
            s.last() == s[0],
        ensures
            forall|k: int| 0 <= k < s.len() ==> #[trigger] self.values().contains_key(s[k]) && self.values()[s[k]] is None,
    {
        let rank = choose|rank: Map<CellAddress, nat>| ordered_by(self.cells@, rank);
        assert(chain_in(self.cells@, s)) by {
            assert forall|i: int, j: int| #![trigger s[i], s[j]] 0 <= i && j == i + 1 && j < s.len() implies has_child(self.cells@, s[i], s[j]) by {
                assert(self.is_child(s[i], s[j]));
            }
        }
        assert(has_child(self.cells@, s[0], s[1]));
        if self.cells@[s[0]].value is Some {
            lemma_chain_descends(self.cells@, rank, s, 0, s.len() - 1);
        }
        assert(self.values().contains_key(s.last()) && self.values()[s.last()] is None);
        self.lemma_unvalued_below(s);
    }

    /// The cells that are evaluated again after every change.
    pub closed spec fn volatile(&self) -> Set<CellAddress> {
        self.volatile_cells@.to_set()
    }

    /// The cells evaluated again after every change are exactly those whose
    /// formula holds a random number outside a sequence.
    pub proof fn lemma_volatile_cells(&self)
        requires
            self.well_formed(),
        ensures
            forall|a: CellAddress| #[trigger]
                self.volatile().contains(a) <==> (self.formulas().contains_key(a)
                    && spec_is_volatile(spec_parse(self.formulas()[a]))),
    {
        assert forall|a: CellAddress| #[trigger]
            self.volatile().contains(a) <==> (self.formulas().contains_key(a) && spec_is_volatile(
                spec_parse(self.formulas()[a]),
            )) by {
            if self.cells@.contains_key(a) {
                assert(cell_well_formed(self.cells@[a]));
            }
            assert(self.volatile_cells@.contains(a) <==> volatile_formula_at(self.cells@, a));
        }
    }

    /// The number of spill claims, which bounds how deep a reset can
    /// recurse.
    closed spec fn claims(&self) -> nat {
        self.spill_ownership_map.claim_count()
    }

    /// Whether `next` arose from `prev` by changes that keep the spreadsheet
    /// consistent, keep every formula and add no spill claim.
    closed spec fn kept(prev: &Self, next: &Self) -> bool {
        &&& next.well_formed()
        &&& same_formulas(prev.cells@, next.cells@)
        &&& next.claims() <= prev.claims()
    }

    /// Like [`Spreadsheet::kept`], with only the core consistency.
    closed spec fn kept_core(prev: &Self, next: &Self) -> bool {
        &&& next.core_well_formed()
        &&& same_formulas(prev.cells@, next.cells@)
        &&& next.claims() <= prev.claims()
    }

    /// The addresses that the evaluation queue refused, in any evaluation so
    /// far, once they had been added as often as its limit allows.
    pub closed spec fn refused(&self) -> Set<CellAddress> {
        self.refused@
    }

    /// Every cell with a formula of its own and no value has a child without
    /// a value, or was refused by the evaluation queue's limit.
    pub closed spec fn values_live(&self) -> bool {
        forall|x: CellAddress| #[trigger] waiting(self.cells@, x) ==> self.refused@.contains(x)
    }

    /// Every cell with a formula of its own and a value, but those that
    /// claim a spill area or hold the error for a spill area beyond the
    /// edges, holds a value that its formula gives on the values of the
    /// cells, having read exactly its child rectangles, whose cells all have
    /// values.
    pub closed spec fn values_sound(&self) -> bool {
        forall|b: CellAddress| #[trigger] sound_at(self.cells@, self.spill_ownership_map@, b)
    }

    /// Whether the cell at `anchor` is ready to spill `array` over `area`:
    /// it actively claims `area`, has no value yet, its formula gives the
    /// array having read exactly its child rectangles, whose cells all have
    /// values, and every other cell is sound.
    #[verifier::opaque]
    closed spec fn ready_to_spill(&self, anchor: CellAddress, array: ArrayValue, area: CellRectangle) -> bool {
        &&& forall|b: CellAddress| b != anchor ==> #[trigger] sound_at(
            self.cells@,
            self.spill_ownership_map@,
            b,
        )
        &&& self.spill_ownership_map@.contains_key(anchor)
        &&& self.spill_ownership_map@[anchor] == (area, ClaimStatus::Active)
        &&& self.cells@.contains_key(anchor)
        &&& self.cells@[anchor].is_independent()
        &&& self.cells@[anchor].value is None
        &&& rectangles_ready(self.cells@, self.cells@[anchor].spec_child_rectangles().to_set())
        &&& evaluates(
            self.cells@[anchor].formula_part().unwrap().1,
            self.cells@,
            initial_rectangles(self.cells@[anchor].formula_part().unwrap().1),
            Some(EvaluatedValue::ArrayValue(array)@),
            self.cells@[anchor].spec_child_rectangles().to_set(),
        )
    }

    /// Whether the cell at `b` has a formula of its own, no child
    /// rectangles, no children and no spill claim: nothing that other cells
    /// do reaches it.
    closed spec fn isolated(&self, b: CellAddress) -> bool {
        &&& self.unlinked(b)
        &&& !self.spill_ownership_map@.contains_key(b)
    }

    /// Whether the cell at `b` has a formula of its own, no child rectangles
    /// and no children.
    closed spec fn unlinked(&self, b: CellAddress) -> bool {
        &&& self.cells@.contains_key(b)
        &&& self.cells@[b].is_independent()
        &&& self.cells@[b].spec_child_rectangles().len() == 0
        &&& self.cells@[b].spec_children().len() == 0
    }

    /// Applies `change` to the cell at `a`, if there is one.
    fn change_cell(&mut self, a: CellAddress, change: CellChange)
        requires
            old(self).structure_well_formed(),
            change_allowed(change),
        ensures
            final(self).structure_well_formed(),
            old(self).links_mirrored() && !(change is SetChildRectangles)
                ==> final(self).links_mirrored(),
            links_agree(old(self).cells@) && (change is SetValue || change is SetChildRectangles)
                ==> links_agree(final(self).cells@),
            old(self).well_formed() && change is SetValue ==> final(self).well_formed(),
            forall|x: CellAddress, y: CellAddress| #[trigger]
                children_exact(final(self).cells@, x, y) && !(x == a && touches_children(change, y))
                    ==> children_exact(old(self).cells@, x, y),
            forall|x: CellAddress, y: CellAddress| #[trigger]
                children_exact(old(self).cells@, x, y) && !(x == a && touches_children(change, y))
                    ==> children_exact(final(self).cells@, x, y),
            old(self).cells@.contains_key(a) ==> (final(self).cells@[a].is_independent()
                == old(self).cells@[a].is_independent()),
            forall|x: CellAddress, y: CellAddress| #[trigger]
                has_parent(final(self).cells@, y, x) <==> (if y == a {
                    old(self).cells@.contains_key(a) && parent_after(change, old(self).cells@[a], x)
                } else {
                    has_parent(old(self).cells@, y, x)
                }),
            forall|x: CellAddress, y: CellAddress| #[trigger]
                has_child(final(self).cells@, x, y) <==> (if x == a {
                    old(self).cells@.contains_key(a) && child_after(change, old(self).cells@[a], y)
                } else {
                    has_child(old(self).cells@, x, y)
                }),
            same_formulas(old(self).cells@, final(self).cells@),
            final(self).claims() == old(self).claims(),
            final(self).spill_ownership_map == old(self).spill_ownership_map,
            final(self).parent_lookup_tree == old(self).parent_lookup_tree,
            final(self).cells@.dom() == old(self).cells@.dom(),
            forall|b: CellAddress| #[trigger]
                final(self).cells@.contains_key(b) && b != a ==> final(self).cells@[b] == old(
                    self,
                ).cells@[b],
            old(self).cells@.contains_key(a) ==> final(self).cells@[a].spec_child_rectangles()
                == rectangles_after(change, old(self).cells@[a]),
            match change {
                CellChange::SetValue(v) => old(self).cells@.contains_key(a) ==> final(self).cells@[a].value == v,
                _ => old(self).cells@.contains_key(a) ==> final(self).cells@[a].value == old(
                    self,
                ).cells@[a].value,
            },
            forall|b: CellAddress| #[trigger]
                old(self).isolated(b) && (b != a || change is AddParent || change is RemoveParent
                    || change is ClearParents || change is RemoveChild || change is ClearChildren)
                    ==> final(self).isolated(b) && final(self).cells@[b].value == old(
                    self,
                ).cells@[b].value,
            forall|b: CellAddress| #[trigger]
                sound_at(old(self).cells@, old(self).spill_ownership_map@, b) && (b != a || !(
                change is SetValue || change is SetChildRectangles)) && (!(change is SetValue) || !(
                old(self).cells@.contains_key(b) && covers(
                    old(self).cells@[b].spec_child_rectangles().to_set(),
                    a,
                ))) ==> sound_at(final(self).cells@, final(self).spill_ownership_map@, b),
    {
        match self.cells.remove(&a) {
            None => {
                assert(self.cells@ =~= old(self).cells@);
            },
            Some(mut cell) => {
                let ghost before = cell;
                assert(cell_well_formed(cell));
                match change {
                    CellChange::SetValue(v) => {
                        cell.value = v;
                    },
                    CellChange::AddParent(p) => {
                        proof {
                            crate::cell::lemma_set_insert(cell.parents@, p);
                        }
                        vec_insert(&mut cell.parents, p);
                    },
                    CellChange::RemoveParent(p) => {
                        vec_remove(&mut cell.parents, p);
                    },
                    CellChange::ClearParents => {
                        cell.parents = Vec::new();
                    },
                    CellChange::AddChild(c) => {
                        proof {
                            crate::cell::lemma_set_insert(cell.spec_children(), c);
                        }
                        cell.add_child(c);
                    },
                    CellChange::RemoveChild(c) => {
                        cell.remove_child(c);
                    },
                    CellChange::ClearChildren => {
                        cell.clear_children();
                    },
                    CellChange::SetChildRectangles(rs) => {
                        cell.set_child_rectangles(rs);
                    },
                }
                assert(cell.formula_part() == before.formula_part());
                assert(cell_well_formed(cell));
                assert(cell.spec_child_rectangles() == rectangles_after(change, before));
                assert(forall|y: CellAddress|
                    #[trigger] cell.parents@.contains(y) <==> parent_after(change, before, y));
                assert(forall|y: CellAddress|
                    #[trigger] cell.spec_children().contains(y) <==> child_after(change, before, y));
                self.cells.insert(a, cell);
                proof {
                    assert(self.cells@.dom() =~= old(self).cells@.dom());
                    assert forall|b: CellAddress| #[trigger]
                        formula_at(old(self).cells@, b) == formula_at(self.cells@, b) by {
                    }
                    assert forall|x: CellAddress, y: CellAddress|
                        !(x == a && touches_children(change, y)) implies (children_exact(
                        self.cells@,
                        x,
                        y,
                    ) <==> children_exact(old(self).cells@, x, y)) by {
                        assert(has_child(self.cells@, x, y) == has_child(old(self).cells@, x, y));
                        assert forall|r: CellRectangle|
                            child_rectangle_of(self.cells@, x, r) == child_rectangle_of(
                                old(self).cells@,
                                x,
                                r,
                            ) by {
                            if x == a {
                                assert(!(change is SetChildRectangles));
                            }
                        }
                        assert(in_child_rectangles(self.cells@, x, y) == in_child_rectangles(
                            old(self).cells@,
                            x,
                            y,
                        ));
                    }
                    if links_agree(old(self).cells@) && (change is SetValue
                        || change is SetChildRectangles) {
                        assert forall|x: CellAddress, y: CellAddress|
                            has_child(self.cells@, x, y) <==> has_parent(self.cells@, y, x) by {
                            assert(has_child(self.cells@, x, y) == has_child(old(self).cells@, x, y));
                            assert(has_parent(self.cells@, y, x) == has_parent(
                                old(self).cells@,
                                y,
                                x,
                            ));
                        }
                    }
                    if old(self).links_mirrored() && !(change is SetChildRectangles) {
                        assert forall|p: CellAddress, r: CellRectangle| #[trigger]
                            self.parent_lookup_tree.links(p, r) <==> child_rectangle_of(
                                self.cells@,
                                p,
                                r,
                            ) by {
                            assert(child_rectangle_of(old(self).cells@, p, r) == child_rectangle_of(
                                self.cells@,
                                p,
                                r,
                            ));
                        }
                    }
                }
            },
        }
        proof {
            assert forall|b: CellAddress| #[trigger]
                sound_at(old(self).cells@, old(self).spill_ownership_map@, b) && (b != a || !(
                change is SetValue || change is SetChildRectangles)) && (!(change is SetValue) || !(
                old(self).cells@.contains_key(b) && covers(
                    old(self).cells@[b].spec_child_rectangles().to_set(),
                    a,
                ))) implies sound_at(self.cells@, self.spill_ownership_map@, b) by {
                if old(self).cells@.contains_key(b) {
                    let rs = old(self).cells@[b].spec_child_rectangles().to_set();
                    assert(self.cells@[b].spec_child_rectangles() == old(self).cells@[b].spec_child_rectangles());
                    assert forall|y: CellAddress| #[trigger] covers(rs, y) implies same_cell_at(
                        old(self).cells@,
                        self.cells@,
                        y,
                    ) by {
                        assert(self.cells@.dom() == old(self).cells@.dom());
                    }
                }
                lemma_sound_at_kept(
                    old(self).cells@,
                    old(self).spill_ownership_map@,
                    self.cells@,
                    self.spill_ownership_map@,
                    b,
                );
            }
        }
    }

    /// The child rectangles of the cell at `a` (none when there is no cell
    /// or it is spill-over).
    fn child_rectangles_of(&self, a: CellAddress) -> (rectangles: Vec<CellRectangle>)
        requires
            self.structure_well_formed(),
        ensures
            forall|r: CellRectangle| #[trigger] rectangles@.contains(r) ==> r.well_formed(),
            rectangles@ == (if self.cells@.contains_key(a) {
                self.cells@[a].spec_child_rectangles()
            } else {
                Seq::empty()
            }),
    {
        match self.cells.get(&a) {
            Some(cell) => {
                assert(cell_well_formed(*cell));
                cell.child_rectangles()
            },
            None => Vec::new(),
        }
    }

    /// Registers the cell at `a` in the lookup tree with each of its child
    /// rectangles.
    fn add_to_parent_lookup_tree(&mut self, a: CellAddress)
        requires
            old(self).structure_well_formed(),
        ensures
            final(self).structure_well_formed(),
            final(self).cells == old(self).cells,
            final(self).spill_ownership_map == old(self).spill_ownership_map,
            final(self).volatile_cells == old(self).volatile_cells,
            forall|p: CellAddress, r: CellRectangle| #[trigger]
                final(self).parent_lookup_tree.links(p, r) <==> (old(self).parent_lookup_tree.links(
                    p,
                    r,
                ) || (p == a && child_rectangle_of(old(self).cells@, a, r))),
    {
        let rectangles = self.child_rectangles_of(a);
        let mut i: usize = 0;
        while i < rectangles.len()
            invariant
                i <= rectangles.len(),
                self.structure_well_formed(),
                self.cells == old(self).cells,
                self.spill_ownership_map == old(self).spill_ownership_map,
                self.volatile_cells == old(self).volatile_cells,
                forall|r: CellRectangle| #[trigger] rectangles@.contains(r) ==> r.well_formed(),
                rectangles@ == (if self.cells@.contains_key(a) {
                    self.cells@[a].spec_child_rectangles()
                } else {
                    Seq::empty()
                }),
                forall|p: CellAddress, r: CellRectangle| #[trigger]
                    self.parent_lookup_tree.links(p, r) <==> (old(self).parent_lookup_tree.links(
                        p,
                        r,
                    ) || (p == a && rectangles@.take(i as int).contains(r))),
            decreases rectangles.len() - i,
        {
            assert(rectangles@.contains(rectangles@[i as int]));
            proof {
                lemma_take_one_more(rectangles@, i as int);
            }
            self.parent_lookup_tree.insert(a, &rectangles[i]);
            i += 1;
        }
        assert(rectangles@.take(rectangles@.len() as int) == rectangles@);
    }

    /// Unregisters the cell at `a` from the lookup tree for each of its
    /// child rectangles.
    fn remove_from_parent_lookup_tree(&mut self, a: CellAddress)
        requires
            old(self).structure_well_formed(),
        ensures
            final(self).structure_well_formed(),
            final(self).cells == old(self).cells,
            final(self).spill_ownership_map == old(self).spill_ownership_map,
            final(self).volatile_cells == old(self).volatile_cells,
            forall|p: CellAddress, r: CellRectangle| #[trigger]
                final(self).parent_lookup_tree.links(p, r) <==> (old(self).parent_lookup_tree.links(
                    p,
                    r,
                ) && !(p == a && child_rectangle_of(old(self).cells@, a, r))),
    {
        let rectangles = self.child_rectangles_of(a);
        let mut i: usize = 0;
        while i < rectangles.len()
            invariant
                i <= rectangles.len(),
                self.structure_well_formed(),
                self.cells == old(self).cells,
                self.spill_ownership_map == old(self).spill_ownership_map,
                self.volatile_cells == old(self).volatile_cells,
                rectangles@ == (if self.cells@.contains_key(a) {
                    self.cells@[a].spec_child_rectangles()
                } else {
                    Seq::empty()
                }),
                forall|p: CellAddress, r: CellRectangle| #[trigger]
                    self.parent_lookup_tree.links(p, r) <==> (old(self).parent_lookup_tree.links(
                        p,
                        r,
                    ) && !(p == a && rectangles@.take(i as int).contains(r))),
            decreases rectangles.len() - i,
        {
            proof {
                lemma_take_one_more(rectangles@, i as int);
            }
            self.parent_lookup_tree.delete(&a, &rectangles[i]);
            i += 1;
        }
        assert(rectangles@.take(rectangles@.len() as int) == rectangles@);
    }

    /// Makes `child` a child of `parent` and `parent` a parent of `child`;
    /// `child` lies inside one of `parent`'s child rectangles.
    fn link(&mut self, parent: CellAddress, child: CellAddress)
        requires
            old(self).core_well_formed(),
            old(self).cells@.contains_key(parent),
            old(self).cells@.contains_key(child),
            old(self).cells@[parent].is_independent(),
            in_child_rectangles(old(self).cells@, parent, child),
        ensures
            forall|b: CellAddress| #[trigger]
                sound_at(old(self).cells@, old(self).spill_ownership_map@, b) ==> sound_at(
                    final(self).cells@,
                    final(self).spill_ownership_map@,
                    b,
                ),
            same_values(old(self).cells@, final(self).cells@),
            Self::kept_core(old(self), final(self)),
            final(self).claims() == old(self).claims(),
            final(self).cells@.dom() == old(self).cells@.dom(),
            final(self).parent_lookup_tree == old(self).parent_lookup_tree,
            forall|b: CellAddress| #[trigger]
                final(self).cells@.contains_key(b) ==> final(self).cells@[b].is_independent()
                    == old(self).cells@[b].is_independent(),
            forall|x: CellAddress, r: CellRectangle| #[trigger]
                child_rectangle_of(final(self).cells@, x, r) == child_rectangle_of(
                    old(self).cells@,
                    x,
                    r,
                ),
            forall|x: CellAddress, y: CellAddress| #[trigger]
                has_child(final(self).cells@, x, y) <==> (has_child(old(self).cells@, x, y) || (x
                    == parent && y == child)),
            forall|x: CellAddress, y: CellAddress| #[trigger]
                children_exact(final(self).cells@, x, y) <==> ((x == parent && y == child)
                    || children_exact(old(self).cells@, x, y)),
            final(self).spill_ownership_map == old(self).spill_ownership_map,
            forall|b: CellAddress| #[trigger]
                old(self).isolated(b) ==> final(self).isolated(b) && final(self).cells@[b].value == old(self).cells@[b].value,
    {
        let ghost c0 = self.cells@;
        self.change_cell(child, CellChange::AddParent(parent));
        let ghost c1 = self.cells@;
        assert(forall|x: CellAddress, y: CellAddress| #[trigger]
            has_child(c1, x, y) <==> has_child(c0, x, y));
        assert(forall|x: CellAddress, y: CellAddress| #[trigger]
            has_parent(c1, y, x) <==> (has_parent(c0, y, x) || (x == parent && y == child)));
        assert(forall|x: CellAddress, y: CellAddress| #[trigger]
            children_exact(c1, x, y) <==> children_exact(c0, x, y));
        assert(forall|x: CellAddress, r: CellRectangle| #[trigger]
            child_rectangle_of(c1, x, r) == child_rectangle_of(c0, x, r));
        assert(c1[parent].is_independent());
        assert(!self.isolated(parent)) by {
            let r = choose|r: CellRectangle| #[trigger]
                child_rectangle_of(c0, parent, r) && r.spec_contains(child);
            assert(child_rectangle_of(c1, parent, r));
            assert(c1[parent].spec_child_rectangles().contains(r));
        }
        self.change_cell(parent, CellChange::AddChild(child));
        let ghost c2 = self.cells@;
        assert(forall|x: CellAddress, y: CellAddress| #[trigger]
            has_parent(c2, y, x) <==> has_parent(c1, y, x));
        assert(forall|x: CellAddress, y: CellAddress| #[trigger]
            has_child(c2, x, y) <==> (has_child(c1, x, y) || (x == parent && y == child)));
        assert(forall|x: CellAddress, r: CellRectangle| #[trigger]
            child_rectangle_of(c2, x, r) == child_rectangle_of(c1, x, r));
        proof {
            lemma_agree_extended(c0, c1, c2, parent, child);
            assert(in_child_rectangles(c2, parent, child)) by {
                let r = choose|r: CellRectangle| #[trigger]
                    child_rectangle_of(c0, parent, r) && r.spec_contains(child);
                assert(child_rectangle_of(c2, parent, r));
            }
            assert(forall|x: CellAddress, y: CellAddress| #[trigger]
                children_exact(c2, x, y) && !(x == parent && y == child) ==> children_exact(c1, x, y));
            assert(forall|x: CellAddress, y: CellAddress| #[trigger]
                children_exact(c1, x, y) && !(x == parent && y == child) ==> children_exact(c2, x, y));
        }
    }

    /// Links the cell at `a`, which no cell has as a child yet, with the
    /// cells whose child rectangles contain it: they become its parents and
    /// it becomes their child.
    fn attach_to_parents(&mut self, a: CellAddress)
        requires
            old(self).core_well_formed(),
            old(self).cells@.contains_key(a),
            forall|x: CellAddress| !has_child(old(self).cells@, x, a),
            forall|x: CellAddress, y: CellAddress| #[trigger]
                children_exact(old(self).cells@, x, y) || y == a,
        ensures
            forall|x: CellAddress, r: CellRectangle| #[trigger]
                child_rectangle_of(final(self).cells@, x, r) && x != a ==> child_rectangle_of(old(self).cells@, x, r),
            forall|x: CellAddress, r: CellRectangle| #[trigger]
                child_rectangle_of(old(self).cells@, x, r) && x != a ==> child_rectangle_of(final(self).cells@, x, r),
            forall|b: CellAddress| #[trigger]
                sound_at(old(self).cells@, old(self).spill_ownership_map@, b) ==> sound_at(
                    final(self).cells@,
                    final(self).spill_ownership_map@,
                    b,
                ),
            same_values(old(self).cells@, final(self).cells@),
            Self::kept(old(self), final(self)),
            final(self).claims() == old(self).claims(),
            final(self).cells@.dom() == old(self).cells@.dom(),
            final(self).spill_ownership_map == old(self).spill_ownership_map,
            forall|b: CellAddress| #[trigger]
                old(self).isolated(b) ==> final(self).isolated(b) && final(self).cells@[b].value == old(self).cells@[b].value,
    {
        let parents = self.parent_lookup_tree.get_all_parents(a);
        let mut i: usize = 0;
        while i < parents.len()
            invariant
                i <= parents.len(),
                Self::kept_core(old(self), self),
                self.claims() == old(self).claims(),
                self.cells@.dom() == old(self).cells@.dom(),
                self.cells@.contains_key(a),
                self.parent_lookup_tree == old(self).parent_lookup_tree,
                forall|p: CellAddress| #[trigger]
                    parents@.contains(p) <==> exists|r: CellRectangle| #[trigger]
                        old(self).parent_lookup_tree.links(p, r) && r.well_formed()
                            && r.spec_contains(a),
                forall|x: CellAddress, r: CellRectangle| #[trigger]
                    child_rectangle_of(self.cells@, x, r) == child_rectangle_of(
                        old(self).cells@,
                        x,
                        r,
                    ),
                forall|x: CellAddress| #[trigger]
                    has_child(self.cells@, x, a) <==> parents@.take(i as int).contains(x),
                forall|x: CellAddress, y: CellAddress| #[trigger]
                    children_exact(self.cells@, x, y) || y == a,
                self.spill_ownership_map == old(self).spill_ownership_map,
                forall|b: CellAddress| #[trigger]
                    old(self).isolated(b) ==> self.isolated(b) && self.cells@[b].value == old(self).cells@[b].value,
                same_values(old(self).cells@, self.cells@),
                forall|b: CellAddress| #[trigger]
                    sound_at(old(self).cells@, old(self).spill_ownership_map@, b) ==> sound_at(
                        self.cells@,
                        self.spill_ownership_map@,
                        b,
                    ),
            decreases parents.len() - i,
        {
            let p = parents[i];
            proof {
                assert(parents@.contains(p));
                let r = choose|r: CellRectangle| #[trigger]
                    old(self).parent_lookup_tree.links(p, r) && r.well_formed() && r.spec_contains(a);
                assert(self.parent_lookup_tree.links(p, r));
                assert(child_rectangle_of(self.cells@, p, r));
                assert(in_child_rectangles(self.cells@, p, a));
                lemma_take_one_more(parents@, i as int);
            }
            self.link(p, a);
            i += 1;
        }
        proof {
            assert(parents@.take(parents@.len() as int) == parents@);
            assert forall|x: CellAddress, y: CellAddress| #[trigger] children_exact(self.cells@, x, y) by {
                if y == a {
                    if in_child_rectangles(self.cells@, x, a) {
                        let r = choose|r: CellRectangle| #[trigger]
                            child_rectangle_of(self.cells@, x, r) && r.spec_contains(a);
                        assert(self.parent_lookup_tree.links(x, r));
                        assert(parents@.contains(x));
                    }
                    if parents@.contains(x) {
                        let r = choose|r: CellRectangle| #[trigger]
                            old(self).parent_lookup_tree.links(x, r) && r.well_formed()
                                && r.spec_contains(a);
                        assert(child_rectangle_of(self.cells@, x, r));
                    }
                }
            }
        }
    }

    /// Unlinks the cell at `a` from its parents.
    fn detach_from_parents(&mut self, a: CellAddress)
        requires
            old(self).core_well_formed(),
        ensures
            forall|x: CellAddress, r: CellRectangle| #[trigger]
                child_rectangle_of(final(self).cells@, x, r) == child_rectangle_of(
                    old(self).cells@,
                    x,
                    r,
                ),
            forall|b: CellAddress| #[trigger]
                sound_at(old(self).cells@, old(self).spill_ownership_map@, b) ==> sound_at(
                    final(self).cells@,
                    final(self).spill_ownership_map@,
                    b,
                ),
            same_values(old(self).cells@, final(self).cells@),
            Self::kept_core(old(self), final(self)),
            final(self).claims() == old(self).claims(),
            final(self).cells@.dom() == old(self).cells@.dom(),
            forall|x: CellAddress| !has_parent(final(self).cells@, a, x),
            forall|x: CellAddress| !has_child(final(self).cells@, x, a),
            forall|x: CellAddress, y: CellAddress| #[trigger]
                has_child(final(self).cells@, x, y) ==> has_child(old(self).cells@, x, y),
            forall|x: CellAddress, y: CellAddress| #[trigger]
                has_parent(final(self).cells@, y, x) ==> has_parent(old(self).cells@, y, x),
            forall|x: CellAddress, y: CellAddress| #[trigger]
                children_exact(final(self).cells@, x, y) && y != a ==> children_exact(
                    old(self).cells@,
                    x,
                    y,
                ),
            forall|x: CellAddress, y: CellAddress| #[trigger]
                children_exact(old(self).cells@, x, y) && y != a ==> children_exact(
                    final(self).cells@,
                    x,
                    y,
                ),
            final(self).spill_ownership_map == old(self).spill_ownership_map,
            forall|b: CellAddress| #[trigger]
                old(self).isolated(b) ==> final(self).isolated(b) && final(self).cells@[b].value == old(self).cells@[b].value,
    {
        let parents: Vec<CellAddress> = match self.cells.get(&a) {
            Some(cell) => copy_addresses(&cell.parents),
            None => Vec::new(),
        };
        let ghost c0 = self.cells@;
        assert(forall|x: CellAddress| #[trigger] has_parent(c0, a, x) <==> parents@.contains(x));
        self.change_cell(a, CellChange::ClearParents);
        assert(forall|x: CellAddress, r: CellRectangle| #[trigger]
            child_rectangle_of(self.cells@, x, r) == child_rectangle_of(c0, x, r));
        assert(parents@.skip(0) == parents@);
        assert(forall|x: CellAddress| #[trigger]
            has_child(self.cells@, x, a) ==> has_child(c0, x, a));
        let mut i: usize = 0;
        while i < parents.len()
            invariant
                i <= parents.len(),
                self.structure_well_formed(),
                self.links_mirrored(),
                same_formulas(old(self).cells@, self.cells@),
                self.claims() == old(self).claims(),
                self.cells@.dom() == old(self).cells@.dom(),
                forall|x: CellAddress, y: CellAddress|
                    y != a ==> (has_child(self.cells@, x, y) <==> has_parent(self.cells@, y, x)),
                forall|x: CellAddress| !has_parent(self.cells@, a, x),
                forall|x: CellAddress| #[trigger]
                    has_child(self.cells@, x, a) ==> parents@.skip(i as int).contains(x),
                forall|x: CellAddress, y: CellAddress| #[trigger]
                    has_child(self.cells@, x, y) ==> has_child(old(self).cells@, x, y),
                forall|x: CellAddress, y: CellAddress| #[trigger]
                    has_parent(self.cells@, y, x) ==> has_parent(old(self).cells@, y, x),
                forall|x: CellAddress, y: CellAddress| #[trigger]
                    children_exact(self.cells@, x, y) && y != a ==> children_exact(
                        old(self).cells@,
                        x,
                        y,
                    ),
                forall|x: CellAddress, y: CellAddress| #[trigger]
                    children_exact(old(self).cells@, x, y) && y != a ==> children_exact(
                        self.cells@,
                        x,
                        y,
                    ),
                self.spill_ownership_map == old(self).spill_ownership_map,
                forall|b: CellAddress| #[trigger]
                    old(self).isolated(b) ==> self.isolated(b) && self.cells@[b].value == old(self).cells@[b].value,
                same_values(old(self).cells@, self.cells@),
                forall|b: CellAddress| #[trigger]
                    sound_at(old(self).cells@, old(self).spill_ownership_map@, b) ==> sound_at(
                        self.cells@,
                        self.spill_ownership_map@,
                        b,
                    ),
                forall|x: CellAddress, r: CellRectangle| #[trigger]
                    child_rectangle_of(self.cells@, x, r) == child_rectangle_of(
                        old(self).cells@,
                        x,
                        r,
                    ),
            decreases parents.len() - i,
        {
            proof {
                lemma_skip_one_more(parents@, i as int);
            }
            let ghost c1 = self.cells@;
            self.change_cell(parents[i], CellChange::RemoveChild(a));
            assert(forall|x: CellAddress, r: CellRectangle| #[trigger]
                child_rectangle_of(self.cells@, x, r) == child_rectangle_of(c1, x, r));
            assert(forall|x: CellAddress, y: CellAddress| #[trigger]
                has_parent(self.cells@, y, x) ==> has_parent(c1, y, x));
            i += 1;
        }
        proof {
            assert(parents@.skip(parents@.len() as int) =~= Seq::<CellAddress>::empty());
            assert forall|x: CellAddress, y: CellAddress|
                has_child(self.cells@, x, y) <==> has_parent(self.cells@, y, x) by {
                if y == a {
                    assert(!parents@.skip(parents@.len() as int).contains(x));
                }
            }
        }
    }

    /// Links the cell at `a`, which has no children yet, with the cells
    /// inside its child rectangles: they become its children and it becomes
    /// their parent.
    fn attach_to_children(&mut self, a: CellAddress)
        requires
            old(self).core_well_formed(),
            forall|y: CellAddress| !has_child(old(self).cells@, a, y),
            forall|x: CellAddress, y: CellAddress| #[trigger]
                children_exact(old(self).cells@, x, y) || x == a,
        ensures
            forall|x: CellAddress, r: CellRectangle| #[trigger]
                child_rectangle_of(final(self).cells@, x, r) == child_rectangle_of(
                    old(self).cells@,
                    x,
                    r,
                ),
            forall|b: CellAddress| #[trigger]
                sound_at(old(self).cells@, old(self).spill_ownership_map@, b) ==> sound_at(
                    final(self).cells@,
                    final(self).spill_ownership_map@,
                    b,
                ),
            same_values(old(self).cells@, final(self).cells@),
            Self::kept(old(self), final(self)),
            final(self).claims() == old(self).claims(),
            final(self).cells@.dom() == old(self).cells@.dom(),
            final(self).spill_ownership_map == old(self).spill_ownership_map,
            forall|b: CellAddress| #[trigger]
                old(self).isolated(b) ==> final(self).isolated(b) && final(self).cells@[b].value == old(self).cells@[b].value,
            old(self).unlinked(a) ==> final(self).unlinked(a),
    {
        if !self.is_independent_at(a) {
            proof {
                assert forall|x: CellAddress, y: CellAddress| #[trigger] children_exact(self.cells@, x, y) by {
                    if x == a {
                        assert(!in_child_rectangles(self.cells@, a, y));
                    }
                }
            }
            return;
        }
        let rectangles = self.child_rectangles_of(a);
        let mut children: Vec<CellAddress> = Vec::new();
        let mut i: usize = 0;
        while i < rectangles.len()
            invariant
                i <= rectangles.len(),
                forall|r: CellRectangle| #[trigger] rectangles@.contains(r) ==> r.well_formed(),
                rectangles@ == self.cells@[a].spec_child_rectangles(),
                self.cells@.contains_key(a),
                forall|y: CellAddress| #[trigger]
                    children@.contains(y) <==> (self.cells@.contains_key(y) && exists|k: int|
                        0 <= k < i && (#[trigger] rectangles@[k]).spec_contains(y)),
            decreases rectangles.len() - i,
        {
            assert(rectangles@.contains(rectangles@[i as int]));
            let found = self.cells.get_all_in_rectangle(&rectangles[i]);
            let ghost before = children@;
            let mut k: usize = 0;
            while k < found.len()
                invariant
                    k <= found.len(),
                    forall|y: CellAddress|
                        #![trigger found@.contains(y)]
                        #![trigger self.cells@.contains_key(y)]
                        found@.contains(y) <==> (self.cells@.contains_key(y)
                            && rectangles@[i as int].spec_contains(y)),
                    forall|y: CellAddress| #[trigger]
                        children@.contains(y) <==> (before.contains(y) || found@.take(
                            k as int,
                        ).contains(y)),
                decreases found.len() - k,
            {
                let ghost prior = children@;
                children.push(found[k]);
                proof {
                    lemma_push_contains(prior, found@[k as int]);
                    lemma_take_one_more(found@, k as int);
                }
                k += 1;
            }
            proof {
                assert(found@.take(found@.len() as int) == found@);
                assert forall|y: CellAddress| #[trigger]
                    children@.contains(y) <==> (self.cells@.contains_key(y) && exists|k: int|
                        0 <= k < i + 1 && (#[trigger] rectangles@[k]).spec_contains(y)) by {
                    if self.cells@.contains_key(y) && exists|k: int|
                        0 <= k < i + 1 && (#[trigger] rectangles@[k]).spec_contains(y) {
                        let k = choose|k: int|
                            0 <= k < i + 1 && (#[trigger] rectangles@[k]).spec_contains(y);
                        if k == i {
                            assert(found@.contains(y));
                        }
                    }
                }
            }
            i += 1;
        }
        proof {
            assert forall|y: CellAddress| #[trigger]
                children@.contains(y) <==> (self.cells@.contains_key(y) && in_child_rectangles(
                    self.cells@,
                    a,
                    y,
                )) by {
                if children@.contains(y) {
                    let k = choose|k: int|
                        0 <= k < rectangles@.len() && (#[trigger] rectangles@[k]).spec_contains(y);
                    assert(child_rectangle_of(self.cells@, a, rectangles@[k]));
                }
                if self.cells@.contains_key(y) && in_child_rectangles(self.cells@, a, y) {
                    let r = choose|r: CellRectangle| #[trigger]
                        child_rectangle_of(self.cells@, a, r) && r.spec_contains(y);
                    let k = choose|k: int| 0 <= k < rectangles@.len() && rectangles@[k] == r;
                    assert(rectangles@[k].spec_contains(y));
                }
            }
        }
        let ghost start = self.cells@;
        assert(old(self).unlinked(a) ==> children@.len() == 0) by {
            if old(self).unlinked(a) && children@.len() > 0 {
                assert(children@.contains(children@[0]));
            }
        }
        let mut j: usize = 0;
        while j < children.len()
            invariant
                j <= children.len(),
                Self::kept_core(old(self), self),
                self.claims() == old(self).claims(),
                self.cells@.dom() == old(self).cells@.dom(),
                self.cells@.contains_key(a),
                self.cells@[a].is_independent(),
                forall|x: CellAddress, r: CellRectangle| #[trigger]
                    child_rectangle_of(self.cells@, x, r) == child_rectangle_of(start, x, r),
                forall|y: CellAddress| #[trigger]
                    children@.contains(y) <==> (start.contains_key(y) && in_child_rectangles(
                        start,
                        a,
                        y,
                    )),
                forall|y: CellAddress| #[trigger]
                    has_child(self.cells@, a, y) <==> children@.take(j as int).contains(y),
                forall|x: CellAddress, y: CellAddress| #[trigger]
                    children_exact(self.cells@, x, y) || x == a,
                start.dom() == self.cells@.dom(),
                self.cells@ == start || j > 0,
                self.spill_ownership_map == old(self).spill_ownership_map,
                forall|b: CellAddress| #[trigger]
                    old(self).isolated(b) ==> self.isolated(b) && self.cells@[b].value == old(self).cells@[b].value,
                same_values(old(self).cells@, self.cells@),
                forall|b: CellAddress| #[trigger]
                    sound_at(old(self).cells@, old(self).spill_ownership_map@, b) ==> sound_at(
                        self.cells@,
                        self.spill_ownership_map@,
                        b,
                    ),
            decreases children.len() - j,
        {
            let c = children[j];
            proof {
                assert(children@.contains(c));
                lemma_take_one_more(children@, j as int);
                let r = choose|r: CellRectangle| #[trigger]
                    child_rectangle_of(start, a, r) && r.spec_contains(c);
                assert(child_rectangle_of(self.cells@, a, r));
            }
            self.link(a, c);
            j += 1;
        }
        proof {
            assert(children@.take(children@.len() as int) == children@);
            assert forall|x: CellAddress, y: CellAddress| #[trigger] children_exact(self.cells@, x, y) by {
                if x == a {
                    assert(in_child_rectangles(self.cells@, a, y) == in_child_rectangles(start, a, y))
                        by {
                        if in_child_rectangles(self.cells@, a, y) {
                            let r = choose|r: CellRectangle| #[trigger]
                                child_rectangle_of(self.cells@, a, r) && r.spec_contains(y);
                            assert(child_rectangle_of(start, a, r));
                        }
                        if in_child_rectangles(start, a, y) {
                            let r = choose|r: CellRectangle| #[trigger]
                                child_rectangle_of(start, a, r) && r.spec_contains(y);
                            assert(child_rectangle_of(self.cells@, a, r));
                        }
                    }
                }
            }
        }
    }

    /// Unlinks the cell at `a` from its children.
    fn detach_from_children(&mut self, a: CellAddress)
        requires
            old(self).core_well_formed(),
        ensures
            forall|b: CellAddress| #[trigger]
                sound_at(old(self).cells@, old(self).spill_ownership_map@, b) ==> sound_at(
                    final(self).cells@,
                    final(self).spill_ownership_map@,
                    b,
                ),
            same_values(old(self).cells@, final(self).cells@),
            Self::kept_core(old(self), final(self)),
            final(self).claims() == old(self).claims(),
            final(self).cells@.dom() == old(self).cells@.dom(),
            forall|y: CellAddress| !has_child(final(self).cells@, a, y),
            forall|y: CellAddress| !has_parent(final(self).cells@, y, a),
            forall|x: CellAddress, y: CellAddress| #[trigger]
                has_child(final(self).cells@, x, y) ==> has_child(old(self).cells@, x, y),
            forall|x: CellAddress, y: CellAddress| #[trigger]
                has_parent(final(self).cells@, y, x) ==> has_parent(old(self).cells@, y, x),
            forall|x: CellAddress, y: CellAddress| #[trigger]
                children_exact(final(self).cells@, x, y) && x != a ==> children_exact(
                    old(self).cells@,
                    x,
                    y,
                ),
            forall|x: CellAddress, y: CellAddress| #[trigger]
                children_exact(old(self).cells@, x, y) && x != a ==> children_exact(
                    final(self).cells@,
                    x,
                    y,
                ),
            forall|x: CellAddress, r: CellRectangle| #[trigger]
                child_rectangle_of(final(self).cells@, x, r) == child_rectangle_of(
                    old(self).cells@,
                    x,
                    r,
                ),
            final(self).spill_ownership_map == old(self).spill_ownership_map,
            old(self).cells@.contains_key(a) ==> final(self).cells@[a].value == old(self).cells@[a].value,
            forall|b: CellAddress| #[trigger]
                old(self).isolated(b) ==> final(self).isolated(b) && final(self).cells@[b].value == old(self).cells@[b].value,
    {
        let children: Vec<CellAddress> = match self.cells.get(&a) {
            Some(cell) => cell.children(),
            None => Vec::new(),
        };
        let ghost c0 = self.cells@;
        assert(forall|y: CellAddress| #[trigger] has_child(c0, a, y) <==> children@.contains(y));
        self.change_cell(a, CellChange::ClearChildren);
        assert(children@.skip(0) == children@);
        assert(forall|y: CellAddress| #[trigger]
            has_parent(self.cells@, y, a) ==> has_parent(c0, y, a));
        let mut i: usize = 0;
        while i < children.len()
            invariant
                i <= children.len(),
                self.structure_well_formed(),
                self.links_mirrored(),
                same_formulas(old(self).cells@, self.cells@),
                self.claims() == old(self).claims(),
                self.cells@.dom() == old(self).cells@.dom(),
                forall|x: CellAddress, y: CellAddress|
                    x != a ==> (has_child(self.cells@, x, y) <==> has_parent(self.cells@, y, x)),
                forall|y: CellAddress| !has_child(self.cells@, a, y),
                forall|y: CellAddress| #[trigger]
                    has_parent(self.cells@, y, a) ==> children@.skip(i as int).contains(y),
                forall|x: CellAddress, y: CellAddress| #[trigger]
                    has_child(self.cells@, x, y) ==> has_child(old(self).cells@, x, y),
                forall|x: CellAddress, y: CellAddress| #[trigger]
                    has_parent(self.cells@, y, x) ==> has_parent(old(self).cells@, y, x),
                forall|x: CellAddress, y: CellAddress| #[trigger]
                    children_exact(self.cells@, x, y) && x != a ==> children_exact(
                        old(self).cells@,
                        x,
                        y,
                    ),
                forall|x: CellAddress, y: CellAddress| #[trigger]
                    children_exact(old(self).cells@, x, y) && x != a ==> children_exact(
                        self.cells@,
                        x,
                        y,
                    ),
                forall|x: CellAddress, r: CellRectangle| #[trigger]
                    child_rectangle_of(self.cells@, x, r) == child_rectangle_of(
                        old(self).cells@,
                        x,
                        r,
                    ),
                self.spill_ownership_map == old(self).spill_ownership_map,
                old(self).cells@.contains_key(a) ==> self.cells@[a].value == old(self).cells@[a].value,
                forall|b: CellAddress| #[trigger]
                    old(self).isolated(b) ==> self.isolated(b) && self.cells@[b].value == old(self).cells@[b].value,
                same_values(old(self).cells@, self.cells@),
                forall|b: CellAddress| #[trigger]
                    sound_at(old(self).cells@, old(self).spill_ownership_map@, b) ==> sound_at(
                        self.cells@,
                        self.spill_ownership_map@,
                        b,
                    ),
            decreases children.len() - i,
        {
            proof {
                lemma_skip_one_more(children@, i as int);
            }
            let ghost c1 = self.cells@;
            self.change_cell(children[i], CellChange::RemoveParent(a));
            assert(forall|x: CellAddress, r: CellRectangle| #[trigger]
                child_rectangle_of(self.cells@, x, r) == child_rectangle_of(c1, x, r));
            i += 1;
        }
        proof {
            assert(children@.skip(children@.len() as int) =~= Seq::<CellAddress>::empty());
            assert forall|x: CellAddress, y: CellAddress|
                has_child(self.cells@, x, y) <==> has_parent(self.cells@, y, x) by {
                if x == a {
                    assert(!children@.skip(children@.len() as int).contains(y));
                }
            }
        }
    }

    /// Whether the cell at `a` has a formula of its own.
    fn is_independent_at(&self, a: CellAddress) -> (independent: bool)
        ensures
            independent == (self.cells@.contains_key(a) && self.cells@[a].is_independent()),
    {
        match self.cells.get(&a) {
            Some(cell) => match &cell.kind {
                Kind::Independent(_) => true,
                Kind::Dependent => false,
            },
            None => false,
        }
    }

    /// Updates the child rectangles of the cell at `a` and, with them, its
    /// entries in the lookup tree and its children; cells without a formula
    /// of their own are left alone.
    #[verifier::rlimit(40)]
    fn update_child_data(&mut self, a: CellAddress, update: ChildDataUpdateType)
        requires
            old(self).well_formed(),
            match update {
                ChildDataUpdateType::Reset => true,
                ChildDataUpdateType::Replace(rs) => forall|r: CellRectangle| #[trigger]
                    rs@.contains(r) ==> r.well_formed(),
                ChildDataUpdateType::Extend(rs) => forall|r: CellRectangle| #[trigger]
                    rs@.contains(r) ==> r.well_formed(),
            },
        ensures
            old(self).cells@.contains_key(a) && old(self).cells@[a].is_independent() ==> match update {
                ChildDataUpdateType::Replace(rs) => final(self).cells@[a].spec_child_rectangles().to_set()
                    == rs@.to_set(),
                ChildDataUpdateType::Reset => match formula_at(old(self).cells@, a) {
                    Some(p) => final(self).cells@[a].spec_child_rectangles().to_set()
                        == initial_rectangles(p.1),
                    None => false,
                },
                ChildDataUpdateType::Extend(rs) => final(self).cells@[a].spec_child_rectangles().to_set()
                    == old(self).cells@[a].spec_child_rectangles().to_set() + rs@.to_set(),
            },
            forall|x: CellAddress, r: CellRectangle| #[trigger]
                child_rectangle_of(final(self).cells@, x, r) && x != a ==> child_rectangle_of(
                    old(self).cells@,
                    x,
                    r,
                ),
            forall|x: CellAddress, r: CellRectangle| #[trigger]
                child_rectangle_of(old(self).cells@, x, r) && x != a ==> child_rectangle_of(
                    final(self).cells@,
                    x,
                    r,
                ),
            same_values(old(self).cells@, final(self).cells@),
            Self::kept(old(self), final(self)),
            final(self).claims() == old(self).claims(),
            final(self).cells@.dom() == old(self).cells@.dom(),
            final(self).spill_ownership_map == old(self).spill_ownership_map,
            old(self).cells@.contains_key(a) ==> final(self).cells@[a].value == old(self).cells@[a].value,
            forall|b: CellAddress| #[trigger]
                old(self).isolated(b) && b != a ==> final(self).isolated(b)
                    && final(self).cells@[b].value == old(self).cells@[b].value,
            old(self).cells@.contains_key(a) && match update {
                ChildDataUpdateType::Reset => match formula_at(old(self).cells@, a) {
                    Some(p) => initial_rectangles(p.1) == Set::<CellRectangle>::empty(),
                    None => false,
                },
                ChildDataUpdateType::Replace(rs) => rs@.len() == 0 && old(
                    self,
                ).cells@[a].is_independent(),
                ChildDataUpdateType::Extend(_) => false,
            } ==> final(self).unlinked(a),
            forall|b: CellAddress| #[trigger]
                sound_at(old(self).cells@, old(self).spill_ownership_map@, b) && b != a ==> sound_at(
                    final(self).cells@,
                    final(self).spill_ownership_map@,
                    b,
                ),
    {
        if !self.is_independent_at(a) {
            return;
        }
        let ghost becomes_isolated = match update {
            ChildDataUpdateType::Reset => match formula_at(old(self).cells@, a) {
                Some(p) => initial_rectangles(p.1) == Set::<CellRectangle>::empty(),
                None => false,
            },
            ChildDataUpdateType::Replace(ref rs) => rs@.len() == 0,
            ChildDataUpdateType::Extend(_) => false,
        };
        self.detach_from_children(a);
        let ghost s1 = self.cells@;
        let ghost t1 = *self;
        self.remove_from_parent_lookup_tree(a);
        assert forall|b: CellAddress| #[trigger] t1.isolated(b) implies self.isolated(b) by {}
        assert forall|b: CellAddress| #[trigger]
            sound_at(t1.cells@, t1.spill_ownership_map@, b) implies sound_at(
            self.cells@,
            self.spill_ownership_map@,
            b,
        ) by {}
        let ghost requested = update;
        let rectangles: Vec<CellRectangle> = match update {
            ChildDataUpdateType::Reset => match self.cells.get(&a) {
                Some(cell) => match cell.parsed_formula() {
                    Some(formula) => {
                        assert(cell_well_formed(*cell));
                        proof {
                            lemma_parsed_rectangles_well_formed(
                                spec_normalize(cell.raw_formula()),
                                cell.raw_formula(),
                            );
                        }
                        get_initial_child_rectangles(formula)
                    },
                    None => Vec::new(),
                },
                None => Vec::new(),
            },
            ChildDataUpdateType::Replace(rs) => rs,
            ChildDataUpdateType::Extend(rs) => {
                let current = self.child_rectangles_of(a);
                let mut merged: Vec<CellRectangle> = Vec::new();
                extend_rectangles(&mut merged, &current);
                extend_rectangles(&mut merged, &rs);
                proof {
                    assert(current@.to_set() =~= old(self).cells@[a].spec_child_rectangles().to_set()) by {
                        assert forall|r: CellRectangle|
                            current@.contains(r) <==> #[trigger] old(self).cells@[a].spec_child_rectangles().contains(r) by {
                            assert(child_rectangle_of(self.cells@, a, r) == child_rectangle_of(old(self).cells@, a, r));
                        }
                    }
                    assert(merged@.to_set() =~= current@.to_set() + rs@.to_set());
                }
                merged
            },
        };
        let ghost before_change = self.cells@;
        assert forall|x: CellAddress, y: CellAddress| #[trigger]
            children_exact(before_change, x, y) || x == a by {
            assert(children_exact(old(self).cells@, x, y));
        }
        assert(forall|y: CellAddress| !has_child(before_change, a, y));
        let ghost new_rectangles = rectangles@;
        proof {
            if let ChildDataUpdateType::Replace(rs) = requested {
                assert(new_rectangles.to_set() == rs@.to_set());
            }
            if let ChildDataUpdateType::Extend(rs) = requested {
                assert(new_rectangles.to_set()
                    == old(self).cells@[a].spec_child_rectangles().to_set() + rs@.to_set());
            }
            if let ChildDataUpdateType::Reset = requested {
                assert(new_rectangles.to_set() == initial_rectangles(formula_at(old(self).cells@, a).unwrap().1));
            }
        }
        assert(becomes_isolated ==> new_rectangles.len() == 0) by {
            if becomes_isolated && new_rectangles.len() > 0 {
                assert(new_rectangles.to_set().contains(new_rectangles[0]));
            }
        }
        self.change_cell(a, CellChange::SetChildRectangles(rectangles));
        assert forall|y: CellAddress| !has_child(self.cells@, a, y) by {
            assert(!has_child(before_change, a, y));
        }
        assert(becomes_isolated ==> self.unlinked(a)) by {
            if self.cells@[a].spec_children().len() > 0 {
                assert(has_child(self.cells@, a, self.cells@[a].spec_children()[0]));
            }
        }
        assert forall|x: CellAddress, y: CellAddress| #[trigger]
            children_exact(self.cells@, x, y) || x == a by {
            assert(children_exact(before_change, x, y) || x == a);
        }
        let ghost t3 = *self;
        assert forall|x: CellAddress, r: CellRectangle| x != a implies #[trigger] child_rectangle_of(
            self.cells@,
            x,
            r,
        ) == child_rectangle_of(old(self).cells@, x, r) by {
            assert(child_rectangle_of(s1, x, r) == child_rectangle_of(old(self).cells@, x, r));
            assert(child_rectangle_of(before_change, x, r) == child_rectangle_of(s1, x, r));
        }
        let ghost t_rects = self.cells@[a].spec_child_rectangles();
        assert(t_rects == new_rectangles);
        self.add_to_parent_lookup_tree(a);
        assert forall|b: CellAddress| #[trigger] t3.isolated(b) implies self.isolated(b) by {}
        assert forall|b: CellAddress| #[trigger]
            sound_at(t3.cells@, t3.spill_ownership_map@, b) implies sound_at(
            self.cells@,
            self.spill_ownership_map@,
            b,
        ) by {}
        assert(t3.unlinked(a) ==> self.unlinked(a));
        self.attach_to_children(a);

        proof {
            lemma_same_values_chain(old(self).cells@, s1, self.cells@);
            assert(self.cells@[a].spec_child_rectangles().to_set() =~= new_rectangles.to_set()) by {
                assert forall|r: CellRectangle| #[trigger]
                    self.cells@[a].spec_child_rectangles().to_set().contains(r) == new_rectangles.to_set().contains(r) by {
                    assert(child_rectangle_of(self.cells@, a, r) == child_rectangle_of(t3.cells@, a, r));
                }
            }
        }
    }

    /// Whether every existing child of the cell at `a` has a value; `false`
    /// when there is no cell at `a`.
    fn has_no_unevaluated_children(&self, a: CellAddress) -> (ready: bool)
        ensures
            ready == children_evaluated(self.cells@, a),
    {
        let cell = match self.cells.get(&a) {
            Some(cell) => cell,
            None => return false,
        };
        let children = cell.children();
        let mut i: usize = 0;
        while i < children.len()
            invariant
                i <= children.len(),
                self.cells@.contains_key(a),
                children@ == self.cells@[a].spec_children(),
                forall|j: int|
                    0 <= j < i ==> child_evaluated(self.cells@, #[trigger] children@[j]),
            decreases children.len() - i,
        {
            match self.cells.get(&children[i]) {
                Some(child) => {
                    if child.value.is_none() {
                        assert(!child_evaluated(self.cells@, children@[i as int]));
                        return false;
                    }
                },
                None => {},
            }
            i += 1;
        }
        true
    }

    /// The addresses of `addresses` whose cells have no child without a
    /// value, in their order.
    fn filter_for_no_unevaluated_children(&self, addresses: &Vec<CellAddress>) -> (ready: Vec<
        CellAddress,
    >)
        ensures
            ready@ == addresses@.filter(ready_in(self.cells@)),
            forall|a: CellAddress| #[trigger]
                ready@.contains(a) <==> (addresses@.contains(a) && children_evaluated(
                    self.cells@,
                    a,
                )),
    {
        let mut ready: Vec<CellAddress> = Vec::new();
        let mut i: usize = 0;
        while i < addresses.len()
            invariant
                i <= addresses.len(),
                forall|a: CellAddress| #[trigger]
                    ready@.contains(a) <==> (addresses@.take(i as int).contains(a)
                        && children_evaluated(self.cells@, a)),
                ready@ == addresses@.take(i as int).filter(ready_in(self.cells@)),
            decreases addresses.len() - i,
        {
            let a = addresses[i];
            let ghost before = ready@;
            proof {
                lemma_take_one_more(addresses@, i as int);
                assert(addresses@.take(i + 1) == addresses@.take(i as int).push(a));
                lemma_filter_push(addresses@.take(i as int), a, ready_in(self.cells@));
            }
            if self.has_no_unevaluated_children(a) {
                ready.push(a);
                proof {
                    lemma_push_contains(before, a);
                }
            }
            i += 1;
        }
        assert(addresses@.take(addresses@.len() as int) == addresses@);
        ready
    }

    /// The parents of the cell at `a` that have no child without a value.
    fn get_parents_with_no_unevaluated_children(&self, a: CellAddress) -> (ready: Vec<CellAddress>)
        ensures
            ready@ == parents_of(self.cells@, a).filter(ready_in(self.cells@)),
    {
        let parents: Vec<CellAddress> = match self.cells.get(&a) {
            Some(cell) => copy_addresses(&cell.parents),
            None => Vec::new(),
        };
        assert(parents@ == parents_of(self.cells@, a));
        self.filter_for_no_unevaluated_children(&parents)
    }

    /// Whether no cell but the one at `owner` lies inside `rectangle`.
    fn spill_area_is_free(&self, rectangle: &CellRectangle, owner: &CellAddress) -> (free: bool)
        requires
            rectangle.well_formed(),
        ensures
            free == (forall|b: CellAddress| #[trigger]
                self.cells@.contains_key(b) && rectangle.spec_contains(b) ==> b == *owner),
    {
        let inside = self.cells.get_all_in_rectangle(rectangle);
        let mut i: usize = 0;
        while i < inside.len()
            invariant
                i <= inside.len(),
                forall|b: CellAddress|
                    #![trigger inside@.contains(b)]
                    #![trigger self.cells@.contains_key(b)]
                    inside@.contains(b) <==> (self.cells@.contains_key(b) && rectangle.spec_contains(b)),
                forall|j: int| 0 <= j < i ==> #[trigger] inside@[j] == *owner,
            decreases inside.len() - i,
        {
            if inside[i] != *owner {
                assert(inside@.contains(inside@[i as int]));
                return false;
            }
            i += 1;
        }
        proof {
            assert forall|b: CellAddress| #[trigger]
                self.cells@.contains_key(b) && rectangle.spec_contains(b) implies b == *owner by {
                assert(inside@.contains(b));
                let j = choose|j: int| 0 <= j < inside@.len() && inside@[j] == b;
                assert(inside@[j] == *owner);
            }
        }
        true
    }

    /// Resets the cell at `start` and every cell that depends on it, directly
    /// or not: their values become `None` and the child rectangles of those
    /// with a formula of their own go back to those of the formula. A cell
    /// that owns a spill area loses its claim, and the cells spilled there
    /// are deleted. Returns the addresses reset, each once.
    #[verifier::rlimit(60)]
    fn reset_cell_and_ancestors(&mut self, start: CellAddress) -> (reset_cells: Vec<CellAddress>)
        requires
            old(self).well_formed(),
        ensures
            cells_shrink(old(self).cells@, final(self).cells@),
            cleared_listed(old(self).cells@, final(self).cells@, reset_cells@),
            claims_kept(old(self).spill_ownership_map@, final(self).spill_ownership_map@),
            released_without_values(
                old(self).spill_ownership_map@,
                final(self).spill_ownership_map@,
                final(self).cells@,
            ),
            Self::kept(old(self), final(self)),
            reset_cells@.no_duplicates(),
            old(self).cells@.contains_key(start) ==> reset_cells@.contains(start),
            forall|b: CellAddress| #[trigger]
                old(self).isolated(b) && b != start ==> final(self).isolated(b)
                    && final(self).cells@[b].value == old(self).cells@[b].value,
            (match formula_at(old(self).cells@, start) {
                Some(p) => initial_rectangles(p.1) == Set::<CellRectangle>::empty(),
                None => false,
            }) ==> final(self).isolated(start) && final(self).cells@[start].value is None,
            values_cleared(old(self).cells@, final(self).cells@),
            spill_over_kept(old(self).cells@, final(self).cells@, start),
            waiting_listed(old(self).cells@, final(self).cells@, reset_cells@),
            parents_listed(final(self).cells@, reset_cells@),
            only_spill_over_removed(old(self).cells@, final(self).cells@),
            links_from_listed(old(self).cells@, final(self).cells@, reset_cells@),
            forall|x: CellAddress| #[trigger]
                has_child(final(self).cells@, x, start) ==> reset_cells@.contains(x),
            dropped_listed(old(self).spill_ownership_map@, final(self).spill_ownership_map@, reset_cells@),
            spill_cleared(
                old(self).cells@,
                old(self).spill_ownership_map@,
                final(self).cells@,
                reset_cells@,
                Seq::<CellAddress>::empty(),
            ),
            rectangles_kept_or_reset(old(self).cells@, final(self).cells@),
            listed_rectangles_reset(final(self).cells@, reset_cells@),
            final(self).cells@.contains_key(start) ==> final(self).cells@[start].value is None,
            forall|y: CellAddress| #[trigger]
                reset_cells@.contains(y) && final(self).cells@.contains_key(y) ==> final(self).cells@[y].value is None,
            forall|y: CellAddress| #[trigger]
                reset_cells@.contains(y) ==> !final(self).spill_ownership_map@.contains_key(y),
            !final(self).spill_ownership_map@.contains_key(start),
            forall|b: CellAddress| #[trigger]
                sound_at(final(self).cells@, final(self).spill_ownership_map@, b) || !(sound_at(
                    old(self).cells@,
                    old(self).spill_ownership_map@,
                    b,
                ) || b == start || has_child(old(self).cells@, b, start)),
        decreases old(self).claims(), 1nat,
    {
        let ghost entry_claims = self.claims();
        let ghost closed_start = match formula_at(old(self).cells@, start) {
            Some(p) => initial_rectangles(p.1) == Set::<CellRectangle>::empty(),
            None => false,
        };
        let mut queue: Vec<CellAddress> = Vec::new();
        queue.push(start);
        let mut reset_cells: Vec<CellAddress> = Vec::new();
        assert(queue@[0] == start);
        loop
            invariant
                Self::kept(old(self), self),
                self.claims() <= entry_claims,
                entry_claims == old(self).claims(),
                reset_cells@.no_duplicates(),
                closed_start == match formula_at(old(self).cells@, start) {
                    Some(p) => initial_rectangles(p.1) == Set::<CellRectangle>::empty(),
                    None => false,
                },
                reset_cells@.len() == 0 ==> self.cells@ == old(self).cells@
                    && self.spill_ownership_map@ == old(self).spill_ownership_map@ && (queue@
                    == seq![start] || (queue@.len() == 0 && !old(self).cells@.contains_key(start))),
                values_cleared(old(self).cells@, self.cells@),
                forall|y: CellAddress| #[trigger]
                    reset_cells@.contains(y) && self.cells@.contains_key(y) ==> self.cells@[y].value
                        is None,
                forall|y: CellAddress| #[trigger]
                    reset_cells@.contains(y) ==> !self.spill_ownership_map@.contains_key(y),
                forall|b: CellAddress| #[trigger]
                    sound_at(self.cells@, self.spill_ownership_map@, b) || queue@.contains(b) || (
                    reset_cells@.len() == 0 && has_child(old(self).cells@, b, start)) || !(sound_at(
                        old(self).cells@,
                        old(self).spill_ownership_map@,
                        b,
                    ) || b == start || has_child(old(self).cells@, b, start)),
                reset_cells@.len() > 0 ==> reset_cells@.contains(start),
                closed_start && reset_cells@.len() > 0 ==> self.isolated(start)
                    && self.cells@[start].value is None,
                forall|b: CellAddress| #[trigger]
                    old(self).isolated(b) && b != start ==> self.isolated(b)
                        && self.cells@[b].value == old(self).cells@[b].value,
                forall|b: CellAddress| #[trigger]
                    old(self).isolated(b) && b != start ==> !queue@.contains(b),
                claims_kept(old(self).spill_ownership_map@, self.spill_ownership_map@),
                released_without_values(
                    old(self).spill_ownership_map@,
                    self.spill_ownership_map@,
                    self.cells@,
                ),
                cells_shrink(old(self).cells@, self.cells@),
                spill_over_kept(old(self).cells@, self.cells@, start),
                rectangles_kept_or_reset(old(self).cells@, self.cells@),
                listed_rectangles_reset(self.cells@, reset_cells@),
                waiting_listed(old(self).cells@, self.cells@, reset_cells@),
                links_from_listed(old(self).cells@, self.cells@, reset_cells@),
                reset_cells@.len() > 0 ==> forall|x: CellAddress| #[trigger]
                    has_child(self.cells@, x, start) ==> reset_cells@.contains(x) || queue@.contains(x),
                only_spill_over_removed(old(self).cells@, self.cells@),
                forall|x: CellAddress, y: CellAddress| #[trigger]
                    has_child(self.cells@, x, y) && reset_cells@.contains(y) ==> reset_cells@.contains(x)
                        || queue@.contains(x),
                dropped_listed(old(self).spill_ownership_map@, self.spill_ownership_map@, reset_cells@),
                spill_cleared(
                    old(self).cells@,
                    old(self).spill_ownership_map@,
                    self.cells@,
                    reset_cells@,
                    Seq::<CellAddress>::empty(),
                ),
                forall|y: CellAddress| #[trigger]
                    queue@.contains(y) && y != start && self.cells@.contains_key(y)
                        ==> self.cells@[y].is_independent(),
                cleared_listed(old(self).cells@, self.cells@, reset_cells@),
            ensures
                queue@.len() == 0,
            decreases usize::MAX - reset_cells.len(), queue.len(),
        {
            let ghost queue_before = queue@;
            let address = match queue.pop() {
                Some(a) => a,
                None => break,
            };
            proof {
                assert(queue_before == queue@.push(address));
                assert forall|b: CellAddress| #[trigger]
                    old(self).isolated(b) && b != start implies !queue@.contains(b) && b != address by {
                    assert(!queue_before.contains(b));
                    if queue@.contains(b) {
                        let k = choose|k: int| 0 <= k < queue@.len() && queue@[k] == b;
                        assert(queue_before[k] == b);
                    }
                    assert(queue_before[queue_before.len() - 1] == address);
                }
            }
            assert(address != start && self.cells@.contains_key(address) ==> self.cells@[address].is_independent()) by {
                assert(queue_before[queue_before.len() - 1] == address);
                assert(queue_before.contains(address));
            }
            if contains_address(&reset_cells, address) || !self.cells.contains(&address) {
                proof {
                    assert forall|y: CellAddress| #[trigger]
                        queue@.contains(y) && y != start && self.cells@.contains_key(y) implies self.cells@[y].is_independent() by {
                        let k = choose|k: int| 0 <= k < queue@.len() && queue@[k] == y;
                        assert(queue_before[k] == y);
                        assert(queue_before.contains(y));
                    }
                    assert forall|x: CellAddress, y: CellAddress| #[trigger]
                        has_child(self.cells@, x, y) && reset_cells@.contains(y) implies reset_cells@.contains(x)
                        || queue@.contains(x) by {
                        assert(queue_before.contains(x) || reset_cells@.contains(x));
                        if queue_before.contains(x) && x != address {
                            let k = choose|k: int| 0 <= k < queue_before.len() && queue_before[k] == x;
                            assert(k != queue_before.len() - 1);
                            assert(queue@[k] == x);
                        }
                    }
                    if reset_cells@.len() > 0 {
                        assert forall|x: CellAddress| #[trigger]
                            has_child(self.cells@, x, start) implies reset_cells@.contains(x) || queue@.contains(x) by {
                            assert(queue_before.contains(x) || reset_cells@.contains(x));
                            if queue_before.contains(x) && x != address {
                                let k = choose|k: int| 0 <= k < queue_before.len() && queue_before[k] == x;
                                assert(k != queue_before.len() - 1);
                                assert(queue@[k] == x);
                            }
                        }
                    }
                    assert forall|b: CellAddress| #[trigger]
                        sound_at(self.cells@, self.spill_ownership_map@, b) || queue@.contains(b) || (
                        reset_cells@.len() == 0 && has_child(old(self).cells@, b, start)) || !(
                        sound_at(old(self).cells@, old(self).spill_ownership_map@, b) || b == start
                            || has_child(old(self).cells@, b, start)) by {
                        if queue_before.contains(b) && b != address {
                            let k = choose|k: int| 0 <= k < queue_before.len() && queue_before[k] == b;
                            assert(k != queue_before.len() - 1);
                            assert(queue@[k] == b);
                        }
                        if b == address {
                            assert(!self.spill_ownership_map@.contains_key(b));
                        }
                    }
                }
                continue ;
            }
            let ghost s0 = *self;
            let ghost q0 = queue@;
            let ghost rc0 = reset_cells@;
            let ghost length_before = reset_cells@.len();
            assert(length_before == 0 ==> address == start);
            self.change_cell(address, CellChange::SetValue(None));
            let ghost s1 = *self;
            assert(forall|x: CellAddress, r: CellRectangle| #[trigger]
                child_rectangle_of(s0.cells@, x, r) && x != address ==> child_rectangle_of(s1.cells@, x, r));
            if self.is_independent_at(address) {
                self.update_child_data(address, ChildDataUpdateType::Reset);
            }
            let ghost s2 = *self;
            assert(forall|x: CellAddress, r: CellRectangle| #[trigger]
                child_rectangle_of(s0.cells@, x, r) && x != address ==> child_rectangle_of(s2.cells@, x, r));
            assert(forall|b: CellAddress| #[trigger]
                sound_at(s1.cells@, s1.spill_ownership_map@, b) && b != address ==> sound_at(
                    s2.cells@,
                    s2.spill_ownership_map@,
                    b,
                ));
            assert(s2.cells@[address].value is None);
            assert(closed_start && address == start ==> self.unlinked(start)
                && self.cells@[start].value is None);
            proof {
                crate::cell::lemma_set_insert(reset_cells@, address);
                lemma_push_contains(reset_cells@, address);
            }
            reset_cells.push(address);
            assert(reset_cells@.contains(start));
            proof {
                assert forall|y: CellAddress| #[trigger]
                    s2.cells@.contains_key(y) && s2.cells@[y].is_independent() && y != address implies rectangles_at(
                    s2.cells@,
                    y,
                ) == rectangles_at(s0.cells@, y) by {
                    assert(rectangles_at(s2.cells@, y) =~= rectangles_at(s0.cells@, y)) by {
                        assert forall|r: CellRectangle| #[trigger] rectangles_at(s2.cells@, y).contains(r)
                            == rectangles_at(s0.cells@, y).contains(r) by {
                            assert(child_rectangle_of(s2.cells@, y, r) == child_rectangle_of(s1.cells@, y, r));
                            assert(child_rectangle_of(s1.cells@, y, r) == child_rectangle_of(s0.cells@, y, r));
                        }
                    }
                }
                assert(s2.cells@[address].is_independent() ==> rectangles_at(s2.cells@, address) == initial_at(
                    s2.cells@,
                    address,
                )) by {
                    if s2.cells@[address].is_independent() {
                        assert(formula_at(s1.cells@, address) == formula_at(s2.cells@, address));
                    }
                }
                assert forall|y: CellAddress| #[trigger]
                    s2.cells@.contains_key(y) && s2.cells@[y].is_independent() implies rectangles_at(s2.cells@, y)
                    == rectangles_at(old(self).cells@, y) || rectangles_at(s2.cells@, y) == initial_at(
                    s2.cells@,
                    y,
                ) by {
                    if y != address {
                        assert(formula_at(s0.cells@, y) == formula_at(s2.cells@, y));
                    }
                }
                assert forall|y: CellAddress| #[trigger]
                    reset_cells@.contains(y) && s2.cells@.contains_key(y) && s2.cells@[y].is_independent() implies rectangles_at(
                    s2.cells@,
                    y,
                ) == initial_at(s2.cells@, y) by {
                    if y != address {
                        assert(rc0.contains(y));
                        assert(formula_at(s0.cells@, y) == formula_at(s2.cells@, y));
                    }
                }
            }
            let ghost queue_mid = queue@;
            self.push_parents(address, &reset_cells, &mut queue);
            assert forall|b: CellAddress| #[trigger]
                old(self).isolated(b) && b != start implies !queue@.contains(b) by {
                assert(!queue_mid.contains(b));
                if queue@.contains(b) {
                    assert(has_parent(self.cells@, address, b));
                    assert(has_child(self.cells@, b, address));
                    assert(self.cells@[b].spec_children().contains(address));
                }
            }
            let ghost rc = reset_cells@;
            let ghost q3 = queue@;
            assert forall|y: CellAddress| #[trigger]
                cleared(old(self).cells@, self.cells@, y) implies reset_cells@.contains(y) by {
                if y != address {
                    assert(s1.cells@[y] == s0.cells@[y]);
                    assert(cleared(old(self).cells@, s0.cells@, y));
                    assert(rc0.contains(y));
                }
            }
            assert forall|y: CellAddress| #[trigger]
                queue@.contains(y) && y != start && self.cells@.contains_key(y) implies self.cells@[y].is_independent() by {
                if q3.contains(y) && !queue_mid.contains(y) {
                    assert(has_parent(self.cells@, address, y));
                    assert(has_child(self.cells@, y, address));
                } else {
                    let k = choose|k: int| 0 <= k < queue_mid.len() && queue_mid[k] == y;
                    assert(queue_before[k] == y);
                    assert(queue_before.contains(y));
                    assert(s0.cells@.contains_key(y));
                    assert(formula_at(s0.cells@, y) == formula_at(self.cells@, y));
                }
            }
            assert(spill_over_kept(old(self).cells@, s2.cells@, start)) by {
                assert forall|y: CellAddress| #[trigger]
                    s2.cells@.contains_key(y) && y != start && old(self).cells@.contains_key(y)
                        && !old(self).cells@[y].is_independent() implies !s2.cells@[y].is_independent()
                    && s2.cells@[y].value == old(self).cells@[y].value by {
                    assert(s0.cells@.contains_key(y));
                    assert(formula_at(s0.cells@, y) == formula_at(s2.cells@, y));
                    assert(y != address);
                    assert(s1.cells@[y] == s0.cells@[y]);
                }
            }
            let ghost s2_queue = queue@;
            let ghost rc_pushed = reset_cells@;
            self.release_spill_area(address, &mut reset_cells);
            proof {
                assert(rc_pushed.contains(address));
                assert forall|o: CellAddress| #[trigger]
                    old(self).spill_ownership_map@.contains_key(o) && !self.spill_ownership_map@.contains_key(o)
                    implies reset_cells@.contains(o) by {
                    if !s0.spill_ownership_map@.contains_key(o) {
                        assert(rc0.contains(o));
                        assert(rc_pushed.contains(o));
                    } else if o != address {
                        assert(s2.spill_ownership_map@.remove(address).contains_key(o));
                    }
                }
                assert(!rc0.contains(address));
                assert(s0.spill_ownership_map@.contains_key(address) || !old(self).spill_ownership_map@.contains_key(address));
                assert forall|o: CellAddress, b: CellAddress|
                    #![trigger reset_cells@.contains(o), old(self).cells@.contains_key(b)]
                    reset_cells@.contains(o) && !Seq::<CellAddress>::empty().contains(o)
                        && old(self).spill_ownership_map@.contains_key(o)
                        && old(self).spill_ownership_map@[o].0.spec_contains(b) && b != o
                        && old(self).cells@.contains_key(b) && !old(self).cells@[b].is_independent()
                        implies !self.cells@.contains_key(b) || reset_cells@.contains(b) by {
                    if rc0.contains(o) {
                        assert(!s0.cells@.contains_key(b) || rc0.contains(b));
                        if rc0.contains(b) {
                            assert(rc_pushed.contains(b));
                        }
                    } else if o == address {
                        assert(s2.spill_ownership_map@.contains_key(address));
                        if s2.cells@.contains_key(b) {
                            assert(formula_at(old(self).cells@, b) == formula_at(s2.cells@, b));
                        }
                    } else {
                        assert(!rc_pushed.contains(o));
                        assert(s0.spill_ownership_map@.contains_key(o));
                        if s2.cells@.contains_key(b) {
                            assert(formula_at(old(self).cells@, b) == formula_at(s2.cells@, b));
                        }
                    }
                }
            }
            proof {
                assert(reset_cells@.contains(address));
                assert forall|y: CellAddress| #[trigger] rc0.contains(y) implies reset_cells@.contains(y) by {
                    assert(rc_pushed.contains(y));
                }
                assert forall|x: CellAddress| #[trigger] waiting(s2.cells@, x) implies seq![address].contains(x)
                    || waiting(s0.cells@, x) by {
                    if x != address {
                        assert(s1.cells@[x] == s0.cells@[x]);
                        assert(formula_at(s1.cells@, x) == formula_at(s2.cells@, x));
                        lemma_children_same(s1.cells@, s2.cells@, x);
                        assert forall|y: CellAddress| #[trigger] has_child(s2.cells@, x, y) implies s2.cells@.contains_key(y) by {
                            assert(children_exact(s2.cells@, x, y));
                        }
                        assert forall|y: CellAddress| #[trigger] has_child(s0.cells@, x, y) implies has_child(s2.cells@, x, y) by {
                            assert(has_child(s1.cells@, x, y));
                        }
                        assert(values_cleared(s0.cells@, s2.cells@)) by {
                            assert forall|y: CellAddress| #[trigger] s2.cells@.contains_key(y) && s2.cells@[y].value is Some
                                implies s0.cells@.contains_key(y) && s0.cells@[y].value == s2.cells@[y].value by {
                                assert(y != address);
                            }
                        }
                        lemma_waiting_back(s0.cells@, s2.cells@, x);
                    } else {
                        assert(seq![address][0] == address);
                    }
                }
                assert forall|x: CellAddress, y: CellAddress| #[trigger]
                    has_child(s2.cells@, x, y) && !has_child(s0.cells@, x, y) implies seq![address].contains(x) by {
                    if x != address {
                        lemma_children_same(s1.cells@, s2.cells@, x);
                        assert(s1.cells@[x] == s0.cells@[x]);
                        assert(has_child(s1.cells@, x, y));
                    } else {
                        assert(seq![address][0] == address);
                    }
                }
                assert forall|y: CellAddress| #[trigger] seq![address].contains(y) implies reset_cells@.contains(y) by {
                    let k = choose|k: int| 0 <= k < 1 && seq![address][k] == y;
                }
                lemma_waiting_chain(old(self).cells@, s0.cells@, s2.cells@, rc0, seq![address], reset_cells@);
                lemma_waiting_chain(old(self).cells@, s2.cells@, self.cells@, reset_cells@, reset_cells@, reset_cells@);
                lemma_links_chain(old(self).cells@, s0.cells@, s2.cells@, rc0, seq![address], reset_cells@);
                lemma_links_chain(old(self).cells@, s2.cells@, self.cells@, reset_cells@, reset_cells@, reset_cells@);
                assert forall|x: CellAddress| #[trigger]
                    has_child(self.cells@, x, start) implies reset_cells@.contains(x) || queue@.contains(x) by {
                    if has_child(s2.cells@, x, start) {
                        if !has_child(s0.cells@, x, start) {
                            assert(seq![address].contains(x));
                            assert(x == address);
                        } else if rc0.len() == 0 {
                            assert(address == start);
                            assert(has_parent(s2.cells@, start, x));
                            assert(reset_cells@.contains(x) || q3.contains(x) || rc_pushed.contains(x));
                        } else {
                            assert(rc0.contains(x) || queue_before.contains(x));
                            if queue_before.contains(x) && x != address && !rc0.contains(x) {
                                let k = choose|k: int| 0 <= k < queue_before.len() && queue_before[k] == x;
                                assert(k != queue_before.len() - 1);
                                assert(queue_mid[k] == x);
                                assert(q3.contains(x));
                            }
                        }
                    }
                }
                assert(only_spill_over_removed(old(self).cells@, s2.cells@)) by {
                    assert forall|y: CellAddress| #[trigger]
                        old(self).cells@.contains_key(y) && !s2.cells@.contains_key(y) implies !old(self).cells@[y].is_independent() by {
                        assert(!s0.cells@.contains_key(y));
                    }
                }
                lemma_removed_chain(old(self).cells@, s2.cells@, self.cells@);
                assert forall|x: CellAddress, y: CellAddress| #[trigger]
                    has_child(self.cells@, x, y) && reset_cells@.contains(y) implies reset_cells@.contains(x)
                    || queue@.contains(x) by {
                    if !rc_pushed.contains(y) {
                    } else if !has_child(s2.cells@, x, y) {
                    } else if y == address {
                        assert(has_parent(s2.cells@, address, x));
                        assert(rc_pushed.contains(x) || q3.contains(x));
                    } else {
                        assert(rc0.contains(y));
                        if !has_child(s0.cells@, x, y) {
                            assert(seq![address].contains(x));
                            assert(x == address);
                        } else {
                            assert(rc0.contains(x) || queue_before.contains(x));
                            if rc0.contains(x) {
                                assert(rc_pushed.contains(x));
                            } else if x != address {
                                let k = choose|k: int| 0 <= k < queue_before.len() && queue_before[k] == x;
                                assert(k != queue_before.len() - 1);
                                assert(queue_mid[k] == x);
                                assert(q3.contains(x));
                            }
                        }
                    }
                }
                lemma_rectangles_chain(old(self).cells@, s2.cells@, self.cells@, Seq::<CellAddress>::empty());
                lemma_spill_over_chain(old(self).cells@, s2.cells@, self.cells@, start, address);
                assert forall|y: CellAddress| #[trigger]
                    queue@.contains(y) && y != start && self.cells@.contains_key(y) implies self.cells@[y].is_independent() by {
                    assert(s2.cells@.contains_key(y));
                    assert(formula_at(s2.cells@, y) == formula_at(self.cells@, y));
                }
            }
            proof {
                assert forall|o: CellAddress| #[trigger]
                    s2.spill_ownership_map@.contains_key(o) && !self.spill_ownership_map@.contains_key(o)
                    implies !(self.cells@.contains_key(o) && self.cells@[o].value is Some) by {
                    if o != address {
                        assert(s2.spill_ownership_map@.remove(address).contains_key(o));
                    } else if self.cells@.contains_key(o) && self.cells@[o].value is Some {
                        assert(s2.cells@[o].value is Some);
                    }
                }
                assert forall|y: CellAddress| #[trigger]
                    self.cells@.contains_key(y) && self.cells@[y].value is Some implies s0.cells@.contains_key(y)
                    && s0.cells@[y].value == self.cells@[y].value by {
                    assert(s2.cells@.contains_key(y) && s2.cells@[y].value == self.cells@[y].value);
                    assert(y != address);
                    assert(s1.cells@[y] == s0.cells@[y]);
                }
                assert(s2.spill_ownership_map@ == s0.spill_ownership_map@);
                lemma_released_chain(
                    old(self).spill_ownership_map@,
                    s0.spill_ownership_map@,
                    self.spill_ownership_map@,
                    s0.cells@,
                    self.cells@,
                );
            }
            assert forall|y: CellAddress| #[trigger]
                cleared(old(self).cells@, self.cells@, y) implies reset_cells@.contains(y) by {
                if s2.cells@[y].value is None {
                    assert(cleared(old(self).cells@, s2.cells@, y));
                    assert(rc.contains(y));
                } else {
                    assert(cleared(s2.cells@, self.cells@, y));
                }
            }
            assert(rc.contains(start));
            assert forall|y: CellAddress| #[trigger]
                reset_cells@.contains(y) implies !self.spill_ownership_map@.contains_key(y) by {
                if rc.contains(y) && y != address {
                    assert(rc0.contains(y));
                    assert(!s0.spill_ownership_map@.contains_key(y));
                }
            }
            proof {
                assert forall|y: CellAddress| #[trigger]
                    reset_cells@.contains(y) && self.cells@.contains_key(y) implies self.cells@[y].value
                    is None by {
                    if rc.contains(y) && self.cells@[y].value is Some {
                        assert(s2.cells@.contains_key(y) && s2.cells@[y].value is Some);
                        if y != address {
                            assert(rc0.contains(y));
                            assert(s1.cells@[y].value is Some);
                            assert(s0.cells@[y].value is Some);
                        }
                    }
                }
                assert forall|b: CellAddress| #[trigger]
                    sound_at(self.cells@, self.spill_ownership_map@, b) || queue@.contains(b) || (
                    reset_cells@.len() == 0 && has_child(old(self).cells@, b, start)) || !(sound_at(
                        old(self).cells@,
                        old(self).spill_ownership_map@,
                        b,
                    ) || b == start || has_child(old(self).cells@, b, start)) by {
                    if b == address {
                        assert(!self.spill_ownership_map@.contains_key(b));
                    } else if rc0.contains(b) {
                        assert(!s0.spill_ownership_map@.contains_key(b));
                        assert(!self.spill_ownership_map@.contains_key(b));
                        if self.cells@.contains_key(b) && self.cells@[b].value is Some {
                            assert(s2.cells@[b].value is Some);
                            assert(s0.cells@[b].value is Some);
                        }
                    } else if has_child(s0.cells@, b, address) {
                        assert(children_exact(s0.cells@, b, address));
                        let r = choose|r: CellRectangle| #[trigger]
                            child_rectangle_of(s0.cells@, b, r) && r.spec_contains(address);
                        assert(child_rectangle_of(s2.cells@, b, r));
                        assert(children_exact(s2.cells@, b, address));
                        assert(has_child(s2.cells@, b, address));
                        assert(has_parent(s2.cells@, address, b));
                        assert(!rc.contains(b));
                        assert(q3.contains(b));
                    } else if sound_at(s0.cells@, s0.spill_ownership_map@, b) {
                        if s0.cells@.contains_key(b) && covers(
                            s0.cells@[b].spec_child_rectangles().to_set(),
                            address,
                        ) {
                            let r = choose|r: CellRectangle| #[trigger]
                                s0.cells@[b].spec_child_rectangles().to_set().contains(r)
                                    && r.spec_contains(address);
                            assert(child_rectangle_of(s0.cells@, b, r));
                            assert(children_exact(s0.cells@, b, address));
                        }
                        assert(sound_at(s1.cells@, s1.spill_ownership_map@, b));
                        assert(sound_at(s2.cells@, s2.spill_ownership_map@, b));
                    } else if queue_before.contains(b) {
                        let k = choose|k: int| 0 <= k < queue_before.len() && queue_before[k] == b;
                        assert(k != queue_before.len() - 1);
                        assert(q0[k] == b);
                        assert(q3.contains(b));
                    } else if rc0.len() == 0 && has_child(old(self).cells@, b, start) {
                        assert(address == start);
                    }
                }
            }
        }
        reset_cells
    }

    /// Queues the parents of the cell at `a` that are not in `reset_cells`.
    fn push_parents(&self, a: CellAddress, reset_cells: &Vec<CellAddress>, queue: &mut Vec<CellAddress>)
        ensures
            forall|y: CellAddress| #[trigger]
                final(queue)@.contains(y) ==> old(queue)@.contains(y) || has_parent(self.cells@, a, y),
            forall|y: CellAddress| #[trigger]
                final(queue)@.contains(y) <== old(queue)@.contains(y) || (has_parent(self.cells@, a, y)
                    && !reset_cells@.contains(y)),
            final(queue)@.len() >= old(queue)@.len(),
    {
        let parents: Vec<CellAddress> = match self.cells.get(&a) {
            Some(cell) => copy_addresses(&cell.parents),
            None => Vec::new(),
        };
        let mut i: usize = 0;
        while i < parents.len()
            invariant
                i <= parents.len(),
                forall|y: CellAddress| #[trigger] parents@.contains(y) <==> has_parent(self.cells@, a, y),
                forall|y: CellAddress| #[trigger]
                    queue@.contains(y) ==> old(queue)@.contains(y) || has_parent(self.cells@, a, y),
                forall|y: CellAddress| #[trigger]
                    old(queue)@.contains(y) ==> queue@.contains(y),
                forall|j: int|
                    0 <= j < i ==> reset_cells@.contains(#[trigger] parents@[j]) || queue@.contains(
                        parents@[j],
                    ),
                queue@.len() >= old(queue)@.len(),
            decreases parents.len() - i,
        {
            let ghost prior = queue@;
            if !contains_address(reset_cells, parents[i]) {
                assert(parents@.contains(parents@[i as int]));
                queue.push(parents[i]);
                proof {
                    lemma_push_contains(prior, parents@[i as int]);
                }
            }
            proof {
                lemma_push_contains(prior, parents@[i as int]);
            }
            i += 1;
        }
        proof {
            assert forall|y: CellAddress| has_parent(self.cells@, a, y) && !reset_cells@.contains(y)
                implies #[trigger] queue@.contains(y) by {
                assert(parents@.contains(y));
                let k = choose|k: int| 0 <= k < parents@.len() && parents@[k] == y;
                assert(reset_cells@.contains(parents@[k]) || queue@.contains(parents@[k]));
            }
        }
    }

    /// When the cell at `owner` claims a spill area, forgets the claim and
    /// deletes the spill-over cells inside the area that are not in
    /// `reset_cells`, adding the addresses that this resets to
    /// `reset_cells`.
    #[verifier::rlimit(60)]
    fn release_spill_area(&mut self, owner: CellAddress, reset_cells: &mut Vec<CellAddress>)
        requires
            old(self).well_formed(),
            old(reset_cells)@.no_duplicates(),
        ensures
            cells_shrink(old(self).cells@, final(self).cells@),
            cleared_listed(old(self).cells@, final(self).cells@, final(reset_cells)@),
            forall|y: CellAddress| #[trigger]
                final(reset_cells)@.contains(y) && !old(reset_cells)@.contains(y)
                    ==> !final(self).spill_ownership_map@.contains_key(y),
            !final(self).spill_ownership_map@.contains_key(owner),
            claims_kept(old(self).spill_ownership_map@, final(self).spill_ownership_map@),
            released_without_values(
                old(self).spill_ownership_map@.remove(owner),
                final(self).spill_ownership_map@,
                final(self).cells@,
            ),
            Self::kept(old(self), final(self)),
            final(reset_cells)@.no_duplicates(),
            final(reset_cells)@.len() >= old(reset_cells)@.len(),
            forall|y: CellAddress| #[trigger]
                old(reset_cells)@.contains(y) ==> final(reset_cells)@.contains(y),
            forall|b: CellAddress| #[trigger]
                old(self).isolated(b) ==> final(self).isolated(b)
                    && final(self).cells@[b].value == old(self).cells@[b].value,
            old(self).unlinked(owner) ==> final(self).isolated(owner)
                && final(self).cells@[owner].value == old(self).cells@[owner].value,
            values_cleared(old(self).cells@, final(self).cells@),
            spill_over_kept(old(self).cells@, final(self).cells@, owner),
            waiting_listed(old(self).cells@, final(self).cells@, final(reset_cells)@),
            forall|x: CellAddress, y: CellAddress| #[trigger]
                has_child(final(self).cells@, x, y) && final(reset_cells)@.contains(y) && !old(reset_cells)@.contains(y)
                    ==> final(reset_cells)@.contains(x),
            only_spill_over_removed(old(self).cells@, final(self).cells@),
            links_from_listed(old(self).cells@, final(self).cells@, final(reset_cells)@),
            dropped_listed(
                old(self).spill_ownership_map@.remove(owner),
                final(self).spill_ownership_map@,
                final(reset_cells)@,
            ),
            spill_cleared(
                old(self).cells@,
                old(self).spill_ownership_map@,
                final(self).cells@,
                final(reset_cells)@,
                old(reset_cells)@,
            ),
            rectangles_kept_or_reset(old(self).cells@, final(self).cells@),
            forall|b: CellAddress| #[trigger]
                old(self).cells@.contains_key(b) && !old(self).cells@[b].is_independent()
                    && old(self).spill_ownership_map@.contains_key(owner)
                    && old(self).spill_ownership_map@[owner].0.spec_contains(b) && b != owner
                    && !old(reset_cells)@.contains(b) ==> !final(self).cells@.contains_key(b),
            listed_rectangles_reset(old(self).cells@, old(reset_cells)@) ==> listed_rectangles_reset(
                final(self).cells@,
                final(reset_cells)@,
            ),
            forall|y: CellAddress| #[trigger]
                final(reset_cells)@.contains(y) && !old(reset_cells)@.contains(y) && final(self).cells@.contains_key(y) ==> final(self).cells@[y].value is None,
            forall|b: CellAddress| #[trigger]
                sound_at(old(self).cells@, old(self).spill_ownership_map@, b) && !(b == owner && old(
                    self,
                ).cells@.contains_key(owner) && old(self).cells@[owner].value is Some) ==> sound_at(
                    final(self).cells@,
                    final(self).spill_ownership_map@,
                    b,
                ),
        decreases old(self).claims(), 0nat,
    {
        match self.spill_ownership_map.get_owned_rectangle(&owner) {
            None => {
                assert(old(self).spill_ownership_map@.remove(owner) =~= self.spill_ownership_map@);
            },
            Some(owned) => {
                let inside = self.cells.get_all_in_rectangle(&owned);
                let mut dependents: Vec<CellAddress> = Vec::new();
                let mut j: usize = 0;
                while j < inside.len()
                    invariant
                        j <= inside.len(),
                        forall|jj: int|
                            0 <= jj < j && inside@[jj] != owner && !reset_cells@.contains(inside@[jj])
                                ==> #[trigger] dependents@.contains(inside@[jj]),
                        forall|y: CellAddress| #[trigger] dependents@.contains(y) ==> y != owner,
                    decreases inside.len() - j,
                {
                    let ghost before = dependents@;
                    if inside[j] != owner && !contains_address(reset_cells, inside[j]) {
                        dependents.push(inside[j]);
                        proof {
                            lemma_push_contains(before, inside@[j as int]);
                        }
                    }
                    proof {
                        assert forall|y: CellAddress| before.contains(y) implies #[trigger] dependents@.contains(y) by {
                            let kk = choose|kk: int| 0 <= kk < before.len() && before[kk] == y;
                            assert(dependents@[kk] == y);
                        }
                    }
                    j += 1;
                }
                let ghost t0 = *self;
                self.spill_ownership_map.remove(&owner);
                assert forall|b: CellAddress| #[trigger] t0.isolated(b) implies self.isolated(b) by {}
                assert(t0.unlinked(owner) ==> self.isolated(owner));
                assert forall|b: CellAddress| #[trigger]
                    sound_at(old(self).cells@, old(self).spill_ownership_map@, b) && !(b == owner && old(
                        self,
                    ).cells@.contains_key(owner) && old(self).cells@[owner].value is Some) implies sound_at(
                    self.cells@,
                    self.spill_ownership_map@,
                    b,
                ) by {
                    assert(self.spill_ownership_map@.contains_key(b) == (old(
                        self,
                    ).spill_ownership_map@.contains_key(b) && b != owner));
                }
                proof {
                    lemma_push_contains(old(reset_cells)@, owner);
                }
                let ghost entry_claims = old(self).claims();
                let mut k: usize = 0;
                while k < dependents.len()
                    invariant
                        k <= dependents.len(),
                        Self::kept(old(self), self),
                        self.claims() < entry_claims,
                        entry_claims == old(self).claims(),
                        reset_cells@.no_duplicates(),
                        reset_cells@.len() >= old(reset_cells)@.len(),
                        forall|y: CellAddress| #[trigger]
                            old(reset_cells)@.contains(y) ==> reset_cells@.contains(y),
                        forall|b: CellAddress| #[trigger]
                            old(self).isolated(b) ==> self.isolated(b)
                                && self.cells@[b].value == old(self).cells@[b].value,
                        old(self).unlinked(owner) ==> self.isolated(owner)
                            && self.cells@[owner].value == old(self).cells@[owner].value,
                        values_cleared(old(self).cells@, self.cells@),
                        forall|y: CellAddress| #[trigger]
                            reset_cells@.contains(y) && !old(reset_cells)@.contains(y)
                                && self.cells@.contains_key(y) ==> self.cells@[y].value is None,
                        forall|y: CellAddress| #[trigger]
                            reset_cells@.contains(y) && !old(reset_cells)@.contains(y)
                                ==> !self.spill_ownership_map@.contains_key(y),
                        !self.spill_ownership_map@.contains_key(owner),
                        forall|b: CellAddress| #[trigger]
                            sound_at(old(self).cells@, old(self).spill_ownership_map@, b) && !(b
                                == owner && old(self).cells@.contains_key(owner) && old(
                                self,
                            ).cells@[owner].value is Some) ==> sound_at(
                                self.cells@,
                                self.spill_ownership_map@,
                                b,
                            ),
                        claims_kept(old(self).spill_ownership_map@, self.spill_ownership_map@),
                        released_without_values(
                            old(self).spill_ownership_map@.remove(owner),
                            self.spill_ownership_map@,
                            self.cells@,
                        ),
                        cells_shrink(old(self).cells@, self.cells@),
                        spill_over_kept(old(self).cells@, self.cells@, owner),
                        rectangles_kept_or_reset(old(self).cells@, self.cells@),
                        listed_rectangles_reset(old(self).cells@, old(reset_cells)@) ==> listed_rectangles_reset(
                            self.cells@,
                            reset_cells@,
                        ),
                        cleared_listed(old(self).cells@, self.cells@, reset_cells@),
                        forall|jj: int|
                            0 <= jj < k && old(self).cells@.contains_key(dependents@[jj]) && !old(
                                self,
                            ).cells@[dependents@[jj]].is_independent() ==> !self.cells@.contains_key(
                                #[trigger] dependents@[jj],
                            ),
                        forall|y: CellAddress| #[trigger] dependents@.contains(y) ==> y != owner,
                        waiting_listed(old(self).cells@, self.cells@, reset_cells@),
                        links_from_listed(old(self).cells@, self.cells@, reset_cells@),
                        only_spill_over_removed(old(self).cells@, self.cells@),
                        forall|x: CellAddress, y: CellAddress| #[trigger]
                            has_child(self.cells@, x, y) && reset_cells@.contains(y) && !old(reset_cells)@.contains(y)
                                ==> reset_cells@.contains(x),
                        dropped_listed(
                            old(self).spill_ownership_map@.remove(owner),
                            self.spill_ownership_map@,
                            reset_cells@,
                        ),
                        spill_cleared(
                            old(self).cells@,
                            old(self).spill_ownership_map@,
                            self.cells@,
                            reset_cells@,
                            old(reset_cells)@.push(owner),
                        ),
                    decreases dependents.len() - k,
                {
                    let ghost rcb = reset_cells@;
                    let ghost cb = self.cells@;
                    let ghost mb = self.spill_ownership_map@;
                    let more = self.delete_dependent_cell(dependents[k]);
                    proof {
                        if listed_rectangles_reset(old(self).cells@, old(reset_cells)@) {
                            lemma_rectangles_chain(old(self).cells@, cb, self.cells@, rcb);
                        } else {
                            lemma_rectangles_chain(old(self).cells@, cb, self.cells@, Seq::<CellAddress>::empty());
                        }
                        lemma_spill_over_chain(old(self).cells@, cb, self.cells@, owner, dependents@[k as int]);
                        assert(dependents@.contains(dependents@[k as int]));
                        assert forall|jj: int|
                            0 <= jj < k + 1 && old(self).cells@.contains_key(dependents@[jj]) && !old(
                                self,
                            ).cells@[dependents@[jj]].is_independent() implies !self.cells@.contains_key(
                                #[trigger] dependents@[jj],
                            ) by {
                            if jj < k {
                                assert(!cb.contains_key(dependents@[jj]));
                            } else if cb.contains_key(dependents@[jj]) {
                                assert(!cb[dependents@[jj]].is_independent());
                            }
                        }
                        lemma_released_chain(
                            old(self).spill_ownership_map@.remove(owner),
                            mb,
                            self.spill_ownership_map@,
                            cb,
                            self.cells@,
                        );
                    }
                    assert forall|y: CellAddress| #[trigger]
                        rcb.contains(y) && !old(reset_cells)@.contains(y) && self.cells@.contains_key(y)
                        implies self.cells@[y].value is None by {}
                    assert forall|y: CellAddress| #[trigger]
                        rcb.contains(y) && !old(reset_cells)@.contains(y)
                        implies !self.spill_ownership_map@.contains_key(y) by {}
                    let mut m: usize = 0;
                    while m < more.len()
                        invariant
                            m <= more.len(),
                            forall|y: CellAddress| #[trigger]
                                reset_cells@.contains(y) && !old(reset_cells)@.contains(y)
                                    && self.cells@.contains_key(y) ==> self.cells@[y].value is None,
                            forall|y: CellAddress| #[trigger]
                                more@.contains(y) && self.cells@.contains_key(y) ==> self.cells@[y].value is None,
                            forall|y: CellAddress| #[trigger]
                                reset_cells@.contains(y) && !old(reset_cells)@.contains(y)
                                    ==> !self.spill_ownership_map@.contains_key(y),
                            forall|y: CellAddress| #[trigger]
                                more@.contains(y) ==> !self.spill_ownership_map@.contains_key(y),
                            reset_cells@.no_duplicates(),
                            reset_cells@.len() >= old(reset_cells)@.len(),
                            forall|y: CellAddress| #[trigger]
                                old(reset_cells)@.contains(y) ==> reset_cells@.contains(y),
                            forall|y: CellAddress| #[trigger]
                                rcb.contains(y) ==> reset_cells@.contains(y),
                            forall|j: int| 0 <= j < m ==> reset_cells@.contains(#[trigger] more@[j]),
                            forall|y: CellAddress| #[trigger]
                                reset_cells@.contains(y) ==> rcb.contains(y) || more@.contains(y),
                        decreases more.len() - m,
                    {
                        proof {
                            crate::cell::lemma_set_insert(reset_cells@, more@[m as int]);
                        }
                        assert(more@.contains(more@[m as int]));
                        vec_insert(reset_cells, more[m]);
                        m += 1;
                    }
                    proof {
                        assert forall|o: CellAddress| #[trigger]
                            old(self).spill_ownership_map@.remove(owner).contains_key(o)
                                && !self.spill_ownership_map@.contains_key(o) implies reset_cells@.contains(o) by {
                            if !mb.contains_key(o) {
                                assert(rcb.contains(o));
                            } else {
                                assert(more@.contains(o));
                            }
                        }
                        assert forall|o: CellAddress, b: CellAddress|
                            #![trigger reset_cells@.contains(o), old(self).cells@.contains_key(b)]
                            reset_cells@.contains(o) && !old(reset_cells)@.push(owner).contains(o)
                                && old(self).spill_ownership_map@.contains_key(o)
                                && old(self).spill_ownership_map@[o].0.spec_contains(b) && b != o
                                && old(self).cells@.contains_key(b) && !old(self).cells@[b].is_independent()
                                implies !self.cells@.contains_key(b) || reset_cells@.contains(b) by {
                            if rcb.contains(o) {
                                assert(!cb.contains_key(b) || rcb.contains(b));
                            } else {
                                assert(more@.contains(o));
                                assert(o != owner) by {
                                    assert(old(reset_cells)@.push(owner).contains(owner)) by {
                                        assert(old(reset_cells)@.push(owner)[old(reset_cells)@.len() as int] == owner);
                                    }
                                }
                                assert(old(self).spill_ownership_map@.remove(owner).contains_key(o));
                                assert(mb.contains_key(o));
                                assert(mb[o] == old(self).spill_ownership_map@[o]);
                                if cb.contains_key(b) {
                                    assert(formula_at(old(self).cells@, b) == formula_at(cb, b));
                                    assert(!self.cells@.contains_key(b) || more@.contains(b));
                                }
                            }
                        }
                    }
                    proof {
                        assert forall|y: CellAddress| #[trigger] more@.contains(y) implies reset_cells@.contains(y) by {
                            let jj = choose|jj: int| 0 <= jj < more@.len() && more@[jj] == y;
                            assert(reset_cells@.contains(more@[jj]));
                        }
                        lemma_waiting_chain(old(self).cells@, cb, self.cells@, rcb, more@, reset_cells@);
                        lemma_removed_chain(old(self).cells@, cb, self.cells@);
                        assert forall|x: CellAddress, y: CellAddress| #[trigger]
                            has_child(self.cells@, x, y) && reset_cells@.contains(y) && !old(reset_cells)@.contains(y)
                            implies reset_cells@.contains(x) by {
                            if more@.contains(y) {
                                assert(more@.contains(x));
                            } else if !has_child(cb, x, y) {
                                assert(more@.contains(x));
                            } else {
                                assert(rcb.contains(y));
                                assert(rcb.contains(x));
                            }
                        }
                        lemma_links_chain(old(self).cells@, cb, self.cells@, rcb, more@, reset_cells@);
                    }
                    assert forall|y: CellAddress| #[trigger]
                        cleared(old(self).cells@, self.cells@, y) implies reset_cells@.contains(y) by {
                        if cb[y].value is None {
                            assert(cleared(old(self).cells@, cb, y));
                            assert(rcb.contains(y));
                        } else {
                            assert(cleared(cb, self.cells@, y));
                            assert(more@.contains(y));
                            let jj = choose|jj: int| 0 <= jj < more@.len() && more@[jj] == y;
                            assert(reset_cells@.contains(more@[jj]));
                        }
                    }
                    k += 1;
                }
                proof {
                    assert forall|b: CellAddress| #[trigger]
                        old(self).cells@.contains_key(b) && !old(self).cells@[b].is_independent()
                            && old(self).spill_ownership_map@.contains_key(owner)
                            && old(self).spill_ownership_map@[owner].0.spec_contains(b) && b != owner
                            && !old(reset_cells)@.contains(b) implies !self.cells@.contains_key(b) by {
                        assert(inside@.contains(b));
                        let jj = choose|jj: int| 0 <= jj < inside@.len() && inside@[jj] == b;
                        assert(dependents@.contains(inside@[jj]));
                        let kk = choose|kk: int| 0 <= kk < dependents@.len() && dependents@[kk] == b;
                        assert(!self.cells@.contains_key(dependents@[kk]));
                    }
                }
            },
        }
    }

    /// Unlinks and removes the spill-over cell at `a`, if there is one.
    fn remove_spill_over_cell(&mut self, a: CellAddress)
        requires
            old(self).well_formed(),
            formula_at(old(self).cells@, a) is None,
        ensures
            forall|y: CellAddress| #[trigger]
                final(self).cells@.contains_key(y) ==> old(self).cells@.contains_key(y)
                    && final(self).cells@[y].value == old(self).cells@[y].value,
            final(self).spill_ownership_map == old(self).spill_ownership_map,
            forall|x: CellAddress, r: CellRectangle| #[trigger]
                child_rectangle_of(final(self).cells@, x, r) && x != a ==> child_rectangle_of(old(self).cells@, x, r),
            forall|x: CellAddress, r: CellRectangle| #[trigger]
                child_rectangle_of(old(self).cells@, x, r) && x != a ==> child_rectangle_of(final(self).cells@, x, r),
            Self::kept(old(self), final(self)),
            final(self).claims() == old(self).claims(),
            !final(self).cells@.contains_key(a),
            forall|b: CellAddress| #[trigger]
                old(self).isolated(b) ==> final(self).isolated(b)
                    && final(self).cells@[b].value == old(self).cells@[b].value,
            values_cleared(old(self).cells@, final(self).cells@),
            only_spill_over_removed(old(self).cells@, final(self).cells@),
            forall|x: CellAddress, y: CellAddress| #[trigger]
                has_child(final(self).cells@, x, y) ==> has_child(old(self).cells@, x, y),
            forall|x: CellAddress, y: CellAddress| #[trigger]
                has_child(old(self).cells@, x, y) && y != a ==> has_child(final(self).cells@, x, y),
            forall|b: CellAddress| #[trigger]
                sound_at(old(self).cells@, old(self).spill_ownership_map@, b) && (!old(
                    self,
                ).cells@.contains_key(a) || old(self).cells@[a].value is None || !(old(
                    self,
                ).cells@.contains_key(b) && covers(
                    old(self).cells@[b].spec_child_rectangles().to_set(),
                    a,
                ))) ==> sound_at(final(self).cells@, final(self).spill_ownership_map@, b),
    {
        if !self.cells.contains(&a) {
            return;
        }
        self.detach_from_parents(a);
        let ghost before = self.cells@;
        assert(formula_at(before, a) == formula_at(old(self).cells@, a));
        assert(!before[a].is_independent());
        assert(forall|y: CellAddress| !has_child(before, a, y));
        proof {
            lemma_agree_after_removal(before, a);
            assert forall|x: CellAddress, y: CellAddress| #[trigger]
                children_exact(before, x, y) || x == a || y == a by {
                assert(children_exact(old(self).cells@, x, y));
            }
            lemma_exact_after_removal(before, a);
        }
        let ghost t = *self;
        self.cells.remove(&a);
        proof {
            assert forall|x: CellAddress, r: CellRectangle| x != a implies #[trigger] child_rectangle_of(
                self.cells@,
                x,
                r,
            ) == child_rectangle_of(old(self).cells@, x, r) by {
                assert(child_rectangle_of(t.cells@, x, r) == child_rectangle_of(old(self).cells@, x, r));
            }
            assert forall|b: CellAddress| #[trigger]
                sound_at(old(self).cells@, old(self).spill_ownership_map@, b) && (!old(
                    self,
                ).cells@.contains_key(a) || old(self).cells@[a].value is None || !(old(
                    self,
                ).cells@.contains_key(b) && covers(
                    old(self).cells@[b].spec_child_rectangles().to_set(),
                    a,
                ))) implies sound_at(self.cells@, self.spill_ownership_map@, b) by {
                assert(sound_at(t.cells@, t.spill_ownership_map@, b));
                if b != a {
                    if t.cells@.contains_key(b) && covers(t.cells@[b].spec_child_rectangles().to_set(), a) {
                        let r = choose|r: CellRectangle| #[trigger]
                            t.cells@[b].spec_child_rectangles().to_set().contains(r) && r.spec_contains(a);
                        assert(child_rectangle_of(t.cells@, b, r));
                        assert(child_rectangle_of(old(self).cells@, b, r));
                        assert(old(self).cells@[b].spec_child_rectangles().to_set().contains(r));
                        assert(covers(old(self).cells@[b].spec_child_rectangles().to_set(), a));
                    }
                    assert forall|y: CellAddress| y != a implies #[trigger] same_cell_at(
                        t.cells@,
                        self.cells@,
                        y,
                    ) by {}
                    lemma_sound_one_change(
                        t.cells@,
                        t.spill_ownership_map@,
                        self.cells@,
                        self.spill_ownership_map@,
                        b,
                        a,
                    );
                }
            }
            assert forall|b: CellAddress| #[trigger]
                formula_at(before, b) == formula_at(self.cells@, b) by {
            }
            assert forall|x: CellAddress, y: CellAddress| #[trigger]
                has_child(self.cells@, x, y) implies has_child(old(self).cells@, x, y) by {
                assert(children_exact(self.cells@, x, y));
                assert(children_exact(old(self).cells@, x, y));
                let r = choose|r: CellRectangle| #[trigger] child_rectangle_of(self.cells@, x, r) && r.spec_contains(y);
                assert(child_rectangle_of(old(self).cells@, x, r));
            }
            assert forall|x: CellAddress, y: CellAddress| #[trigger]
                has_child(old(self).cells@, x, y) && y != a implies has_child(self.cells@, x, y) by {
                assert(children_exact(self.cells@, x, y));
                assert(children_exact(old(self).cells@, x, y));
                assert(old(self).cells@[x].spec_children().len() > 0);
                assert(x != a);
                let r = choose|r: CellRectangle| #[trigger] child_rectangle_of(old(self).cells@, x, r) && r.spec_contains(y);
                assert(child_rectangle_of(self.cells@, x, r));
                assert(before.contains_key(y));
            }
            assert forall|p: CellAddress, r: CellRectangle| #[trigger]
                self.parent_lookup_tree.links(p, r) <==> child_rectangle_of(self.cells@, p, r) by {
                assert(child_rectangle_of(before, p, r) <==> self.parent_lookup_tree.links(p, r));
            }
        }
    }

    /// Deletes the spill-over cell at `a` after resetting it and the cells
    /// that depend on it; a cell with a formula of its own is left alone.
    /// Returns the addresses reset, each once, without `a`.
    fn delete_dependent_cell(&mut self, a: CellAddress) -> (reset_cells: Vec<CellAddress>)
        requires
            old(self).well_formed(),
        ensures
            cells_shrink(old(self).cells@, final(self).cells@),
            cleared_listed(old(self).cells@, final(self).cells@, reset_cells@),
            old(self).cells@.contains_key(a) && !old(self).cells@[a].is_independent()
                ==> !final(self).cells@.contains_key(a) && !reset_cells@.contains(a),
            !(old(self).cells@.contains_key(a) && !old(self).cells@[a].is_independent())
                ==> *final(self) == *old(self) && reset_cells@.len() == 0,
            forall|y: CellAddress| #[trigger]
                reset_cells@.contains(y) ==> !final(self).spill_ownership_map@.contains_key(y),
            claims_kept(old(self).spill_ownership_map@, final(self).spill_ownership_map@),
            released_without_values(
                old(self).spill_ownership_map@,
                final(self).spill_ownership_map@,
                final(self).cells@,
            ),
            Self::kept(old(self), final(self)),
            reset_cells@.no_duplicates(),
            forall|b: CellAddress| #[trigger]
                old(self).isolated(b) ==> final(self).isolated(b)
                    && final(self).cells@[b].value == old(self).cells@[b].value,
            values_cleared(old(self).cells@, final(self).cells@),
            spill_over_kept(old(self).cells@, final(self).cells@, a),
            waiting_listed(old(self).cells@, final(self).cells@, reset_cells@),
            parents_listed(final(self).cells@, reset_cells@),
            only_spill_over_removed(old(self).cells@, final(self).cells@),
            links_from_listed(old(self).cells@, final(self).cells@, reset_cells@),
            dropped_listed(old(self).spill_ownership_map@, final(self).spill_ownership_map@, reset_cells@),
            spill_cleared(
                old(self).cells@,
                old(self).spill_ownership_map@,
                final(self).cells@,
                reset_cells@,
                Seq::<CellAddress>::empty(),
            ),
            rectangles_kept_or_reset(old(self).cells@, final(self).cells@),
            listed_rectangles_reset(final(self).cells@, reset_cells@),
            forall|b: CellAddress| #[trigger]
                sound_at(old(self).cells@, old(self).spill_ownership_map@, b) ==> sound_at(
                    final(self).cells@,
                    final(self).spill_ownership_map@,
                    b,
                ),
            forall|y: CellAddress| #[trigger]
                reset_cells@.contains(y) && final(self).cells@.contains_key(y) ==> final(self).cells@[y].value is None,
        decreases old(self).claims(), 2nat,
    {
        if !self.cells.contains(&a) || self.is_independent_at(a) {
            return Vec::new();
        }
        let mut reset_cells = self.reset_cell_and_ancestors(a);
        let ghost s1 = *self;
        assert(formula_at(self.cells@, a) == formula_at(old(self).cells@, a));
        assert forall|b: CellAddress| #[trigger]
            sound_at(old(self).cells@, old(self).spill_ownership_map@, b) implies sound_at(
            s1.cells@,
            s1.spill_ownership_map@,
            b,
        ) by {}
        self.remove_spill_over_cell(a);
        proof {
            assert forall|y: CellAddress| #[trigger]
                self.cells@.contains_key(y) && y != a && s1.cells@.contains_key(y)
                    && !s1.cells@[y].is_independent() implies !self.cells@[y].is_independent()
                && self.cells@[y].value == s1.cells@[y].value by {
                assert(formula_at(s1.cells@, y) == formula_at(self.cells@, y));
            }
            lemma_spill_over_chain(old(self).cells@, s1.cells@, self.cells@, a, a);
            lemma_removed_chain(old(self).cells@, s1.cells@, self.cells@);
            assert forall|y: CellAddress| #[trigger]
                self.cells@.contains_key(y) && self.cells@[y].is_independent() implies rectangles_at(
                self.cells@,
                y,
            ) == rectangles_at(s1.cells@, y) by {
                assert(rectangles_at(self.cells@, y) =~= rectangles_at(s1.cells@, y)) by {
                    assert forall|r: CellRectangle| #[trigger] rectangles_at(self.cells@, y).contains(r)
                        == rectangles_at(s1.cells@, y).contains(r) by {
                        assert(child_rectangle_of(self.cells@, y, r) == child_rectangle_of(s1.cells@, y, r));
                    }
                }
            }
            lemma_rectangles_chain(old(self).cells@, s1.cells@, self.cells@, reset_cells@);
        }
        assert forall|b: CellAddress| #[trigger]
            sound_at(old(self).cells@, old(self).spill_ownership_map@, b) implies sound_at(
            self.cells@,
            self.spill_ownership_map@,
            b,
        ) by {
            assert(sound_at(s1.cells@, s1.spill_ownership_map@, b));
        }
        assert forall|y: CellAddress| #[trigger]
            self.cells@.contains_key(y) && self.cells@[y].value is Some implies old(self).cells@.contains_key(y)
            && old(self).cells@[y].value == self.cells@[y].value by {
            assert(s1.cells@.contains_key(y) && s1.cells@[y].value == self.cells@[y].value);
        }
        let ghost listed = reset_cells@;
        vec_remove(&mut reset_cells, a);
        proof {
            assert forall|x: CellAddress| #[trigger] waiting(self.cells@, x) implies reset_cells@.contains(x)
                || waiting(old(self).cells@, x) by {
                assert(x != a);
                if has_child(s1.cells@, x, a) {
                    assert(listed.contains(x));
                } else {
                    assert(formula_at(s1.cells@, x) == formula_at(self.cells@, x));
                    assert forall|y: CellAddress| #[trigger] has_child(self.cells@, x, y) implies self.cells@.contains_key(y) by {
                        assert(children_exact(self.cells@, x, y));
                    }
                    lemma_waiting_back(s1.cells@, self.cells@, x);
                    if !listed.contains(x) {
                        assert(waiting(old(self).cells@, x));
                    }
                }
            }
            assert forall|x: CellAddress, y: CellAddress| #[trigger]
                has_child(self.cells@, x, y) && !has_child(old(self).cells@, x, y) implies reset_cells@.contains(x) by {
                assert(has_child(s1.cells@, x, y));
                assert(listed.contains(x));
                assert(x != a);
            }
        }
        assert forall|y: CellAddress| #[trigger]
            cleared(old(self).cells@, self.cells@, y) implies reset_cells@.contains(y) by {
            assert(y != a);
            assert(cleared(old(self).cells@, s1.cells@, y));
            assert(listed.contains(y));
        }
        reset_cells
    }

    /// Puts a spill-over cell with `value` at `a`, where no cell with a
    /// formula of its own stands, links it with its parents and resets
    /// them. Returns the addresses reset, each once.
    fn create_dependent_cell(&mut self, a: CellAddress, value: SingleCellValue) -> (reset_cells: Vec<
        CellAddress,
    >)
        requires
            old(self).well_formed(),
            formula_at(old(self).cells@, a) is None,
        ensures
            reset_cells@.contains(a),
            final(self).cells@.contains_key(a) ==> !final(self).cells@[a].is_independent()
                && final(self).cells@[a].value == Some(value),
            forall|y: CellAddress| #[trigger]
                final(self).cells@.contains_key(y) ==> old(self).cells@.contains_key(y) || y == a,
            forall|y: CellAddress| #[trigger]
                reset_cells@.contains(y) && y != a && final(self).cells@.contains_key(y)
                    ==> final(self).cells@[y].value is None,
            cleared_listed(old(self).cells@, final(self).cells@, reset_cells@),
            claims_kept(old(self).spill_ownership_map@, final(self).spill_ownership_map@),
            released_without_values(
                old(self).spill_ownership_map@,
                final(self).spill_ownership_map@,
                final(self).cells@,
            ),
            forall|y: CellAddress| #[trigger]
                final(self).cells@.contains_key(y) && final(self).cells@[y].value is Some && y != a
                    ==> old(self).cells@.contains_key(y) && final(self).cells@[y].value == old(
                    self,
                ).cells@[y].value,
            spill_over_kept(old(self).cells@, final(self).cells@, a),
            waiting_listed(old(self).cells@, final(self).cells@, reset_cells@),
            parents_listed(final(self).cells@, reset_cells@),
            links_from_listed(old(self).cells@, final(self).cells@, reset_cells@),
            final(self).well_formed(),
            same_formulas(old(self).cells@, final(self).cells@),
            reset_cells@.no_duplicates(),
            forall|b: CellAddress| #[trigger]
                old(self).isolated(b) ==> final(self).isolated(b)
                    && final(self).cells@[b].value == old(self).cells@[b].value,
            forall|b: CellAddress| #[trigger]
                sound_at(old(self).cells@, old(self).spill_ownership_map@, b) ==> sound_at(
                    final(self).cells@,
                    final(self).spill_ownership_map@,
                    b,
                ),
    {
        self.remove_spill_over_cell(a);
        let ghost t1 = *self;
        let ghost t0 = *self;
        let ghost before = self.cells@;
        let cell = Cell { kind: Kind::Dependent, value: None, parents: Vec::new() };
        proof {
            lemma_agree_after_insertion(before, a, cell);
            lemma_exact_after_insertion(before, a, cell);
        }
        self.cells.insert(a, cell);
        proof {
            assert forall|b: CellAddress| #[trigger]
                formula_at(before, b) == formula_at(self.cells@, b) by {
            }
            assert forall|p: CellAddress, r: CellRectangle| #[trigger]
                self.parent_lookup_tree.links(p, r) <==> child_rectangle_of(self.cells@, p, r) by {
                assert(child_rectangle_of(before, p, r) <==> self.parent_lookup_tree.links(p, r));
            }
        }
        assert forall|b: CellAddress| #[trigger] t0.isolated(b) implies self.isolated(b) by {
            assert(b != a);
        }
        let ghost t2 = *self;
        self.attach_to_parents(a);
        let ghost t3 = *self;
        assert(!self.isolated(a));
        let reset_cells = self.reset_cell_and_ancestors(a);
        let ghost t4 = *self;
        self.change_cell(a, CellChange::SetValue(Some(value)));
        proof {
            assert forall|x: CellAddress, y: CellAddress| #[trigger]
                has_child(t3.cells@, x, y) && y != a implies has_child(old(self).cells@, x, y) by {
                assert(children_exact(t3.cells@, x, y));
                assert(x != a);
                let r = choose|r: CellRectangle| #[trigger] child_rectangle_of(t3.cells@, x, r) && r.spec_contains(y);
                assert(child_rectangle_of(t2.cells@, x, r));
                assert(child_rectangle_of(t1.cells@, x, r));
                assert(child_rectangle_of(old(self).cells@, x, r));
                assert(children_exact(old(self).cells@, x, y));
            }
            assert forall|x: CellAddress, y: CellAddress| #[trigger]
                has_child(old(self).cells@, x, y) implies has_child(t3.cells@, x, y) by {
                assert(children_exact(old(self).cells@, x, y));
                assert(x != a || old(self).cells@[x].is_independent());
                let r = choose|r: CellRectangle| #[trigger] child_rectangle_of(old(self).cells@, x, r) && r.spec_contains(y);
                assert(x != a) by {
                    assert(formula_at(old(self).cells@, a) is None);
                }
                assert(child_rectangle_of(t1.cells@, x, r));
                assert(child_rectangle_of(t2.cells@, x, r));
                assert(child_rectangle_of(t3.cells@, x, r));
                assert(children_exact(t3.cells@, x, y));
                if y != a {
                    assert(has_child(t1.cells@, x, y));
                    assert(t1.cells@.contains_key(y));
                }
            }
            assert forall|x: CellAddress| #[trigger] waiting(self.cells@, x) implies reset_cells@.contains(x)
                || waiting(old(self).cells@, x) by {
                if !reset_cells@.contains(x) {
                    assert(x != a);
                    assert(!has_child(t4.cells@, x, a));
                    assert(self.cells@[x] == t4.cells@[x]);
                    assert forall|y: CellAddress| #[trigger] has_child(t4.cells@, x, y) implies has_child(
                        self.cells@,
                        x,
                        y,
                    ) by {}
                    assert forall|y: CellAddress| #[trigger] has_child(self.cells@, x, y) implies self.cells@.contains_key(y) by {
                        assert(children_exact(self.cells@, x, y));
                    }
                    lemma_waiting_back_children(t4.cells@, self.cells@, x);
                    assert(waiting(t3.cells@, x));
                    assert(!has_child(t3.cells@, x, a)) by {
                        if has_child(t3.cells@, x, a) {
                            let k = choose|k: int| 0 <= k < t3.cells@[x].spec_children().len() && t3.cells@[x].spec_children()[k] == a;
                            assert(child_evaluated(t3.cells@, t3.cells@[x].spec_children()[k]));
                        }
                    }
                    assert(t1.cells@.contains_key(x));
                    assert(formula_at(t1.cells@, x) == formula_at(old(self).cells@, x));
                    assert forall|y: CellAddress| #[trigger] has_child(t3.cells@, x, y) implies t3.cells@.contains_key(y) by {
                        assert(children_exact(t3.cells@, x, y));
                    }
                    assert forall|y: CellAddress| #[trigger]
                        has_child(old(self).cells@, x, y) && t3.cells@.contains_key(y) && t3.cells@[y].value is Some
                        implies old(self).cells@.contains_key(y) && old(self).cells@[y].value is Some by {
                        assert(y != a);
                        assert(t1.cells@.contains_key(y));
                    }
                    lemma_waiting_back_children(old(self).cells@, t3.cells@, x);
                }
            }
            assert forall|x: CellAddress, y: CellAddress| #[trigger]
                has_child(self.cells@, x, y) && !has_child(old(self).cells@, x, y) implies reset_cells@.contains(x) by {
                assert(has_child(t4.cells@, x, y));
                if !reset_cells@.contains(x) {
                    assert(has_child(t3.cells@, x, y));
                    if y == a {
                        assert(reset_cells@.contains(x));
                    }
                }
            }
        }
        proof {
            assert forall|o: CellAddress| #[trigger]
                old(self).spill_ownership_map@.contains_key(o) && !self.spill_ownership_map@.contains_key(o)
                implies !(self.cells@.contains_key(o) && self.cells@[o].value is Some) by {
                assert(t3.spill_ownership_map@ == old(self).spill_ownership_map@);
                assert(!(t4.cells@.contains_key(o) && t4.cells@[o].value is Some));
            }
            assert forall|y: CellAddress| #[trigger]
                self.cells@.contains_key(y) && y != a && old(self).cells@.contains_key(y) && !old(
                    self,
                ).cells@[y].is_independent() implies !self.cells@[y].is_independent()
                && self.cells@[y].value == old(self).cells@[y].value by {
                assert(t4.cells@.contains_key(y) && t4.cells@[y] == self.cells@[y]);
                assert(t3.cells@.contains_key(y));
                assert(t1.cells@.contains_key(y));
                assert(t1.cells@[y].value == old(self).cells@[y].value);
                assert(formula_at(t1.cells@, y) == formula_at(old(self).cells@, y));
                assert(t3.cells@[y].value == t1.cells@[y].value);
                assert(formula_at(t3.cells@, y) == formula_at(t1.cells@, y));
                assert(!t3.cells@[y].is_independent());
            }
            assert forall|y: CellAddress| #[trigger]
                self.cells@.contains_key(y) && self.cells@[y].value is Some && y != a implies old(
                self,
            ).cells@.contains_key(y) && self.cells@[y].value == old(self).cells@[y].value by {
                assert(t4.cells@.contains_key(y) && t4.cells@[y].value == self.cells@[y].value);
                assert(t3.cells@[y].value == t4.cells@[y].value);
                assert(t1.cells@.contains_key(y));
                assert(t1.cells@[y].value == old(self).cells@[y].value);
            }
        }
        proof {
            assert(formula_at(t4.cells@, a) == formula_at(t3.cells@, a));
            assert forall|y: CellAddress| #[trigger]
                cleared(old(self).cells@, self.cells@, y) implies reset_cells@.contains(y) by {
                assert(y != a);
                assert(t4.cells@.contains_key(y));
                assert(t3.cells@.contains_key(y));
                assert(t1.cells@.contains_key(y));
                assert(t1.cells@[y].value == old(self).cells@[y].value);
                assert(t3.cells@[y].value == t1.cells@[y].value);
                assert(cleared(t3.cells@, t4.cells@, y));
            }
        }
        proof {
            assert forall|b: CellAddress| #[trigger]
                sound_at(old(self).cells@, old(self).spill_ownership_map@, b) implies sound_at(
                self.cells@,
                self.spill_ownership_map@,
                b,
            ) by {
                if b != a && old(self).cells@.contains_key(b) {
                    let covering = covers(old(self).cells@[b].spec_child_rectangles().to_set(), a);
                    if covering {
                        let r = choose|r: CellRectangle| #[trigger]
                            old(self).cells@[b].spec_child_rectangles().to_set().contains(r)
                                && r.spec_contains(a);
                        assert(child_rectangle_of(old(self).cells@, b, r));
                        assert(child_rectangle_of(t1.cells@, b, r));
                        assert(child_rectangle_of(t2.cells@, b, r));
                        assert(child_rectangle_of(t3.cells@, b, r));
                        assert(children_exact(t3.cells@, b, a));
                        assert(has_child(t3.cells@, b, a));
                    } else {
                        assert(sound_at(t1.cells@, t1.spill_ownership_map@, b));
                        assert forall|y: CellAddress| y != a implies #[trigger] same_cell_at(
                            t1.cells@,
                            t2.cells@,
                            y,
                        ) by {}
                        if t1.cells@.contains_key(b) && covers(t1.cells@[b].spec_child_rectangles().to_set(), a) {
                            let r = choose|r: CellRectangle| #[trigger]
                                t1.cells@[b].spec_child_rectangles().to_set().contains(r)
                                    && r.spec_contains(a);
                            assert(child_rectangle_of(t1.cells@, b, r));
                            assert(child_rectangle_of(old(self).cells@, b, r));
                            assert(old(self).cells@[b].spec_child_rectangles().to_set().contains(r));
                        }
                        lemma_sound_one_change(
                            t1.cells@,
                            t1.spill_ownership_map@,
                            t2.cells@,
                            t2.spill_ownership_map@,
                            b,
                            a,
                        );
                        assert(sound_at(t3.cells@, t3.spill_ownership_map@, b));
                    }
                    assert(sound_at(t4.cells@, t4.spill_ownership_map@, b));
                    assert forall|y: CellAddress| y != a implies #[trigger] same_cell_at(
                        t4.cells@,
                        self.cells@,
                        y,
                    ) by {}
                    lemma_sound_one_change(
                        t4.cells@,
                        t4.spill_ownership_map@,
                        self.cells@,
                        self.spill_ownership_map@,
                        b,
                        a,
                    );
                }
            }
        }
        reset_cells
    }

    /// Puts a cell with the formula `raw` at `a` (replacing whatever stood
    /// there), links it with its parents and resets it and the cells that
    /// depend on it. Returns the addresses reset, each once.
    #[verifier::rlimit(60)]
    fn create_independent_cell(&mut self, a: CellAddress, raw: &str) -> (reset_cells: Vec<
        CellAddress,
    >)
        requires
            old(self).well_formed(),
            formula_at(old(self).cells@, a) is None,
        ensures
            forall|b: CellAddress| #[trigger]
                sound_at(old(self).cells@, old(self).spill_ownership_map@, b) ==> sound_at(
                    final(self).cells@,
                    final(self).spill_ownership_map@,
                    b,
                ),
            final(self).well_formed(),
            formula_at(final(self).cells@, a) == Some((raw@, spec_parse(raw@))),
            forall|b: CellAddress|
                b != a ==> #[trigger] formula_at(final(self).cells@, b) == formula_at(
                    old(self).cells@,
                    b,
                ),
            reset_cells@.no_duplicates(),
            reset_cells@.contains(a),
            cleared_listed(old(self).cells@, final(self).cells@, reset_cells@),
            waiting_listed(old(self).cells@, final(self).cells@, reset_cells@),
            parents_listed(final(self).cells@, reset_cells@),
            forall|y: CellAddress| #[trigger]
                reset_cells@.contains(y) && final(self).cells@.contains_key(y) ==> final(self).cells@[y].value is None,
            only_spill_over_removed(old(self).cells@, final(self).cells@),
            forall|y: CellAddress| #[trigger]
                final(self).cells@.contains_key(y) ==> old(self).cells@.contains_key(y) || y == a,
            reads_no_cells(spec_parse(raw@)) ==> final(self).isolated(a)
                && final(self).cells@[a].value is None && reset_cells@.contains(a),
            values_ordered(old(self).cells@) ==> values_ordered(final(self).cells@),
    {
        let parsed = parse(raw);
        let volatile = parsed.is_volatile();
        let cell = Cell {
            value: None,
            parents: Vec::new(),
            kind: Kind::Independent(
                IndependentData {
                    raw_formula: raw.to_owned(),
                    parsed_formula: parsed,
                    child_rectangles: Vec::new(),
                    children: Vec::new(),
                },
            ),
        };
        assert(cell_well_formed(cell));
        self.remove_spill_over_cell(a);
        let ghost t1 = *self;
        let ghost before = self.cells@;
        proof {
            lemma_agree_after_insertion(before, a, cell);
            lemma_exact_after_insertion(before, a, cell);
        }
        self.cells.insert(a, cell);
        let ghost inserted = self.cells@;
        assert(formula_at(inserted, a) == Some((raw@, spec_parse(raw@))));
        assert(forall|b: CellAddress|
            b != a ==> #[trigger] formula_at(inserted, b) == formula_at(before, b));
        assert(forall|b: CellAddress|
            b != a ==> #[trigger] formula_at(inserted, b) == formula_at(old(self).cells@, b));
        proof {
            assert forall|p: CellAddress, r: CellRectangle| #[trigger]
                self.parent_lookup_tree.links(p, r) <==> child_rectangle_of(self.cells@, p, r) by {
                assert(child_rectangle_of(before, p, r) <==> self.parent_lookup_tree.links(p, r));
            }
        }
        if volatile {
            proof {
                crate::cell::lemma_set_insert(self.volatile_cells@, a);
            }
            vec_insert(&mut self.volatile_cells, a);
        }
        assert(forall|b: CellAddress|
            #[trigger] self.volatile_cells@.contains(b) <==> volatile_formula_at(self.cells@, b));
        let ghost t2 = *self;
        self.attach_to_parents(a);
        let ghost t3 = *self;
        proof {
            assert forall|b: CellAddress| #[trigger]
                sound_at(old(self).cells@, old(self).spill_ownership_map@, b) && b != a
                    && !has_child(t3.cells@, b, a) implies sound_at(
                self.cells@,
                self.spill_ownership_map@,
                b,
            ) by {
                if old(self).cells@.contains_key(b) {
                    if covers(old(self).cells@[b].spec_child_rectangles().to_set(), a) {
                        let r = choose|r: CellRectangle| #[trigger]
                            old(self).cells@[b].spec_child_rectangles().to_set().contains(r)
                                && r.spec_contains(a);
                        assert(child_rectangle_of(old(self).cells@, b, r));
                        assert(child_rectangle_of(t1.cells@, b, r));
                        assert(child_rectangle_of(t2.cells@, b, r));
                        assert(child_rectangle_of(t3.cells@, b, r));
                        assert(children_exact(t3.cells@, b, a));
                    } else {
                        assert(sound_at(t1.cells@, t1.spill_ownership_map@, b));
                        assert forall|y: CellAddress| y != a implies #[trigger] same_cell_at(
                            t1.cells@,
                            t2.cells@,
                            y,
                        ) by {}
                        if t1.cells@.contains_key(b) && covers(t1.cells@[b].spec_child_rectangles().to_set(), a) {
                            let r = choose|r: CellRectangle| #[trigger]
                                t1.cells@[b].spec_child_rectangles().to_set().contains(r)
                                    && r.spec_contains(a);
                            assert(child_rectangle_of(t1.cells@, b, r));
                            assert(child_rectangle_of(old(self).cells@, b, r));
                            assert(old(self).cells@[b].spec_child_rectangles().to_set().contains(r));
                        }
                        lemma_sound_one_change(
                            t1.cells@,
                            t1.spill_ownership_map@,
                            t2.cells@,
                            t2.spill_ownership_map@,
                            b,
                            a,
                        );
                    }
                }
            }
            assert(formula_at(self.cells@, a) == Some((raw@, spec_parse(raw@))));
            if reads_no_cells(spec_parse(raw@)) {
                lemma_no_initial_rectangles(spec_parse(raw@));
            }
        }
        let reset_cells = self.reset_cell_and_ancestors(a);
        proof {
            assert(only_spill_over_removed(old(self).cells@, t3.cells@)) by {
                assert forall|y: CellAddress| #[trigger]
                    old(self).cells@.contains_key(y) && !t3.cells@.contains_key(y) implies !old(self).cells@[y].is_independent() by {
                    assert(!t1.cells@.contains_key(y));
                }
            }
            assert forall|y: CellAddress| #[trigger]
                old(self).cells@.contains_key(y) && !self.cells@.contains_key(y) implies !old(self).cells@[y].is_independent() by {
                if t3.cells@.contains_key(y) {
                    assert(!t3.cells@[y].is_independent());
                    assert(formula_at(t3.cells@, y) == formula_at(t2.cells@, y));
                    assert(y != a);
                    assert(formula_at(t2.cells@, y) == formula_at(old(self).cells@, y));
                }
            }
        }
        proof {
            assert forall|x: CellAddress, y: CellAddress| #[trigger]
                has_child(old(self).cells@, x, y) implies has_child(t3.cells@, x, y) by {
                assert(children_exact(old(self).cells@, x, y));
                let r = choose|r: CellRectangle| #[trigger] child_rectangle_of(old(self).cells@, x, r) && r.spec_contains(y);
                assert(x != a) by {
                    assert(formula_at(old(self).cells@, a) is None);
                }
                assert(child_rectangle_of(t1.cells@, x, r));
                assert(child_rectangle_of(t2.cells@, x, r));
                assert(child_rectangle_of(t3.cells@, x, r));
                assert(children_exact(t3.cells@, x, y));
                if y != a {
                    assert(has_child(t1.cells@, x, y));
                    assert(t1.cells@.contains_key(y));
                }
            }
            assert forall|x: CellAddress| #[trigger] waiting(self.cells@, x) implies reset_cells@.contains(x)
                || waiting(old(self).cells@, x) by {
                if !reset_cells@.contains(x) {
                    assert(x != a);
                    assert(waiting(t3.cells@, x));
                    assert(!has_child(t3.cells@, x, a)) by {
                        if has_child(t3.cells@, x, a) {
                            let k = choose|k: int| 0 <= k < t3.cells@[x].spec_children().len() && t3.cells@[x].spec_children()[k] == a;
                            assert(child_evaluated(t3.cells@, t3.cells@[x].spec_children()[k]));
                        }
                    }
                    assert(t1.cells@.contains_key(x));
                    assert(formula_at(t1.cells@, x) == formula_at(old(self).cells@, x));
                    assert(formula_at(t2.cells@, x) == formula_at(t1.cells@, x));
                    assert(formula_at(t3.cells@, x) == formula_at(t2.cells@, x));
                    assert forall|y: CellAddress| #[trigger] has_child(t3.cells@, x, y) implies t3.cells@.contains_key(y) by {
                        assert(children_exact(t3.cells@, x, y));
                    }
                    assert forall|y: CellAddress| #[trigger]
                        has_child(old(self).cells@, x, y) && t3.cells@.contains_key(y) && t3.cells@[y].value is Some
                        implies old(self).cells@.contains_key(y) && old(self).cells@[y].value is Some by {
                        assert(y != a);
                        assert(t1.cells@.contains_key(y));
                    }
                    lemma_waiting_back_children(old(self).cells@, t3.cells@, x);
                }
            }
        }
        proof {
            assert forall|y: CellAddress| #[trigger]
                cleared(old(self).cells@, self.cells@, y) implies reset_cells@.contains(y) by {
                if y != a {
                    assert(t3.cells@.contains_key(y));
                    assert(t1.cells@.contains_key(y));
                    assert(t1.cells@[y].value == old(self).cells@[y].value);
                    assert(t3.cells@[y].value == t1.cells@[y].value);
                    assert(cleared(t3.cells@, self.cells@, y));
                }
            }
        }
        proof {
            if values_ordered(old(self).cells@) {
                assert forall|y: CellAddress| #[trigger]
                    t3.cells@.contains_key(y) && t3.cells@[y].value is Some implies old(self).cells@.contains_key(y)
                    && old(self).cells@[y].value == t3.cells@[y].value by {
                    assert(y != a);
                    assert(t1.cells@.contains_key(y));
                    assert(t1.cells@[y].value == old(self).cells@[y].value);
                    assert(t3.cells@[y].value == t1.cells@[y].value);
                }
                assert forall|x: CellAddress, y: CellAddress| #[trigger]
                    has_child(t3.cells@, x, y) && !has_child(old(self).cells@, x, y) implies x == a || y == a by {
                    if x != a && y != a {
                        assert(children_exact(t3.cells@, x, y));
                        let r = choose|r: CellRectangle| #[trigger] child_rectangle_of(t3.cells@, x, r) && r.spec_contains(y);
                        assert(child_rectangle_of(t2.cells@, x, r));
                        assert(child_rectangle_of(t1.cells@, x, r));
                        assert(child_rectangle_of(old(self).cells@, x, r));
                        assert(t1.cells@.contains_key(y));
                        assert(children_exact(old(self).cells@, x, y));
                    }
                }
                lemma_ordered_after_edit(old(self).cells@, t3.cells@, self.cells@, reset_cells@, a);
            }
        }
        reset_cells
    }

    /// Gives the cell at `a`, which has a formula of its own, the formula
    /// `raw`, and resets it and the cells that depend on it. Returns the
    /// addresses reset, each once.
    fn modify_independent_cell(&mut self, a: CellAddress, raw: &str) -> (reset_cells: Vec<
        CellAddress,
    >)
        requires
            old(self).well_formed(),
            old(self).cells@.contains_key(a),
            old(self).cells@[a].is_independent(),
        ensures
            forall|b: CellAddress| #[trigger]
                sound_at(old(self).cells@, old(self).spill_ownership_map@, b) ==> sound_at(
                    final(self).cells@,
                    final(self).spill_ownership_map@,
                    b,
                ),
            final(self).well_formed(),
            formula_at(final(self).cells@, a) == Some((raw@, spec_parse(raw@))),
            forall|b: CellAddress|
                b != a ==> #[trigger] formula_at(final(self).cells@, b) == formula_at(
                    old(self).cells@,
                    b,
                ),
            reset_cells@.no_duplicates(),
            reset_cells@.contains(a),
            cleared_listed(old(self).cells@, final(self).cells@, reset_cells@),
            waiting_listed(old(self).cells@, final(self).cells@, reset_cells@),
            reads_no_cells(spec_parse(raw@)) ==> final(self).isolated(a)
                && final(self).cells@[a].value is None && reset_cells@.contains(a),
            values_ordered(old(self).cells@) ==> values_ordered(final(self).cells@),
    {
        let parsed = parse(raw);
        let volatile = parsed.is_volatile();
        match self.cells.remove(&a) {
            Some(mut cell) => {
                assert(cell_well_formed(cell));
                cell.set_formula(raw, parsed);
                assert(cell_well_formed(cell));
                proof {
                    lemma_exact_after_replacement(old(self).cells@, a, cell);
                }
                let ghost replaced = old(self).cells@.insert(a, cell);
                self.cells.insert(a, cell);
                assert(self.cells@ =~= replaced);
            },
            None => {
                assert(false);
            },
        }
        let ghost modified = self.cells@;
        proof {
            assert forall|b: CellAddress| #[trigger]
                sound_at(old(self).cells@, old(self).spill_ownership_map@, b) && b != a implies sound_at(
                self.cells@,
                self.spill_ownership_map@,
                b,
            ) by {
                assert forall|y: CellAddress| #[trigger] same_cell_at(old(self).cells@, self.cells@, y) by {}
                lemma_sound_one_change(
                    old(self).cells@,
                    old(self).spill_ownership_map@,
                    self.cells@,
                    self.spill_ownership_map@,
                    b,
                    a,
                );
            }
            assert forall|x: CellAddress, y: CellAddress|
                has_child(modified, x, y) <==> has_parent(modified, y, x) by {
                assert(has_child(modified, x, y) == has_child(old(self).cells@, x, y));
                assert(has_parent(modified, y, x) == has_parent(old(self).cells@, y, x));
            }
            assert forall|p: CellAddress, r: CellRectangle| #[trigger]
                self.parent_lookup_tree.links(p, r) <==> child_rectangle_of(self.cells@, p, r) by {
                assert(child_rectangle_of(old(self).cells@, p, r) == child_rectangle_of(
                    self.cells@,
                    p,
                    r,
                ));
            }
        }
        assert(formula_at(modified, a) == Some((raw@, spec_parse(raw@))));
        assert(forall|b: CellAddress|
            b != a ==> #[trigger] formula_at(modified, b) == formula_at(old(self).cells@, b));
        if volatile {
            proof {
                crate::cell::lemma_set_insert(self.volatile_cells@, a);
            }
            vec_insert(&mut self.volatile_cells, a);
        } else {
            vec_remove(&mut self.volatile_cells, a);
        }
        assert(forall|b: CellAddress|
            #[trigger] self.volatile_cells@.contains(b) <==> volatile_formula_at(self.cells@, b));
        proof {
            assert(formula_at(self.cells@, a) == Some((raw@, spec_parse(raw@))));
            if reads_no_cells(spec_parse(raw@)) {
                lemma_no_initial_rectangles(spec_parse(raw@));
            }
        }
        let ghost t3 = *self;
        let reset_cells = self.reset_cell_and_ancestors(a);
        proof {
            assert forall|x: CellAddress| #[trigger] waiting(self.cells@, x) implies reset_cells@.contains(x)
                || waiting(old(self).cells@, x) by {
                if !reset_cells@.contains(x) {
                    assert(waiting(t3.cells@, x));
                    assert(x != a);
                    assert(t3.cells@[x] == old(self).cells@[x]);
                    assert forall|y: CellAddress| #[trigger] has_child(t3.cells@, x, y) implies t3.cells@.contains_key(y) by {
                        assert(children_exact(t3.cells@, x, y));
                    }
                    lemma_waiting_back(old(self).cells@, t3.cells@, x);
                }
            }
        }
        proof {
            assert forall|y: CellAddress| #[trigger]
                cleared(old(self).cells@, self.cells@, y) implies reset_cells@.contains(y) by {
                if y != a {
                    assert(t3.cells@.contains_key(y));
                    assert(t3.cells@[y].value == old(self).cells@[y].value);
                    assert(cleared(t3.cells@, self.cells@, y));
                }
            }
        }
        proof {
            if values_ordered(old(self).cells@) {
                assert forall|y: CellAddress| #[trigger]
                    t3.cells@.contains_key(y) && t3.cells@[y].value is Some implies old(self).cells@.contains_key(y)
                    && old(self).cells@[y].value == t3.cells@[y].value by {
                    if y != a {
                        assert(t3.cells@[y] == old(self).cells@[y]);
                    }
                }
                assert forall|x: CellAddress, y: CellAddress| #[trigger]
                    has_child(t3.cells@, x, y) && !has_child(old(self).cells@, x, y) implies x == a || y == a by {
                    assert(has_child(modified, x, y) == has_child(old(self).cells@, x, y));
                }
                lemma_ordered_after_edit(old(self).cells@, t3.cells@, self.cells@, reset_cells@, a);
            }
        }
        reset_cells
    }

    /// Resets the cells that depend on the cell at `a`, unlinks it and
    /// removes it. Returns the addresses reset, each once, without `a`.
    fn delete_independent_cell(&mut self, a: CellAddress) -> (reset_cells: Vec<CellAddress>)
        requires
            old(self).well_formed(),
        ensures
            forall|b: CellAddress| #[trigger]
                sound_at(old(self).cells@, old(self).spill_ownership_map@, b) ==> sound_at(
                    final(self).cells@,
                    final(self).spill_ownership_map@,
                    b,
                ),
            final(self).well_formed(),
            formula_at(final(self).cells@, a) is None,
            !final(self).cells@.contains_key(a),
            forall|b: CellAddress|
                b != a ==> #[trigger] formula_at(final(self).cells@, b) == formula_at(
                    old(self).cells@,
                    b,
                ),
            reset_cells@.no_duplicates(),
            cleared_listed(old(self).cells@, final(self).cells@, reset_cells@),
            waiting_listed(old(self).cells@, final(self).cells@, reset_cells@),
            values_ordered(old(self).cells@) ==> values_ordered(final(self).cells@),
    {
        let mut reset_cells = self.reset_cell_and_ancestors(a);
        let ghost s0 = self.cells@;
        let ghost t0 = *self;
        self.detach_from_parents(a);
        let ghost s1 = self.cells@;
        self.detach_from_children(a);
        self.remove_from_parent_lookup_tree(a);
        let ghost before = self.cells@;
        proof {
            lemma_agree_after_removal(before, a);
            assert forall|x: CellAddress, y: CellAddress| #[trigger]
                children_exact(before, x, y) || x == a || y == a by {
                if x != a && y != a {
                    assert(children_exact(s0, x, y));
                    assert(children_exact(s1, x, y));
                }
            }
            assert(forall|x: CellAddress| !has_child(s1, x, a));
            assert forall|x: CellAddress| !has_child(before, x, a) by {
                assert(!has_child(s1, x, a));
            }
            lemma_exact_after_removal(before, a);
        }
        let ghost t3 = *self;
        assert(t3.cells@.contains_key(a) ==> t3.cells@[a].value is None) by {
            if t3.cells@.contains_key(a) {
                assert(s0.contains_key(a));
            }
        }
        self.cells.remove(&a);
        proof {
            assert forall|b: CellAddress| #[trigger]
                sound_at(old(self).cells@, old(self).spill_ownership_map@, b) implies sound_at(
                self.cells@,
                self.spill_ownership_map@,
                b,
            ) by {
                assert(sound_at(t0.cells@, t0.spill_ownership_map@, b));
                assert(sound_at(t3.cells@, t3.spill_ownership_map@, b));
                if b != a {
                    assert forall|y: CellAddress| y != a implies #[trigger] same_cell_at(
                        t3.cells@,
                        self.cells@,
                        y,
                    ) by {}
                    lemma_sound_one_change(
                        t3.cells@,
                        t3.spill_ownership_map@,
                        self.cells@,
                        self.spill_ownership_map@,
                        b,
                        a,
                    );
                }
            }
            assert forall|p: CellAddress, r: CellRectangle| #[trigger]
                self.parent_lookup_tree.links(p, r) <==> child_rectangle_of(self.cells@, p, r) by {
                if p != a {
                    assert(child_rectangle_of(before, p, r) == child_rectangle_of(self.cells@, p, r));
                }
            }
        }
        assert(forall|b: CellAddress|
            b != a ==> #[trigger] formula_at(self.cells@, b) == formula_at(before, b));
        vec_remove(&mut self.volatile_cells, a);
        assert(forall|b: CellAddress|
            #[trigger] self.volatile_cells@.contains(b) <==> volatile_formula_at(self.cells@, b));
        let ghost listed = reset_cells@;
        vec_remove(&mut reset_cells, a);
        proof {
            assert forall|y: CellAddress| #[trigger]
                cleared(old(self).cells@, self.cells@, y) implies reset_cells@.contains(y) by {
                assert(y != a);
                assert(t3.cells@.contains_key(y) && t3.cells@[y].value == self.cells@[y].value);
                assert(s0.contains_key(y) && s0[y].value == self.cells@[y].value);
                assert(cleared(old(self).cells@, s0, y));
                assert(listed.contains(y));
            }
            assert forall|x: CellAddress| #[trigger] waiting(self.cells@, x) implies reset_cells@.contains(x)
                || waiting(old(self).cells@, x) by {
                assert(x != a);
                if has_child(s0, x, a) {
                    assert(listed.contains(x));
                } else {
                    assert(formula_at(s0, x) == formula_at(self.cells@, x));
                    assert forall|y: CellAddress| #[trigger] has_child(s0, x, y) implies has_child(self.cells@, x, y) by {
                        assert(y != a);
                        assert(children_exact(s0, x, y));
                        assert(children_exact(self.cells@, x, y));
                        let r = choose|r: CellRectangle| #[trigger] child_rectangle_of(s0, x, r) && r.spec_contains(y);
                        assert(child_rectangle_of(s1, x, r));
                        assert(child_rectangle_of(before, x, r));
                        assert(child_rectangle_of(self.cells@, x, r));
                        assert(before.contains_key(y));
                    }
                    assert forall|y: CellAddress| #[trigger] has_child(self.cells@, x, y) implies self.cells@.contains_key(y) by {
                        assert(children_exact(self.cells@, x, y));
                    }
                    assert forall|y: CellAddress| #[trigger]
                        self.cells@.contains_key(y) && self.cells@[y].value is Some implies s0.contains_key(y)
                        && s0[y].value == self.cells@[y].value by {
                        assert(before.contains_key(y));
                    }
                    lemma_waiting_back(s0, self.cells@, x);
                    if listed.contains(x) {
                        assert(reset_cells@.contains(x));
                    }
                }
            }
        }
        proof {
            if values_ordered(old(self).cells@) {
                lemma_ordered_after_reset(old(self).cells@, s0, listed);
                assert forall|x: CellAddress, y: CellAddress| #[trigger]
                    has_child(self.cells@, x, y) && self.cells@[x].value is Some implies has_child(s0, x, y)
                    && s0[x].value is Some && self.cells@.contains_key(y) && self.cells@[y].value == s0[y].value by {
                    assert(children_exact(self.cells@, x, y));
                    let r = choose|r: CellRectangle| #[trigger] child_rectangle_of(self.cells@, x, r) && r.spec_contains(y);
                    assert(x != a && y != a);
                    assert(child_rectangle_of(before, x, r));
                    assert(child_rectangle_of(s1, x, r));
                    assert(child_rectangle_of(s0, x, r));
                    assert(before.contains_key(y) && before.contains_key(x));
                    assert(children_exact(s0, x, y));
                    assert(t3.cells@[x].value == self.cells@[x].value);
                    assert(t3.cells@[y].value == self.cells@[y].value);
                }
                lemma_ordered_kept(s0, self.cells@);
            }
        }
        reset_cells
    }

    /// Puts a cell with the formula `raw` at `a`, which holds spill-over:
    /// first resets the cell that owns the spill area there (which deletes
    /// the spilled cells). Returns the addresses reset, each once.
    fn replace_dependent_cell(&mut self, a: CellAddress, raw: &str) -> (reset_cells: Vec<
        CellAddress,
    >)
        requires
            old(self).well_formed(),
            formula_at(old(self).cells@, a) is None,
        ensures
            forall|b: CellAddress| #[trigger]
                sound_at(old(self).cells@, old(self).spill_ownership_map@, b) ==> sound_at(
                    final(self).cells@,
                    final(self).spill_ownership_map@,
                    b,
                ),
            final(self).well_formed(),
            formula_at(final(self).cells@, a) == Some((raw@, spec_parse(raw@))),
            forall|b: CellAddress|
                b != a ==> #[trigger] formula_at(final(self).cells@, b) == formula_at(
                    old(self).cells@,
                    b,
                ),
            reset_cells@.no_duplicates(),
            reset_cells@.contains(a),
            cleared_listed(old(self).cells@, final(self).cells@, reset_cells@),
            waiting_listed(old(self).cells@, final(self).cells@, reset_cells@),
            reads_no_cells(spec_parse(raw@)) ==> final(self).isolated(a)
                && final(self).cells@[a].value is None && reset_cells@.contains(a),
            values_ordered(old(self).cells@) ==> values_ordered(final(self).cells@),
    {
        let mut reset_cells: Vec<CellAddress> = match self.spill_ownership_map.get_active_owner_for_cell(a) {
            Some(owner) => {
                let owner_reset = self.reset_cell_and_ancestors(owner);
                proof {
                    if values_ordered(old(self).cells@) {
                        lemma_ordered_after_reset(old(self).cells@, self.cells@, owner_reset@);
                    }
                }
                owner_reset
            },
            None => Vec::new(),
        };
        assert(formula_at(self.cells@, a) == formula_at(old(self).cells@, a));
        let ghost t1 = *self;
        assert forall|b: CellAddress| #[trigger]
            sound_at(old(self).cells@, old(self).spill_ownership_map@, b) implies sound_at(
            t1.cells@,
            t1.spill_ownership_map@,
            b,
        ) by {}
        let more = self.create_independent_cell(a, raw);
        assert forall|b: CellAddress| #[trigger]
            sound_at(old(self).cells@, old(self).spill_ownership_map@, b) implies sound_at(
            self.cells@,
            self.spill_ownership_map@,
            b,
        ) by {
            assert(sound_at(t1.cells@, t1.spill_ownership_map@, b));
        }
        let ghost first = reset_cells@;
        let mut i: usize = 0;
        while i < more.len()
            invariant
                i <= more.len(),
                reset_cells@.no_duplicates(),
                forall|j: int| 0 <= j < i ==> reset_cells@.contains(#[trigger] more@[j]),
                forall|y: CellAddress| #[trigger] first.contains(y) ==> reset_cells@.contains(y),
            decreases more.len() - i,
        {
            proof {
                crate::cell::lemma_set_insert(reset_cells@, more@[i as int]);
            }
            vec_insert(&mut reset_cells, more[i]);
            i += 1;
        }
        proof {
            if more@.contains(a) {
                let k = choose|k: int| 0 <= k < more@.len() && more@[k] == a;
                assert(reset_cells@.contains(more@[k]));
            }
            assert forall|y: CellAddress| #[trigger] more@.contains(y) implies reset_cells@.contains(y) by {
                let k = choose|k: int| 0 <= k < more@.len() && more@[k] == y;
                assert(reset_cells@.contains(more@[k]));
            }
            lemma_waiting_chain(old(self).cells@, t1.cells@, self.cells@, first, more@, reset_cells@);
            assert forall|y: CellAddress| #[trigger]
                cleared(old(self).cells@, self.cells@, y) implies reset_cells@.contains(y) by {
                if t1.cells@.contains_key(y) && t1.cells@[y].value is Some {
                    assert(cleared(t1.cells@, self.cells@, y));
                    let k = choose|k: int| 0 <= k < more@.len() && more@[k] == y;
                    assert(reset_cells@.contains(more@[k]));
                } else if t1.cells@.contains_key(y) {
                    assert(cleared(old(self).cells@, t1.cells@, y));
                    assert(first.contains(y));
                } else {
                    assert(y == a);
                    let k = choose|k: int| 0 <= k < more@.len() && more@[k] == a;
                    assert(reset_cells@.contains(more@[k]));
                }
            }
        }
        reset_cells
    }

    /// What entering `raw` at `a` amounts to.
    fn get_cell_update_type(&self, a: CellAddress, raw: &str) -> (update: CellUpdateType)
        ensures
            match update {
                CellUpdateType::CreateIndependentCell => has_content(raw@)
                    && !self.cells@.contains_key(a),
                CellUpdateType::DeleteIndependentCell => !has_content(raw@)
                    && self.cells@.contains_key(a),
                CellUpdateType::KeepAbsent => !has_content(raw@) && !self.cells@.contains_key(a),
                CellUpdateType::ModifyIndependentCell => has_content(raw@)
                    && self.cells@.contains_key(a) && self.cells@[a].is_independent(),
                CellUpdateType::ReplaceDependentCell => has_content(raw@)
                    && self.cells@.contains_key(a) && !self.cells@[a].is_independent(),
            },
    {
        let content = raw_has_content(raw);
        let exists = self.cells.contains(&a);
        if content && !exists {
            CellUpdateType::CreateIndependentCell
        } else if !content && exists {
            CellUpdateType::DeleteIndependentCell
        } else if !content {
            CellUpdateType::KeepAbsent
        } else if self.is_independent_at(a) {
            CellUpdateType::ModifyIndependentCell
        } else {
            CellUpdateType::ReplaceDependentCell
        }
    }

    /// Applies the edit of `raw` at `a` to the cells and the structures
    /// around them, and resets what the edit affects. Returns the addresses
    /// reset, each once.
    #[verifier::rlimit(40)]
    fn update_cell_and_structure_and_reset_values(&mut self, a: CellAddress, raw: &str) -> (reset_cells:
        Vec<CellAddress>)
        requires
            old(self).well_formed(),
        ensures
            forall|b: CellAddress| #[trigger]
                sound_at(old(self).cells@, old(self).spill_ownership_map@, b) ==> sound_at(
                    final(self).cells@,
                    final(self).spill_ownership_map@,
                    b,
                ),
            final(self).well_formed(),
            formula_at(final(self).cells@, a) == (if has_content(raw@) {
                Some((raw@, spec_parse(raw@)))
            } else {
                None
            }),
            forall|b: CellAddress|
                b != a ==> #[trigger] formula_at(final(self).cells@, b) == formula_at(
                    old(self).cells@,
                    b,
                ),
            reset_cells@.no_duplicates(),
            has_content(raw@) && reads_no_cells(spec_parse(raw@)) ==> final(self).isolated(a)
                && final(self).cells@[a].value is None && reset_cells@.contains(a),
            !has_content(raw@) ==> !final(self).cells@.contains_key(a),
            has_content(raw@) ==> reset_cells@.contains(a),
            cleared_listed(old(self).cells@, final(self).cells@, reset_cells@),
            waiting_listed(old(self).cells@, final(self).cells@, reset_cells@),
            values_ordered(old(self).cells@) ==> values_ordered(final(self).cells@),
    {
        match self.get_cell_update_type(a, raw) {
            CellUpdateType::CreateIndependentCell => self.create_independent_cell(a, raw),
            CellUpdateType::ModifyIndependentCell => self.modify_independent_cell(a, raw),
            CellUpdateType::DeleteIndependentCell => {
                if self.is_independent_at(a) {
                    self.delete_independent_cell(a)
                } else {
                    let reset_cells = self.delete_dependent_cell(a);
                    proof {
                        if values_ordered(old(self).cells@) {
                            lemma_ordered_after_reset(old(self).cells@, self.cells@, reset_cells@);
                        }
                    }
                    assert forall|b: CellAddress|
                        b != a implies #[trigger] formula_at(self.cells@, b) == formula_at(
                            old(self).cells@,
                            b,
                        ) by {}
                    reset_cells
                }
            },
            CellUpdateType::KeepAbsent => Vec::new(),
            CellUpdateType::ReplaceDependentCell => self.replace_dependent_cell(a, raw),
        }
    }

    /// The next cell to evaluate: the top of the queue, taken off it with
    /// nothing else changed; or, when the queue is empty, a cell that became
    /// ready when a blocked claim whose spill area has become free was reset
    /// (its owner and the cells that depend on it). Each address handed out
    /// uses up some of the queue's remaining work.
    fn get_next_evaluation_address(
        &mut self,
        queue: &mut EvaluationQueue,
        Ghost(refused): Ghost<Set<CellAddress>>,
    ) -> (next: Option<CellAddress>)
        requires
            covered(old(self).cells@, old(queue)@, refused),
            old(self).well_formed(),
            old(queue).well_formed(),
            old(self).values_sound(),
            values_ordered(old(self).cells@),
        ensures
            final(self).well_formed(),
            final(self).values_sound(),
            values_ordered(final(self).cells@),
            match next {
                Some(a) => covered_but(final(self).cells@, final(queue)@, refused, a),
                None => covered(final(self).cells@, final(queue)@, refused),
            },
            forall|x: CellAddress| #[trigger]
                count_in(final(queue)@.1, x) >= count_in(old(queue)@.1, x),
            same_formulas(old(self).cells@, final(self).cells@),
            final(queue).well_formed(),
            next is Some ==> remaining_work(final(queue)@) < remaining_work(old(queue)@),
            next is None ==> old(queue)@.0.len() == 0 && final(queue)@.0.len() == 0,
            old(queue)@.0.len() > 0 ==> {
                &&& next == Some(old(queue)@.0.last())
                &&& final(queue)@.0 == old(queue)@.0.drop_last()
                &&& final(queue)@.1 == old(queue)@.1
                &&& *final(self) == *old(self)
            },
            next is None ==> forall|o: CellAddress| #[trigger]
                old(self).spill_ownership_map@.contains_key(o) && old(self).spill_ownership_map@[o].1
                    == ClaimStatus::Blocked && spill_area_free(
                    old(self).cells@,
                    old(self).spill_ownership_map@[o].0,
                    o,
                ) ==> !final(self).spill_ownership_map@.contains_key(o),
            forall|y: CellAddress| #[trigger]
                old(queue)@.0.contains(y) && next != Some(y) ==> final(queue)@.0.contains(y),
            forall|b: CellAddress| #[trigger]
                old(self).isolated(b) ==> final(self).isolated(b)
                    && final(self).cells@[b].value == old(self).cells@[b].value,
    {
        let ghost q0 = queue@.0;
        proof {
            queue.lemma_work_bounded();
        }
        match queue.pop() {
            Some(a) => {
                proof {
                    assert forall|y: CellAddress| #[trigger]
                        q0.contains(y) && Some(a) != Some(y) implies queue@.0.contains(y) by {
                        let k = choose|k: int| 0 <= k < q0.len() && q0[k] == y;
                        assert(k != q0.len() - 1);
                        assert(queue@.0[k] == y);
                    }
                    assert forall|x: CellAddress| #[trigger]
                        waiting(self.cells@, x) && x != a implies queued_or_exhausted(queue@, x) || refused.contains(x) by {
                        if q0.contains(x) {
                            assert(queue@.0.contains(x));
                        }
                    }
                }
                return Some(a);
            },
            None => {},
        }
        let blocked = self.spill_ownership_map.blocked_owners();
        let mut i: usize = 0;
        while i < blocked.len()
            invariant
                i <= blocked.len(),
                self.well_formed(),
                same_formulas(old(self).cells@, self.cells@),
                queue.well_formed(),
                remaining_work(queue@) == remaining_work(old(queue)@),
                old(queue)@.0.len() == 0,
                queue@.0.len() == 0,
                self.values_sound(),
                values_ordered(self.cells@),
                forall|b: CellAddress| #[trigger]
                    old(self).isolated(b) ==> self.isolated(b)
                        && self.cells@[b].value == old(self).cells@[b].value,
                cells_shrink(old(self).cells@, self.cells@),
                claims_kept(old(self).spill_ownership_map@, self.spill_ownership_map@),
                covered(self.cells@, queue@, refused),
                forall|x: CellAddress| #[trigger]
                    count_in(queue@.1, x) >= count_in(old(queue)@.1, x),
                forall|o: CellAddress| #[trigger]
                    old(self).spill_ownership_map@.contains_key(o) && old(self).spill_ownership_map@[o].1
                        == ClaimStatus::Blocked ==> blocked@.contains(o),
                forall|jj: int|
                    0 <= jj < i && spill_area_free(
                        old(self).cells@,
                        old(self).spill_ownership_map@[blocked@[jj]].0,
                        blocked@[jj],
                    ) ==> !self.spill_ownership_map@.contains_key(#[trigger] blocked@[jj]),
            decreases blocked.len() - i,
        {
            let owner = blocked[i];
            match self.spill_ownership_map.get_owned_rectangle(&owner) {
                None => {},
                Some(rectangle) => {
                    if self.spill_area_is_free(&rectangle, &owner) {
                        assert(!self.isolated(owner));
                        let ghost pre = *self;
                        let reset_cells = self.reset_cell_and_ancestors(owner);
                        proof {
                            lemma_ordered_after_reset(pre.cells@, self.cells@, reset_cells@);
                        }
                        assert forall|b: CellAddress| #[trigger]
                            sound_at(self.cells@, self.spill_ownership_map@, b) by {
                            assert(sound_at(pre.cells@, pre.spill_ownership_map@, b));
                        }
                        let ready = self.filter_for_no_unevaluated_children(&reset_cells);
                        proof {
                            queue.lemma_work_bounded();
                            lemma_extend_work(queue@, ready@);
                        }
                        let ghost qe = queue@;
                        queue.extend(ready);
                        proof {
                            queue.lemma_work_bounded();
                            assert forall|x: CellAddress| #[trigger] waiting(self.cells@, x) implies queued_or_exhausted(
                                queue@,
                                x,
                            ) || refused.contains(x) by {
                                lemma_extend_covers(qe, ready@, x);
                                if reset_cells@.contains(x) {
                                    assert(ready@.contains(x));
                                } else {
                                    assert(waiting(pre.cells@, x));
                                }
                            }
                            assert forall|x: CellAddress| #[trigger] count_in(queue@.1, x) >= count_in(old(queue)@.1, x) by {
                                lemma_extend_covers(qe, ready@, x);
                            }
                        }
                        let ghost qp = queue@;
                        match queue.pop() {
                            Some(a) => {
                                proof {
                                    assert forall|x: CellAddress| #[trigger]
                                        waiting(self.cells@, x) && x != a implies queued_or_exhausted(queue@, x)
                                        || refused.contains(x) by {
                                        if qp.0.contains(x) {
                                            let k = choose|k: int| 0 <= k < qp.0.len() && qp.0[k] == x;
                                            assert(k != qp.0.len() - 1);
                                            assert(queue@.0[k] == x);
                                        }
                                    }
                                }
                                return Some(a);
                            },
                            None => {},
                        }
                    }
                },
            }
            proof {
                assert forall|jj: int|
                    0 <= jj < i + 1 && spill_area_free(
                        old(self).cells@,
                        old(self).spill_ownership_map@[blocked@[jj]].0,
                        blocked@[jj],
                    ) implies !self.spill_ownership_map@.contains_key(#[trigger] blocked@[jj]) by {
                    if jj == i && self.spill_ownership_map@.contains_key(owner) {
                        assert(old(self).spill_ownership_map@.contains_key(owner));
                        assert forall|b: CellAddress| #[trigger]
                            self.cells@.contains_key(b) && self.spill_ownership_map@[owner].0.spec_contains(b)
                            implies b == owner by {
                            assert(old(self).cells@.contains_key(b));
                        }
                    }
                }
            }
            i += 1;
        }
        proof {
            assert forall|o: CellAddress| #[trigger]
                old(self).spill_ownership_map@.contains_key(o) && old(self).spill_ownership_map@[o].1
                    == ClaimStatus::Blocked && spill_area_free(
                    old(self).cells@,
                    old(self).spill_ownership_map@[o].0,
                    o,
                ) implies !self.spill_ownership_map@.contains_key(o) by {
                assert(blocked@.contains(o));
                let jj = choose|jj: int| 0 <= jj < blocked@.len() && blocked@[jj] == o;
                assert(!self.spill_ownership_map@.contains_key(blocked@[jj]));
            }
        }
        None
    }

    /// Adds the parents of the cell at `a` that are ready for evaluation to
    /// the queue.
    fn queue_ready_parents(&self, a: CellAddress, queue: &mut EvaluationQueue)
        requires
            old(queue).well_formed(),
        ensures
            final(queue)@ == extend_model(
                old(queue)@,
                parents_of(self.cells@, a).filter(ready_in(self.cells@)),
            ),
            final(queue).well_formed(),
            remaining_work(final(queue)@) == remaining_work(old(queue)@),
            forall|y: CellAddress| #[trigger]
                old(queue)@.0.contains(y) ==> final(queue)@.0.contains(y),
            forall|x: CellAddress| #[trigger]
                has_parent(self.cells@, a, x) && waiting(self.cells@, x) ==> queued_or_exhausted(
                    final(queue)@,
                    x,
                ),
            forall|x: CellAddress| #[trigger]
                queued_or_exhausted(old(queue)@, x) ==> queued_or_exhausted(final(queue)@, x),
            forall|x: CellAddress| #[trigger]
                count_in(final(queue)@.1, x) >= count_in(old(queue)@.1, x),
    {
        let ready = self.get_parents_with_no_unevaluated_children(a);
        proof {
            queue.lemma_work_bounded();
            lemma_extend_work(queue@, ready@);
            assert forall|y: CellAddress| #[trigger] queue@.0.contains(y) implies extend_model(
                queue@,
                ready@,
            ).0.contains(y) by {
                lemma_extend_queues(queue@, ready@, y);
            }
        }
        let ghost q0 = queue@;
        queue.extend(ready);
        proof {
            assert forall|x: CellAddress| #[trigger]
                has_parent(self.cells@, a, x) && waiting(self.cells@, x) implies queued_or_exhausted(queue@, x) by {
                assert(parents_of(self.cells@, a).contains(x));
                lemma_in_filter(parents_of(self.cells@, a), ready_in(self.cells@), x);
                lemma_extend_covers(q0, ready@, x);
            }
            assert forall|x: CellAddress| #[trigger]
                queued_or_exhausted(q0, x) implies queued_or_exhausted(queue@, x) by {
                lemma_extend_covers(q0, ready@, x);
            }
            assert forall|x: CellAddress| #[trigger] count_in(queue@.1, x) >= count_in(q0.1, x) by {
                lemma_extend_covers(q0, ready@, x);
            }
        }
    }

    /// Writes the elements of `array` into the cells of its spill area,
    /// whose first cell is `anchor`: the anchor's value, and spill-over cells
    /// for the others, queueing the cells that become ready.
    fn spill_array(
        &mut self,
        anchor: CellAddress,
        array: &crate::value_types::ArrayValue,
        area: CellRectangle,
        queue: &mut EvaluationQueue,
        Ghost(refused): Ghost<Set<CellAddress>>,
    )
        requires
            covered_but(old(self).cells@, old(queue)@, refused, anchor),
            old(self).well_formed(),
            old(queue).well_formed(),
            Some(area) == crate::value_types::spill_rectangle_of(
                anchor,
                crate::value_types::array_shape(*array).0 as int,
                crate::value_types::array_shape(*array).1 as int,
            ),
            forall|b: CellAddress| #[trigger]
                area.spec_contains(b) && b != anchor ==> formula_at(old(self).cells@, b) is None,
            old(self).ready_to_spill(anchor, *array, area),
            old(self).spill_ownership_map@.contains_key(anchor),
            spill_area_free(old(self).cells@, area, anchor),
            values_ordered(old(self).cells@),
        ensures
            claims_kept(old(self).spill_ownership_map@, final(self).spill_ownership_map@),
            final(self).values_sound(),
            values_ordered(final(self).cells@),
            final(self).well_formed(),
            same_formulas(old(self).cells@, final(self).cells@),
            final(queue).well_formed(),
            remaining_work(final(queue)@) == remaining_work(old(queue)@),
            forall|y: CellAddress| #[trigger]
                old(queue)@.0.contains(y) ==> final(queue)@.0.contains(y),
            forall|b: CellAddress| #[trigger]
                old(self).isolated(b) && b != anchor ==> final(self).isolated(b)
                    && final(self).cells@[b].value == old(self).cells@[b].value,
            final(self).cells@.contains_key(anchor) && final(self).cells@[anchor].value is Some ==> claim_of(
                final(self).spill_ownership_map@,
                anchor,
            ) == Some((area, ClaimStatus::Active)) && final(self).cells@[anchor].value.unwrap()@
                == array_elements_view(*array)[0],
            covered(final(self).cells@, final(queue)@, refused),
            forall|x: CellAddress| #[trigger]
                count_in(final(queue)@.1, x) >= count_in(old(queue)@.1, x),
            forall|b: CellAddress| #[trigger]
                final(self).cells@.contains_key(b) && area.spec_contains(b) && b != anchor ==> {
                    &&& !final(self).cells@[b].is_independent()
                    &&& final(self).cells@[b].value is Some
                    &&& final(self).cells@[b].value.unwrap()@ == array_elements_view(*array)[(b.row
                        - anchor.row) * crate::value_types::array_shape(*array).1 + (b.column
                        - anchor.column)]
                },
    {
        let (rows, columns) = array_dimensions(array);
        let elements = array_element_list(array);
        let mut row: usize = 0;
        let mut k: usize = 0;
        while row < rows
            invariant
                row <= rows,
                k == row * columns,
                elements@.len() == rows * columns,
                rows >= 1,
                columns >= 1,
                anchor.column + columns - 1 <= u32::MAX,
                anchor.row + rows - 1 <= u32::MAX,
                area.upper_left == anchor,
                area.lower_right.column == anchor.column + columns - 1,
                area.lower_right.row == anchor.row + rows - 1,
                self.well_formed(),
                same_formulas(old(self).cells@, self.cells@),
                queue.well_formed(),
                remaining_work(queue@) == remaining_work(old(queue)@),
                forall|b: CellAddress| #[trigger]
                    area.spec_contains(b) && b != anchor ==> formula_at(old(self).cells@, b) is None,
                forall|y: CellAddress| #[trigger]
                    old(queue)@.0.contains(y) ==> queue@.0.contains(y),
                forall|b: CellAddress| #[trigger]
                    old(self).isolated(b) && b != anchor ==> self.isolated(b)
                        && self.cells@[b].value == old(self).cells@[b].value,
                k > 0 ==> self.values_sound(),
                k == 0 ==> *self == *old(self),
                values_ordered(self.cells@),
                old(self).ready_to_spill(anchor, *array, area),
                elements@ == crate::value_types::array_elements(*array),
                (rows, columns) == crate::value_types::array_shape(*array),
                claims_kept(old(self).spill_ownership_map@, self.spill_ownership_map@),
                k > 0 ==> self.cells@.contains_key(anchor) && self.cells@[anchor].value is Some ==> claim_of(
                    self.spill_ownership_map@,
                    anchor,
                ) == Some((area, ClaimStatus::Active)) && self.cells@[anchor].value.unwrap()@
                    == array_elements_view(*array)[0],
                spilled_before(self.cells@, area, array_elements_view(*array), columns as int, row as int, 0),
                k == 0 ==> covered_but(self.cells@, queue@, refused, anchor),
                k > 0 ==> covered(self.cells@, queue@, refused),
                forall|x: CellAddress| #[trigger]
                    count_in(queue@.1, x) >= count_in(old(queue)@.1, x),
            decreases rows - row,
        {
            let mut column: usize = 0;
            while column < columns
                invariant
                    row < rows,
                    column <= columns,
                    k == row * columns + column,
                    elements.len() == rows * columns,
                    rows >= 1,
                    columns >= 1,
                    anchor.column + columns - 1 <= u32::MAX,
                    anchor.row + rows - 1 <= u32::MAX,
                    area.upper_left == anchor,
                    area.lower_right.column == anchor.column + columns - 1,
                    area.lower_right.row == anchor.row + rows - 1,
                    self.well_formed(),
                    same_formulas(old(self).cells@, self.cells@),
                    queue.well_formed(),
                    remaining_work(queue@) == remaining_work(old(queue)@),
                    forall|b: CellAddress| #[trigger]
                        area.spec_contains(b) && b != anchor ==> formula_at(old(self).cells@, b)
                            is None,
                    forall|y: CellAddress| #[trigger]
                        old(queue)@.0.contains(y) ==> queue@.0.contains(y),
                    forall|b: CellAddress| #[trigger]
                        old(self).isolated(b) && b != anchor ==> self.isolated(b)
                            && self.cells@[b].value == old(self).cells@[b].value,
                    k > 0 ==> self.values_sound(),
                    k == 0 ==> *self == *old(self),
                    values_ordered(self.cells@),
                    old(self).ready_to_spill(anchor, *array, area),
                    elements@ == crate::value_types::array_elements(*array),
                    (rows, columns) == crate::value_types::array_shape(*array),
                    claims_kept(old(self).spill_ownership_map@, self.spill_ownership_map@),
                    k > 0 ==> self.cells@.contains_key(anchor) && self.cells@[anchor].value is Some ==> claim_of(
                    self.spill_ownership_map@,
                    anchor,
                ) == Some((area, ClaimStatus::Active)) && self.cells@[anchor].value.unwrap()@
                    == array_elements_view(*array)[0],
                    spilled_before(
                        self.cells@,
                        area,
                        array_elements_view(*array),
                        columns as int,
                        row as int,
                        column as int,
                    ),
                    k == 0 ==> covered_but(self.cells@, queue@, refused, anchor),
                    k > 0 ==> covered(self.cells@, queue@, refused),
                    forall|x: CellAddress| #[trigger]
                        count_in(queue@.1, x) >= count_in(old(queue)@.1, x),
                decreases columns - column,
            {
                assert(k < rows * columns) by (nonlinear_arith)
                    requires
                        k == row * columns + column,
                        row < rows,
                        column < columns,
                ;
                let address = CellAddress::new(
                    anchor.column + column as u32,
                    anchor.row + row as u32,
                );
                let value = copy_value(&elements[k]);
                if address == anchor {
                    assert(row == 0 && column == 0);
                    let ghost t0 = *self;
                    self.change_cell(anchor, CellChange::SetValue(Some(value)));
                    proof {
                        assert(array_elements_view(*array).len() == elements@.len());
                        assert(array_elements_view(*array).len() > 0) by (nonlinear_arith)
                            requires
                                array_elements_view(*array).len() == rows * columns,
                                rows >= 1,
                                columns >= 1,
                        ;
                        assert(array_elements_view(*array).len() == elements@.len());
                        assert(elements@[0]@ == array_elements_view(*array)[0]);
                        reveal(Spreadsheet::ready_to_spill);
                        lemma_anchor_sound(
                            t0.cells@,
                            t0.spill_ownership_map@,
                            self.cells@,
                            anchor,
                            EvaluatedValue::ArrayValue(*array)@,
                            area,
                        );
                    }
                    let ghost q0 = queue@;
                    self.queue_ready_parents(anchor, queue);
                    proof {
                        assert forall|x: CellAddress, y: CellAddress|
                            #![trigger has_child(self.cells@, x, y)]
                            #![trigger has_child(t0.cells@, x, y)]
                            x != anchor implies has_child(self.cells@, x, y) == has_child(t0.cells@, x, y) by {
                            if t0.cells@.contains_key(x) {
                                assert(self.cells@[x] == t0.cells@[x]);
                            }
                        }
                        lemma_covered_after_evaluation(t0.cells@, self.cells@, q0, queue@, refused, anchor);
                        assert forall|y: CellAddress| #[trigger] has_child(self.cells@, anchor, y) implies y != anchor
                            && t0.cells@.contains_key(y) && t0.cells@[y].value is Some && self.cells@.contains_key(y)
                            && self.cells@[y].value is Some by {
                            assert(children_exact(self.cells@, anchor, y));
                            let r = choose|r: CellRectangle| #[trigger] child_rectangle_of(self.cells@, anchor, r) && r.spec_contains(y);
                            assert(t0.cells@[anchor].spec_child_rectangles().to_set().contains(r));
                            assert(rectangle_ready(t0.cells@, r));
                        }
                        lemma_ordered_after_evaluation(t0.cells@, self.cells@, anchor);
                    }
                } else {
                    assert(area.spec_contains(address));
                    assert(formula_at(old(self).cells@, address) is None);
                    assert(k > 0) by {
                        if k == 0 {
                            assert(row == 0 && column == 0) by (nonlinear_arith)
                                requires
                                    k == row * columns + column,
                                    k == 0,
                                    columns >= 1,
                                    row >= 0,
                                    column >= 0,
                            ;
                        }
                    }
                    let ghost t0 = *self;
                    let ghost q0 = queue@;
                    let mut spill_reset_cells = self.create_dependent_cell(address, value);
                    let ghost listed = spill_reset_cells@;
                    proof {
                        lemma_ordered_after_reset(t0.cells@, self.cells@, listed);
                        if self.cells@.contains_key(anchor) && self.cells@[anchor].value is Some {
                            assert(t0.cells@.contains_key(anchor) && t0.cells@[anchor].value
                                == self.cells@[anchor].value);
                            assert(t0.spill_ownership_map@.contains_key(anchor));
                            assert(self.spill_ownership_map@.contains_key(anchor));
                        }
                    }
                    assert forall|b: CellAddress| #[trigger]
                        sound_at(self.cells@, self.spill_ownership_map@, b) by {
                        assert(sound_at(t0.cells@, t0.spill_ownership_map@, b));
                    }
                    vec_remove(&mut spill_reset_cells, address);
                    let ready = self.filter_for_no_unevaluated_children(&spill_reset_cells);
                    proof {
                        queue.lemma_work_bounded();
                        lemma_extend_work(queue@, ready@);
                        assert forall|y: CellAddress| #[trigger] queue@.0.contains(y) implies extend_model(
                            queue@,
                            ready@,
                        ).0.contains(y) by {
                            lemma_extend_queues(queue@, ready@, y);
                        }
                    }
                    queue.extend(ready);
                    proof {
                        assert forall|x: CellAddress| #[trigger] waiting(self.cells@, x) implies queued_or_exhausted(
                            queue@,
                            x,
                        ) || refused.contains(x) by {
                            lemma_extend_covers(q0, ready@, x);
                            if listed.contains(x) {
                                assert(x != address);
                                assert(spill_reset_cells@.contains(x));
                                assert(ready@.contains(x));
                            } else {
                                assert(waiting(t0.cells@, x));
                            }
                        }
                        assert forall|x: CellAddress| #[trigger] count_in(queue@.1, x) >= count_in(old(queue)@.1, x) by {
                            lemma_extend_covers(q0, ready@, x);
                        }
                    }
                }
                k += 1;
                column += 1;
            }
            assert(k == (row + 1) * columns) by (nonlinear_arith)
                requires
                    k == row * columns + column,
                    column == columns,
            ;
            row += 1;
        }
        assert(k > 0) by (nonlinear_arith)
            requires
                k == row * columns,
                row == rows,
                rows >= 1,
                columns >= 1,
        ;
    }

    /// Evaluates the cell at `a` and records the result: a value, a spill
    /// area with its values, an error when the spill area is not free or
    /// lies beyond the edges, or, when the evaluation needs cells not yet
    /// evaluated, the extra child rectangles it found. Cells that become
    /// ready are queued. A cell that already has a value has nothing left to
    /// evaluate and is left as it is.
    #[verifier::rlimit(100)]
    fn evaluate_cell(&mut self, a: CellAddress, queue: &mut EvaluationQueue, Ghost(refused): Ghost<Set<CellAddress>>)
        requires
            covered_but(old(self).cells@, old(queue)@, refused, a),
            values_ordered(old(self).cells@),
            old(self).well_formed(),
            old(queue).well_formed(),
            old(self).values_sound(),
        ensures
            final(self).spill_ownership_map@.contains_key(a) && final(self).spill_ownership_map@[a].1
                == ClaimStatus::Blocked ==> final(self).cells@.dom() == old(self).cells@.dom(),
            final(self).well_formed(),
            final(self).values_sound(),
            covered(final(self).cells@, final(queue)@, refused),
            values_ordered(final(self).cells@),
            forall|x: CellAddress| #[trigger]
                count_in(final(queue)@.1, x) >= count_in(old(queue)@.1, x),
            old(self).cells@.contains_key(a) && old(self).cells@[a].value is Some ==> *final(self)
                == *old(self) && final(queue)@ == old(queue)@,
            same_formulas(old(self).cells@, final(self).cells@),
            final(queue).well_formed(),
            remaining_work(final(queue)@) == remaining_work(old(queue)@),
            forall|y: CellAddress| #[trigger]
                old(queue)@.0.contains(y) ==> final(queue)@.0.contains(y),
            forall|b: CellAddress| #[trigger]
                old(self).isolated(b) && b != a ==> final(self).isolated(b)
                    && final(self).cells@[b].value == old(self).cells@[b].value,
            old(self).cells@.contains_key(a) && old(self).cells@[a].is_independent() && old(
                self,
            ).cells@[a].value is None && rectangles_ready(
                old(self).cells@,
                initial_rectangles(old(self).cells@[a].formula_part().unwrap().1),
            ) ==> exists|o: Option<EvaluatedView>, used: Set<CellRectangle>|
                #[trigger] evaluates(
                    old(self).cells@[a].formula_part().unwrap().1,
                    old(self).cells@,
                    initial_rectangles(old(self).cells@[a].formula_part().unwrap().1),
                    o,
                    used,
                ) && records_outcome(
                    old(self).cells@,
                    final(self).cells@,
                    final(self).spill_ownership_map@,
                    a,
                    o,
                ),
            old(self).cells@.contains_key(a) && old(self).cells@[a].is_independent() && old(
                self,
            ).cells@[a].value is None && rectangles_ready(
                old(self).cells@,
                initial_rectangles(old(self).cells@[a].formula_part().unwrap().1),
            ) ==> exists|o: Option<EvaluatedView>, used: Set<CellRectangle>|
                #[trigger] evaluates_with(
                    &old(self).arith,
                    old(self).cells@[a].formula_part().unwrap().1,
                    old(self).cells@,
                    initial_rectangles(old(self).cells@[a].formula_part().unwrap().1),
                    o,
                    used,
                ) && records_outcome(
                    old(self).cells@,
                    final(self).cells@,
                    final(self).spill_ownership_map@,
                    a,
                    o,
                ),
            old(self).isolated(a) && reads_nothing_at(old(self).cells@, a) && old(
                self,
            ).cells@[a].value is None ==> final(self).isolated(a) && holds_own_value(
                final(self).cells@,
                a,
            ),
    {
        let ghost target = old(self).isolated(a) && reads_nothing_at(old(self).cells@, a) && old(
            self,
        ).cells@[a].value is None;
        let ghost f = match formula_at(old(self).cells@, a) {
            Some(p) => p.1,
            None => FormulaView::BooleanLiteral(false),
        };
        let ghost c0 = self.cells@;
        let ghost m0 = self.spill_ownership_map@;
        let ghost q_start = queue@;
        assert(!waiting(c0, a) ==> covered(c0, q_start, refused));
        let result = match self.cells.get(&a) {
            Some(cell) => if cell.value.is_some() {
                return ;
            } else {
                match cell.parsed_formula() {
                Some(formula) => {
                    assert(cell_well_formed(*cell));
                    proof {
                        lemma_parsed_rectangles_well_formed(
                            spec_normalize(cell.raw_formula()),
                            cell.raw_formula(),
                        );
                    }
                    evaluate_formula(&self.cells, formula, &self.arith)
                },
                None => {
                    return ;
                },
            }},
            None => {
                return ;
            },
        };
        assert(c0.contains_key(a) && c0[a].value is None && c0[a].is_independent());
        proof {
            if target {
                lemma_no_initial_rectangles(f);
                assert(rectangles_ready(self.cells@, Set::<CellRectangle>::empty()));
                match result {
                    Ok(ref done) => {
                        lemma_reads_no_cells_evaluates(f, self.cells@, Some(done.0@), done.1@.to_set());
                        if done.1@.len() > 0 {
                            assert(done.1@.to_set().contains(done.1@[0]));
                        }
                    },
                    Err(ref rectangles) => {
                        lemma_reads_no_cells_evaluates(f, self.cells@, None, rectangles@.to_set());
                    },
                }
            }
        }
        match result {
            Err(extra) => {
                let ghost extra_set = extra@.to_set();
                self.update_child_data(a, ChildDataUpdateType::Extend(extra));
                proof {
                    assert(f == c0[a].formula_part().unwrap().1);
                    assert(sound_at(c0, m0, a));
                    assert(claim_of(self.spill_ownership_map@, a) is None);
                    if rectangles_ready(c0, initial_rectangles(f)) {
                        assert(evaluates(f, c0, initial_rectangles(f), None, extra_set));
                        assert(records_outcome(c0, self.cells@, self.spill_ownership_map@, a, None));
                        assert(exists|o: Option<EvaluatedView>, used: Set<CellRectangle>|
                            #[trigger] evaluates(f, c0, initial_rectangles(f), o, used) && records_outcome(
                                c0,
                                self.cells@,
                                self.spill_ownership_map@,
                                a,
                                o,
                            ));
                    }
                }
                assert forall|b: CellAddress| #[trigger]
                    sound_at(self.cells@, self.spill_ownership_map@, b) by {
                    assert(sound_at(c0, m0, b));
                }
                proof {
                    if rectangles_ready(c0, initial_rectangles(f)) {
                        let d = choose|d: Derivation| #[trigger]
                            evaluates_by(f, c0, initial_rectangles(f), None, extra_set, d);
                        crate::evaluation::lemma_no_outcome_unready(f, c0, initial_rectangles(f), extra_set, d);
                    }
                    let r = choose|r: CellRectangle| #[trigger] extra_set.contains(r) && !rectangle_ready(c0, r);
                    let y = choose|y: CellAddress| #[trigger] c0.contains_key(y) && r.spec_contains(y) && c0[y].value is None;
                    assert(self.cells@[a].spec_child_rectangles().to_set().contains(r));
                    assert(child_rectangle_of(self.cells@, a, r));
                    assert(children_exact(self.cells@, a, y));
                    assert(has_child(self.cells@, a, y));
                    assert(!waiting(self.cells@, a)) by {
                        let k = choose|k: int| 0 <= k < self.cells@[a].spec_children().len() && self.cells@[a].spec_children()[k] == y;
                        if waiting(self.cells@, a) {
                            assert(child_evaluated(self.cells@, self.cells@[a].spec_children()[k]));
                        }
                    }
                    lemma_others_keep_children(c0, self.cells@, a);
                    assert forall|z: CellAddress| #[trigger]
                        self.cells@.contains_key(z) && z != a implies c0.contains_key(z) && self.cells@[z].value == c0[z].value
                            && self.cells@[z].is_independent() == c0[z].is_independent() by {
                        assert(formula_at(c0, z) == formula_at(self.cells@, z));
                    }
                    assert forall|x: CellAddress| #[trigger]
                        has_parent(self.cells@, a, x) && waiting(self.cells@, x) implies queued_or_exhausted(queue@, x) by {
                        assert(has_child(self.cells@, x, a));
                        let k = choose|k: int| 0 <= k < self.cells@[x].spec_children().len() && self.cells@[x].spec_children()[k] == a;
                        assert(child_evaluated(self.cells@, self.cells@[x].spec_children()[k]));
                    }
                    lemma_covered_after_evaluation(c0, self.cells@, q_start, queue@, refused, a);
                    assert forall|x: CellAddress, y: CellAddress| #[trigger]
                        has_child(self.cells@, x, y) && self.cells@[x].value is Some implies has_child(c0, x, y)
                        && c0[x].value is Some && self.cells@.contains_key(y) && self.cells@[y].value == c0[y].value by {
                        assert(x != a);
                        assert(children_exact(self.cells@, x, y));
                    }
                    lemma_ordered_kept(c0, self.cells@);
                }
            },
            Ok(CompletedEvaluationResult(value, rectangles)) => match value {
                EvaluatedValue::SingleCellValue(v) => {
                    let ghost used = rectangles@.to_set();
                    let ghost o = Some(EvaluatedView::Single(v@));
                    let ghost fa = c0[a].formula_part().unwrap().1;
                    proof {
                        assert(fa == f);
                        let d = choose|d: Derivation| #[trigger]
                            evaluates_by(fa, c0, initial_rectangles(fa), o, used, d);
                        crate::evaluation::lemma_outcome_ready(fa, c0, initial_rectangles(fa), o, used, d);
                    }
                    self.change_cell(a, CellChange::SetValue(Some(v)));
                    proof {
                        lemma_sound_after_set(c0, m0, self.cells@, self.spill_ownership_map@, a);
                    }
                    let ghost t1 = *self;
                    assert(target ==> self.cells@[a].spec_children().len() == 0) by {
                        if target && self.cells@[a].spec_children().len() > 0 {
                            assert(has_child(self.cells@, a, self.cells@[a].spec_children()[0]));
                        }
                    }
                    self.update_child_data(a, ChildDataUpdateType::Replace(rectangles));
                    proof {
                        assert forall|b: CellAddress| #[trigger]
                            sound_at(self.cells@, self.spill_ownership_map@, b) by {
                            if b != a {
                                assert(sound_at(t1.cells@, t1.spill_ownership_map@, b));
                            } else {
                                assert(!m0.contains_key(a)) by {
                                    assert(sound_at(c0, m0, a));
                                }
                                assert(same_values(t1.cells@, self.cells@));
                                lemma_evaluation_carries_over(c0, self.cells@, fa, EvaluatedView::Single(v@), used, a);
                                assert(self.cells@[a].spec_child_rectangles().to_set() == used);
                                assert(formula_at(self.cells@, a) == formula_at(c0, a));
                                assert(claim_of(self.spill_ownership_map@, a) == None::<(CellRectangle, ClaimStatus)>);
                                assert(shows(EvaluatedView::Single(v@), self.cells@[a].value.unwrap()@, claim_of(self.spill_ownership_map@, a), a));
                            }
                        }
                    }
                    self.queue_ready_parents(a, queue);
                    proof {
                        assert(sound_at(c0, m0, a));
                        assert(!self.spill_ownership_map@.contains_key(a));
                        assert(self.cells@[a].value == t1.cells@[a].value);
                        assert(records_outcome(c0, self.cells@, self.spill_ownership_map@, a, o));
                        lemma_others_keep_children(t1.cells@, self.cells@, a);
                        assert forall|z: CellAddress| #[trigger]
                            self.cells@.contains_key(z) && z != a implies c0.contains_key(z) && self.cells@[z].value
                                == c0[z].value && self.cells@[z].is_independent() == c0[z].is_independent() by {
                            assert(formula_at(c0, z) == formula_at(self.cells@, z));
                            assert(t1.cells@[z] == c0[z]);
                        }
                        assert forall|x: CellAddress, y: CellAddress|
                            #![trigger has_child(self.cells@, x, y)]
                            #![trigger has_child(c0, x, y)]
                            x != a implies has_child(self.cells@, x, y) == has_child(c0, x, y) by {
                            if c0.contains_key(x) {
                                assert(t1.cells@[x] == c0[x]);
                            }
                            assert(has_child(t1.cells@, x, y) == has_child(c0, x, y));
                        }
                        lemma_covered_after_evaluation(c0, self.cells@, q_start, queue@, refused, a);
                        assert forall|y: CellAddress| #[trigger] has_child(self.cells@, a, y) implies y != a
                            && c0.contains_key(y) && c0[y].value is Some && self.cells@.contains_key(y)
                            && self.cells@[y].value is Some by {
                            assert(children_exact(self.cells@, a, y));
                            let r = choose|r: CellRectangle| #[trigger] child_rectangle_of(self.cells@, a, r) && r.spec_contains(y);
                            assert(self.cells@[a].spec_child_rectangles().to_set().contains(r));
                            assert(used.contains(r));
                            assert(rectangle_ready(c0, r));
                        }
                        lemma_ordered_after_evaluation(c0, self.cells@, a);
                    }
                },
                EvaluatedValue::ArrayValue(array) => match array.spill_rectangle(a) {
                    Some(area) => {
                        if self.spill_area_is_free(&area, &a) {
                            let ghost t0 = *self;
                            self.spill_ownership_map.insert(a, area, ClaimStatus::Active);
                            assert forall|b: CellAddress| #[trigger]
                                t0.isolated(b) && b != a implies self.isolated(b) by {}
                            let ghost used = rectangles@.to_set();
                            let ghost av = EvaluatedValue::ArrayValue(array)@;
                            let ghost fa = c0[a].formula_part().unwrap().1;
                            proof {
                                assert(fa == f);
                                let d = choose|d: Derivation| #[trigger]
                                    evaluates_by(fa, c0, initial_rectangles(fa), Some(av), used, d);
                                crate::evaluation::lemma_outcome_ready(fa, c0, initial_rectangles(fa), Some(av), used, d);
                            }
                            assert forall|b: CellAddress| b != a implies #[trigger]
                                sound_at(self.cells@, self.spill_ownership_map@, b) by {
                                assert(sound_at(c0, m0, b));
                                assert(claim_of(self.spill_ownership_map@, b) == claim_of(m0, b));
                            }
                            let ghost t1 = *self;
                            self.update_child_data(a, ChildDataUpdateType::Replace(rectangles));
                            assert forall|b: CellAddress| b != a implies #[trigger]
                                sound_at(self.cells@, self.spill_ownership_map@, b) by {
                                assert(sound_at(t1.cells@, t1.spill_ownership_map@, b));
                            }
                            proof {
                                assert(same_values(c0, self.cells@));
                                lemma_evaluation_carries_over(c0, self.cells@, fa, av, used, a);
                                assert(self.cells@[a].spec_child_rectangles().to_set() == used);
                                assert(formula_at(self.cells@, a) == formula_at(c0, a));
                            }
                            proof {
                                reveal(Spreadsheet::ready_to_spill);
                                lemma_others_keep_children(t1.cells@, self.cells@, a);
                                assert forall|z: CellAddress| #[trigger]
                                    self.cells@.contains_key(z) implies c0.contains_key(z) && self.cells@[z].value
                                        == c0[z].value && self.cells@[z].is_independent() == c0[z].is_independent() by {
                                    assert(formula_at(c0, z) == formula_at(self.cells@, z));
                                }
                                lemma_covered_but_kept(c0, self.cells@, q_start, refused, a);
                                assert forall|x: CellAddress, y: CellAddress| #[trigger]
                                    has_child(self.cells@, x, y) && self.cells@[x].value is Some implies has_child(c0, x, y)
                                    && c0[x].value is Some && self.cells@.contains_key(y) && self.cells@[y].value == c0[y].value by {
                                    assert(x != a);
                                    assert(children_exact(self.cells@, x, y));
                                }
                                lemma_ordered_kept(c0, self.cells@);
                            }
                            self.spill_array(a, &array, area, queue, Ghost(refused));
                            assert(records_outcome(c0, self.cells@, self.spill_ownership_map@, a, Some(av)));
                        } else {
                            let ghost t0 = *self;
                            self.spill_ownership_map.insert(a, area, ClaimStatus::Blocked);
                            assert forall|b: CellAddress| #[trigger]
                                t0.isolated(b) && b != a implies self.isolated(b) by {}
                            self.change_cell(
                                a,
                                CellChange::SetValue(
                                    Some(
                                        SingleCellValue::Error(
                                            "The required cells are not free".to_owned(),
                                        ),
                                    ),
                                ),
                            );
                            proof {
                                assert forall|b: CellAddress| b != a implies #[trigger] claim_of(m0, b)
                                    == claim_of(self.spill_ownership_map@, b) by {}
                                lemma_sound_after_set(c0, m0, self.cells@, self.spill_ownership_map@, a);
                                reveal_strlit("The required cells are not free");
                                assert(self.cells@[a].value.unwrap()@ == ValueView::Error(message_not_free()));
                                assert(self.spill_ownership_map@.contains_key(a));
                                assert(self.spill_ownership_map@[a].1 == ClaimStatus::Blocked);
                                assert(self.cells@.contains_key(a) && self.cells@[a].is_independent());
                                assert(self.cells@[a].value is Some);
                                lemma_blocked_sound(self.cells@, self.spill_ownership_map@, a);
                                assert(!spill_area_free(c0, area, a));
                                assert(records_outcome(
                                    c0,
                                    self.cells@,
                                    self.spill_ownership_map@,
                                    a,
                                    Some(EvaluatedValue::ArrayValue(array)@),
                                ));
                            }
                            let ghost t1 = *self;
                            let ghost used_b = rectangles@.to_set();
                            proof {
                                let av = EvaluatedValue::ArrayValue(array)@;
                                let d = choose|d: Derivation| #[trigger]
                                    evaluates_by(f, c0, initial_rectangles(f), Some(av), used_b, d);
                                crate::evaluation::lemma_outcome_ready(f, c0, initial_rectangles(f), Some(av), used_b, d);
                            }
                            self.update_child_data(a, ChildDataUpdateType::Replace(rectangles));
                            proof {
                                assert forall|b: CellAddress| #[trigger]
                                    sound_at(self.cells@, self.spill_ownership_map@, b) by {
                                    if b != a {
                                        assert(sound_at(t1.cells@, t1.spill_ownership_map@, b));
                                    } else {
                                        lemma_blocked_sound(self.cells@, self.spill_ownership_map@, a);
                                    }
                                }
                                assert(records_outcome(
                                    c0,
                                    self.cells@,
                                    self.spill_ownership_map@,
                                    a,
                                    Some(EvaluatedValue::ArrayValue(array)@),
                                ));
                            }
                            self.queue_ready_parents(a, queue);
                            proof {
                                lemma_others_keep_children(t1.cells@, self.cells@, a);
                                assert forall|z: CellAddress| #[trigger]
                                    self.cells@.contains_key(z) && z != a implies c0.contains_key(z) && self.cells@[z].value
                                        == c0[z].value && self.cells@[z].is_independent() == c0[z].is_independent() by {
                                    assert(formula_at(c0, z) == formula_at(self.cells@, z));
                                    assert(t1.cells@[z] == c0[z]);
                                }
                                assert forall|x: CellAddress, y: CellAddress|
                                    #![trigger has_child(self.cells@, x, y)]
                                    #![trigger has_child(c0, x, y)]
                                    x != a implies has_child(self.cells@, x, y) == has_child(c0, x, y) by {
                                    if c0.contains_key(x) {
                                        assert(t1.cells@[x] == c0[x]);
                                    }
                                    assert(has_child(t1.cells@, x, y) == has_child(c0, x, y));
                                }
                                lemma_covered_after_evaluation(c0, self.cells@, q_start, queue@, refused, a);
                                assert forall|y: CellAddress| #[trigger] has_child(self.cells@, a, y) implies y != a
                                    && c0.contains_key(y) && c0[y].value is Some && self.cells@.contains_key(y)
                                    && self.cells@[y].value is Some by {
                                    assert(children_exact(self.cells@, a, y));
                                    let r = choose|r: CellRectangle| #[trigger] child_rectangle_of(self.cells@, a, r) && r.spec_contains(y);
                                    assert(self.cells@[a].spec_child_rectangles().to_set().contains(r));
                                    assert(used_b.contains(r));
                                    assert(rectangle_ready(c0, r));
                                }
                                lemma_ordered_after_evaluation(c0, self.cells@, a);
                            }
                        }
                    },
                    None => {
                        self.change_cell(
                            a,
                            CellChange::SetValue(
                                Some(
                                    SingleCellValue::Error(
                                        "The required cells would extend beyond the edges of the spreadsheet".to_owned(),
                                    ),
                                ),
                            ),
                        );
                        proof {
                            lemma_sound_after_set(c0, m0, self.cells@, self.spill_ownership_map@, a);
                            assert(self.cells@[a].value.unwrap()@ == ValueView::Error(message_edges()));
                            assert(sound_at(c0, m0, a));
                            assert(!self.spill_ownership_map@.contains_key(a));
                            assert(sound_at(self.cells@, self.spill_ownership_map@, a));
                            assert(records_outcome(
                                c0,
                                self.cells@,
                                self.spill_ownership_map@,
                                a,
                                Some(EvaluatedValue::ArrayValue(array)@),
                            ));
                        }
                        let ghost t1 = *self;
                        let ghost used_b = rectangles@.to_set();
                        proof {
                            let av = EvaluatedValue::ArrayValue(array)@;
                            let d = choose|d: Derivation| #[trigger]
                                evaluates_by(f, c0, initial_rectangles(f), Some(av), used_b, d);
                            crate::evaluation::lemma_outcome_ready(f, c0, initial_rectangles(f), Some(av), used_b, d);
                        }
                        self.update_child_data(a, ChildDataUpdateType::Replace(rectangles));
                        proof {
                            assert forall|b: CellAddress| #[trigger]
                                sound_at(self.cells@, self.spill_ownership_map@, b) by {
                                if b != a {
                                    assert(sound_at(t1.cells@, t1.spill_ownership_map@, b));
                                } else {
                                    assert(!self.spill_ownership_map@.contains_key(a));
                                    assert(self.cells@[a].value == t1.cells@[a].value);
                                }
                            }
                            assert(records_outcome(
                                c0,
                                self.cells@,
                                self.spill_ownership_map@,
                                a,
                                Some(EvaluatedValue::ArrayValue(array)@),
                            ));
                        }
                        self.queue_ready_parents(a, queue);
                        proof {
                            lemma_others_keep_children(t1.cells@, self.cells@, a);
                            assert forall|z: CellAddress| #[trigger]
                                self.cells@.contains_key(z) && z != a implies c0.contains_key(z) && self.cells@[z].value
                                    == c0[z].value && self.cells@[z].is_independent() == c0[z].is_independent() by {
                                assert(formula_at(c0, z) == formula_at(self.cells@, z));
                                assert(t1.cells@[z] == c0[z]);
                            }
                            assert forall|x: CellAddress, y: CellAddress|
                                #![trigger has_child(self.cells@, x, y)]
                                #![trigger has_child(c0, x, y)]
                                x != a implies has_child(self.cells@, x, y) == has_child(c0, x, y) by {
                                if c0.contains_key(x) {
                                    assert(t1.cells@[x] == c0[x]);
                                }
                                assert(has_child(t1.cells@, x, y) == has_child(c0, x, y));
                            }
                            lemma_covered_after_evaluation(c0, self.cells@, q_start, queue@, refused, a);
                            assert forall|y: CellAddress| #[trigger] has_child(self.cells@, a, y) implies y != a
                                && c0.contains_key(y) && c0[y].value is Some && self.cells@.contains_key(y)
                                && self.cells@[y].value is Some by {
                                assert(children_exact(self.cells@, a, y));
                                let r = choose|r: CellRectangle| #[trigger] child_rectangle_of(self.cells@, a, r) && r.spec_contains(y);
                                assert(self.cells@[a].spec_child_rectangles().to_set().contains(r));
                                assert(used_b.contains(r));
                                assert(rectangle_ready(c0, r));
                            }
                            lemma_ordered_after_evaluation(c0, self.cells@, a);
                        }
                    },
                },
            },
        }
    }

    /// Evaluates what an edit left to evaluate: resets the volatile cells
    /// too, queues the reset cells that are ready, and evaluates cells until
    /// none is left to evaluate.
    fn evaluate(&mut self, reset_cells: Vec<CellAddress>, Ghost(refused): Ghost<Set<CellAddress>>) -> (now_refused:
        Ghost<Set<CellAddress>>)
        requires
            old(self).well_formed(),
            reset_cells@.no_duplicates(),
            old(self).values_sound(),
            values_ordered(old(self).cells@),
            forall|x: CellAddress| #[trigger]
                waiting(old(self).cells@, x) ==> reset_cells@.contains(x) || refused.contains(x),
        ensures
            values_ordered(final(self).cells@),
            forall|x: CellAddress| #[trigger] waiting(final(self).cells@, x) ==> now_refused@.contains(x),
            forall|x: CellAddress| #[trigger] refused.contains(x) ==> now_refused@.contains(x),
            final(self).well_formed(),
            final(self).values_sound(),
            same_formulas(old(self).cells@, final(self).cells@),
            forall|b: CellAddress| #[trigger]
                old(self).isolated(b) && reads_nothing_at(old(self).cells@, b) && old(
                    self,
                ).cells@[b].value is None && reset_cells@.contains(b) ==> final(self).isolated(b)
                    && holds_own_value(final(self).cells@, b),
    {
        let ghost given = reset_cells@;
        let mut reset_cells = reset_cells;
        let volatile = self.volatile_cells.clone();
        let mut i: usize = 0;
        while i < volatile.len()
            invariant
                i <= volatile.len(),
                Self::kept(old(self), self),
                reset_cells@.no_duplicates(),
                forall|y: CellAddress| #[trigger] given.contains(y) ==> reset_cells@.contains(y),
                self.values_sound(),
                values_ordered(self.cells@),
                forall|b: CellAddress| #[trigger]
                    old(self).isolated(b) && reads_nothing_at(old(self).cells@, b) && old(
                        self,
                    ).cells@[b].value is None ==> self.isolated(b) && self.cells@[b].value is None,
                forall|x: CellAddress| #[trigger]
                    waiting(self.cells@, x) ==> reset_cells@.contains(x) || refused.contains(x),
            decreases volatile.len() - i,
        {
            let ghost pre = *self;
            let ghost pre_list = reset_cells@;
            let more = self.reset_cell_and_ancestors(volatile[i]);
            proof {
                lemma_ordered_after_reset(pre.cells@, self.cells@, more@);
            }
            assert forall|b: CellAddress| #[trigger] sound_at(self.cells@, self.spill_ownership_map@, b) by {
                assert(sound_at(pre.cells@, pre.spill_ownership_map@, b));
            }
            assert forall|b: CellAddress| #[trigger]
                old(self).isolated(b) && reads_nothing_at(old(self).cells@, b) && old(
                    self,
                ).cells@[b].value is None implies self.isolated(b) && self.cells@[b].value is None by {
                assert(pre.isolated(b));
                if b == volatile@[i as int] {
                    assert(formula_at(pre.cells@, b) == formula_at(old(self).cells@, b));
                    lemma_no_initial_rectangles(formula_at(old(self).cells@, b).unwrap().1);
                }
            }
            let mut j: usize = 0;
            while j < more.len()
                invariant
                    j <= more.len(),
                    reset_cells@.no_duplicates(),
                    forall|y: CellAddress| #[trigger] given.contains(y) ==> reset_cells@.contains(y),
                    forall|y: CellAddress| #[trigger] pre_list.contains(y) ==> reset_cells@.contains(y),
                    forall|k: int| 0 <= k < j ==> reset_cells@.contains(#[trigger] more@[k]),
                decreases more.len() - j,
            {
                proof {
                    crate::cell::lemma_set_insert(reset_cells@, more@[j as int]);
                }
                vec_insert(&mut reset_cells, more[j]);
                j += 1;
            }
            proof {
                assert forall|x: CellAddress| #[trigger] waiting(self.cells@, x) implies reset_cells@.contains(x)
                    || refused.contains(x) by {
                    if more@.contains(x) {
                        let k = choose|k: int| 0 <= k < more@.len() && more@[k] == x;
                        assert(reset_cells@.contains(more@[k]));
                    } else {
                        assert(waiting(pre.cells@, x));
                    }
                }
            }
            i += 1;
        }
        let ghost s0 = *self;
        let ready = self.filter_for_no_unevaluated_children(&reset_cells);
        let mut queue = EvaluationQueue::from_iter(ready);
        proof {
            assert forall|x: CellAddress| #[trigger] waiting(self.cells@, x) implies queued_or_exhausted(queue@, x)
                || refused.contains(x) by {
                lemma_extend_covers(
                    (Seq::<CellAddress>::empty(), Map::<CellAddress, nat>::empty()),
                    ready@,
                    x,
                );
                if reset_cells@.contains(x) {
                    assert(ready@.contains(x));
                }
            }
        }
        proof {
            assert forall|b: CellAddress| #[trigger]
                s0.isolated(b) && reads_nothing_at(s0.cells@, b) && s0.cells@[b].value is None
                    && reset_cells@.contains(b) implies queue@.0.contains(b) by {
                assert(children_evaluated(s0.cells@, b));
                assert(ready@.contains(b));
                lemma_extend_queues(
                    (Seq::<CellAddress>::empty(), Map::<CellAddress, nat>::empty()),
                    ready@,
                    b,
                );
            }
        }
        let ghost rc = reset_cells@;
        loop
            invariant
                self.well_formed(),
                same_formulas(old(self).cells@, self.cells@),
                same_formulas(s0.cells@, self.cells@),
                queue.well_formed(),
                self.values_sound(),
                values_ordered(self.cells@),
                forall|b: CellAddress| #[trigger]
                    s0.isolated(b) && reads_nothing_at(s0.cells@, b) && s0.cells@[b].value is None
                        && rc.contains(b) ==> self.isolated(b) && (holds_own_value(self.cells@, b)
                        || (self.cells@[b].value is None && queue@.0.contains(b))),
                covered(self.cells@, queue@, refused),
            ensures
                queue@.0.len() == 0,
                covered(self.cells@, queue@, refused),
            decreases remaining_work(queue@),
        {
            let ghost pre = *self;
            let ghost pre_queue = queue@;
            let address = match self.get_next_evaluation_address(&mut queue, Ghost(refused)) {
                Some(a) => a,
                None => {
                    proof {
                        assert forall|b: CellAddress| #[trigger]
                            s0.isolated(b) && reads_nothing_at(s0.cells@, b) && s0.cells@[b].value
                                is None && rc.contains(b) implies self.isolated(b) && holds_own_value(
                            self.cells@,
                            b,
                        ) by {
                            assert(pre.isolated(b));
                            assert(!pre_queue.0.contains(b));
                            assert(formula_at(pre.cells@, b) == formula_at(self.cells@, b));
                        }
                    }
                    break;
                },
            };
            let ghost mid = *self;
            let ghost mid_queue = queue@;
            self.evaluate_cell(address, &mut queue, Ghost(refused));
            proof {
                assert forall|b: CellAddress| #[trigger]
                    s0.isolated(b) && reads_nothing_at(s0.cells@, b) && s0.cells@[b].value is None
                        && rc.contains(b) implies self.isolated(b) && (holds_own_value(self.cells@, b)
                        || (self.cells@[b].value is None && queue@.0.contains(b))) by {
                    assert(pre.isolated(b));
                    assert(mid.isolated(b));
                    assert(formula_at(pre.cells@, b) == formula_at(mid.cells@, b));
                    assert(formula_at(mid.cells@, b) == formula_at(self.cells@, b));
                    assert(formula_at(s0.cells@, b) == formula_at(mid.cells@, b));
                    if b != address {
                        if pre_queue.0.contains(b) {
                            assert(mid_queue.0.contains(b));
                        }
                    }
                }
            }
        }
        let now_refused = Ghost(refused.union(Set::new(|x: CellAddress| count_in(queue@.1, x) >= MAX_ADDITIONS)));
        proof {
            assert forall|x: CellAddress| #[trigger] waiting(self.cells@, x) implies now_refused@.contains(x) by {
                assert(!queue@.0.contains(x));
            }
        }
        now_refused
    }

    /// An empty spreadsheet whose numbers are computed by `arith`.
    pub fn new(arith: A) -> (spreadsheet: Self)
        ensures
            spreadsheet.well_formed(),
            spreadsheet.values_sound(),
            spreadsheet.values_live(),
            spreadsheet.values_in_order(),
            spreadsheet.formulas() == Map::<CellAddress, Seq<char>>::empty(),
            spreadsheet.values() == Map::<CellAddress, Option<ValueView>>::empty(),
    {
        let spreadsheet = Self {
            cells: CellMap::new(),
            parent_lookup_tree: ParentLookupTree::new(),
            spill_ownership_map: SpillOwnershipMap::new(),
            volatile_cells: Vec::new(),
            arith,
            refused: Ghost(Set::empty()),
        };
        assert(spreadsheet.formulas() =~= Map::<CellAddress, Seq<char>>::empty());
        assert(spreadsheet.values() =~= Map::<CellAddress, Option<ValueView>>::empty());
        assert(ordered_by(spreadsheet.cells@, Map::<CellAddress, nat>::empty()));
        spreadsheet
    }

    /// The value of the cell at `address`: `None` when no cell exists there,
    /// `Some(None)` when the cell has not been evaluated (as on a cycle).
    pub fn cell_value(&self, address: CellAddress) -> (value: Option<Value>)
        ensures
            match value {
                None => !self.values().contains_key(address),
                Some(v) => self.values().contains_key(address) && self.values()[address]
                    == value_view(v),
            },
    {
        match self.cells.get(&address) {
            Some(cell) => Some(
                match &cell.value {
                    Some(v) => Some(copy_value(v)),
                    None => None,
                },
            ),
            None => None,
        }
    }

    /// Enters `raw_formula` at `address` and evaluates again what that
    /// affects. Text with content creates or replaces the cell's formula
    /// (replacing spill-over there); blank text deletes the cell there,
    /// spill-over too.
    pub fn input_raw_formula(&mut self, address: CellAddress, raw_formula: &str)
        requires
            old(self).well_formed(),
            old(self).values_sound(),
            old(self).values_live(),
            old(self).values_in_order(),
        ensures
            final(self).well_formed(),
            final(self).values_sound(),
            final(self).values_live(),
            final(self).values_in_order(),
            old(self).refused().subset_of(final(self).refused()),
            final(self).formulas() == (if has_content(raw_formula@) {
                old(self).formulas().insert(address, raw_formula@)
            } else {
                old(self).formulas().remove(address)
            }),
            has_content(raw_formula@) && reads_no_cells(spec_parse(raw_formula@))
                ==> final(self).values().contains_key(address) && (final(self).values()[address]
                matches Some(v) && evaluates(
                spec_parse(raw_formula@),
                Map::<CellAddress, Cell>::empty(),
                Set::<CellRectangle>::empty(),
                Some(EvaluatedView::Single(v)),
                Set::<CellRectangle>::empty(),
            )),
    {
        let ghost r0 = self.refused@;
        let ghost c_old = self.cells@;
        let reset_cells = self.update_cell_and_structure_and_reset_values(address, raw_formula);
        assert forall|x: CellAddress| #[trigger] waiting(self.cells@, x) implies reset_cells@.contains(x)
            || r0.contains(x) by {
            if !reset_cells@.contains(x) {
                assert(waiting(c_old, x));
            }
        }
        assert forall|b: CellAddress| #[trigger] sound_at(self.cells@, self.spill_ownership_map@, b) by {
            assert(sound_at(old(self).cells@, old(self).spill_ownership_map@, b));
        }
        let ghost edited = self.cells@;
        let ghost target = has_content(raw_formula@) && reads_no_cells(spec_parse(raw_formula@));
        assert(target ==> reads_nothing_at(self.cells@, address));
        let now_refused = self.evaluate(reset_cells, Ghost(r0));
        self.refused = now_refused;
        proof {
            if target {
                assert(self.isolated(address) && holds_own_value(self.cells@, address));
                assert(formula_at(self.cells@, address) == formula_at(edited, address));
                assert(self.values().contains_key(address));
            }
        }
        proof {
            let expected = if has_content(raw_formula@) {
                old(self).formulas().insert(address, raw_formula@)
            } else {
                old(self).formulas().remove(address)
            };
            assert forall|b: CellAddress| #[trigger] formula_at(self.cells@, b) == formula_at(edited, b) by {
            }
            assert(self.formulas() =~= expected) by {
                assert forall|b: CellAddress| #[trigger] self.formulas().contains_key(b)
                    == expected.contains_key(b) by {
                    assert(formula_at(self.cells@, b) == formula_at(edited, b));
                }
                assert forall|b: CellAddress| #[trigger] self.formulas().contains_key(b) implies self.formulas()[b] == expected[b] by {
                    assert(formula_at(self.cells@, b) == formula_at(edited, b));
                }
            }
        }
    }
}

/// Whether the cell at an address, if there is one, has no child without a
/// value, in `cells`.
pub open spec fn ready_in(cells: Map<CellAddress, Cell>) -> spec_fn(CellAddress) -> bool {
    |x: CellAddress| children_evaluated(cells, x)
}

/// The parents recorded for the cell at `a`, in order; none when there is
/// no cell.
pub open spec fn parents_of(cells: Map<CellAddress, Cell>, a: CellAddress) -> Seq<CellAddress> {
    if cells.contains_key(a) {
        cells[a].parents@
    } else {
        Seq::empty()
    }
}

/// Filtering a sequence with one more element keeps what filtering gave
/// and adds the element when it passes.
proof fn lemma_filter_push(s: Seq<CellAddress>, x: CellAddress, pred: spec_fn(CellAddress) -> bool)
    ensures
        s.push(x).filter(pred) == (if pred(x) {
            s.filter(pred).push(x)
        } else {
            s.filter(pred)
        }),
{
    reveal_with_fuel(Seq::filter, 1);
    assert(s.push(x).drop_last() =~= s);
}

/// The view of a cell's value.
pub open spec fn value_view(v: Value) -> Option<ValueView> {
    match v {
        Some(x) => Some(x@),
        None => None,
    }
}

/// Whether the cell at `c`, if there is one, has a value.
pub open spec fn child_evaluated(cells: Map<CellAddress, Cell>, c: CellAddress) -> bool {
    cells.contains_key(c) ==> cells[c].value is Some
}

/// Whether there is a cell at `a` and each of its existing children has a
/// value.
pub open spec fn children_evaluated(cells: Map<CellAddress, Cell>, a: CellAddress) -> bool {
    &&& cells.contains_key(a)
    &&& forall|j: int|
        0 <= j < cells[a].spec_children().len() ==> child_evaluated(
            cells,
            #[trigger] cells[a].spec_children()[j],
        )
}

/// Keeping every value twice keeps every value.
proof fn lemma_same_values_chain(
    c0: Map<CellAddress, Cell>,
    c1: Map<CellAddress, Cell>,
    c2: Map<CellAddress, Cell>,
)
    requires
        same_values(c0, c1),
        same_values(c1, c2),
        c0.dom() == c1.dom(),
    ensures
        same_values(c0, c2),
{
    assert forall|a: CellAddress| #[trigger] c0.contains_key(a) implies c2[a].value == c0[a].value by {
        assert(c1.contains_key(a));
    }
}

/// The first `i + 1` elements hold what the first `i` hold and the `i`-th.
proof fn lemma_take_one_more<T>(s: Seq<T>, i: int)
    requires
        0 <= i < s.len(),
    ensures
        forall|x: T| #[trigger]
            s.take(i + 1).contains(x) <==> (s.take(i).contains(x) || x == s[i]),
{
    let p1 = s.take(i);
    let p2 = s.take(i + 1);
    assert(p2 =~= p1.push(s[i]));
    lemma_push_contains(p1, s[i]);
}

/// Adding one link on both sides keeps children and parents in agreement.
proof fn lemma_agree_extended(
    c0: Map<CellAddress, Cell>,
    c1: Map<CellAddress, Cell>,
    c2: Map<CellAddress, Cell>,
    px: CellAddress,
    cy: CellAddress,
)
    requires
        links_agree(c0),
        forall|x: CellAddress, y: CellAddress| #[trigger]
            has_child(c1, x, y) <==> has_child(c0, x, y),
        forall|x: CellAddress, y: CellAddress| #[trigger]
            has_parent(c1, y, x) <==> (has_parent(c0, y, x) || (x == px && y == cy)),
        forall|x: CellAddress, y: CellAddress| #[trigger]
            has_parent(c2, y, x) <==> has_parent(c1, y, x),
        forall|x: CellAddress, y: CellAddress| #[trigger]
            has_child(c2, x, y) <==> (has_child(c1, x, y) || (x == px && y == cy)),
    ensures
        links_agree(c2),
{
    assert forall|x: CellAddress, y: CellAddress| has_child(c2, x, y) <==> has_parent(c2, y, x) by {
        assert(has_child(c2, x, y) <==> (has_child(c1, x, y) || (x == px && y == cy)));
        assert(has_child(c1, x, y) <==> has_child(c0, x, y));
        assert(has_parent(c2, y, x) <==> has_parent(c1, y, x));
        assert(has_parent(c1, y, x) <==> (has_parent(c0, y, x) || (x == px && y == cy)));
    }
}

/// Removing a cell that is nobody's child and nobody's parent keeps children
/// and parents in agreement.
proof fn lemma_agree_after_removal(c0: Map<CellAddress, Cell>, a: CellAddress)
    requires
        links_agree(c0),
        forall|x: CellAddress| !has_parent(c0, a, x),
        forall|y: CellAddress| !has_child(c0, a, y),
    ensures
        links_agree(c0.remove(a)),
{
    let c1 = c0.remove(a);
    assert forall|x: CellAddress, y: CellAddress| has_child(c1, x, y) <==> has_parent(c1, y, x) by {
        assert(has_child(c0, x, y) <==> has_parent(c0, y, x));
        assert(!has_parent(c0, a, x));
        assert(!has_child(c0, a, y));
    }
}

/// Adding a cell without parents or children where no cell stands keeps
/// children and parents in agreement.
proof fn lemma_agree_after_insertion(c0: Map<CellAddress, Cell>, a: CellAddress, cell: Cell)
    requires
        links_agree(c0),
        !c0.contains_key(a),
        cell.parents@ == Seq::<CellAddress>::empty(),
        cell.spec_children() == Seq::<CellAddress>::empty(),
    ensures
        links_agree(c0.insert(a, cell)),
{
    let c1 = c0.insert(a, cell);
    assert forall|x: CellAddress, y: CellAddress| has_child(c1, x, y) <==> has_parent(c1, y, x) by {
        assert(has_child(c0, x, y) <==> has_parent(c0, y, x));
    }
}

/// Removing a cell that is nobody's child and has no children leaves every
/// cell's children exactly the cells inside its child rectangles, when that
/// held of all other pairs.
proof fn lemma_exact_after_removal(c0: Map<CellAddress, Cell>, a: CellAddress)
    requires
        forall|x: CellAddress, y: CellAddress| #[trigger]
            children_exact(c0, x, y) || x == a || y == a,
        forall|x: CellAddress| !has_child(c0, x, a),
        forall|y: CellAddress| !has_child(c0, a, y),
    ensures
        children_complete(c0.remove(a)),
{
    let c1 = c0.remove(a);
    assert forall|x: CellAddress, y: CellAddress| #[trigger] children_exact(c1, x, y) by {
        if x != a && y != a {
            assert(children_exact(c0, x, y));
            assert(has_child(c1, x, y) == has_child(c0, x, y));
            if in_child_rectangles(c1, x, y) {
                let r = choose|r: CellRectangle| #[trigger] child_rectangle_of(c1, x, r) && r.spec_contains(y);
                assert(child_rectangle_of(c0, x, r));
            }
            if in_child_rectangles(c0, x, y) {
                let r = choose|r: CellRectangle| #[trigger] child_rectangle_of(c0, x, r) && r.spec_contains(y);
                assert(child_rectangle_of(c1, x, r));
            }
        } else if x == a {
            assert(!has_child(c1, a, y));
            if in_child_rectangles(c1, a, y) {
                let r = choose|r: CellRectangle| #[trigger] child_rectangle_of(c1, a, r) && r.spec_contains(y);
                assert(false);
            }
        } else {
            assert(!has_child(c0, x, a));
            assert(!has_child(c1, x, a));
        }
    }
}

/// Adding a cell without children or child rectangles where no cell stands
/// leaves the children of every cell exact for every other child, and makes
/// the new cell nobody's child.
proof fn lemma_exact_after_insertion(c0: Map<CellAddress, Cell>, a: CellAddress, cell: Cell)
    requires
        children_complete(c0),
        !c0.contains_key(a),
        cell.spec_children() == Seq::<CellAddress>::empty(),
        cell.spec_child_rectangles() == Seq::<CellRectangle>::empty(),
    ensures
        forall|x: CellAddress, y: CellAddress| #[trigger]
            children_exact(c0.insert(a, cell), x, y) || y == a,
        forall|x: CellAddress| !has_child(c0.insert(a, cell), x, a),
{
    let c1 = c0.insert(a, cell);
    assert forall|x: CellAddress, y: CellAddress| #[trigger] children_exact(c1, x, y) || y == a by {
        if y != a {
            assert(children_exact(c0, x, y));
            if x != a {
                assert(has_child(c1, x, y) == has_child(c0, x, y));
                if in_child_rectangles(c1, x, y) {
                    let r = choose|r: CellRectangle| #[trigger] child_rectangle_of(c1, x, r) && r.spec_contains(y);
                    assert(child_rectangle_of(c0, x, r));
                }
                if in_child_rectangles(c0, x, y) {
                    let r = choose|r: CellRectangle| #[trigger] child_rectangle_of(c0, x, r) && r.spec_contains(y);
                    assert(child_rectangle_of(c1, x, r));
                }
            } else {
                assert(!has_child(c1, a, y));
                if in_child_rectangles(c1, a, y) {
                    let r = choose|r: CellRectangle| #[trigger] child_rectangle_of(c1, a, r) && r.spec_contains(y);
                    assert(false);
                }
            }
        }
    }
    assert forall|x: CellAddress| !has_child(c1, x, a) by {
        if x != a {
            assert(children_exact(c0, x, a));
        }
    }
}

/// Replacing a cell by one with the same children and child rectangles
/// keeps every cell's children exact.
proof fn lemma_exact_after_replacement(c0: Map<CellAddress, Cell>, a: CellAddress, cell: Cell)
    requires
        children_complete(c0),
        c0.contains_key(a),
        cell.spec_children() == c0[a].spec_children(),
        cell.spec_child_rectangles() == c0[a].spec_child_rectangles(),
    ensures
        children_complete(c0.insert(a, cell)),
{
    let c1 = c0.insert(a, cell);
    assert(c1.dom() =~= c0.dom());
    assert forall|x: CellAddress, y: CellAddress| #[trigger] children_exact(c1, x, y) by {
        assert(children_exact(c0, x, y));
        assert(has_child(c1, x, y) == has_child(c0, x, y));
        assert forall|r: CellRectangle|
            child_rectangle_of(c1, x, r) == child_rectangle_of(c0, x, r) by {
        }
        if in_child_rectangles(c1, x, y) {
            let r = choose|r: CellRectangle| #[trigger] child_rectangle_of(c1, x, r) && r.spec_contains(y);
            assert(child_rectangle_of(c0, x, r));
        }
        if in_child_rectangles(c0, x, y) {
            let r = choose|r: CellRectangle| #[trigger] child_rectangle_of(c0, x, r) && r.spec_contains(y);
            assert(child_rectangle_of(c1, x, r));
        }
        assert(c1.contains_key(y) == c0.contains_key(y));
    }
}

/// What the elements from `i` on hold, but the `i`-th, the elements from
/// `i + 1` on hold.
proof fn lemma_skip_one_more<T>(s: Seq<T>, i: int)
    requires
        0 <= i < s.len(),
    ensures
        forall|x: T| #[trigger]
            s.skip(i).contains(x) && x != s[i] ==> s.skip(i + 1).contains(x),
{
    assert forall|x: T| #[trigger] s.skip(i).contains(x) && x != s[i] implies s.skip(i + 1).contains(x) by {
        let k = choose|k: int| 0 <= k < s.skip(i).len() && s.skip(i)[k] == x;
        assert(k != 0);
        assert(s.skip(i + 1)[k - 1] == x);
    }
}

/// Pushing adds exactly the pushed element.
proof fn lemma_push_contains<T>(s: Seq<T>, a: T)
    ensures
        forall|x: T| #[trigger] s.push(a).contains(x) <==> (s.contains(x) || x == a),
{
    assert forall|x: T| #[trigger] s.push(a).contains(x) <==> (s.contains(x) || x == a) by {
        if s.push(a).contains(x) {
            let k = choose|k: int| 0 <= k < s.push(a).len() && s.push(a)[k] == x;
            if k < s.len() {
                assert(s[k] == x);
            }
        }
        if s.contains(x) {
            let k = choose|k: int| 0 <= k < s.len() && s[k] == x;
            assert(s.push(a)[k] == x);
        }
        if x == a {
            assert(s.push(a)[s.len() as int] == x);
        }
    }
}

} // verus!
