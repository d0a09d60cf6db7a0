use vstd::prelude::*;
use crate::address::{CellAddress, CellRectangle};
use crate::formula::{Formula, FormulaView};
use crate::value_types::Value;

verus! {

/// A cell that holds something: a formula of its own, or a value spilled
/// over from a dynamic array. Empty cells are not represented.
pub struct Cell {
    /// Whether the cell has a formula of its own or is spill-over.
    pub kind: Kind,
    /// The computed value; `None` while the cell awaits evaluation.
    pub value: Value,
    /// The cells whose values depend directly on this cell.
    pub parents: Vec<CellAddress>,
}

/// What a cell is.
pub enum Kind {
    /// A cell with a formula of its own.
    Independent(IndependentData),
    /// A cell that holds a value spilled over from a dynamic array.
    Dependent,
}

/// What a cell with a formula of its own holds beyond its value.
pub struct IndependentData {
    /// The text the user entered.
    pub raw_formula: String,
    /// The parsed form of the raw formula.
    pub parsed_formula: Formula,
    /// The rectangles whose cells this cell's value depends on (whether or not
    /// they hold cells). No rectangle occurs twice.
    pub child_rectangles: Vec<CellRectangle>,
    /// The existing cells inside the child rectangles. No address occurs
    /// twice.
    pub children: Vec<CellAddress>,
}

impl Cell {
    /// Whether the cell has a formula of its own.
    pub open spec fn is_independent(self) -> bool {
        self.kind is Independent
    }

    /// The raw formula of a cell with a formula of its own.
    pub open spec fn raw_formula(self) -> Seq<char> {
        match self.kind {
            Kind::Independent(data) => data.raw_formula@,
            Kind::Dependent => Seq::empty(),
        }
    }

    /// The raw and the parsed formula of a cell with a formula of its own;
    /// `None` for spill-over.
    pub open spec fn formula_part(self) -> Option<(Seq<char>, FormulaView)> {
        match self.kind {
            Kind::Independent(data) => Some((data.raw_formula@, data.parsed_formula@)),
            Kind::Dependent => None,
        }
    }

    /// The child rectangles of a cell (none for spill-over).
    pub open spec fn spec_child_rectangles(self) -> Seq<CellRectangle> {
        match self.kind {
            Kind::Independent(data) => data.child_rectangles@,
            Kind::Dependent => Seq::empty(),
        }
    }

    /// The children of a cell (none for spill-over).
    pub open spec fn spec_children(self) -> Seq<CellAddress> {
        match self.kind {
            Kind::Independent(data) => data.children@,
            Kind::Dependent => Seq::empty(),
        }
    }

    /// The child rectangles of a cell; empty for spill-over.
    pub fn child_rectangles(&self) -> (result: Vec<CellRectangle>)
        ensures
            result@ == self.spec_child_rectangles(),
    {
        match &self.kind {
            Kind::Independent(data) => data.child_rectangles.clone(),
            Kind::Dependent => Vec::new(),
        }
    }

    /// The children of a cell; empty for spill-over.
    pub fn children(&self) -> (result: Vec<CellAddress>)
        ensures
            result@ == self.spec_children(),
    {
        match &self.kind {
            Kind::Independent(data) => data.children.clone(),
            Kind::Dependent => Vec::new(),
        }
    }

    /// The parsed formula of a cell with a formula of its own.
    pub fn parsed_formula(&self) -> (result: Option<&Formula>)
        ensures
            match self.kind {
                Kind::Independent(data) => result == Some(&data.parsed_formula),
                Kind::Dependent => result is None,
            },
    {
        match &self.kind {
            Kind::Independent(data) => Some(&data.parsed_formula),
            Kind::Dependent => None,
        }
    }

    /// Records `address` as a child (once); spill-over cells are unchanged.
    pub fn add_child(&mut self, address: CellAddress)
        ensures
            final(self).value == old(self).value,
            final(self).parents == old(self).parents,
            final(self).formula_part() == old(self).formula_part(),
            final(self).is_independent() == old(self).is_independent(),
            final(self).spec_child_rectangles() == old(self).spec_child_rectangles(),
            old(self).is_independent() ==> final(self).spec_children() == set_insert(
                old(self).spec_children(),
                address,
            ),
    {
        if let Kind::Independent(data) = &mut self.kind {
            vec_insert(&mut data.children, address);
        }
    }

    /// Removes `address` from the children; spill-over cells are unchanged.
    pub fn remove_child(&mut self, address: CellAddress)
        ensures
            final(self).value == old(self).value,
            final(self).parents == old(self).parents,
            final(self).formula_part() == old(self).formula_part(),
            final(self).is_independent() == old(self).is_independent(),
            final(self).spec_child_rectangles() == old(self).spec_child_rectangles(),
            forall|y: CellAddress| #[trigger] final(self).spec_children().contains(y) <==> (old(self).spec_children().contains(y) && y != address),
            final(self).spec_children().len() <= old(self).spec_children().len(),
            old(self).spec_children().no_duplicates() ==> final(self).spec_children().no_duplicates(),
    {
        if let Kind::Independent(data) = &mut self.kind {
            vec_remove(&mut data.children, address);
        }
    }

    /// Forgets all children.
    pub fn clear_children(&mut self)
        ensures
            final(self).value == old(self).value,
            final(self).parents == old(self).parents,
            final(self).formula_part() == old(self).formula_part(),
            final(self).is_independent() == old(self).is_independent(),
            final(self).spec_child_rectangles() == old(self).spec_child_rectangles(),
            final(self).spec_children() == Seq::<CellAddress>::empty(),
    {
        if let Kind::Independent(data) = &mut self.kind {
            data.children = Vec::new();
        }
    }

    /// Replaces the raw and the parsed formula; spill-over cells are
    /// unchanged.
    pub fn set_formula(&mut self, raw_formula: &str, parsed_formula: Formula)
        ensures
            final(self).value == old(self).value,
            final(self).parents == old(self).parents,
            final(self).is_independent() == old(self).is_independent(),
            final(self).spec_children() == old(self).spec_children(),
            final(self).spec_child_rectangles() == old(self).spec_child_rectangles(),
            old(self).is_independent() ==> final(self).formula_part() == Some(
                (raw_formula@, parsed_formula@),
            ),
    {
        if let Kind::Independent(data) = &mut self.kind {
            data.raw_formula = raw_formula.to_owned();
            data.parsed_formula = parsed_formula;
        }
    }

    /// Replaces the child rectangles; spill-over cells are unchanged.
    pub fn set_child_rectangles(&mut self, child_rectangles: Vec<CellRectangle>)
        ensures
            final(self).value == old(self).value,
            final(self).parents == old(self).parents,
            final(self).formula_part() == old(self).formula_part(),
            final(self).is_independent() == old(self).is_independent(),
            final(self).spec_children() == old(self).spec_children(),
            old(self).is_independent() ==> final(self).spec_child_rectangles() == child_rectangles@,
    {
        if let Kind::Independent(data) = &mut self.kind {
            data.child_rectangles = child_rectangles;
        }
    }
}

/// `s` with `x` added at the end unless it already occurs.
pub open spec fn set_insert<T>(s: Seq<T>, x: T) -> Seq<T> {
    if s.contains(x) {
        s
    } else {
        s.push(x)
    }
}

/// Adding an element that may already occur adds it to the set of elements
/// and keeps the elements distinct.
pub proof fn lemma_set_insert<T>(s: Seq<T>, x: T)
    ensures
        set_insert(s, x).to_set() == s.to_set().insert(x),
        s.no_duplicates() ==> set_insert(s, x).no_duplicates(),
        forall|y: T| #[trigger] set_insert(s, x).contains(y) <==> (s.contains(y) || y == x),
{
    if !s.contains(x) {
        assert forall|y: T| #[trigger] s.push(x).contains(y) <==> (s.contains(y) || y == x) by {
            if s.push(x).contains(y) {
                let k = choose|k: int| 0 <= k < s.push(x).len() && s.push(x)[k] == y;
                if k < s.len() {
                    assert(s[k] == y);
                }
            }
            if s.contains(y) {
                let k = choose|k: int| 0 <= k < s.len() && s[k] == y;
                assert(s.push(x)[k] == y);
            }
            if y == x {
                assert(s.push(x)[s.len() as int] == y);
            }
        }
    }
    assert(set_insert(s, x).to_set() =~= s.to_set().insert(x));
}

/// Adds `x` at the end of `v` unless it already occurs.
pub fn vec_insert(v: &mut Vec<CellAddress>, x: CellAddress)
    ensures
        final(v)@ == set_insert(old(v)@, x),
{
    let mut i: usize = 0;
    while i < v.len()
        invariant
            i <= v.len(),
            v@ == old(v)@,
            forall|j: int| 0 <= j < i ==> v@[j] != x,
        decreases v.len() - i,
    {
        if v[i] == x {
            return;
        }
        i += 1;
    }
    v.push(x);
}

/// Removes every occurrence of `x` from `v`, keeping the order of the rest.
pub fn vec_remove(v: &mut Vec<CellAddress>, x: CellAddress)
    ensures
        forall|y: CellAddress| #[trigger] final(v)@.contains(y) <==> (old(v)@.contains(y) && y != x),
        old(v)@.no_duplicates() ==> final(v)@.no_duplicates(),
        final(v)@.len() <= old(v)@.len(),
{
    let mut kept: Vec<CellAddress> = Vec::new();
    let mut i: usize = 0;
    while i < v.len()
        invariant
            i <= v.len(),
            v@ == old(v)@,
            kept@.len() <= i,
            forall|y: CellAddress| #[trigger] kept@.contains(y) <==> (old(v)@.take(i as int).contains(y) && y != x),
            old(v)@.no_duplicates() ==> kept@.no_duplicates(),
        decreases v.len() - i,
    {
        let item = v[i];
        proof {
            let p1 = old(v)@.take(i as int);
            let p2 = old(v)@.take(i + 1);
            assert(p2 == p1.push(item));
            assert forall|y: CellAddress| p2.contains(y) <==> (p1.contains(y) || y == item) by {
                if p2.contains(y) {
                    let k = choose|k: int| 0 <= k < p2.len() && p2[k] == y;
                    if k < i {
                        assert(p1[k] == y);
                    }
                }
                if p1.contains(y) {
                    let k = choose|k: int| 0 <= k < p1.len() && p1[k] == y;
                    assert(p2[k] == y);
                }
                if y == item {
                    assert(p2[i as int] == y);
                }
            }
            if old(v)@.no_duplicates() {
                assert(!p1.contains(item)) by {
                    if p1.contains(item) {
                        let k = choose|k: int| 0 <= k < p1.len() && p1[k] == item;
                        assert(old(v)@[k] == old(v)@[i as int]);
                    }
                }
            }
        }
        if item != x {
            let ghost before = kept@;
            kept.push(item);
            proof {
                assert forall|y: CellAddress| #[trigger] kept@.contains(y) <==> (before.contains(y) || y == item) by {
                    if kept@.contains(y) {
                        let k = choose|k: int| 0 <= k < kept@.len() && kept@[k] == y;
                        if k < before.len() {
                            assert(before[k] == y);
                        }
                    }
                    if before.contains(y) {
                        let k = choose|k: int| 0 <= k < before.len() && before[k] == y;
                        assert(kept@[k] == y);
                    }
                    if y == item {
                        assert(kept@[before.len() as int] == y);
                    }
                }
                if old(v)@.no_duplicates() {
                    assert forall|p: int, q: int| 0 <= p < q < kept@.len() implies kept@[p] != kept@[q] by {
                        if q == before.len() {
                            assert(before.contains(kept@[p]));
                        } else {
                            assert(kept@[p] == before[p] && kept@[q] == before[q]);
                        }
                    }
                }
            }
        }
        i += 1;
    }
    assert(old(v)@.take(v.len() as int) == old(v)@);
    *v = kept;
}

/// Adds `x` at the end of `v` unless it already occurs.
pub fn rectangles_insert(v: &mut Vec<CellRectangle>, x: CellRectangle)
    ensures
        final(v)@ == set_insert(old(v)@, x),
{
    let mut i: usize = 0;
    while i < v.len()
        invariant
            i <= v.len(),
            v@ == old(v)@,
            forall|j: int| 0 <= j < i ==> v@[j] != x,
        decreases v.len() - i,
    {
        if v[i] == x {
            return;
        }
        i += 1;
    }
    v.push(x);
}

} // verus!
