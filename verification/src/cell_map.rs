use std::collections::BTreeMap;
use vstd::prelude::*;
use crate::address::{CellAddress, CellRectangle};
use crate::cell::Cell;

verus! {

broadcast use vstd::std_specs::btree::group_btree_axioms;

/// The keys of `map` from `low` to `high`, both included, in increasing
/// order.
///
/// Calls `BTreeMap::range` with the inclusive range `low..=high` and keeps the
/// keys; the documentation of `range` states that it yields exactly the
/// entries whose keys lie in the range, in ascending key order. `range`
/// panics when the start exceeds the end, which `requires` excludes.
#[verifier::external_body]
fn keys_in_range<V>(map: &BTreeMap<u32, V>, low: u32, high: u32) -> (keys: Vec<u32>)
    requires
        low <= high,
    ensures
        forall|k: u32| keys@.contains(k) <==> (map@.contains_key(k) && low <= k <= high),
        forall|i: int, j: int| 0 <= i < j < keys@.len() ==> keys@[i] < keys@[j],
{
    map.range(low..=high).map(|(k, _)| *k).collect()
}

/// The value stored under `key` in `map`, to change in place.
///
/// Calls `BTreeMap::get_mut`, whose documentation states that it returns a
/// mutable reference to the value of the key, or `None` when the map does not
/// hold the key. The contract states that the reference starts at the stored
/// value and that the map afterwards holds, under the key, whatever the
/// reference was left holding, all else unchanged.
#[verifier::external_body]
fn value_mut<'a, V>(map: &'a mut BTreeMap<u32, V>, key: u32) -> (value: Option<&'a mut V>)
    ensures
        value is Some ==> old(map)@.contains_key(key) && *value.unwrap() == old(map)@[key]
            && final(map)@ == old(map)@.insert(key, *final(value.unwrap())),
        value is None ==> !old(map)@.contains_key(key) && final(map)@ == old(map)@,
{
    map.get_mut(&key)
}

/// Whether `a` comes before `b` when cells are listed column by column and,
/// within a column, row by row.
pub open spec fn address_before(a: CellAddress, b: CellAddress) -> bool {
    a.column < b.column || (a.column == b.column && a.row < b.row)
}

/// Appends the addresses in `column` of the given `rows`, which increase,
/// to a list whose addresses all lie in earlier columns.
fn append_column(addresses: &mut Vec<CellAddress>, column: u32, rows: &Vec<u32>)
    requires
        forall|x: int, y: int| 0 <= x < y < rows@.len() ==> rows@[x] < rows@[y],
        forall|x: int| 0 <= x < old(addresses)@.len() ==> #[trigger] old(addresses)@[x].column < column,
        forall|x: int, y: int|
            0 <= x < y < old(addresses)@.len() ==> address_before(old(addresses)@[x], old(addresses)@[y]),
    ensures
        forall|a: CellAddress|
            final(addresses)@.contains(a) <==> (old(addresses)@.contains(a) || (a.column == column
                && rows@.contains(a.row))),
        forall|x: int| 0 <= x < final(addresses)@.len() ==> #[trigger] final(addresses)@[x].column <= column,
        forall|x: int, y: int|
            0 <= x < y < final(addresses)@.len() ==> address_before(final(addresses)@[x], final(addresses)@[y]),
{
    let ghost before = addresses@;
    let mut j: usize = 0;
    while j < rows.len()
        invariant
            j <= rows.len(),
            forall|x: int, y: int| 0 <= x < y < rows@.len() ==> rows@[x] < rows@[y],
            addresses@.len() == before.len() + j,
            forall|x: int| 0 <= x < before.len() ==> #[trigger] addresses@[x] == before[x],
            forall|x: int| 0 <= x < before.len() ==> #[trigger] before[x].column < column,
            forall|x: int| 0 <= x < j ==> #[trigger] addresses@[before.len() + x]
                == (CellAddress { column, row: rows@[x] }),
            forall|x: int, y: int|
                0 <= x < y < addresses@.len() ==> address_before(addresses@[x], addresses@[y]),
        decreases rows.len() - j,
    {
        let address = CellAddress { column, row: rows[j] };
        proof {
            assert forall|x: int| 0 <= x < addresses@.len() implies address_before(
                addresses@[x],
                address,
            ) by {
                if x < before.len() {
                    assert(addresses@[x] == before[x]);
                } else {
                    assert(addresses@[before.len() + (x - before.len())] == (CellAddress {
                        column,
                        row: rows@[x - before.len()],
                    }));
                }
            }
        }
        addresses.push(address);
        j += 1;
    }
    proof {
        assert forall|a: CellAddress|
            addresses@.contains(a) <==> (before.contains(a) || (a.column == column
                && rows@.contains(a.row))) by {
            if addresses@.contains(a) {
                let k = choose|k: int| 0 <= k < addresses@.len() && addresses@[k] == a;
                if k < before.len() {
                    assert(before[k] == a);
                } else {
                    assert(addresses@[before.len() + (k - before.len())] == (CellAddress {
                        column,
                        row: rows@[k - before.len()],
                    }));
                }
            }
            if before.contains(a) {
                let k = choose|k: int| 0 <= k < before.len() && before[k] == a;
                assert(addresses@[k] == a);
            }
            if a.column == column && rows@.contains(a.row) {
                let k = choose|k: int| 0 <= k < rows@.len() && rows@[k] == a.row;
                assert(addresses@[before.len() + k] == a);
            }
        }
        assert forall|x: int| 0 <= x < addresses@.len() implies #[trigger] addresses@[x].column <= column by {
            if x < before.len() {
                assert(addresses@[x] == before[x]);
            } else {
                assert(addresses@[before.len() + (x - before.len())] == (CellAddress {
                    column,
                    row: rows@[x - before.len()],
                }));
            }
        }
    }
}

/// The cells of a spreadsheet, indexed by column, then by row.
pub struct CellMap {
    by_column: BTreeMap<u32, BTreeMap<u32, Cell>>,
}

impl View for CellMap {
    type V = Map<CellAddress, Cell>;

    closed spec fn view(&self) -> Map<CellAddress, Cell> {
        Map::new(
            |a: CellAddress|
                self.by_column@.contains_key(a.column) && self.by_column@[a.column]@.contains_key(
                    a.row,
                ),
            |a: CellAddress| self.by_column@[a.column]@[a.row],
        )
    }
}

impl CellMap {
    /// No column is kept without cells.
    pub closed spec fn well_formed(&self) -> bool {
        forall|c: u32| #[trigger]
            self.by_column@.contains_key(c) ==> self.by_column@[c]@.dom().len() > 0
    }

    /// The empty map.
    pub fn new() -> (map: Self)
        ensures
            map.well_formed(),
            map@ == Map::<CellAddress, Cell>::empty(),
    {
        let map = Self { by_column: BTreeMap::new() };
        assert(map@ =~= Map::<CellAddress, Cell>::empty());
        map
    }

    /// Whether a cell exists at `address`.
    pub fn contains(&self, address: &CellAddress) -> (result: bool)
        ensures
            result == self@.contains_key(*address),
    {
        match self.by_column.get(&address.column) {
            Some(rows) => rows.contains_key(&address.row),
            None => false,
        }
    }

    /// The cell at `address`, if any.
    pub fn get(&self, address: &CellAddress) -> (result: Option<&Cell>)
        ensures
            match result {
                Some(cell) => self@.contains_key(*address) && *cell == self@[*address],
                None => !self@.contains_key(*address),
            },
    {
        match self.by_column.get(&address.column) {
            Some(rows) => rows.get(&address.row),
            None => None,
        }
    }

    /// The cell at `address`, if any, to change in place: the map afterwards
    /// holds there whatever the cell was left as.
    pub fn get_mut(&mut self, address: &CellAddress) -> (result: Option<&mut Cell>)
        requires
            old(self).well_formed(),
        ensures
            result is Some ==> old(self)@.contains_key(*address) && *result.unwrap() == old(self)@[*address]
                && final(self)@ == old(self)@.insert(*address, *final(result.unwrap()))
                && final(self).well_formed(),
            result is None ==> !old(self)@.contains_key(*address) && final(self)@ == old(self)@
                && final(self).well_formed(),
    {
        match value_mut(&mut self.by_column, address.column) {
            Some(rows) => value_mut(rows, address.row),
            None => None,
        }
    }

    /// Puts `cell` at `address`, returning the cell that was there.
    pub fn insert(&mut self, address: CellAddress, cell: Cell) -> (previous: Option<Cell>)
        requires
            old(self).well_formed(),
        ensures
            final(self).well_formed(),
            final(self)@ == old(self)@.insert(address, cell),
            match previous {
                Some(p) => old(self)@.contains_key(address) && p == old(self)@[address],
                None => !old(self)@.contains_key(address),
            },
    {
        let mut rows = match self.by_column.remove(&address.column) {
            Some(rows) => rows,
            None => BTreeMap::new(),
        };
        let previous = rows.insert(address.row, cell);
        self.by_column.insert(address.column, rows);
        proof {
            assert(self@ =~= old(self)@.insert(address, cell));
            assert forall|c: u32| #[trigger]
                self.by_column@.contains_key(c) implies self.by_column@[c]@.dom().len() > 0 by {
                if c == address.column {
                    assert(self.by_column@[c]@.dom().contains(address.row));
                    vstd::set_lib::lemma_set_empty_equivalency_len(self.by_column@[c]@.dom());
                } else {
                    assert(old(self).by_column@.contains_key(c));
                }
            }
        }
        previous
    }

    /// Removes the cell at `address`, returning it.
    pub fn remove(&mut self, address: &CellAddress) -> (removed: Option<Cell>)
        requires
            old(self).well_formed(),
        ensures
            final(self).well_formed(),
            final(self)@ == old(self)@.remove(*address),
            match removed {
                Some(p) => old(self)@.contains_key(*address) && p == old(self)@[*address],
                None => !old(self)@.contains_key(*address),
            },
    {
        match self.by_column.remove(&address.column) {
            None => {
                assert(self@ =~= old(self)@.remove(*address));
                None
            },
            Some(mut rows) => {
                let removed = rows.remove(&address.row);
                if !rows.is_empty() {
                    self.by_column.insert(address.column, rows);
                }
                proof {
                    assert(self@ =~= old(self)@.remove(*address)) by {
                        if rows@.len() == 0 {
                            vstd::set_lib::lemma_set_empty_equivalency_len(rows@.dom());
                        }
                    }
                    assert forall|c: u32| #[trigger]
                        self.by_column@.contains_key(c) implies self.by_column@[c]@.dom().len()
                        > 0 by {
                        if c == address.column {
                            vstd::set_lib::lemma_set_empty_equivalency_len(rows@.dom());
                        } else {
                            assert(old(self).by_column@.contains_key(c));
                        }
                    }
                }
                removed
            },
        }
    }

    /// The addresses of the cells inside `rectangle`, column by column and,
    /// within a column, row by row.
    pub fn get_all_in_rectangle(&self, rectangle: &CellRectangle) -> (addresses: Vec<CellAddress>)
        requires
            rectangle.well_formed(),
        ensures
            forall|a: CellAddress|
                #![trigger addresses@.contains(a)]
                #![trigger self@.contains_key(a)]
                addresses@.contains(a) <==> (self@.contains_key(a) && rectangle.spec_contains(a)),
            forall|i: int, j: int|
                0 <= i < j < addresses@.len() ==> address_before(addresses@[i], addresses@[j]),
    {
        let mut addresses: Vec<CellAddress> = Vec::new();
        let columns = keys_in_range(
            &self.by_column,
            rectangle.upper_left.column,
            rectangle.lower_right.column,
        );
        proof {
            assert forall|a: CellAddress|
                self@.contains_key(a) && rectangle.spec_contains(a) implies 0 < columns@.len() && a.column >= columns@[0] by {
                assert(self.by_column@.contains_key(a.column));
                assert(columns@.contains(a.column));
                let m = choose|m: int| 0 <= m < columns@.len() && columns@[m] == a.column;
                if m > 0 {
                    assert(columns@[0] < columns@[m]);
                }
            }
        }
        let mut i: usize = 0;
        while i < columns.len()
            invariant
                i <= columns.len(),
                rectangle.well_formed(),
                forall|k: u32|
                    columns@.contains(k) <==> (self.by_column@.contains_key(k)
                        && rectangle.upper_left.column <= k <= rectangle.lower_right.column),
                forall|x: int, y: int| 0 <= x < y < columns@.len() ==> columns@[x] < columns@[y],
                forall|a: CellAddress|
                    #![trigger addresses@.contains(a)]
                    #![trigger self@.contains_key(a)]
                    addresses@.contains(a) <==> (self@.contains_key(a) && rectangle.spec_contains(a)
                        && (i < columns@.len() ==> a.column < columns@[i as int])),
                i < columns@.len() ==> forall|x: int|
                    0 <= x < addresses@.len() ==> #[trigger] addresses@[x].column < columns@[i as int],
                forall|x: int, y: int|
                    0 <= x < y < addresses@.len() ==> address_before(addresses@[x], addresses@[y]),
            decreases columns.len() - i,
        {
            let column = columns[i];
            assert(columns@.contains(column));
            let rows_map = self.by_column.get(&column).unwrap();
            let rows = keys_in_range(rows_map, rectangle.upper_left.row, rectangle.lower_right.row);
            let ghost before = addresses@;
            append_column(&mut addresses, column, &rows);
            proof {
                assert forall|a: CellAddress| addresses@.contains(a) implies (self@.contains_key(a)
                    && rectangle.spec_contains(a) && (i + 1 < columns@.len() ==> a.column
                    < columns@[i + 1])) by {
                    if i + 1 < columns@.len() {
                        assert(columns@[i as int] < columns@[i + 1]);
                    }
                    if before.contains(a) {
                    } else {
                        assert(rows@.contains(a.row));
                    }
                }
                assert forall|a: CellAddress|
                    (self@.contains_key(a) && rectangle.spec_contains(a) && (i + 1
                        < columns@.len() ==> a.column < columns@[i + 1])) implies addresses@.contains(a) by {
                    assert(self.by_column@.contains_key(a.column));
                    assert(columns@.contains(a.column));
                    let m = choose|m: int| 0 <= m < columns@.len() && columns@[m] == a.column;
                    if a.column == column {
                        assert(rows_map@.contains_key(a.row));
                        assert(rows@.contains(a.row));
                    } else {
                        assert(m < i) by {
                            if m > i {
                                if i + 1 < columns@.len() {
                                    assert(columns@[i + 1] <= columns@[m]) by {
                                        if m > i + 1 {
                                            assert(columns@[i + 1] < columns@[m]);
                                        }
                                    }
                                }
                            }
                        }
                        assert(columns@[m] < columns@[i as int]);
                        assert(before.contains(a));
                    }
                }
                if i + 1 < columns@.len() {
                    assert(columns@[i as int] < columns@[i + 1]);
                }
            }
            i += 1;
        }
        addresses
    }

    /// The addresses of all cells, column by column.
    pub fn iter(&self) -> (addresses: Vec<CellAddress>)
        ensures
            forall|a: CellAddress| addresses@.contains(a) <==> self@.contains_key(a),
    {
        let everything = CellRectangle {
            upper_left: CellAddress { column: 0, row: 0 },
            lower_right: CellAddress { column: u32::MAX, row: u32::MAX },
        };
        self.get_all_in_rectangle(&everything)
    }
}

} // verus!
