use interavl::IntervalTree;
use vstd::prelude::*;
use crate::address::{CellAddress, CellRectangle, col_range, row_range};
use crate::cell::{vec_insert, vec_remove};

verus! {

#[verifier::external_type_specification]
#[verifier::external_body]
#[verifier::reject_recursive_types(R)]
#[verifier::reject_recursive_types(V)]
pub struct ExIntervalTree<R, V>(IntervalTree<R, V>);

/// What a tree of row intervals holds: for each half-open interval, given
/// by its bounds, the addresses stored under it.
pub uninterp spec fn row_tree_contents(tree: IntervalTree<u64, Vec<CellAddress>>) -> Map<
    (u64, u64),
    Seq<CellAddress>,
>;

/// What a tree of column intervals holds: for each half-open interval, what
/// the row tree stored under it holds.
pub uninterp spec fn column_tree_contents(
    tree: IntervalTree<u64, IntervalTree<u64, Vec<CellAddress>>>,
) -> Map<(u64, u64), Map<(u64, u64), Seq<CellAddress>>>;

/// Whether the half-open intervals `a` and `b` overlap, as
/// `IntervalTree::iter_overlaps` decides it.
pub open spec fn intervals_overlap(a: (u64, u64), b: (u64, u64)) -> bool {
    b.1 > a.0 && b.0 < a.1
}

/// A new, empty tree of row intervals (`IntervalTree::default`).
#[verifier::external_body]
fn new_row_tree() -> (created: IntervalTree<u64, Vec<CellAddress>>)
    ensures
        row_tree_contents(created).dom() == Set::<(u64, u64)>::empty(),
{
    IntervalTree::default()
}

/// Stores `value` under the interval `start..end` (`IntervalTree::insert`),
/// replacing what was stored under that interval.
#[verifier::external_body]
fn row_tree_insert(
    tree: &mut IntervalTree<u64, Vec<CellAddress>>,
    start: u64,
    end: u64,
    value: Vec<CellAddress>,
)
    ensures
        row_tree_contents(*final(tree)) == row_tree_contents(*old(tree)).insert((start, end), value@),
{
    tree.insert(start..end, value);
}

/// Takes what is stored under the interval `start..end` out of the tree
/// (`IntervalTree::remove`).
#[verifier::external_body]
fn row_tree_remove(tree: &mut IntervalTree<u64, Vec<CellAddress>>, start: u64, end: u64) -> (removed:
    Option<Vec<CellAddress>>)
    ensures
        row_tree_contents(*final(tree)) == row_tree_contents(*old(tree)).remove((start, end)),
        match removed {
            Some(v) => row_tree_contents(*old(tree)).contains_key((start, end)) && v@
                == row_tree_contents(*old(tree))[(start, end)],
            None => !row_tree_contents(*old(tree)).contains_key((start, end)),
        },
{
    tree.remove(&(start..end))
}

/// The stored intervals that overlap `start..end`, each with a copy of what
/// is stored under it (`IntervalTree::iter_overlaps`). The tree yields every
/// matching entry once; its documentation leaves the result undefined when a
/// stored interval is empty or reversed, which `requires` excludes.
#[verifier::external_body]
fn row_tree_overlaps(tree: &IntervalTree<u64, Vec<CellAddress>>, start: u64, end: u64) -> (entries:
    Vec<((u64, u64), Vec<CellAddress>)>)
    requires
        forall|k: (u64, u64)| #[trigger] row_tree_contents(*tree).contains_key(k) ==> k.0 < k.1,
    ensures
        forall|i: int|
            0 <= i < entries@.len() ==> {
                let (k, v) = #[trigger] entries@[i];
                &&& row_tree_contents(*tree).contains_key(k)
                &&& row_tree_contents(*tree)[k] == v@
                &&& intervals_overlap(k, (start, end))
            },
        forall|k: (u64, u64)|
            #[trigger] row_tree_contents(*tree).contains_key(k) && intervals_overlap(k, (start, end))
                ==> exists|i: int| 0 <= i < entries@.len() && (#[trigger] entries@[i]).0 == k,
{
    tree.iter_overlaps(&(start..end)).map(|(r, v)| ((r.start, r.end), v.clone())).collect()
}

/// Whether the tree holds no interval (`IntervalTree::iter` yields nothing).
#[verifier::external_body]
fn row_tree_is_empty(tree: &IntervalTree<u64, Vec<CellAddress>>) -> (empty: bool)
    ensures
        empty == (row_tree_contents(*tree).dom() == Set::<(u64, u64)>::empty()),
{
    tree.iter().next().is_none()
}

/// A new, empty tree of column intervals (`IntervalTree::default`).
#[verifier::external_body]
fn new_column_tree() -> (created: IntervalTree<u64, IntervalTree<u64, Vec<CellAddress>>>)
    ensures
        column_tree_contents(created).dom() == Set::<(u64, u64)>::empty(),
{
    IntervalTree::default()
}

/// Stores a row tree under the interval `start..end` (`IntervalTree::insert`).
#[verifier::external_body]
fn column_tree_insert(
    tree: &mut IntervalTree<u64, IntervalTree<u64, Vec<CellAddress>>>,
    start: u64,
    end: u64,
    value: IntervalTree<u64, Vec<CellAddress>>,
)
    ensures
        column_tree_contents(*final(tree)) == column_tree_contents(*old(tree)).insert(
            (start, end),
            row_tree_contents(value),
        ),
{
    tree.insert(start..end, value);
}

/// Takes the row tree stored under `start..end` out of the tree
/// (`IntervalTree::remove`).
#[verifier::external_body]
fn column_tree_remove(
    tree: &mut IntervalTree<u64, IntervalTree<u64, Vec<CellAddress>>>,
    start: u64,
    end: u64,
) -> (removed: Option<IntervalTree<u64, Vec<CellAddress>>>)
    ensures
        column_tree_contents(*final(tree)) == column_tree_contents(*old(tree)).remove((start, end)),
        match removed {
            Some(v) => column_tree_contents(*old(tree)).contains_key((start, end))
                && row_tree_contents(v) == column_tree_contents(*old(tree))[(start, end)],
            None => !column_tree_contents(*old(tree)).contains_key((start, end)),
        },
{
    tree.remove(&(start..end))
}

/// The stored column intervals that overlap `start..end`, each with the row
/// tree stored under it (`IntervalTree::iter_overlaps`; see
/// [`row_tree_overlaps`]).
#[verifier::external_body]
fn column_tree_overlaps<'a>(
    tree: &'a IntervalTree<u64, IntervalTree<u64, Vec<CellAddress>>>,
    start: u64,
    end: u64,
) -> (entries: Vec<((u64, u64), &'a IntervalTree<u64, Vec<CellAddress>>)>)
    requires
        forall|k: (u64, u64)| #[trigger] column_tree_contents(*tree).contains_key(k) ==> k.0 < k.1,
    ensures
        forall|i: int|
            0 <= i < entries@.len() ==> {
                let (k, v) = #[trigger] entries@[i];
                &&& column_tree_contents(*tree).contains_key(k)
                &&& column_tree_contents(*tree)[k] == row_tree_contents(*v)
                &&& intervals_overlap(k, (start, end))
            },
        forall|k: (u64, u64)|
            #[trigger] column_tree_contents(*tree).contains_key(k) && intervals_overlap(
                k,
                (start, end),
            ) ==> exists|i: int| 0 <= i < entries@.len() && (#[trigger] entries@[i]).0 == k,
{
    tree.iter_overlaps(&(start..end)).map(|(r, v)| ((r.start, r.end), v)).collect()
}

/// The largest bound a stored interval may have: one past the largest
/// `u32`.
pub open spec fn bound_limit() -> u64 {
    0x1_0000_0000
}

/// The column and row intervals that stand for a rectangle.
pub open spec fn ranges_of(r: CellRectangle) -> ((u64, u64), (u64, u64)) {
    (
        (r.upper_left.column as u64, (r.lower_right.column + 1) as u64),
        (r.upper_left.row as u64, (r.lower_right.row + 1) as u64),
    )
}

/// The rectangle that a column interval and a row interval stand for.
pub open spec fn rectangle_of_ranges(columns: (u64, u64), rows: (u64, u64)) -> CellRectangle {
    CellRectangle {
        upper_left: CellAddress { column: columns.0 as u32, row: rows.0 as u32 },
        lower_right: CellAddress { column: (columns.1 - 1) as u32, row: (rows.1 - 1) as u32 },
    }
}

/// Whether an interval is a non-empty part of the `u32` line.
pub open spec fn valid_interval(k: (u64, u64)) -> bool {
    k.0 < k.1 <= bound_limit()
}

/// A registry of (address, rectangle) pairs that can be searched by the
/// rectangles' positions: column intervals index trees of row intervals,
/// which index the addresses registered with each rectangle.
pub struct RectangleIndex {
    by_column: IntervalTree<u64, IntervalTree<u64, Vec<CellAddress>>>,
}

impl RectangleIndex {
    /// What the index holds, by column interval and row interval.
    pub closed spec fn contents(&self) -> Map<(u64, u64), Map<(u64, u64), Seq<CellAddress>>> {
        column_tree_contents(self.by_column)
    }

    /// Whether `address` is registered with `rectangle`.
    pub open spec fn holds(&self, address: CellAddress, rectangle: CellRectangle) -> bool {
        let (c, r) = ranges_of(rectangle);
        &&& self.contents().contains_key(c)
        &&& self.contents()[c].contains_key(r)
        &&& self.contents()[c][r].contains(address)
    }

    /// The addresses registered with some rectangle that overlaps `rectangle`.
    pub open spec fn registered_overlapping(&self, rectangle: CellRectangle) -> Set<CellAddress> {
        Set::new(
            |a: CellAddress|
                exists|s: CellRectangle| #[trigger]
                    self.holds(a, s) && s.well_formed() && s.spec_overlaps(rectangle),
        )
    }

    /// Every interval is valid, no tree or list is kept empty, and no list
    /// holds an address twice.
    pub closed spec fn well_formed(&self) -> bool {
        forall|c: (u64, u64)| #[trigger]
            self.contents().contains_key(c) ==> {
                &&& valid_interval(c)
                &&& self.contents()[c].dom() != Set::<(u64, u64)>::empty()
                &&& forall|r: (u64, u64)| #[trigger]
                    self.contents()[c].contains_key(r) ==> {
                        &&& valid_interval(r)
                        &&& self.contents()[c][r].len() > 0
                        &&& self.contents()[c][r].no_duplicates()
                    }
            }
    }

    /// The empty index.
    pub fn new() -> (index: Self)
        ensures
            index.well_formed(),
            forall|a: CellAddress, r: CellRectangle| !index.holds(a, r),
    {
        let index = Self { by_column: new_column_tree() };
        assert(index.contents().dom() == Set::<(u64, u64)>::empty());
        assert forall|a: CellAddress, r: CellRectangle| !index.holds(a, r) by {
            assert(!index.contents().dom().contains(ranges_of(r).0));
        }
        index
    }

    /// Registers `address` with `rectangle`.
    pub fn insert(&mut self, address: CellAddress, rectangle: &CellRectangle)
        requires
            old(self).well_formed(),
            rectangle.well_formed(),
        ensures
            final(self).well_formed(),
            forall|a: CellAddress, r: CellRectangle|
                #[trigger] final(self).holds(a, r) <==> (old(self).holds(a, r) || (a == address && r
                    == *rectangle)),
    {
        let (c0, c1) = col_range(rectangle);
        let (r0, r1) = row_range(rectangle);
        let ghost c = (c0, c1);
        let ghost r = (r0, r1);
        assert(ranges_of(*rectangle) == (c, r));
        let mut row_tree = match column_tree_remove(&mut self.by_column, c0, c1) {
            Some(t) => t,
            None => new_row_tree(),
        };
        let ghost old_rows = row_tree_contents(row_tree);
        assert(old(self).contents().contains_key(c) ==> old_rows == old(self).contents()[c]);
        assert(!old(self).contents().contains_key(c) ==> old_rows.dom() == Set::<(u64, u64)>::empty());
        let mut leaf = match row_tree_remove(&mut row_tree, r0, r1) {
            Some(v) => v,
            None => Vec::new(),
        };
        let ghost old_leaf = leaf@;
        assert(old_rows.contains_key(r) ==> old_leaf == old_rows[r]);
        assert(!old_rows.contains_key(r) ==> old_leaf == Seq::<CellAddress>::empty());
        vec_insert(&mut leaf, address);
        row_tree_insert(&mut row_tree, r0, r1, leaf);
        column_tree_insert(&mut self.by_column, c0, c1, row_tree);
        proof {
            let new_leaf = crate::cell::set_insert(old_leaf, address);
            assert(old_rows.remove(r).insert(r, new_leaf) =~= old_rows.insert(r, new_leaf));
            assert(old(self).contents().remove(c).insert(c, old_rows.insert(r, new_leaf))
                =~= old(self).contents().insert(c, old_rows.insert(r, new_leaf)));
            assert(self.contents() == old(self).contents().insert(c, old_rows.insert(r, new_leaf)));
            assert forall|a: CellAddress, s: CellRectangle|
                #[trigger] self.holds(a, s) <==> (old(self).holds(a, s) || (a == address && s
                    == *rectangle)) by {
                let (sc, sr) = ranges_of(s);
                if sc == c && sr == r {
                    assert(s == *rectangle);
                    if !old_leaf.contains(address) {
                        assert(new_leaf == old_leaf.push(address));
                        assert(new_leaf[new_leaf.len() - 1] == address);
                        if new_leaf.contains(a) {
                            let i = choose|i: int| 0 <= i < new_leaf.len() && new_leaf[i] == a;
                            if i < old_leaf.len() {
                                assert(old_leaf[i] == a);
                            }
                        }
                        if old_leaf.contains(a) {
                            let i = choose|i: int| 0 <= i < old_leaf.len() && old_leaf[i] == a;
                            assert(new_leaf[i] == a);
                        }
                    }
                    if !old_rows.contains_key(r) {
                        assert(!old_leaf.contains(a));
                    }
                    if !old(self).contents().contains_key(c) {
                        assert(!old_rows.dom().contains(r));
                    }
                }
                if sc == c && sr != r {
                    if !old(self).contents().contains_key(c) {
                        assert(!old_rows.dom().contains(sr));
                    }
                }
            }
            assert forall|k: (u64, u64)| #[trigger] self.contents().contains_key(k) implies {
                &&& valid_interval(k)
                &&& self.contents()[k].dom() != Set::<(u64, u64)>::empty()
                &&& forall|q: (u64, u64)| #[trigger]
                    self.contents()[k].contains_key(q) ==> {
                        &&& valid_interval(q)
                        &&& self.contents()[k][q].len() > 0
                        &&& self.contents()[k][q].no_duplicates()
                    }
            } by {
                if k == c {
                    assert(self.contents()[k].dom().contains(r));
                    assert forall|q: (u64, u64)| #[trigger] self.contents()[k].contains_key(q) implies {
                        &&& valid_interval(q)
                        &&& self.contents()[k][q].len() > 0
                        &&& self.contents()[k][q].no_duplicates()
                    } by {
                        if q != r {
                            if !old(self).contents().contains_key(c) {
                                assert(!old_rows.dom().contains(q));
                            }
                        } else {
                            if old_leaf.contains(address) {
                            } else {
                                assert(new_leaf == old_leaf.push(address));
                                assert forall|x: int, y: int| 0 <= x < y < new_leaf.len() implies new_leaf[x] != new_leaf[y] by {
                                    if y == new_leaf.len() - 1 {
                                        assert(old_leaf.contains(old_leaf[x]) || x == y);
                                    }
                                }
                            }
                        }
                    }
                }
            }
        }
    }

    /// Unregisters `address` from `rectangle`.
    pub fn delete(&mut self, address: &CellAddress, rectangle: &CellRectangle)
        requires
            old(self).well_formed(),
        ensures
            final(self).well_formed(),
            forall|a: CellAddress, r: CellRectangle|
                #[trigger] final(self).holds(a, r) <==> (old(self).holds(a, r) && !(a == *address
                    && r == *rectangle)),
    {
        let (c0, c1) = col_range(rectangle);
        let (r0, r1) = row_range(rectangle);
        let ghost c = (c0, c1);
        let ghost r = (r0, r1);
        assert(ranges_of(*rectangle) == (c, r));
        match column_tree_remove(&mut self.by_column, c0, c1) {
            None => {
                assert(self.contents() =~= old(self).contents());
            },
            Some(mut row_tree) => {
                let ghost old_rows = row_tree_contents(row_tree);
                assert(old_rows == old(self).contents()[c]);
                let ghost mut new_rows = old_rows;
                match row_tree_remove(&mut row_tree, r0, r1) {
                    None => {
                        assert(row_tree_contents(row_tree) =~= old_rows);
                    },
                    Some(mut leaf) => {
                        let ghost old_leaf = leaf@;
                        vec_remove(&mut leaf, *address);
                        if leaf.len() > 0 {
                            let ghost l = leaf@;
                            row_tree_insert(&mut row_tree, r0, r1, leaf);
                            proof {
                                assert(old_rows.remove(r).insert(r, l) =~= old_rows.insert(r, l));
                                new_rows = old_rows.insert(r, l);
                            }
                        } else {
                            proof {
                                new_rows = old_rows.remove(r);
                                assert forall|y: CellAddress| old_leaf.contains(y) implies y == *address by {
                                    if y != *address {
                                        assert(leaf@.contains(y));
                                    }
                                }
                            }
                        }
                    },
                }
                assert(row_tree_contents(row_tree) == new_rows);
                if !row_tree_is_empty(&row_tree) {
                    column_tree_insert(&mut self.by_column, c0, c1, row_tree);
                    assert(old(self).contents().remove(c).insert(c, new_rows) =~= old(self).contents().insert(c, new_rows));
                } else {
                    assert(self.contents() == old(self).contents().remove(c));
                }
            },
        }
        proof {
            assert forall|a: CellAddress, s: CellRectangle|
                #[trigger] self.holds(a, s) <==> (old(self).holds(a, s) && !(a == *address
                    && s == *rectangle)) by {
                let (sc, sr) = ranges_of(s);
                if sc == c && sr == r {
                    assert(s == *rectangle);
                }
            }
            assert forall|k: (u64, u64)| #[trigger] self.contents().contains_key(k) implies {
                &&& valid_interval(k)
                &&& self.contents()[k].dom() != Set::<(u64, u64)>::empty()
                &&& forall|q: (u64, u64)| #[trigger]
                    self.contents()[k].contains_key(q) ==> {
                        &&& valid_interval(q)
                        &&& self.contents()[k][q].len() > 0
                        &&& self.contents()[k][q].no_duplicates()
                    }
            } by {
                assert(old(self).contents().contains_key(k));
            }
        }
    }

    /// Whether `address` is stored under the column interval `c` and row
    /// interval `r`, both overlapping the given query intervals.
    pub closed spec fn found(
        &self,
        address: CellAddress,
        c: (u64, u64),
        r: (u64, u64),
        query_c: (u64, u64),
        query_r: (u64, u64),
    ) -> bool {
        &&& self.contents().contains_key(c)
        &&& self.contents()[c].contains_key(r)
        &&& self.contents()[c][r].contains(address)
        &&& intervals_overlap(c, query_c)
        &&& intervals_overlap(r, query_r)
    }

    /// The addresses registered with some rectangle that overlaps
    /// `rectangle`; none occurs twice.
    pub fn query_overlapping(&self, rectangle: &CellRectangle) -> (result: Vec<CellAddress>)
        requires
            self.well_formed(),
            rectangle.well_formed(),
        ensures
            result@.no_duplicates(),
            forall|a: CellAddress| #[trigger]
                result@.contains(a) <==> self.registered_overlapping(*rectangle).contains(a),
    {
        let (c0, c1) = col_range(rectangle);
        let (r0, r1) = row_range(rectangle);
        let ghost qc = (c0, c1);
        let ghost qr = (r0, r1);
        let mut result: Vec<CellAddress> = Vec::new();
        assert forall|k: (u64, u64)| #[trigger] column_tree_contents(self.by_column).contains_key(k) implies k.0 < k.1 by {
            assert(self.contents().contains_key(k));
        }
        let columns = column_tree_overlaps(&self.by_column, c0, c1);
        let mut i: usize = 0;
        while i < columns.len()
            invariant
                i <= columns.len(),
                self.well_formed(),
                qc == (c0, c1),
                qr == (r0, r1),
                result@.no_duplicates(),
                forall|x: int|
                    0 <= x < columns@.len() ==> {
                        let (k, v) = #[trigger] columns@[x];
                        &&& self.contents().contains_key(k)
                        &&& self.contents()[k] == row_tree_contents(*v)
                        &&& intervals_overlap(k, (c0, c1))
                    },
                forall|a: CellAddress| #[trigger]
                    result@.contains(a) <==> exists|x: int, r: (u64, u64)|
                        0 <= x < i && #[trigger] self.found(a, columns@[x].0, r, qc, qr),
            decreases columns.len() - i,
        {
            let (ck, row_tree) = columns[i];
            assert(self.contents().contains_key(ck));
            assert forall|k: (u64, u64)| #[trigger] row_tree_contents(*row_tree).contains_key(k) implies k.0 < k.1 by {
                assert(self.contents()[ck].contains_key(k));
            }
            let leaves = row_tree_overlaps(row_tree, r0, r1);
            let ghost before = result@;
            add_leaves(&mut result, &leaves);
            proof {
                assert forall|a: CellAddress| #[trigger]
                    result@.contains(a) <==> exists|x: int, r: (u64, u64)|
                        0 <= x < i + 1 && #[trigger] self.found(a, columns@[x].0, r, qc, qr) by {
                    if result@.contains(a) {
                        if !before.contains(a) {
                            let y = choose|y: int| 0 <= y < leaves@.len() && (#[trigger] leaves@[y]).1@.contains(a);
                            assert(self.found(a, columns@[i as int].0, leaves@[y].0, qc, qr));
                        }
                    }
                    if exists|x: int, r: (u64, u64)|
                        0 <= x < i + 1 && #[trigger] self.found(a, columns@[x].0, r, qc, qr) {
                        let (x, r) = choose|x: int, r: (u64, u64)|
                            0 <= x < i + 1 && #[trigger] self.found(a, columns@[x].0, r, qc, qr);
                        if x == i {
                            assert(row_tree_contents(*row_tree).contains_key(r));
                            let y = choose|y: int| 0 <= y < leaves@.len() && (#[trigger] leaves@[y]).0 == r;
                            assert(leaves@[y].1@.contains(a));
                        }
                    }
                }
            }
            i += 1;
        }
        proof {
            assert forall|a: CellAddress| #[trigger]
                result@.contains(a) <==> self.registered_overlapping(*rectangle).contains(a) by {
                if result@.contains(a) {
                    let (x, r) = choose|x: int, r: (u64, u64)|
                        0 <= x < columns@.len() && #[trigger] self.found(a, columns@[x].0, r, qc, qr);
                    let c = columns@[x].0;
                    let s = rectangle_of_ranges(c, r);
                    assert(valid_interval(c));
                    assert(valid_interval(r));
                    assert(ranges_of(s) == (c, r));
                    assert(self.holds(a, s) && s.well_formed() && s.spec_overlaps(*rectangle));
                }
                if self.registered_overlapping(*rectangle).contains(a) {
                    let s = choose|s: CellRectangle| #[trigger]
                        self.holds(a, s) && s.well_formed() && s.spec_overlaps(*rectangle);
                    let (c, r) = ranges_of(s);
                    assert(self.found(a, c, r, qc, qr));
                    let x = choose|x: int| 0 <= x < columns@.len() && (#[trigger] columns@[x]).0 == c;
                    assert(self.found(a, columns@[x].0, r, qc, qr));
                }
            }
        }
        result
    }
}

/// Adds each address of each of `leaves` to `result`, once.
fn add_leaves(result: &mut Vec<CellAddress>, leaves: &Vec<((u64, u64), Vec<CellAddress>)>)
    requires
        old(result)@.no_duplicates(),
    ensures
        final(result)@.no_duplicates(),
        forall|a: CellAddress| #[trigger]
            final(result)@.contains(a) <==> (old(result)@.contains(a) || exists|y: int|
                0 <= y < leaves@.len() && (#[trigger] leaves@[y]).1@.contains(a)),
{
    let mut j: usize = 0;
    while j < leaves.len()
        invariant
            j <= leaves.len(),
            result@.no_duplicates(),
            forall|a: CellAddress| #[trigger]
                result@.contains(a) <==> (old(result)@.contains(a) || exists|y: int|
                    0 <= y < j && (#[trigger] leaves@[y]).1@.contains(a)),
        decreases leaves.len() - j,
    {
        let leaf = &leaves[j].1;
        let mut m: usize = 0;
        while m < leaf.len()
            invariant
                m <= leaf.len(),
                j < leaves.len(),
                *leaf == leaves@[j as int].1,
                result@.no_duplicates(),
                forall|a: CellAddress| #[trigger]
                    result@.contains(a) <==> (old(result)@.contains(a) || (exists|y: int|
                        0 <= y < j && (#[trigger] leaves@[y]).1@.contains(a)) || leaf@.take(
                        m as int,
                    ).contains(a)),
            decreases leaf.len() - m,
        {
            let ghost before = result@;
            let item = leaf[m];
            vec_insert(result, item);
            proof {
                assert(leaf@.take(m + 1) == leaf@.take(m as int).push(item));
                assert forall|a: CellAddress| #[trigger] result@.contains(a) <==> (before.contains(a) || a == item) by {
                    if !before.contains(item) {
                        assert(result@ == before.push(item));
                        if result@.contains(a) {
                            let k = choose|k: int| 0 <= k < result@.len() && result@[k] == a;
                            if k < before.len() {
                                assert(before[k] == a);
                            }
                        }
                        if before.contains(a) {
                            let k = choose|k: int| 0 <= k < before.len() && before[k] == a;
                            assert(result@[k] == a);
                        }
                        assert(result@[before.len() as int] == item);
                        assert forall|p: int, q: int| 0 <= p < q < result@.len() implies result@[p] != result@[q] by {
                            if q == before.len() {
                                assert(before.contains(result@[p]));
                            }
                        }
                    }
                }
                assert forall|a: CellAddress| leaf@.take(m + 1).contains(a) <==> (leaf@.take(m as int).contains(a) || a == item) by {
                    let p1 = leaf@.take(m as int);
                    let p2 = leaf@.take(m + 1);
                    if p2.contains(a) {
                        let k = choose|k: int| 0 <= k < p2.len() && p2[k] == a;
                        if k < m {
                            assert(p1[k] == a);
                        }
                    }
                    if p1.contains(a) {
                        let k = choose|k: int| 0 <= k < p1.len() && p1[k] == a;
                        assert(p2[k] == a);
                    }
                    if a == item {
                        assert(p2[m as int] == a);
                    }
                }
            }
            m += 1;
        }
        proof {
            assert(leaf@.take(leaf.len() as int) == leaf@);
            assert forall|a: CellAddress| #[trigger]
                result@.contains(a) <==> (old(result)@.contains(a) || exists|y: int|
                    0 <= y < j + 1 && (#[trigger] leaves@[y]).1@.contains(a)) by {
                if leaf@.contains(a) {
                    assert(leaves@[j as int].1@.contains(a));
                }
                if exists|y: int| 0 <= y < j + 1 && (#[trigger] leaves@[y]).1@.contains(a) {
                    let y = choose|y: int| 0 <= y < j + 1 && (#[trigger] leaves@[y]).1@.contains(a);
                    if y == j {
                        assert(leaf@.contains(a));
                    }
                }
            }
        }
        j += 1;
    }
}

} // verus!
