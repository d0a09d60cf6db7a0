use vstd::prelude::*;
use crate::address::{CellAddress, CellRectangle};
use crate::rectangle_index::RectangleIndex;

verus! {

/// A reverse spatial index: for each cell with a formula of its own, the
/// rectangles its value depends on, searchable by the cells they cover.
pub struct ParentLookupTree {
    index: RectangleIndex,
}

/// A rectangle that overlaps the one-cell rectangle at `address` contains
/// `address`, and conversely.
pub proof fn lemma_overlaps_single_cell(r: CellRectangle, address: CellAddress)
    ensures
        r.spec_overlaps(CellRectangle { upper_left: address, lower_right: address })
            <==> r.spec_contains(address),
{
}

impl ParentLookupTree {
    /// Whether `parent` is registered with `child_rectangle`.
    pub closed spec fn links(&self, parent: CellAddress, child_rectangle: CellRectangle) -> bool {
        self.index.holds(parent, child_rectangle)
    }

    /// The internal consistency of the index.
    pub closed spec fn well_formed(&self) -> bool {
        self.index.well_formed()
    }

    /// The empty tree.
    pub fn new() -> (tree: Self)
        ensures
            tree.well_formed(),
            forall|p: CellAddress, r: CellRectangle| !tree.links(p, r),
    {
        Self { index: RectangleIndex::new() }
    }

    /// Registers `address` as depending on `child_rectangle`.
    pub fn insert(&mut self, address: CellAddress, child_rectangle: &CellRectangle)
        requires
            old(self).well_formed(),
            child_rectangle.well_formed(),
        ensures
            final(self).well_formed(),
            forall|p: CellAddress, r: CellRectangle|
                #[trigger] final(self).links(p, r) <==> (old(self).links(p, r) || (p == address && r
                    == *child_rectangle)),
    {
        self.index.insert(address, child_rectangle);
    }

    /// Unregisters `address` from `child_rectangle`.
    pub fn delete(&mut self, address: &CellAddress, child_rectangle: &CellRectangle)
        requires
            old(self).well_formed(),
        ensures
            final(self).well_formed(),
            forall|p: CellAddress, r: CellRectangle|
                #[trigger] final(self).links(p, r) <==> (old(self).links(p, r) && !(p == *address
                    && r == *child_rectangle)),
    {
        self.index.delete(address, child_rectangle);
    }

    /// The cells registered with some rectangle that contains `address`,
    /// each once.
    pub fn get_all_parents(&self, address: CellAddress) -> (parents: Vec<CellAddress>)
        requires
            self.well_formed(),
        ensures
            parents@.no_duplicates(),
            forall|p: CellAddress| #[trigger]
                parents@.contains(p) <==> exists|r: CellRectangle| #[trigger]
                    self.links(p, r) && r.well_formed() && r.spec_contains(address),
    {
        let point = CellRectangle::from_cell(address);
        let parents = self.index.query_overlapping(&point);
        proof {
            assert forall|p: CellAddress| #[trigger]
                parents@.contains(p) <==> exists|r: CellRectangle| #[trigger]
                    self.links(p, r) && r.well_formed() && r.spec_contains(address) by {
                if parents@.contains(p) {
                    assert(self.index.registered_overlapping(point).contains(p));
                    let s = choose|s: CellRectangle| #[trigger]
                        self.index.holds(p, s) && s.well_formed() && s.spec_overlaps(point);
                    lemma_overlaps_single_cell(s, address);
                    assert(self.links(p, s));
                }
                if exists|r: CellRectangle| #[trigger]
                    self.links(p, r) && r.well_formed() && r.spec_contains(address) {
                    let s = choose|r: CellRectangle| #[trigger]
                        self.links(p, r) && r.well_formed() && r.spec_contains(address);
                    lemma_overlaps_single_cell(s, address);
                    assert(self.index.holds(p, s) && s.well_formed() && s.spec_overlaps(point));
                    assert(self.index.registered_overlapping(point).contains(p));
                }
            }
        }
        parents
    }
}

} // verus!
