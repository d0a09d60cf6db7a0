use std::collections::HashMap;
use vstd::prelude::*;
use crate::address::{
    CellAddress, CellRectangle, address_key, key_of, lemma_address_key_injective,
};
use crate::rectangle_index::RectangleIndex;
use crate::parent_lookup_tree::lemma_overlaps_single_cell;

verus! {

broadcast use vstd::std_specs::hash::group_hash_axioms;

/// Whether a dynamic array's claim on its spill rectangle is in effect.
///
/// A claim is `Active` when the array's cell owns the cells of the rectangle;
/// it is `Blocked` when the rectangle is not free, and is kept so that the
/// array can be evaluated again once the rectangle frees up.
#[derive(Clone, Copy, PartialEq, Eq, Debug, Structural)]
pub enum ClaimStatus {
    Active,
    Blocked,
}

/// All spill claims of dynamic arrays, conflicting ones included, searchable
/// by owner and by position.
pub struct SpillOwnershipMap {
    by_owner: HashMap<u64, (CellRectangle, ClaimStatus)>,
    by_rectangle: RectangleIndex,
}

impl View for SpillOwnershipMap {
    /// For each owner, its claimed rectangle and the claim's status.
    type V = Map<CellAddress, (CellRectangle, ClaimStatus)>;

    closed spec fn view(&self) -> Map<CellAddress, (CellRectangle, ClaimStatus)> {
        Map::new(
            |a: CellAddress| self.by_owner@.contains_key(address_key(a)),
            |a: CellAddress| self.by_owner@[address_key(a)],
        )
    }
}

impl SpillOwnershipMap {
    /// The number of claims.
    pub closed spec fn claim_count(&self) -> nat {
        self.by_owner@.len()
    }

    /// The position index mirrors the claims, and every claimed rectangle is
    /// well formed.
    pub closed spec fn well_formed(&self) -> bool {
        &&& self.by_rectangle.well_formed()
        &&& forall|a: CellAddress, r: CellRectangle| #[trigger]
            self.by_rectangle.holds(a, r) <==> (self@.contains_key(a) && self@[a].0 == r)
        &&& forall|a: CellAddress| #[trigger] self@.contains_key(a) ==> self@[a].0.well_formed()
    }

    /// The empty map.
    pub fn new() -> (map: Self)
        ensures
            map.well_formed(),
            map@ == Map::<CellAddress, (CellRectangle, ClaimStatus)>::empty(),
    {
        let map = Self { by_owner: HashMap::new(), by_rectangle: RectangleIndex::new() };
        assert(map@ =~= Map::<CellAddress, (CellRectangle, ClaimStatus)>::empty());
        map
    }

    /// Records that `owner` claims `rectangle` with `status`, replacing any
    /// earlier claim of `owner`.
    pub fn insert(&mut self, owner: CellAddress, rectangle: CellRectangle, status: ClaimStatus)
        requires
            old(self).well_formed(),
            rectangle.well_formed(),
        ensures
            final(self).well_formed(),
            final(self)@ == old(self)@.insert(owner, (rectangle, status)),
    {
        self.remove(&owner);
        let ghost removed = self@;
        let key = key_of(owner);
        self.by_rectangle.insert(owner, &rectangle);
        self.by_owner.insert(key, (rectangle, status));
        proof {
            assert(self@ =~= removed.insert(owner, (rectangle, status))) by {
                assert forall|a: CellAddress| #[trigger] self@.contains_key(a) == removed.insert(owner, (rectangle, status)).contains_key(a) by {
                    lemma_address_key_injective(a, owner);
                }
                assert forall|a: CellAddress| #[trigger] self@.contains_key(a) implies self@[a] == removed.insert(owner, (rectangle, status))[a] by {
                    lemma_address_key_injective(a, owner);
                }
            }
            assert(old(self)@.remove(owner).insert(owner, (rectangle, status)) =~= old(self)@.insert(owner, (rectangle, status)));
        }
    }

    /// Forgets the claim of `owner`, if any.
    pub fn remove(&mut self, owner: &CellAddress)
        requires
            old(self).well_formed(),
        ensures
            final(self).well_formed(),
            final(self)@ == old(self)@.remove(*owner),
            final(self).claim_count() <= old(self).claim_count(),
            old(self)@.contains_key(*owner) ==> final(self).claim_count() < old(self).claim_count(),
    {
        proof {
            vstd::std_specs::hash::axiom_hashmap_view_finite_dom(self.by_owner);
        }
        let key = key_of(*owner);
        match self.by_owner.remove(&key) {
            None => {
                assert(self@ =~= old(self)@.remove(*owner)) by {
                    assert(!old(self)@.contains_key(*owner));
                }
            },
            Some((rectangle, _)) => {
                self.by_rectangle.delete(owner, &rectangle);
                proof {
                    assert(self@ =~= old(self)@.remove(*owner)) by {
                        assert forall|a: CellAddress| #[trigger] self@.contains_key(a) == old(self)@.remove(*owner).contains_key(a) by {
                            lemma_address_key_injective(a, *owner);
                        }
                    }
                }
            },
        }
    }

    /// Changes the status of the claim of `owner`, if it has one.
    pub fn set_status(&mut self, owner: &CellAddress, status: ClaimStatus)
        requires
            old(self).well_formed(),
        ensures
            final(self).well_formed(),
            old(self)@.contains_key(*owner) ==> final(self)@ == old(self)@.insert(
                *owner,
                (old(self)@[*owner].0, status),
            ),
            !old(self)@.contains_key(*owner) ==> final(self)@ == old(self)@,
    {
        match self.get_owned_rectangle(owner) {
            Some(rectangle) => self.insert(*owner, rectangle, status),
            None => {},
        }
    }

    /// The rectangle that `owner` claims, if any.
    pub fn get_owned_rectangle(&self, owner: &CellAddress) -> (result: Option<CellRectangle>)
        requires
            self.well_formed(),
        ensures
            match result {
                Some(r) => self@.contains_key(*owner) && self@[*owner].0 == r && r.well_formed(),
                None => !self@.contains_key(*owner),
            },
    {
        let key = key_of(*owner);
        match self.by_owner.get(&key) {
            Some(entry) => Some(entry.0),
            None => None,
        }
    }

    /// The status of the claim of `owner`, if it has one.
    pub fn get_claim_status(&self, owner: &CellAddress) -> (result: Option<ClaimStatus>)
        ensures
            match result {
                Some(s) => self@.contains_key(*owner) && self@[*owner].1 == s,
                None => !self@.contains_key(*owner),
            },
    {
        let key = key_of(*owner);
        match self.by_owner.get(&key) {
            Some(entry) => Some(entry.1),
            None => None,
        }
    }

    /// The owners whose claim overlaps `rectangle`, with their statuses, each
    /// once.
    pub fn get_claims_in_rectangle(&self, rectangle: &CellRectangle) -> (claims: Vec<
        (CellAddress, ClaimStatus),
    >)
        requires
            self.well_formed(),
            rectangle.well_formed(),
        ensures
            forall|i: int, j: int|
                0 <= i < j < claims@.len() ==> claims@[i].0 != claims@[j].0,
            forall|a: CellAddress, s: ClaimStatus| #[trigger]
                claims@.contains((a, s)) <==> (self@.contains_key(a) && self@[a].1 == s
                    && self@[a].0.spec_overlaps(*rectangle)),
    {
        let owners = self.by_rectangle.query_overlapping(rectangle);
        let mut claims: Vec<(CellAddress, ClaimStatus)> = Vec::new();
        let mut i: usize = 0;
        while i < owners.len()
            invariant
                i <= owners.len(),
                self.well_formed(),
                rectangle.well_formed(),
                owners@.no_duplicates(),
                forall|a: CellAddress| #[trigger]
                    owners@.contains(a) <==> self.by_rectangle.registered_overlapping(*rectangle).contains(a),
                claims@.len() == i,
                forall|x: int| 0 <= x < i ==> #[trigger] claims@[x] == (owners@[x], self@[owners@[x]].1),
            decreases owners.len() - i,
        {
            let owner = owners[i];
            proof {
                assert(owners@.contains(owner));
                self.lemma_registered(*rectangle, owner);
            }
            let status = match self.get_claim_status(&owner) {
                Some(s) => s,
                None => {
                    proof {
                        assert(false);
                    }
                    ClaimStatus::Blocked
                },
            };
            let ghost before = claims@;
            claims.push((owner, status));
            proof {
                assert forall|x: int| 0 <= x < i + 1 implies #[trigger] claims@[x] == (owners@[x],
                    self@[owners@[x]].1) by {
                    if x < i {
                        assert(claims@[x] == before[x]);
                    }
                }
            }
            i += 1;
        }
        proof {
            assert forall|a: CellAddress, s: ClaimStatus| #[trigger]
                claims@.contains((a, s)) <==> (self@.contains_key(a) && self@[a].1 == s
                    && self@[a].0.spec_overlaps(*rectangle)) by {
                self.lemma_registered(*rectangle, a);
                if claims@.contains((a, s)) {
                    let x = choose|x: int| 0 <= x < claims@.len() && claims@[x] == (a, s);
                    assert(claims@[x] == (owners@[x], self@[owners@[x]].1));
                    assert(owners@.contains(owners@[x]));
                }
                if self@.contains_key(a) && self@[a].1 == s && self@[a].0.spec_overlaps(*rectangle) {
                    assert(owners@.contains(a));
                    let x = choose|x: int| 0 <= x < owners@.len() && owners@[x] == a;
                    assert(claims@[x] == (owners@[x], self@[owners@[x]].1));
                    assert(claims@.contains(claims@[x]));
                }
            }
            assert forall|x: int, y: int|
                0 <= x < y < claims@.len() implies claims@[x].0 != claims@[y].0 by {
                assert(claims@[x] == (owners@[x], self@[owners@[x]].1));
                assert(claims@[y] == (owners@[y], self@[owners@[y]].1));
            }
        }
        claims
    }

    /// Under the index's consistency, an owner is registered with a rectangle
    /// overlapping `rectangle` exactly when its claim overlaps `rectangle`.
    proof fn lemma_registered(&self, rectangle: CellRectangle, a: CellAddress)
        requires
            self.well_formed(),
        ensures
            self.by_rectangle.registered_overlapping(rectangle).contains(a) <==> (
            self@.contains_key(a) && self@[a].0.spec_overlaps(rectangle)),
    {
        if self.by_rectangle.registered_overlapping(rectangle).contains(a) {
            let s = choose|s: CellRectangle| #[trigger]
                self.by_rectangle.holds(a, s) && s.well_formed() && s.spec_overlaps(rectangle);
            assert(self.by_rectangle.holds(a, s));
        }
        if self@.contains_key(a) && self@[a].0.spec_overlaps(rectangle) {
            assert(self.by_rectangle.holds(a, self@[a].0));
        }
    }

    /// The owners whose claim is blocked.
    pub fn blocked_owners(&self) -> (owners: Vec<CellAddress>)
        requires
            self.well_formed(),
        ensures
            forall|a: CellAddress| #[trigger]
                owners@.contains(a) <==> (self@.contains_key(a) && self@[a].1 == ClaimStatus::Blocked),
    {
        let everything = CellRectangle {
            upper_left: CellAddress { column: 0, row: 0 },
            lower_right: CellAddress { column: u32::MAX, row: u32::MAX },
        };
        let claims = self.get_claims_in_rectangle(&everything);
        let mut owners: Vec<CellAddress> = Vec::new();
        let mut i: usize = 0;
        while i < claims.len()
            invariant
                i <= claims.len(),
                forall|a: CellAddress| #[trigger]
                    owners@.contains(a) <==> claims@.take(i as int).contains((a, ClaimStatus::Blocked)),
            decreases claims.len() - i,
        {
            let (owner, status) = claims[i];
            let ghost before = owners@;
            proof {
                let p1 = claims@.take(i as int);
                let p2 = claims@.take(i + 1);
                assert(p2 == p1.push(claims@[i as int]));
                assert forall|a: CellAddress| p2.contains((a, ClaimStatus::Blocked)) <==> (p1.contains((a, ClaimStatus::Blocked)) || claims@[i as int] == (a, ClaimStatus::Blocked)) by {
                    if p2.contains((a, ClaimStatus::Blocked)) {
                        let k = choose|k: int| 0 <= k < p2.len() && p2[k] == (a, ClaimStatus::Blocked);
                        if k < i {
                            assert(p1[k] == (a, ClaimStatus::Blocked));
                        }
                    }
                    if p1.contains((a, ClaimStatus::Blocked)) {
                        let k = choose|k: int| 0 <= k < p1.len() && p1[k] == (a, ClaimStatus::Blocked);
                        assert(p2[k] == (a, ClaimStatus::Blocked));
                    }
                    if claims@[i as int] == (a, ClaimStatus::Blocked) {
                        assert(p2[i as int] == (a, ClaimStatus::Blocked));
                    }
                }
            }
            if status == ClaimStatus::Blocked {
                owners.push(owner);
                proof {
                    assert forall|a: CellAddress| #[trigger] owners@.contains(a) <==> (before.contains(a) || a == owner) by {
                        if owners@.contains(a) {
                            let k = choose|k: int| 0 <= k < owners@.len() && owners@[k] == a;
                            if k < before.len() {
                                assert(before[k] == a);
                            }
                        }
                        if before.contains(a) {
                            let k = choose|k: int| 0 <= k < before.len() && before[k] == a;
                            assert(owners@[k] == a);
                        }
                        if a == owner {
                            assert(owners@[before.len() as int] == a);
                        }
                    }
                }
            }
            i += 1;
        }
        proof {
            assert(claims@.take(claims@.len() as int) == claims@);
            assert forall|a: CellAddress| #[trigger]
                owners@.contains(a) <==> (self@.contains_key(a) && self@[a].1 == ClaimStatus::Blocked) by {
                if self@.contains_key(a) {
                    let r = self@[a].0;
                    assert(r.well_formed());
                    assert(r.spec_overlaps(everything));
                }
            }
        }
        owners
    }

    /// The owner of an active claim whose rectangle contains `cell`, if any.
    pub fn get_active_owner_for_cell(&self, cell: CellAddress) -> (owner: Option<CellAddress>)
        requires
            self.well_formed(),
        ensures
            match owner {
                Some(o) => self@.contains_key(o) && self@[o].1 == ClaimStatus::Active
                    && self@[o].0.spec_contains(cell),
                None => forall|o: CellAddress| #[trigger] self@.contains_key(o) ==> !(self@[o].1
                    == ClaimStatus::Active && self@[o].0.spec_contains(cell)),
            },
    {
        let point = CellRectangle::from_cell(cell);
        let claims = self.get_claims_in_rectangle(&point);
        let mut i: usize = 0;
        while i < claims.len()
            invariant
                i <= claims.len(),
                forall|a: CellAddress, s: ClaimStatus| #[trigger]
                    claims@.contains((a, s)) <==> (self@.contains_key(a) && self@[a].1 == s
                        && self@[a].0.spec_overlaps(point)),
                point.upper_left == cell,
                point.lower_right == cell,
                forall|x: int| 0 <= x < i ==> (#[trigger] claims@[x]).1 != ClaimStatus::Active,
            decreases claims.len() - i,
        {
            let (owner, status) = claims[i];
            if status == ClaimStatus::Active {
                proof {
                    assert(claims@[i as int] == (owner, status));
                    assert(claims@.contains((owner, status)));
                    lemma_overlaps_single_cell(self@[owner].0, cell);
                }
                return Some(owner);
            }
            i += 1;
        }
        proof {
            assert forall|o: CellAddress| #[trigger] self@.contains_key(o) implies !(self@[o].1
                == ClaimStatus::Active && self@[o].0.spec_contains(cell)) by {
                lemma_overlaps_single_cell(self@[o].0, cell);
                if self@[o].1 == ClaimStatus::Active && self@[o].0.spec_contains(cell) {
                    assert(claims@.contains((o, ClaimStatus::Active)));
                    let x = choose|x: int| 0 <= x < claims@.len() && claims@[x] == (o, ClaimStatus::Active);
                }
            }
        }
        None
    }
}

} // verus!
