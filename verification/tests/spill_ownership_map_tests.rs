use spreadsheet_engine::address::{CellAddress, CellRectangle};
use spreadsheet_engine::spill_ownership_map::ClaimStatus::{Active, Blocked};
use spreadsheet_engine::spill_ownership_map::SpillOwnershipMap;

fn adr(column: u32, row: u32) -> CellAddress {
    CellAddress::new(column, row)
}

fn rect(c1: u32, r1: u32, c2: u32, r2: u32) -> CellRectangle {
    CellRectangle::new(adr(c1, r1), adr(c2, r2)).unwrap()
}

#[test]
fn insert_and_forward_lookup() {
    let mut map = SpillOwnershipMap::new();
    map.insert(adr(0, 0), rect(0, 1, 0, 3), Active);

    assert_eq!(map.get_owned_rectangle(&adr(0, 0)), Some(rect(0, 1, 0, 3)));
    assert_eq!(map.get_claim_status(&adr(0, 0)), Some(Active));
    assert_eq!(map.get_owned_rectangle(&adr(1, 0)), None);
    assert_eq!(map.get_claim_status(&adr(1, 0)), None);
}

#[test]
fn remove_clears_both_lookups() {
    let mut map = SpillOwnershipMap::new();
    map.insert(adr(0, 0), rect(0, 1, 0, 3), Active);
    map.remove(&adr(0, 0));

    assert_eq!(map.get_owned_rectangle(&adr(0, 0)), None);
    assert!(map.get_claims_in_rectangle(&rect(0, 1, 0, 3)).is_empty());
}

#[test]
fn remove_nonexistent_is_a_no_op() {
    let mut map = SpillOwnershipMap::new();
    map.remove(&adr(5, 5));
}

#[test]
fn set_status_updates_both_lookups() {
    let mut map = SpillOwnershipMap::new();
    map.insert(adr(0, 0), rect(0, 1, 0, 3), Active);
    map.set_status(&adr(0, 0), Blocked);

    assert_eq!(map.get_claim_status(&adr(0, 0)), Some(Blocked));

    let claims = map.get_claims_in_rectangle(&rect(0, 1, 0, 3));
    assert_eq!(claims, vec![(adr(0, 0), Blocked)]);
}

#[test]
fn two_claimants_same_rectangle() {
    let mut map = SpillOwnershipMap::new();
    map.insert(adr(0, 0), rect(0, 1, 0, 3), Active);
    map.insert(adr(1, 0), rect(0, 1, 0, 3), Blocked);

    let claims = map.get_claims_in_rectangle(&rect(0, 1, 0, 3));
    assert_eq!(claims.len(), 2);
    assert!(claims.contains(&(adr(0, 0), Active)));
    assert!(claims.contains(&(adr(1, 0), Blocked)));
}

#[test]
fn two_claimants_overlapping_rectangles() {
    let mut map = SpillOwnershipMap::new();
    map.insert(adr(0, 0), rect(0, 0, 0, 3), Active);
    map.insert(adr(1, 0), rect(0, 2, 0, 5), Blocked);

    let claims = map.get_claims_in_rectangle(&rect(0, 0, 0, 5));
    assert_eq!(claims.len(), 2);
    assert!(claims.contains(&(adr(0, 0), Active)));
    assert!(claims.contains(&(adr(1, 0), Blocked)));
}

#[test]
fn removing_active_leaves_blocked_findable() {
    let mut map = SpillOwnershipMap::new();
    map.insert(adr(0, 0), rect(0, 1, 0, 3), Active);
    map.insert(adr(1, 0), rect(0, 1, 0, 3), Blocked);
    map.remove(&adr(0, 0));

    let claims = map.get_claims_in_rectangle(&rect(0, 1, 0, 3));
    assert_eq!(claims, vec![(adr(1, 0), Blocked)]);
}

#[test]
fn reverse_lookup_returns_overlapping_claims() {
    let mut map = SpillOwnershipMap::new();
    map.insert(adr(0, 0), rect(0, 1, 0, 3), Active);
    map.insert(adr(1, 0), rect(1, 1, 1, 3), Active);

    let claims = map.get_claims_in_rectangle(&rect(0, 1, 1, 3));
    assert_eq!(claims.len(), 2);
    assert!(claims.contains(&(adr(0, 0), Active)));
    assert!(claims.contains(&(adr(1, 0), Active)));
}

#[test]
fn reverse_lookup_partial_overlap() {
    let mut map = SpillOwnershipMap::new();
    map.insert(adr(0, 0), rect(0, 0, 2, 2), Active);
    map.insert(adr(1, 0), rect(3, 3, 5, 5), Active);

    let claims = map.get_claims_in_rectangle(&rect(0, 0, 2, 2));
    assert_eq!(claims, vec![(adr(0, 0), Active)]);
}

#[test]
fn reverse_lookup_empty_when_no_overlap() {
    let mut map = SpillOwnershipMap::new();
    map.insert(adr(0, 0), rect(0, 0, 1, 1), Active);

    assert!(map.get_claims_in_rectangle(&rect(5, 5, 6, 6)).is_empty());
}

#[test]
fn multiple_owners_same_column_different_rows() {
    let mut map = SpillOwnershipMap::new();
    map.insert(adr(0, 0), rect(0, 0, 0, 2), Active);
    map.insert(adr(0, 3), rect(0, 3, 0, 5), Active);

    assert_eq!(map.get_claims_in_rectangle(&rect(0, 0, 0, 2)), vec![(adr(0, 0), Active)]);
    assert_eq!(map.get_claims_in_rectangle(&rect(0, 3, 0, 5)), vec![(adr(0, 3), Active)]);

    let all = map.get_claims_in_rectangle(&rect(0, 0, 0, 5));
    assert_eq!(all.len(), 2);
    assert!(all.contains(&(adr(0, 0), Active)));
    assert!(all.contains(&(adr(0, 3), Active)));
}

#[test]
fn reinserting_an_owner_replaces_its_claim() {
    let mut map = SpillOwnershipMap::new();
    map.insert(adr(0, 0), rect(0, 0, 0, 2), Active);
    map.insert(adr(0, 0), rect(4, 4, 5, 5), Blocked);

    assert_eq!(map.get_owned_rectangle(&adr(0, 0)), Some(rect(4, 4, 5, 5)));
    assert!(map.get_claims_in_rectangle(&rect(0, 0, 0, 2)).is_empty());
    assert_eq!(map.get_claims_in_rectangle(&rect(5, 5, 5, 5)), vec![(adr(0, 0), Blocked)]);
}

#[test]
fn blocked_owners_lists_only_blocked_claims() {
    let mut map = SpillOwnershipMap::new();
    map.insert(adr(0, 0), rect(0, 0, 0, 2), Active);
    map.insert(adr(1, 0), rect(0, 0, 0, 2), Blocked);
    map.insert(adr(7, 7), rect(7, 7, 8, 8), Blocked);

    let blocked = map.blocked_owners();
    assert_eq!(blocked.len(), 2);
    assert!(blocked.contains(&adr(1, 0)));
    assert!(blocked.contains(&adr(7, 7)));
}

#[test]
fn active_owner_for_cell_is_found() {
    let mut map = SpillOwnershipMap::new();
    map.insert(adr(0, 0), rect(0, 0, 0, 2), Active);
    map.insert(adr(1, 0), rect(0, 0, 0, 2), Blocked);

    assert_eq!(map.get_active_owner_for_cell(adr(0, 1)), Some(adr(0, 0)));
    assert_eq!(map.get_active_owner_for_cell(adr(0, 3)), None);
    map.set_status(&adr(0, 0), Blocked);
    assert_eq!(map.get_active_owner_for_cell(adr(0, 1)), None);
}
