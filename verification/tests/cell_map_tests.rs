use spreadsheet_engine::cell::{Cell, Kind};
use spreadsheet_engine::cell_map::CellMap;
use spreadsheet_engine::value_types::SingleCellValue;
use spreadsheet_engine::CellAddress;

fn spill_over(value: bool) -> Cell {
    Cell { kind: Kind::Dependent, value: Some(SingleCellValue::Boolean(value)), parents: Vec::new() }
}

#[test]
fn get_mut_changes_the_stored_cell() {
    let mut map = CellMap::new();
    let a = CellAddress::new(3, 4);
    map.insert(a, spill_over(false));
    match map.get_mut(&a) {
        Some(cell) => cell.value = Some(SingleCellValue::Boolean(true)),
        None => panic!("cell expected"),
    }
    assert_eq!(map.get(&a).unwrap().value, Some(SingleCellValue::Boolean(true)));
    assert!(map.get_mut(&CellAddress::new(3, 5)).is_none());
    assert!(map.get_mut(&CellAddress::new(2, 4)).is_none());
}
