# spreadsheet_engine

The core of a spreadsheet, verified with Verus: cells hold formulas (literals,
cell references, area sums, conditionals, indirect references, random numbers
and dynamic-array sequences), and every edit re-evaluates exactly what it
affects, tracking dependencies with range-based indexes.

## Layout

- `src/address.rs`, `src/text.rs`: addresses, rectangles, and the text
  operations the parser needs.
- `src/formula.rs`: parsing of raw formulas into formula trees.
- `src/evaluation.rs`: evaluation of a formula on the values of the cells, and
  the relation `evaluates` that states what an evaluation may give.
- `src/evaluation_queue.rs`, `src/rectangle_index.rs`,
  `src/parent_lookup_tree.rs`, `src/spill_ownership_map.rs`, `src/cell_map.rs`:
  the lookup structures.
- `src/spreadsheet.rs`: edits and re-evaluation.
- `app/`: `f64` arithmetic for numbers and a spreadsheet that reports values
  with `f64` numbers.

## What is proved

- The structures stay consistent after every edit: children and parents agree,
  the lookup tree holds exactly the child rectangles, the children of a cell
  are exactly the cells inside its child rectangles, and the volatile cells are
  exactly those whose formula holds a random number.
- Every edit sets the formulas as asked.
- Values follow formulas (`Spreadsheet::lemma_values_follow_formulas`): a
  spill claim belongs to a cell with a formula and a value; a cell with a
  formula and a value (but one with a blocked claim or holding the error for a
  spill area beyond the edges) shows what its formula gives on the current
  values, reading exactly its child rectangles, whose cells all have values.
  Without a claim that is its value; with an active claim it is an array
  whose first element is its value and which spills over the claimed area.
- A formula that reads no cell gets its value by the edit that enters it.
- An evaluation that leaves a cell with a blocked spill claim creates and
  deletes no cell.
- Re-evaluation terminates: each step uses up part of the queue's bounded
  work, and resets recurse on a decreasing number of spill claims.
- Evaluation reaches every cell it can (`Spreadsheet::lemma_unvalued_cells_wait`):
  a cell with a formula and no value has a child without a value, or the
  evaluation queue refused it after adding it as often as its limit allows.
- Values are given children first (`Spreadsheet::values_in_order`), so the
  cells on a cycle of children have no value (`Spreadsheet::lemma_cycle_unvalued`),
  nor has any cell from which a chain of children leads to a cell without a
  value (`Spreadsheet::lemma_unvalued_below`).
