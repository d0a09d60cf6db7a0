//! A spreadsheet engine: cells hold formulas, formulas are parsed into an
//! abstract syntax tree, and values are recomputed along a dependency graph.
pub mod address;
pub mod evaluation_queue;
pub mod text;
pub mod formula;
pub mod value_types;
pub mod cell;
pub mod cell_map;
pub mod rectangle_index;
pub mod parent_lookup_tree;
pub mod spill_ownership_map;
pub mod evaluation;
pub mod spreadsheet;

pub use address::CellAddress;
pub use spreadsheet::Spreadsheet;
pub use value_types::{EvaluatedValue, Value};
