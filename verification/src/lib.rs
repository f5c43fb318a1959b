//! A todo list kept in many `todo.md` files.
//!
//! The crate is the program's logic without its input and output: parsing and
//! editing task lines, one store per file, the tree of stores with its flat
//! task list, the visible list with its groups and directory rows, and the
//! fuzzy jump overlay with the panel that shows it.
pub mod bulk_laws;
pub mod date;
pub mod date_laws;
pub mod discover;
pub mod discover_laws;
pub mod draft;
pub mod filter;
pub mod filter_laws;
pub mod flat_laws;
pub mod jump;
pub mod jump_laws;
pub mod line;
pub mod line_laws;
pub mod order;
pub mod outcome;
pub mod panel;
pub mod panel_laws;
pub mod path;
pub mod positions;
pub mod search;
pub mod store;
pub mod store_laws;
pub mod text;
pub mod todo;
pub mod tree;
pub mod tree_laws;
pub mod types;
pub mod undo_laws;
pub mod visibility;
pub mod visibility_laws;

use vstd::prelude::*;

verus! {

} // verus!
