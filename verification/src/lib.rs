//! A single-user terminal task manager library: tasks with optional
//! descriptions, importance ranks and due dates, collected in an ordered
//! store that supports sorting, filtering, focus-based addressing,
//! command dispatch and a plain-text persistence format.

pub mod commands;
pub mod date;
pub mod json;
pub mod sort;
pub mod store;
pub mod task;
pub mod text;

use vstd::prelude::*;

verus! {

/// The highest admissible importance rank; ranks run from 0 to this value.
pub const IMPORTANCE_MAX: u8 = 3;

/// The default path of the backing file.
pub const SAVE_FILE_PATH: &'static str = "saved_stuff.json";

} // verus!
