//! Editing mechanics shared by text-bearing behavior systems.

pub mod selection;

pub use selection::{CursorId, CursorSelection, Selections};
