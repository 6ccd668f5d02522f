//! Editing of documents that mix readonly, routed and editable text.

pub mod actions;
pub mod document;
pub mod editing;
pub mod identity;
pub mod order;
pub mod scan;
pub mod sidebar;
pub mod text;
pub mod words;
