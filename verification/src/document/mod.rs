//! Editing contracts for mixed readonly and editable documents.
//!
//! The document module owns text interaction and source coordinates. Product
//! concepts are represented by consumer-provided node and region identifiers.

pub mod position;
pub mod transaction;
pub mod region;
pub mod projection;
pub mod mapping;
pub mod projection_map;
pub mod anchored_block;
pub mod block;
pub mod style;
pub mod resolve;
pub mod validate;
pub mod anchors;
pub mod undo;
pub mod model_view;
pub mod outcome;
pub mod messages;
pub mod model_lemmas;
pub mod model;
pub mod model_edit;
pub mod layout;
pub mod event;
pub mod state_view;
pub mod state;
pub mod edit_lemmas;
pub mod state_edit;
pub mod state_undo;
pub mod merge_laws;
pub mod undo_laws;
pub mod replay_laws;
pub mod style_laws;
pub mod state_laws;
pub mod state_host;
pub mod state_move;
pub mod state_keys;
pub mod state_input;
pub mod state_paint;
pub mod measure;
pub mod splice_view;
pub mod splice_lemmas;
pub mod splice;
pub mod laws;
pub mod edit_laws;
pub mod place_laws;
pub mod presentation_laws;
pub mod row_laws;
pub mod view_laws;
pub mod host_laws;
pub mod seam_lemmas;
pub mod row_parts;
pub mod style_parts;
pub mod row_moves;
pub mod fragment_parts;
pub mod fragment_moves;
pub mod fragment_rows;
pub mod splice_row_laws;
pub mod splice_part_laws;
pub mod replace_laws;
pub mod key_laws;
pub mod move_laws;
pub mod view_row_laws;
pub mod order_laws;
pub mod paint_laws;
pub mod resolve_laws;
pub mod policy_laws;
pub mod input_laws;

pub use anchored_block::{AnchoredBlock, AnchoredBlockError};
pub use block::{validate_blocks, BlockError, DocumentBlock};
pub use event::{
    DocumentEffect, DocumentEvent, DocumentSnapshot, DocumentTextContext, RoutedEdit,
};
pub use layout::{DocumentLayoutItem, DocumentTextPresentation};
pub use model::DocumentModel;
pub use outcome::{
    DocumentEditRejection, HostTransactionError, PresentationError, RoutingOutcome, ScrollPinError,
};
pub use position::{
    transform_offset, Affinity, AnchorBias, DocumentAnchor, DocumentPosition, DocumentRevision,
    DocumentSelection, PositionError,
};
pub use projection::{DocumentProjection, ProjectionError, ProjectionMapping, ProjectionSpan};
pub use projection_map::ProjectionMap;
pub use region::{DocumentRegion, DocumentRegions, EditPolicy, RegionError};
pub use state::DocumentState;
pub use measure::{
    adjacent_row, block_at_offset, closest_caret_index, nearest_row, CaretMeasure, CaretStep,
    CaretStop, PinMeasure, PinStep, PointerHit, RowDistance,
};
pub use state_paint::InputBounds;
pub use style::{
    DocumentInlineStyle, DocumentParagraphStyle, DocumentStyleError, DocumentStyles, FontFamily,
    HighlightStyle, TextStyleRefinement,
};
pub use transaction::{EditDecision, EditOrigin, EditTransaction, TextEdit, TransactionError};
pub use undo::{DocumentUndoManager, UndoChange, UndoRecord};
