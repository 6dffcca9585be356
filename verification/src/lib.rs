//! Incremental index over a line-delimited structured session log.
//!
//! The index maps record identifiers to byte positions, tracks which files
//! were touched by tool invocations and how, and supports walking a
//! parent-link chain from a file edit back to the human turn that caused it.
//! It is built once by a full pass and then extended incrementally as the
//! log grows, falling back to a full rebuild when the log shrank.

pub mod builder;
pub mod jsonio;
pub mod jsontree;
pub mod laws;
pub mod model;
pub mod pass;
pub mod queries;
pub mod record;
pub mod scan;
pub mod strmap;
pub mod strutil;
pub mod types;
pub mod updater;

pub use builder::{build_session_index, finalize_file_edits};
pub use queries::{get_edit_context, EditContext};
pub use strutil::make_relative_path;
pub use types::{EditMetadata, FileEdit, FileEditType, IndexError, IndexStatus, SessionIndex};
pub use updater::{apply_incremental_update, merge_new_file_edits, rebuild_index, update_decision,
    UpdateResult};
