//! Distributes the files of a directory evenly over a fixed number of
//! subfolders, and can do so again on its own earlier output.
//!
//! The library decides and the caller acts: it builds the searches, merges
//! what they found, plans every move, draws the preview of a dry run, and
//! leads a real run step by step through a state machine whose requests the
//! caller carries out on the disk.

pub mod buckets;
pub mod collect;
pub mod error;
pub mod naming;
pub mod paths;
pub mod plan;
pub mod preview;
pub mod relocate;
pub mod text;
pub mod walk;

pub use buckets::partition;
pub use collect::{check_base, is_redo_folder, merge_collected, resolved_path};
pub use error::{ErrorKind, RefolderError};
pub use naming::{folder_name, format_folder_name, parse_suffix_style, SuffixStyle};
pub use plan::{all_moves, plan_run, BucketPlan, PlannedMove};
pub use preview::{group_moves, layout_preview, render_dry_run_preview, FolderGroup};
pub use relocate::{Phase, Relocation, Reply, Request};
pub use walk::{primary_walker, redo_walker, walker_or_error};
