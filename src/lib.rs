//! Organizes a Google Photos Takeout export: recovers capture dates from
//! sidecars, EXIF and filenames, removes duplicate content, and assigns
//! each photo a collision-free place in a dated folder tree, with progress
//! that survives interruption.
use vstd::prelude::*;

pub mod albums;
pub mod checkpoint;
pub mod date;
pub mod extras;
pub mod folder_classify;
pub mod guess;
pub mod media;
pub mod naming;
pub mod pathset;
pub mod pipeline;
pub mod sidecar;
pub mod text;
pub mod writer;
pub mod zip_scan;

pub use checkpoint::{CancellationToken, CancelledError, Checkpoint, CheckpointSaver, ProcessOptions, CHECKPOINT_FILENAME};
pub use pipeline::{ProcessControl, ProcessResult, Progress, ThrottledProgress};

verus! {

} // verus!
