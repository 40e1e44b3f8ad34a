//! Edit distance between two symbol sequences, and one optimal global
//! alignment that explains it.
//!
//! The scoring scheme is fixed: aligning two equal symbols is free, aligning
//! two different symbols costs one, and leaving a symbol without a partner
//! costs two. [`EditMatrix`] holds the two sequences and the table of their
//! suffix costs. [`distance`] says what the table contains, [`trace`] which
//! alignment is read back from it, and [`text`] how input is read and how
//! alignment and table are written down.

pub mod scoring;
pub mod distance;
pub mod trace;
pub mod text;
pub mod matrix;

pub use matrix::{EditMatrix, MAX_LEN};
pub use scoring::{GAP_COST, MATCH_COST, MISMATCH_COST};
pub use trace::EditOp;
