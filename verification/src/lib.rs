//! Column-addressed operations on terminal text: measuring, truncating and
//! slicing lines that mix Unicode text with escape sequences.
//!
//! A line is scanned into segments, escape sequences and grapheme clusters
//! (`ansi`, `segment`). On the segments work the operations: the visible
//! width (`width`), the truncator (`truncate`), the column slicer (`slice`)
//! and the segment extractor (`overlay`), which uses the SGR state tracker
//! (`tracker`). `text` offers them for text that comes as a string or as
//! bytes. Grapheme segmentation and display widths come from outside
//! (`unicode`).
//!
//! Beside the text engine stand the rules of three helpers of the host:
//! keyboard sequences (`keys`), file discovery (`glob`) and cancellation
//! (`task`).

pub mod ansi;
pub mod decimal;
pub mod glob;
pub mod glob_order;
pub mod keys;
pub mod overlay;
pub mod segment;
pub mod slice;
pub mod task;
pub mod text;
pub mod tracker;
pub mod tracker_laws;
pub mod truncate;
pub mod unicode;
pub mod utf8;
pub mod width;
pub mod width_laws;
