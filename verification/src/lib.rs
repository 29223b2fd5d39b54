//! Finds clusters of near-duplicate line blocks across a set of text files.
//!
//! The engine has four parts: a bounded edit-distance comparator on single
//! lines, a pairwise scanner that grows seed matches into maximal equal-length
//! blocks, a merger that folds pairwise findings into equivalence classes, and
//! an aggregator that exposes the final clusters as a renderable report.

pub mod cli;
pub mod comp;
pub mod distance;
pub mod math;
pub mod merge;
pub mod props;
pub mod report;
pub mod threadpool;
pub mod types;

pub use distance::{levenshtein_distance, to_char_vec};
pub use math::{combinations, factorial};
