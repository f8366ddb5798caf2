//! A library for finding groups of byte-identical regular files.
//!
//! The pipeline sharpens an equivalence relation on files in three stages:
//! size equivalence (`sizes`), sparse-hash equivalence (`sample` and
//! `hashes`), and exact content equivalence (`compare`). Hardlinked paths
//! are dropped early by the inode filter (`filter`), and reported groups
//! are tallied by `report`.

pub mod compare;
pub mod filter;
pub mod hashes;
pub mod report;
pub mod sample;
pub mod sizes;
