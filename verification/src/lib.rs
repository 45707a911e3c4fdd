//! Comparing two directory trees.
//!
//! A tree is walked into an inventory, one record per regular file
//! (`scanner`, `file`, `path`). Two inventories make a store (`filestore`),
//! and a comparison labels every record of both: unchanged, added, removed
//! or modified (`compare`). What a store shows of itself is in `report`.
//!
//! The library reads no file and lists no directory. Its caller does, when
//! a walk or a comparison asks for it, and hands back what it got.
//!
//! What is proved of comparisons as a whole is in `laws`, and what is proved
//! of walks in `tree`.

pub mod compare;
pub mod file;
pub mod filestore;
pub mod laws;
pub mod path;
pub mod report;
pub mod scanner;
pub mod tree;
