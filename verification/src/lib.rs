//! File-system helpers for the command line: collision-safe bulk renaming,
//! line-selective text substitution and directory trees with size totals.
//!
//! Paths are plain strings, compared character by character. Everything that
//! touches the disk is handed in by the caller, so that each rule of the
//! library is stated, and proved, over plain values:
//!
//! * [`file_sys`] resolves a path to one that collides with nothing, on disk
//!   or among the renames that are pending;
//! * [`rename`] decides what becomes of each file of a batch, previews the
//!   batch, and keeps the order of preview, question and renaming;
//! * [`sed`] reads line selections and edits the lines that are selected;
//! * [`tree`] arranges, sizes and draws a directory tree;
//! * [`cli`] and [`common`] style text for the terminal;
//! * [`pattern`] holds what is taken on trust from the `regex` crate;
//! * [`paths`] and [`text`] take paths and numbers apart.

pub mod text;
pub mod paths;
pub mod pattern;
pub mod file_sys;
pub mod cli;
pub mod common;
pub mod rename;
pub mod sed;
pub mod tree;
