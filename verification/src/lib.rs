//! Scans a themed-template project tree and reconciles which reusable
//! fragments and composable sections are referenced anywhere in the tree
//! against those that exist on disk, so that dead files can be reported
//! or deleted.
//!
//! The core is the extraction-and-cross-reference engine: `liquid` parses
//! one file's text for directive references and its metadata block, `refs`
//! merges every file's references into the global used sets and diffs them
//! against the on-disk inventories, and `cleanup` turns the result and the
//! selected mode into the exact deletion lists. `text` holds the shared
//! character-level utilities. Reading directories and files, decoding
//! page-template manifests, and deleting files are the caller's side
//! effects.

#![verifier::loop_isolation(false)]

pub mod cleanup;
pub mod liquid;
pub mod refs;
pub mod template;
pub mod text;
