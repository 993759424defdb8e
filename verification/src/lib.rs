//! Core logic of a directory-to-document extractor: bounded directory-tree
//! scanning with an ignore list and escape protection, single-flight document
//! generation with an encoding fallback, and capped selection history.
//!
//! All filesystem access lives outside this crate; the functions here work on
//! plain values (snapshots of directory listings, file bytes, names) and are
//! verified against their contracts.

use vstd::prelude::*;

pub mod scan;
pub mod text;
pub mod content;
pub mod document;
pub mod history;

verus! {

/// Hooks the application into the host platform's notification registry.
/// The portable build has no such registry, so nothing is registered.
pub fn register_app_for_notifications() {
}

} // verus!
