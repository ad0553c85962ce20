//! Metadata-listing core of a multi-disk object store.
//!
//! The library discovers which object keys exist under a prefix by walking
//! each disk's directory tree, streams the discovered entries through a
//! framed byte transport, and reconciles the per-disk views into a single
//! quorum-validated, name-ordered stream of events.

pub mod codec;
pub mod entry;
pub mod list;
pub mod merge;
pub mod order;
pub mod stats;
pub mod stream;
pub mod tree;
pub mod walker;
