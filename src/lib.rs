//! Allocation-free string interning.
//!
//! A [`Graph`] is an immutable array of [`Node`]s that maps byte keys to
//! values: evaluation cuts the input into chunks whose width each node fixes,
//! and follows, for each chunk, the node's edge with that chunk, until the
//! input is too short for the next chunk. [`Graph::process`] is proved to
//! return exactly the output of that walk.
//!
//! [`builder::Builder`] collects keys and values in a prefix tree and flattens
//! it into such a graph. Its `add` states exactly when a key is empty, invalid
//! or a duplicate, what it adds otherwise, and that a failed add changes
//! nothing. Its `build` states the layout of the node array it fills (trap
//! node first, root last, edges leading backwards by chunks of each node's
//! width), that the graph yields a value only for an input with a prefix
//! that is a key, that an input running past a key no other key extends
//! yields nothing, and that each exact key (any ASCII-only key; ASCII text;
//! and, ignoring case, such keys in lowercase) yields its own value.
//!
//! Keys are [`Segmentable`]: byte slices, text, and the [`CaseInsensitive`]
//! wrapper that compares ASCII letters without regard to case.
pub mod builder;
mod flatten;
pub mod graph;
pub mod segment;
mod trie;

pub use graph::{Graph, Node};
pub use segment::{CaseInsensitive, Segmentable};
