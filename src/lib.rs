//! Path-segmented size aggregation: a tree of directories and files built
//! from slash-delimited paths, with memoized per-directory sizes and an
//! exact-key index from full path to value.
//!
//! Memo invalidation is local: inserting a child under a directory marks
//! that directory's memo invalid and no other, so an ancestor whose size
//! was already memoized keeps returning it. Sizes are exact as long as no
//! insertion goes below a directory after its size was queried; the laws
//! in `laws` state both sides of this.
use vstd::prelude::*;

pub mod node;
pub mod path;
pub mod trie;
pub mod laws;
pub mod bounds;
pub mod render;
pub mod listing;

verus! {

} // verus!
