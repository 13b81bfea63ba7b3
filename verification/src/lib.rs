//! A library that builds a labeled, possibly cyclic category graph from
//! parsed wiki documents and compiles it, through a cycle-safe post-order
//! traversal, into a tree of content-addressed objects in a git repository.

pub mod bits;
pub mod chars;
pub mod cites;
pub mod compile;
pub mod extract;
pub mod graph;
pub mod normalize;
pub mod store;
pub mod text;
pub mod walker;
