//! Left-leaning 2-3 red-black trees whose elements are caller-allocated
//! nodes: the tree links the nodes it is given, never allocates one, and
//! hands each node back when it is removed.

pub mod laws;
pub mod red_black;

pub use red_black::{Node, Tree};
