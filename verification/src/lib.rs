//! A mutable, keyed tree with a primary index from keys to nodes, a secondary
//! index from tags to keys, traversals depth first and breadth first, and a
//! query for the way from one node down to another.
pub mod forest;
pub mod laws;
pub mod node;
pub mod order;
pub mod paths;
pub mod tags;
pub mod traversal;
pub mod tree;

pub use node::Node;
pub use traversal::{BreadthFirstIterator, DepthFirstIterator, ShortestPathIterator};
pub use tree::{MultiIndexedTree, TreeError};
