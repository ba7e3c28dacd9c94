//! A B-tree of ordered keys, kept in memory: insertion, deletion, membership
//! and traversal in order, each with a proof that the tree stays balanced
//! and sorted and holds exactly the keys it should.

pub mod order;
pub mod sorted;
pub mod inorder;
pub mod node;
pub mod insert;
pub mod rebalance;
pub mod delete;
pub mod tree;
pub mod laws;

pub use crate::node::Node;
pub use crate::tree::BTree;
