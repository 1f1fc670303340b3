//! The tree, its messages and its store.

pub mod message;
pub mod store;
pub mod tree;
