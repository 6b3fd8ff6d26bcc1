//! Client-side, incrementally populated mirror of a hierarchical store made of
//! nested binary trees, with the bookkeeping that keeps partial fetch results
//! consistent.

pub mod display;
pub mod fetch;
pub mod key_set;
pub mod keys;
pub mod layout;
pub mod proto;
pub mod sorted_map;
pub mod subtree;
pub mod subtree_laws;
pub mod tree;
pub mod tree_laws;
pub mod trees;
