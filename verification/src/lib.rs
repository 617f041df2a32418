//! A B+ tree whose nodes live in numbered pages.
pub mod balance;
pub mod check;
pub mod cursor;
pub mod descend;
pub mod error;
pub mod key;
pub mod laws;
pub mod node;
pub mod order;
pub mod pager;
pub mod parts;
pub mod rebalance;
pub mod scan;
pub mod shape;
pub mod split;
pub mod tree;
