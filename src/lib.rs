//! Classic algorithm exercises with machine-checked contracts: a
//! left-leaning red-black search tree and a point set built on it, deques
//! and queues, union-find with a percolation grid, and N-puzzle boards.

pub mod key_order;
pub mod redblacktree;
pub mod point;
pub mod rect;
pub mod pointset;
pub mod deque;
pub mod linkedlist;
pub mod randomizedqueue;
pub mod board;
pub mod conversions;
pub mod unionfind;
pub mod percolation;
mod random;
pub mod chain;
