//! An ordered binary search tree with borrowing, mutable and consuming
//! in-order iterators, a small integer-and-boolean stack calculator, and a
//! few list helpers.

pub mod first;
pub mod list_ops;
pub mod order;
pub mod parser;
pub mod rpn;
pub mod second;
