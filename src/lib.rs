//! Addressing and traversal of span trees: trees laid over a parsed expression in
//! which every node covers a contiguous span of source text and has a role.

pub mod controller;
pub mod crumbs;
pub mod iter;
pub mod node;
