//! Lowering of a small awk-like statement language into a control-flow graph of
//! primitive three-address statements, and a depth-first numbering of that graph
//! as the first phase of dominator-tree construction.

pub mod ops;
pub mod prim;
pub mod graph;
pub mod ast1;
pub mod model;
pub mod lemmas;
pub mod ast2;
pub mod domtree;
pub mod reach;
pub mod exits;
pub mod laws;
