//! A small directed graph engine: named vertices, directed edges stored as
//! indices into one owning collection, and cycle-safe depth-first and
//! breadth-first traversal.

pub mod arena;
pub mod name;
pub mod model;
pub mod traversal;
pub mod preorder;
pub mod reach;
pub mod graph;
pub mod sample;
