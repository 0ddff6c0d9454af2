//! A scalar reverse-mode differentiation engine kept in an arena.
//!
//! Nodes live in a `Graph` and are named by their index. Every node records
//! the nodes it was computed from; those always have smaller indices, so the
//! graph is acyclic by construction and the reverse traversal terminates.

pub mod graph;
pub mod network;
pub mod paths;
