//! A directed graph container under three storage strategies: a central
//! index table with integer handles (`AdjListGraph`), an insertion-only
//! bulk-allocated graph (`ArenaGraph`), and a shared-ownership graph whose
//! adjacency is a relation over stable identities (`RcGraph`).
//!
//! All variants keep the same bookkeeping invariant: every edge identifier
//! held in a node's adjacency lists refers to a live edge whose endpoint
//! fields match the list's role, and every live edge is listed by both of
//! its endpoints.

pub mod adjlistgraph;
pub mod arenagraph;
pub mod graph;
pub mod loader;
pub mod rcgraph;
