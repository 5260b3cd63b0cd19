//! Concurrent traversal engine for a directed acyclic graph with shared
//! substructure.
//!
//! The graph is an arena of nodes (`graph::Maze`); every branch carries a
//! three-state exploration status (`explore::Exploration`).  One atomic step
//! of the per-node state machine is `Maze::explore`; `traversal` drives the
//! step to completion sequentially, and `concurrent` drives it as a model of
//! any number of workers interleaved by an explicit schedule.  `confluence`
//! proves that every interleaving records the same labels the same number of
//! times, so the multi-worker trace is the sequential trace up to order.

pub mod concurrent;
pub mod confluence;
pub mod explore;
pub mod graph;
pub mod measure;
pub mod reach;
pub mod traversal;
