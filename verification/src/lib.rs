//! A hierarchy compiler: resolves a declarative schema of single-inheritance
//! type definitions into a runtime encoding with checked, constant-time
//! downcasts and cost-free upcasts.
//!
//! The pipeline runs in stages over one in-memory graph:
//! schema declarations -> linked graph (`graph`) -> acyclicity check
//! (`cycle`) -> discriminant and descendant-set resolution (`resolve`) ->
//! runtime model with upcast/downcast semantics (`model`).

pub mod cycle;
pub mod model;
pub mod graph;
pub mod resolve;
pub mod schema;
