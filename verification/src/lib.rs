//! Core pieces of a deferred-execution tensor engine.
//!
//! - [`symbolic`]: sizes that depend on named dimensions.
//! - [`shape`]: the shape tracker, a stack of strided views through which
//!   reshapes, permutes, expands, slices and pads resolve to offsets.
//! - [`op`]: what the graph knows of its operators.
//! - [`stable`], [`remap`], [`graph`]: the operator graph, its storage and
//!   its table of replaced nodes.
//! - [`optimizers`]: rewriting passes and the driver that runs them to a
//!   fixed point; among them the CPU backend pass that lifts the
//!   broadcast-multiply-reduce pattern into one matrix product.
//! - [`executor`]: the order of an execution and the lifetime of its
//!   tensors.

pub mod executor;
pub mod graph;
pub mod op;
pub mod optimizers;
pub mod remap;
pub mod shape;
pub mod stable;
pub mod symbolic;
