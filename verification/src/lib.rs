//! Pluggable garbage-collection strategies over a managed-object heap: a
//! mark-and-sweep tracing collector and a reference-counting collector behind
//! one allocation and collection interface.

pub mod algorithms;
pub mod gc_trait;
pub mod graph;
pub mod heap;
pub mod laws;
pub mod object;

pub use algorithms::{MarkSweepGc, RefCountGc, RefCountNode};
pub use gc_trait::{Gc, GcHandle, GcStats, Managed, Payload};
