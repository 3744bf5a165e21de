//! ThrillerFlow: a dataflow IR for GPU kernels, with dependency inference
//! and deterministic code emission.
use vstd::prelude::*;

pub mod access;
pub mod engine;
pub mod error;
pub mod graph;
pub mod id;
pub mod node;
pub mod order;
pub mod text;

pub use access::AccessMap;
pub use engine::Engine;
pub use error::{ThrillerError, ThrillerResult};
pub use graph::{BlockType, Graph, GraphState};
pub use node::{Buffer, Edge, Gemm, Node, NodeInner, Task};
pub use id::{initialize, next_id, IdCounter};

verus! {

/// GPU memory level of a buffer.
#[derive(Clone, Copy, PartialEq, Eq, Structural, Debug)]
pub enum MemoryLevel {
    /// Register file.
    Register,
    /// Shared memory.
    Shared,
    /// Global memory.
    Global,
}

impl Default for MemoryLevel {
    fn default() -> (r: MemoryLevel)
        ensures
            r == MemoryLevel::Register,
    {
        MemoryLevel::Register
    }
}

} // verus!
