//! Errors of the library.
use vstd::prelude::*;

verus! {

/// Errors returned by the fallible operations of the library.
#[derive(Clone, Copy, PartialEq, Eq, Structural, Debug)]
pub enum ThrillerError {
    /// A malformed access descriptor: the number of (offset, stride) pairs,
    /// or of indices, differs from the dimension count.
    Configuration,
    /// An operation invoked in the wrong graph state.
    GraphState,
    /// The dependency structure has a cycle; holds the identity of a node
    /// on one.
    CyclicDependency(usize),
    /// An edge or a task refers to a node identity that is not in the graph.
    DanglingReference(usize),
    /// A node referenced an operand that has no symbolic name yet.
    Codegen,
}

/// Result type of the library.
pub type ThrillerResult<T> = Result<T, ThrillerError>;

} // verus!
