//! The error type of the library.

use vstd::prelude::*;

verus! {

/// The ways an operation on a graph can fail.
#[derive(Debug, Clone, Copy, PartialEq, Eq, Structural)]
pub enum GraphError {
    /// An operation named an identifier that no node of the graph carries.
    IdNotExist,
    /// The text of a graph could not be read from its source.
    IoError,
    /// The text is not in the graph format: a malformed line, a repeated node
    /// identifier, or an edge line that names a node that was not declared.
    TgfError,
    /// A positional lookup named a slot past the end of the node sequence.
    IndexOutOfRange,
}

/// The error type of the standard library's input and output. Nothing is
/// known of a value of it.
#[verifier::external_type_specification]
#[verifier::external_body]
pub struct ExIoError(std::io::Error);

impl From<std::io::Error> for GraphError {
    /// Whatever went wrong while reading, the graph error is `IoError`.
    fn from(_error: std::io::Error) -> (r: GraphError) {
        GraphError::IoError
    }
}

impl vstd::std_specs::convert::FromSpecImpl<std::io::Error> for GraphError {
    open spec fn obeys_from_spec() -> bool {
        true
    }

    open spec fn from_spec(_error: std::io::Error) -> GraphError {
        GraphError::IoError
    }
}

} // verus!
