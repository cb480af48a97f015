use vstd::prelude::*;

verus! {

/// What an operation on a graph can fail with.
#[derive(Clone, Copy, Debug, PartialEq, Eq, Structural)]
pub enum Error {
    /// The source already has an outbound edge to the target.
    EdgeExists,
    /// The named edge is not in the adjacency list.
    NoSuchEdge,
    /// A key names no node of the graph.
    NoSuchNode,
}

impl Error {
    /// What went wrong, in words.
    pub fn message(&self) -> (r: &'static str)
        ensures
            r@ == match self {
                Error::EdgeExists => "edge exists"@,
                Error::NoSuchEdge => "no such edge"@,
                Error::NoSuchNode => "no such node"@,
            },
    {
        match self {
            Error::EdgeExists => "edge exists",
            Error::NoSuchEdge => "no such edge",
            Error::NoSuchNode => "no such node",
        }
    }
}

} // verus!
