use vstd::prelude::*;
use crate::node::Node;

verus! {

/// An edge as a traversal or a lookup hands it out: the node it starts at,
/// the node it leads to and its value, all borrowed from the graph.
pub struct Edge<'a, K, N, E> {
    pub source: &'a Node<K, N, E>,
    pub target: &'a Node<K, N, E>,
    pub value: &'a E,
}

} // verus!
