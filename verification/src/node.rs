use vstd::prelude::*;
use crate::adjacent::{count_bytes, footprint, Adjacent, WeakNode};

verus! {

/// A node as the contracts see it: its key, its payload, its slot in the
/// arena and its two edge lists.
pub struct NodeView<K, N, E> {
    pub key: K,
    pub value: N,
    pub slot: usize,
    pub outbound: Seq<(WeakNode, E)>,
    pub inbound: Seq<(WeakNode, E)>,
}

/// A vertex: a key, a payload and the edges that leave and reach it. A node
/// made by `new` belongs to no graph; a graph that takes it in gives it its
/// slot, and from then on only the graph changes its edges.
pub struct Node<K = usize, N = (), E = ()> {
    pub key: K,
    pub value: N,
    pub slot: usize,
    pub adjacent: Adjacent<E>,
}

impl<K, N, E> View for Node<K, N, E> {
    type V = NodeView<K, N, E>;

    open spec fn view(&self) -> NodeView<K, N, E> {
        NodeView {
            key: self.key,
            value: self.value,
            slot: self.slot,
            outbound: self.adjacent.outbound@,
            inbound: self.adjacent.inbound@,
        }
    }
}

impl<K, N, E> Node<K, N, E> {
    /// A node with no edges that belongs to no graph: its slot is one that no
    /// arena has.
    pub fn new(key: K, value: N) -> (r: Self)
        ensures
            r@ == (NodeView {
                key,
                value,
                slot: usize::MAX,
                outbound: Seq::<(WeakNode, E)>::empty(),
                inbound: Seq::<(WeakNode, E)>::empty(),
            }),
    {
        Node { key, value, slot: usize::MAX, adjacent: Adjacent::new() }
    }

    /// The key that names the node.
    pub fn key(&self) -> (r: &K)
        ensures
            *r == self@.key,
    {
        &self.key
    }

    /// The payload of the node.
    pub fn value(&self) -> (r: &N)
        ensures
            *r == self@.value,
    {
        &self.value
    }

    /// Whether no edge leaves or reaches the node.
    pub fn is_orphan(&self) -> (r: bool)
        ensures
            r == (self@.outbound.len() == 0 && self@.inbound.len() == 0),
    {
        self.adjacent.outbound.len() == 0 && self.adjacent.inbound.len() == 0
    }

    /// A byte count for diagnostics: the node record and, for every entry of
    /// its two edge lists, a handle and an edge value.
    pub fn sizeof(&self) -> (r: usize)
        ensures
            r == footprint(
                self@.inbound.len() + self@.outbound.len(),
                vstd::layout::size_of::<WeakNode>() + vstd::layout::size_of::<E>(),
                vstd::layout::size_of::<Node<K, N, E>>(),
            ),
    {
        count_bytes(
            self.adjacent.inbound.len(),
            self.adjacent.outbound.len(),
            core::mem::size_of::<WeakNode>(),
            core::mem::size_of::<E>(),
            core::mem::size_of::<Node<K, N, E>>(),
        )
    }
}

} // verus!
