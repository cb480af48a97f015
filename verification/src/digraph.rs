use std::collections::HashMap;
use std::hash::Hash;
use vstd::pervasive::cloned;
use vstd::prelude::*;
use vstd::std_specs::hash::obeys_key_model;
use crate::adjacent::{
    count_bytes, first_to, footprint, handles_in_range, has_peer, lemma_first_to,
    lemma_values_to_empty, lemma_without, position, purge, without, Adjacent, WeakNode,
};
use crate::bfs::DiBFS;
use crate::dfs::DiDFS;
use crate::method::NullMethod;
use crate::walk::Direction;
use crate::edge::Edge;
use crate::error::Error;
use crate::model::{
    connected, graph_wf, handle, has_key, indexed, inserted, isolated, lemma_handles,
    lemma_indexed_insert, lemma_indexed_keep, lemma_indexed_slot, lemma_inserted, lemma_isolated,
    lemma_linked, lemma_slot_of_some, lemma_stored, lemma_total_out_bound, lemma_total_out_update, lemma_unlinked, linked,
    mirrored, slot_of, stored, total_out, unlinked,
};
use crate::node::{Node, NodeView};

verus! {

/// A clone of a `T` is the value it was made from: what a graph needs to
/// keep a key in its index and in its node, and an edge value in two lists.
pub open spec fn clones_exactly<T: Clone>() -> bool {
    forall|a: T, b: T| cloned::<T>(a, b) ==> a == b
}

/// A directed graph: nodes named by unique keys, kept in insertion order and
/// found by key through an index, and the number of edges among them.
pub struct Digraph<K, N, E> {
    pub(crate) nodes: Vec<Node<K, N, E>>,
    pub(crate) index: HashMap<K, usize>,
    pub(crate) edge_count: u128,
}

impl<K, N, E> View for Digraph<K, N, E> {
    type V = Seq<NodeView<K, N, E>>;

    closed spec fn view(&self) -> Seq<NodeView<K, N, E>> {
        self.nodes@.map_values(|n: Node<K, N, E>| n@)
    }
}

impl<K, N, E> Default for Digraph<K, N, E> {
    /// A graph without nodes.
    fn default() -> (g: Self)
        ensures
            g.wf(),
            g@ == Seq::<NodeView<K, N, E>>::empty(),
    {
        Digraph::new()
    }
}

impl<K, N, E> Digraph<K, N, E> {
    /// The nodes of the graph, by slot.
    pub open(crate) spec fn arena(&self) -> Seq<Node<K, N, E>> {
        self.nodes@
    }

    /// The arena is well-formed, the index leads from each key to its node,
    /// and the edge count is the number of edges.
    pub open(crate) spec fn wf(&self) -> bool {
        &&& graph_wf(self@)
        &&& indexed(self.index@, self@)
        &&& self.edge_count == total_out(self@)
    }

    /// The edges of a graph are fewer than a `u128` can count: no list is
    /// longer, and there are no more lists, than a `usize` can count.
    pub proof fn lemma_count_fits(&self)
        ensures
            total_out(self@) < u128::MAX,
    {
        assert forall|i: int| 0 <= i < self@.len() implies (#[trigger] self@[i]).outbound.len()
            <= usize::MAX by {
            assert(self@[i].outbound.len() == self.nodes@[i].adjacent.outbound.len());
        }
        lemma_total_out_bound(self@, usize::MAX as nat);
        assert(self@.len() == self.nodes.len());
        assert(self@.len() * usize::MAX < u128::MAX) by (nonlinear_arith)
            requires
                self@.len() <= usize::MAX,
                usize::MAX <= 0xffff_ffff_ffff_ffff,
        ;
    }

    /// The view is the arena, node by node.
    pub proof fn lemma_view(&self)
        ensures
            self@.len() == self.arena().len(),
            forall|i: int| 0 <= i < self@.len() ==> #[trigger] self@[i] == self.arena()[i]@,
    {
    }

    /// A graph without nodes.
    pub fn new() -> (g: Self)
        ensures
            g.wf(),
            g@ == Seq::<NodeView<K, N, E>>::empty(),
    {
        let g = Digraph { nodes: Vec::new(), index: HashMap::new(), edge_count: 0 };
        assert(g@ =~= Seq::<NodeView<K, N, E>>::empty());
        g
    }

    /// The number of nodes.
    pub fn node_count(&self) -> (r: usize)
        ensures
            r == self@.len(),
    {
        self.nodes.len()
    }

    /// The number of edges: the outbound entries of all nodes.
    pub fn edge_count(&self) -> (r: u128)
        requires
            self.wf(),
        ensures
            r == total_out(self@),
    {
        self.edge_count
    }
}

impl<K: Hash + Eq, N, E> Digraph<K, N, E> {
    /// The handle of the node that `key` names.
    pub fn handle(&self, key: &K) -> (r: Option<WeakNode>)
        requires
            self.wf(),
            obeys_key_model::<K>(),
        ensures
            r == match slot_of(self@, *key) {
                Some(i) => Some(handle(i)),
                None => None,
            },
    {
        proof {
            lemma_indexed_slot(self.index@, self@, *key);
            lemma_slot_of_some(self@, *key);
        }
        match self.index.get(key) {
            Some(slot) => Some(WeakNode { slot: *slot }),
            None => None,
        }
    }

    /// The node that `key` names.
    pub fn node(&self, key: &K) -> (r: Option<&Node<K, N, E>>)
        requires
            self.wf(),
            obeys_key_model::<K>(),
        ensures
            r == match slot_of(self@, *key) {
                Some(i) => Some(&self.arena()[i]),
                None => None,
            },
    {
        proof {
            lemma_slot_of_some(self@, *key);
            lemma_handles(self@);
        }
        match self.handle(key) {
            Some(w) => Some(&self.nodes[w.slot]),
            None => None,
        }
    }

    /// Whether `source` has an edge to `target`; `false` where a key names no
    /// node.
    pub fn is_connected(&self, source: &K, target: &K) -> (r: bool)
        requires
            self.wf(),
            obeys_key_model::<K>(),
        ensures
            r == match (slot_of(self@, *source), slot_of(self@, *target)) {
                (Some(s), Some(t)) => connected(self@, s, t),
                _ => false,
            },
    {
        proof {
            lemma_slot_of_some(self@, *source);
            lemma_slot_of_some(self@, *target);
            lemma_handles(self@);
        }
        match (self.handle(source), self.handle(target)) {
            (Some(s), Some(t)) => {
                proof {
                    lemma_first_to(self@[s.slot as int].outbound, t);
                }
                position(&self.nodes[s.slot].adjacent.outbound, &t).is_some()
            },
            _ => false,
        }
    }

    /// The first edge from `source` to `target`.
    pub fn edge(&self, source: &K, target: &K) -> (r: Option<Edge<'_, K, N, E>>)
        requires
            self.wf(),
            obeys_key_model::<K>(),
        ensures
            match (slot_of(self@, *source), slot_of(self@, *target)) {
                (Some(s), Some(t)) => match first_to(self@[s].outbound, handle(t)) {
                    Some(i) => r == Some(
                        (Edge {
                            source: &self.arena()[s],
                            target: &self.arena()[t],
                            value: &self@[s].outbound[i].1,
                        }),
                    ),
                    None => r is None,
                },
                _ => r is None,
            },
    {
        proof {
            lemma_slot_of_some(self@, *source);
            lemma_slot_of_some(self@, *target);
            lemma_handles(self@);
        }
        match (self.handle(source), self.handle(target)) {
            (Some(s), Some(t)) => {
                let from = &self.nodes[s.slot];
                proof {
                    lemma_first_to(from@.outbound, t);
                }
                match position(&from.adjacent.outbound, &t) {
                    Some(i) => Some(
                        Edge {
                            source: from,
                            target: &self.nodes[t.slot],
                            value: &from.adjacent.outbound[i].1,
                        },
                    ),
                    None => None,
                }
            },
            _ => None,
        }
    }
}

/// The nodes of `arena` that no edge leaves, in slot order.
pub open spec fn leaves<'a, K, N, E>(arena: Seq<Node<K, N, E>>) -> Seq<&'a Node<K, N, E>>
    decreases arena.len(),
{
    if arena.len() == 0 {
        Seq::empty()
    } else if arena.last()@.outbound.len() == 0 {
        leaves(arena.drop_last()).push(&arena.last())
    } else {
        leaves(arena.drop_last())
    }
}

/// The edges that leave the node in slot `s`, in list order.
pub open spec fn edges_out<'a, K, N, E>(arena: Seq<Node<K, N, E>>, s: int) -> Seq<
    Edge<'a, K, N, E>,
> {
    Seq::new(
        arena[s]@.outbound.len(),
        |i: int|
            Edge {
                source: &arena[s],
                target: &arena[arena[s]@.outbound[i].0.slot as int],
                value: &arena[s]@.outbound[i].1,
            },
    )
}

/// The edges that reach the node in slot `s`, in list order, each from its
/// source to the node.
pub open spec fn edges_in<'a, K, N, E>(arena: Seq<Node<K, N, E>>, s: int) -> Seq<
    Edge<'a, K, N, E>,
> {
    Seq::new(
        arena[s]@.inbound.len(),
        |i: int|
            Edge {
                source: &arena[arena[s]@.inbound[i].0.slot as int],
                target: &arena[s],
                value: &arena[s]@.inbound[i].1,
            },
    )
}

impl<K, N, E> Digraph<K, N, E> {
    /// The nodes that no edge leaves, in the order in which they were added.
    pub fn get_leaves(&self) -> (r: Vec<&Node<K, N, E>>)
        ensures
            r@ == leaves(self.arena()),
    {
        let mut res: Vec<&Node<K, N, E>> = Vec::new();
        let mut i: usize = 0;
        while i < self.nodes.len()
            invariant
                i <= self.nodes@.len(),
                res@ == leaves(self.nodes@.subrange(0, i as int)),
            decreases self.nodes@.len() - i,
        {
            assert(self.nodes@.subrange(0, i + 1).drop_last() =~= self.nodes@.subrange(0, i as int));
            if self.nodes[i].adjacent.outbound.len() == 0 {
                res.push(&self.nodes[i]);
            }
            i += 1;
        }
        assert(self.nodes@.subrange(0, i as int) =~= self.nodes@);
        res
    }

    /// A byte count for diagnostics: every node at the size of its record
    /// and every edge at the size of its two entries, or `usize::MAX` if the
    /// count does not fit.
    pub fn bytesize(&self) -> (r: usize)
        requires
            self.wf(),
        ensures
            r == if self@.len() * vstd::layout::size_of::<Node<K, N, E>>() <= usize::MAX {
                footprint(
                    2 * total_out(self@),
                    vstd::layout::size_of::<WeakNode>() + vstd::layout::size_of::<E>(),
                    self@.len() * vstd::layout::size_of::<Node<K, N, E>>(),
                )
            } else {
                usize::MAX
            },
    {
        match self.nodes.len().checked_mul(core::mem::size_of::<Node<K, N, E>>()) {
            Some(base) => {
                let edges: usize = if self.edge_count <= usize::MAX as u128 {
                    self.edge_count as usize
                } else {
                    usize::MAX
                };
                proof {
                    let size = vstd::layout::size_of::<WeakNode>() + vstd::layout::size_of::<E>();
                    if self.edge_count > usize::MAX {
                        if size > 0 {
                            assert(2 * total_out(self@) * size + base > usize::MAX)
                                by (nonlinear_arith)
                                requires
                                    total_out(self@) > usize::MAX,
                                    size >= 1,
                                    base >= 0,
                            ;
                            assert((edges + edges) * size + base > usize::MAX)
                                by (nonlinear_arith)
                                requires
                                    edges == usize::MAX,
                                    edges >= 1,
                                    size >= 1,
                                    base >= 0,
                            ;
                        } else {
                            assert(2 * total_out(self@) * size == 0) by (nonlinear_arith)
                                requires
                                    size == 0,
                            ;
                            assert((edges + edges) * size == 0) by (nonlinear_arith)
                                requires
                                    size == 0,
                            ;
                        }
                    }
                }
                count_bytes(
                    edges,
                    edges,
                    core::mem::size_of::<WeakNode>(),
                    core::mem::size_of::<E>(),
                    base,
                )
            },
            None => usize::MAX,
        }
    }

    /// A depth-first traversal from the node that `source` names.
    pub fn depth_first<'a>(&'a self, source: &'a K) -> (r: DiDFS<'a, K, N, E, NullMethod>)
        ensures
            r.graph == self,
            r.root == source,
            r.target is None,
            r.transpose == Direction::Forward,
    {
        DiDFS::new(self, source)
    }

    /// A breadth-first traversal from the node that `source` names.
    pub fn breadth_first<'a>(&'a self, source: &'a K) -> (r: DiBFS<'a, K, N, E, NullMethod>)
        ensures
            r.graph == self,
            r.root == source,
            r.target is None,
            r.transpose == Direction::Forward,
    {
        DiBFS::new(self, source)
    }
}

impl<K: Hash + Eq, N, E> Digraph<K, N, E> {
    /// The edges that leave the node that `key` names, in the order in which
    /// they were added; none where `key` names no node.
    pub fn iter_out(&self, key: &K) -> (r: Vec<Edge<'_, K, N, E>>)
        requires
            self.wf(),
            obeys_key_model::<K>(),
        ensures
            r@ == match slot_of(self@, *key) {
                Some(s) => edges_out(self.arena(), s),
                None => Seq::empty(),
            },
    {
        proof {
            lemma_slot_of_some(self@, *key);
            lemma_handles(self@);
        }
        let mut res: Vec<Edge<'_, K, N, E>> = Vec::new();
        match self.handle(key) {
            Some(w) => {
                let node = &self.nodes[w.slot];
                let mut i: usize = 0;
                while i < node.adjacent.outbound.len()
                    invariant
                        self.wf(),
                        w.slot < self.arena().len(),
                        node == &self.arena()[w.slot as int],
                        i <= node@.outbound.len(),
                        res@.len() == i,
                        forall|k: int|
                            0 <= k < i ==> #[trigger] res@[k] == edges_out(
                                self.arena(),
                                w.slot as int,
                            )[k],
                    decreases node@.outbound.len() - i,
                {
                    let peer = node.adjacent.outbound[i].0.slot;
                    assert(peer < self.arena().len()) by {
                        assert(self@[w.slot as int] == node@);
                        assert(handles_in_range(node@.outbound, self@.len()));
                    }
                    res.push(
                        Edge {
                            source: node,
                            target: &self.nodes[peer],
                            value: &node.adjacent.outbound[i].1,
                        },
                    );
                    i += 1;
                }
                assert(res@ =~= edges_out(self.arena(), w.slot as int));
            },
            None => {
                assert(res@ =~= Seq::<Edge<'_, K, N, E>>::empty());
            },
        }
        res
    }

    /// The edges that reach the node that `key` names, in the order in which
    /// they were added, each from its source to the node; none where `key`
    /// names no node.
    pub fn iter_in(&self, key: &K) -> (r: Vec<Edge<'_, K, N, E>>)
        requires
            self.wf(),
            obeys_key_model::<K>(),
        ensures
            r@ == match slot_of(self@, *key) {
                Some(s) => edges_in(self.arena(), s),
                None => Seq::empty(),
            },
    {
        proof {
            lemma_slot_of_some(self@, *key);
            lemma_handles(self@);
        }
        let mut res: Vec<Edge<'_, K, N, E>> = Vec::new();
        match self.handle(key) {
            Some(w) => {
                let node = &self.nodes[w.slot];
                let mut i: usize = 0;
                while i < node.adjacent.inbound.len()
                    invariant
                        self.wf(),
                        w.slot < self.arena().len(),
                        node == &self.arena()[w.slot as int],
                        i <= node@.inbound.len(),
                        res@.len() == i,
                        forall|k: int|
                            0 <= k < i ==> #[trigger] res@[k] == edges_in(
                                self.arena(),
                                w.slot as int,
                            )[k],
                    decreases node@.inbound.len() - i,
                {
                    let peer = node.adjacent.inbound[i].0.slot;
                    assert(peer < self.arena().len()) by {
                        assert(self@[w.slot as int] == node@);
                        assert(handles_in_range(node@.inbound, self@.len()));
                    }
                    res.push(
                        Edge {
                            source: &self.nodes[peer],
                            target: node,
                            value: &node.adjacent.inbound[i].1,
                        },
                    );
                    i += 1;
                }
                assert(res@ =~= edges_in(self.arena(), w.slot as int));
            },
            None => {
                assert(res@ =~= Seq::<Edge<'_, K, N, E>>::empty());
            },
        }
        res
    }
}

impl<K: Hash + Eq + Clone, N, E> Digraph<K, N, E> {
    /// Adds a node without edges for a key that the graph does not have.
    fn take_in(&mut self, key: K, value: N)
        requires
            old(self).wf(),
            obeys_key_model::<K>(),
            clones_exactly::<K>(),
            !has_key(old(self)@, key),
        ensures
            final(self).wf(),
            final(self)@ == inserted(old(self)@, key, value),
    {
        let slot = self.nodes.len();
        proof {
            lemma_inserted(self@, key, value);
            lemma_indexed_insert(self.index@, self@, key, value);
        }
        let copy = key.clone();
        assert(cloned::<K>(key, copy));
        self.index.insert(copy, slot);
        self.nodes.push(Node { key, value, slot, adjacent: Adjacent::new() });
        assert(self@ =~= inserted(old(self)@, key, value));
    }

    /// Adds a node for a new key and returns `true`; for a key that the graph
    /// has, gives its node the new payload, leaves its edges as they are and
    /// returns `false`.
    pub fn insert(&mut self, key: K, data: N) -> (fresh: bool)
        requires
            old(self).wf(),
            obeys_key_model::<K>(),
            clones_exactly::<K>(),
        ensures
            final(self).wf(),
            fresh == !has_key(old(self)@, key),
            final(self)@ == match slot_of(old(self)@, key) {
                Some(i) => stored(old(self)@, i, data),
                None => inserted(old(self)@, key, data),
            },
    {
        proof {
            lemma_slot_of_some(self@, key);
            lemma_handles(self@);
        }
        match self.handle(&key) {
            Some(w) => {
                proof {
                    lemma_stored(self@, w.slot as int, data);
                    lemma_indexed_keep(self.index@, self@, stored(self@, w.slot as int, data));
                }
                self.nodes[w.slot].value = data;
                assert(self@ =~= stored(old(self)@, w.slot as int, data));
                false
            },
            None => {
                self.take_in(key, data);
                true
            },
        }
    }

    /// Takes `node` in under its key, without edges, and returns `true`; where
    /// the graph has a node for that key it stays as it is, and the result is
    /// `false`.
    pub fn insert_node(&mut self, node: Node<K, N, E>) -> (fresh: bool)
        requires
            old(self).wf(),
            obeys_key_model::<K>(),
            clones_exactly::<K>(),
        ensures
            final(self).wf(),
            fresh == !has_key(old(self)@, node@.key),
            final(self)@ == if fresh {
                inserted(old(self)@, node@.key, node@.value)
            } else {
                old(self)@
            },
    {
        proof {
            lemma_slot_of_some(self@, node.key);
        }
        match self.handle(&node.key) {
            Some(_) => false,
            None => {
                self.take_in(node.key, node.value);
                true
            },
        }
    }
}

/// One of the first `k` entries of `list` leads to slot `x`.
spec fn peer_before<E>(list: Seq<(WeakNode, E)>, x: int, k: int) -> bool {
    exists|j: int| 0 <= j < k && j < list.len() && (#[trigger] list[j]).0.slot == x
}

/// `g` is `g0` after the peers of the first `k` outbound edges of `n` have
/// lost their inbound edges from `n`.
spec fn cut_inbound<K, N, E>(
    g0: Seq<NodeView<K, N, E>>,
    g: Seq<NodeView<K, N, E>>,
    n: int,
    k: int,
) -> bool {
    &&& g.len() == g0.len()
    &&& g[n] == g0[n]
    &&& forall|x: int|
        0 <= x < g0.len() && x != n ==> #[trigger] g[x] == (NodeView {
            inbound: if peer_before(g0[n].outbound, x, k) {
                without(g0[x].inbound, handle(n))
            } else {
                g0[x].inbound
            },
            ..g0[x]
        })
}

/// `g` is `g0` after every other node has lost its inbound edges from `n`,
/// and the peers of the first `k` inbound edges of `n` their outbound edges
/// to `n`.
spec fn cut_outbound<K, N, E>(
    g0: Seq<NodeView<K, N, E>>,
    g: Seq<NodeView<K, N, E>>,
    n: int,
    k: int,
) -> bool {
    &&& g.len() == g0.len()
    &&& g[n] == g0[n]
    &&& forall|x: int|
        0 <= x < g0.len() && x != n ==> #[trigger] g[x] == (NodeView {
            inbound: without(g0[x].inbound, handle(n)),
            outbound: if peer_before(g0[n].inbound, x, k) {
                without(g0[x].outbound, handle(n))
            } else {
                g0[x].outbound
            },
            ..g0[x]
        })
}

/// A node that no outbound edge of `n` leads to has no inbound edge from `n`,
/// and one that no inbound edge of `n` comes from has no outbound edge to `n`.
proof fn lemma_no_peer<K, N, E>(g: Seq<NodeView<K, N, E>>, n: int, x: int)
    requires
        graph_wf(g),
        0 <= n < g.len(),
        0 <= x < g.len(),
    ensures
        !peer_before(g[n].outbound, x, g[n].outbound.len() as int) ==> without(
            g[x].inbound,
            handle(n),
        ) == g[x].inbound,
        !peer_before(g[n].inbound, x, g[n].inbound.len() as int) ==> without(
            g[x].outbound,
            handle(n),
        ) == g[x].outbound,
{
    lemma_handles(g);
    if !peer_before(g[n].outbound, x, g[n].outbound.len() as int) {
        assert(!has_peer(g[n].outbound, handle(x))) by {
            if has_peer(g[n].outbound, handle(x)) {
                let j = choose|j: int|
                    0 <= j < g[n].outbound.len() && (#[trigger] g[n].outbound[j]).0 == handle(x);
                assert(g[n].outbound[j].0.slot == x);
            }
        }
        lemma_values_to_empty(g[n].outbound, handle(x));
        assert(mirrored(g, n, x));
        lemma_values_to_empty(g[x].inbound, handle(n));
        lemma_without(g[x].inbound, handle(n));
    }
    if !peer_before(g[n].inbound, x, g[n].inbound.len() as int) {
        assert(!has_peer(g[n].inbound, handle(x))) by {
            if has_peer(g[n].inbound, handle(x)) {
                let j = choose|j: int|
                    0 <= j < g[n].inbound.len() && (#[trigger] g[n].inbound[j]).0 == handle(x);
                assert(g[n].inbound[j].0.slot == x);
            }
        }
        lemma_values_to_empty(g[n].inbound, handle(x));
        assert(mirrored(g, x, n));
        lemma_values_to_empty(g[x].outbound, handle(n));
        lemma_without(g[x].outbound, handle(n));
    }
}

impl<K: Hash + Eq, N, E> Digraph<K, N, E> {
    /// Takes the first edge from `source` to `target` out of both lists that
    /// hold it and returns its value: fails with `NoSuchNode` where a key
    /// names no node, and with `NoSuchEdge` where `source` has no edge to
    /// `target`, in both cases changing nothing.
    pub fn try_disconnect(&mut self, source: &K, target: &K) -> (r: Result<E, Error>)
        requires
            old(self).wf(),
            obeys_key_model::<K>(),
        ensures
            final(self).wf(),
            match (slot_of(old(self)@, *source), slot_of(old(self)@, *target)) {
                (Some(s), Some(t)) => match first_to(old(self)@[s].outbound, handle(t)) {
                    Some(i) => r == Ok::<E, Error>(old(self)@[s].outbound[i].1) && final(self)@
                        == unlinked(old(self)@, s, t),
                    None => r == Err::<E, Error>(Error::NoSuchEdge) && final(self)@ == old(self)@,
                },
                _ => r == Err::<E, Error>(Error::NoSuchNode) && final(self)@ == old(self)@,
            },
    {
        proof {
            lemma_slot_of_some(self@, *source);
            lemma_slot_of_some(self@, *target);
            lemma_handles(self@);
        }
        match (self.handle(source), self.handle(target)) {
            (Some(s), Some(t)) => {
                proof {
                    lemma_first_to(self@[s.slot as int].outbound, t);
                    if connected(self@, s.slot as int, t.slot as int) {
                        lemma_unlinked(self@, s.slot as int, t.slot as int);
                        lemma_total_out_update(self@, s.slot as int, self@[s.slot as int]);
                        lemma_indexed_keep(
                            self.index@,
                            self@,
                            unlinked(self@, s.slot as int, t.slot as int),
                        );
                    }
                }
                match self.nodes[s.slot].adjacent.remove_outbound(&t) {
                    Ok(value) => {
                        let _ = self.nodes[t.slot].adjacent.remove_inbound(&s);
                        self.edge_count = self.edge_count - 1;
                        assert(self@ =~= unlinked(old(self)@, s.slot as int, t.slot as int));
                        Ok(value)
                    },
                    Err(_) => {
                        assert(self@ =~= old(self)@);
                        Err(Error::NoSuchEdge)
                    },
                }
            },
            _ => Err(Error::NoSuchNode),
        }
    }

    /// Takes the first edge from `source` to `target` out of the graph; does
    /// nothing where a key names no node or there is no such edge.
    pub fn disconnect(&mut self, source: &K, target: &K)
        requires
            old(self).wf(),
            obeys_key_model::<K>(),
        ensures
            final(self).wf(),
            final(self)@ == match (slot_of(old(self)@, *source), slot_of(old(self)@, *target)) {
                (Some(s), Some(t)) => unlinked(old(self)@, s, t),
                _ => old(self)@,
            },
    {
        let _ = self.try_disconnect(source, target);
    }

    /// Takes every edge that leaves or reaches the node in slot `n` out of the
    /// graph.
    fn cut(&mut self, n: usize)
        requires
            old(self).wf(),
            n < old(self)@.len(),
        ensures
            final(self).wf(),
            final(self)@ == isolated(old(self)@, n as int),
    {
        let ghost g0 = self@;
        let me = WeakNode { slot: n };
        proof {
            lemma_handles(g0);
            lemma_isolated(g0, n as int);
            lemma_indexed_keep(self.index@, g0, isolated(g0, n as int));
        }
        let ghost index = self.index@;
        let mut k: usize = 0;
        while k < self.nodes[n].adjacent.outbound.len()
            invariant
                graph_wf(g0),
                n < g0.len(),
                me == handle(n as int),
                cut_inbound(g0, self@, n as int, k as int),
                k <= g0[n as int].outbound.len(),
                self.edge_count == total_out(self@),
                self.index@ == index,
            decreases g0[n as int].outbound.len() - k,
        {
            let ghost g = self@;
            let b = self.nodes[n].adjacent.outbound[k].0.slot;
            assert(b < g0.len()) by {
                assert(crate::adjacent::handles_in_range(g0[n as int].outbound, g0.len()));
            }
            if b != n {
                proof {
                    lemma_without(g0[b as int].inbound, me);
                    lemma_without(without(g0[b as int].inbound, me), me);
                }
                purge(&mut self.nodes[b].adjacent.inbound, &me);
                proof {
                    assert(self@ =~= g.update(b as int, self@[b as int]));
                    lemma_total_out_update(g, b as int, self@[b as int]);
                }
            }
            proof {
                let g2 = self@;
                assert forall|x: int| 0 <= x < g0.len() && x != n implies #[trigger] g2[x] == (
                NodeView {
                    inbound: if peer_before(g0[n as int].outbound, x, k + 1) {
                        without(g0[x].inbound, handle(n as int))
                    } else {
                        g0[x].inbound
                    },
                    ..g0[x]
                }) by {
                    if x == b {
                        assert(g0[n as int].outbound[k as int].0.slot == x);
                        assert(peer_before(g0[n as int].outbound, x, k + 1));
                        assert(g2[x].inbound == without(g0[x].inbound, me));
                    } else {
                        assert(g2[x] == g[x]);
                        if peer_before(g0[n as int].outbound, x, k + 1) {
                            let j = choose|j: int|
                                0 <= j < k + 1 && j < g0[n as int].outbound.len() && (
                                #[trigger] g0[n as int].outbound[j]).0.slot == x;
                            assert(j < k);
                            assert(peer_before(g0[n as int].outbound, x, k as int));
                        } else {
                            if peer_before(g0[n as int].outbound, x, k as int) {
                                let j = choose|j: int|
                                    0 <= j < k && j < g0[n as int].outbound.len() && (
                                    #[trigger] g0[n as int].outbound[j]).0.slot == x;
                                assert(peer_before(g0[n as int].outbound, x, k + 1));
                            }
                        }
                    }
                }
            }
            k += 1;
        }
        proof {
            let g = self@;
            assert forall|x: int| 0 <= x < g0.len() && x != n implies #[trigger] g[x] == (NodeView {
                inbound: without(g0[x].inbound, handle(n as int)),
                outbound: if peer_before(g0[n as int].inbound, x, 0) {
                    without(g0[x].outbound, handle(n as int))
                } else {
                    g0[x].outbound
                },
                ..g0[x]
            }) by {
                lemma_no_peer(g0, n as int, x);
            }
        }
        let mut k: usize = 0;
        while k < self.nodes[n].adjacent.inbound.len()
            invariant
                graph_wf(g0),
                n < g0.len(),
                me == handle(n as int),
                cut_outbound(g0, self@, n as int, k as int),
                k <= g0[n as int].inbound.len(),
                self.edge_count == total_out(self@),
                self.index@ == index,
            decreases g0[n as int].inbound.len() - k,
        {
            let ghost g = self@;
            let a = self.nodes[n].adjacent.inbound[k].0.slot;
            assert(a < g0.len()) by {
                assert(crate::adjacent::handles_in_range(g0[n as int].inbound, g0.len()));
            }
            if a != n {
                proof {
                    lemma_without(g0[a as int].outbound, me);
                    lemma_without(without(g0[a as int].outbound, me), me);
                }
                let removed = purge(&mut self.nodes[a].adjacent.outbound, &me);
                proof {
                    assert(self@ =~= g.update(a as int, self@[a as int]));
                    lemma_total_out_update(g, a as int, self@[a as int]);
                }
                self.edge_count = self.edge_count - removed as u128;
            }
            proof {
                let g2 = self@;
                assert forall|x: int| 0 <= x < g0.len() && x != n implies #[trigger] g2[x] == (
                NodeView {
                    inbound: without(g0[x].inbound, handle(n as int)),
                    outbound: if peer_before(g0[n as int].inbound, x, k + 1) {
                        without(g0[x].outbound, handle(n as int))
                    } else {
                        g0[x].outbound
                    },
                    ..g0[x]
                }) by {
                    if x == a {
                        assert(g0[n as int].inbound[k as int].0.slot == x);
                        assert(peer_before(g0[n as int].inbound, x, k + 1));
                    } else {
                        assert(g2[x] == g[x]);
                        if peer_before(g0[n as int].inbound, x, k + 1) {
                            let j = choose|j: int|
                                0 <= j < k + 1 && j < g0[n as int].inbound.len() && (
                                #[trigger] g0[n as int].inbound[j]).0.slot == x;
                            assert(j < k);
                            assert(peer_before(g0[n as int].inbound, x, k as int));
                        } else {
                            if peer_before(g0[n as int].inbound, x, k as int) {
                                let j = choose|j: int|
                                    0 <= j < k && j < g0[n as int].inbound.len() && (
                                    #[trigger] g0[n as int].inbound[j]).0.slot == x;
                                assert(peer_before(g0[n as int].inbound, x, k + 1));
                            }
                        }
                    }
                }
            }
            k += 1;
        }
        let ghost g = self@;
        proof {
            lemma_total_out_update(g, n as int, isolated(g0, n as int)[n as int]);
        }
        self.edge_count = self.edge_count - self.nodes[n].adjacent.outbound.len() as u128;
        self.nodes[n].adjacent.outbound.clear();
        self.nodes[n].adjacent.inbound.clear();
        proof {
            assert forall|x: int| 0 <= x < g0.len() implies #[trigger] self@[x] == isolated(
                g0,
                n as int,
            )[x] by {
                if x != n {
                    assert(self@[x] == g[x]);
                    lemma_no_peer(g0, n as int, x);
                }
            }
            assert(self@ =~= isolated(g0, n as int));
            assert(self@ =~= g.update(n as int, isolated(g0, n as int)[n as int]));
        }
    }

    /// Takes every edge that leaves or reaches the node that `key` names out
    /// of the graph, at the node and at its peers; does nothing where `key`
    /// names no node.
    pub fn isolate(&mut self, key: &K)
        requires
            old(self).wf(),
            obeys_key_model::<K>(),
        ensures
            final(self).wf(),
            final(self)@ == match slot_of(old(self)@, *key) {
                Some(n) => isolated(old(self)@, n),
                None => old(self)@,
            },
    {
        proof {
            lemma_slot_of_some(self@, *key);
            lemma_handles(self@);
        }
        match self.handle(key) {
            Some(w) => self.cut(w.slot),
            None => {},
        }
    }
}

impl<K: Hash + Eq, N, E: Clone> Digraph<K, N, E> {
    /// Adds an edge from `s` to `t` to both lists that hold it.
    fn link(&mut self, s: usize, t: usize, data: E)
        requires
            old(self).wf(),
            clones_exactly::<E>(),
            s < old(self)@.len(),
            t < old(self)@.len(),
        ensures
            final(self).wf(),
            final(self)@ == linked(old(self)@, s as int, t as int, data),
    {
        proof {
            lemma_linked(self@, s as int, t as int, data);
            lemma_indexed_keep(self.index@, self@, linked(self@, s as int, t as int, data));
            self.lemma_count_fits();
        }
        let copy = data.clone();
        assert(cloned::<E>(data, copy));
        self.nodes[s].adjacent.outbound.push((WeakNode { slot: t }, data));
        self.nodes[t].adjacent.inbound.push((WeakNode { slot: s }, copy));
        self.edge_count = self.edge_count + 1;
        assert(self@ =~= linked(old(self)@, s as int, t as int, data));
    }

    /// Adds an edge from `source` to `target` with the value `data`, whether
    /// or not there is one already; does nothing where a key names no node.
    pub fn connect(&mut self, source: &K, target: &K, data: E)
        requires
            old(self).wf(),
            obeys_key_model::<K>(),
            clones_exactly::<E>(),
        ensures
            final(self).wf(),
            final(self)@ == match (slot_of(old(self)@, *source), slot_of(old(self)@, *target)) {
                (Some(s), Some(t)) => linked(old(self)@, s, t, data),
                _ => old(self)@,
            },
    {
        proof {
            lemma_slot_of_some(self@, *source);
            lemma_slot_of_some(self@, *target);
            lemma_handles(self@);
        }
        match (self.handle(source), self.handle(target)) {
            (Some(s), Some(t)) => self.link(s.slot, t.slot, data),
            _ => {},
        }
    }

    /// Adds an edge from `source` to `target` unless there is one: fails with
    /// `NoSuchNode` where a key names no node, and with `EdgeExists` where
    /// `source` has an edge to `target`, in both cases changing nothing.
    pub fn try_connect(&mut self, source: &K, target: &K, data: E) -> (r: Result<(), Error>)
        requires
            old(self).wf(),
            obeys_key_model::<K>(),
            clones_exactly::<E>(),
        ensures
            final(self).wf(),
            match (slot_of(old(self)@, *source), slot_of(old(self)@, *target)) {
                (Some(s), Some(t)) => if connected(old(self)@, s, t) {
                    r == Err::<(), Error>(Error::EdgeExists) && final(self)@ == old(self)@
                } else {
                    r == Ok::<(), Error>(()) && final(self)@ == linked(old(self)@, s, t, data)
                },
                _ => r == Err::<(), Error>(Error::NoSuchNode) && final(self)@ == old(self)@,
            },
    {
        proof {
            lemma_slot_of_some(self@, *source);
            lemma_slot_of_some(self@, *target);
            lemma_handles(self@);
        }
        match (self.handle(source), self.handle(target)) {
            (Some(s), Some(t)) => {
                proof {
                    lemma_first_to(self@[s.slot as int].outbound, t);
                }
                if position(&self.nodes[s.slot].adjacent.outbound, &t).is_some() {
                    Err(Error::EdgeExists)
                } else {
                    self.link(s.slot, t.slot, data);
                    Ok(())
                }
            },
            _ => Err(Error::NoSuchNode),
        }
    }
}

impl WeakNode {
    /// The handle of `node`: it names the node in the graph that holds it.
    pub fn downgrade<K, N, E>(node: &Node<K, N, E>) -> (r: WeakNode)
        ensures
            r.slot == node@.slot,
    {
        WeakNode { slot: node.slot }
    }

    /// The node of `graph` that the handle names, if it names one.
    pub fn upgrade<'a, K, N, E>(&self, graph: &'a Digraph<K, N, E>) -> (r: Option<
        &'a Node<K, N, E>,
    >)
        ensures
            r == if self.slot < graph@.len() {
                Some(&graph.arena()[self.slot as int])
            } else {
                None
            },
    {
        if self.slot < graph.nodes.len() {
            Some(&graph.nodes[self.slot])
        } else {
            None
        }
    }
}

} // verus!
