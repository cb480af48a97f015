use std::hash::Hash;
use vstd::prelude::*;
use vstd::std_specs::hash::obeys_key_model;
use crate::digraph::Digraph;
use crate::edge::Edge;
use crate::frontier::Queue;
use crate::method::{FilterMapMethod, FilterMethod, MapMethod, Method, NullMethod};
use crate::node::Node;
use crate::path::Path;
use crate::run::refuses_nothing;
use crate::search::{
    end_of, key_of, node_outcome, nodes_of, nodes_outcome, path_view, search_from, search_outcome,
    search_result, seq_of,
};
use crate::walk::{all_callable, Direction};

verus! {

/// A breadth-first traversal in the making: where it starts, what it looks
/// for, which way it follows the edges and what it asks at each.
pub struct DiBFS<'a, K, N, E, M> {
    pub graph: &'a Digraph<K, N, E>,
    pub root: &'a K,
    pub target: Option<&'a K>,
    pub method: M,
    pub transpose: Direction,
}

impl<'a, K, N, E> DiBFS<'a, K, N, E, NullMethod> {
    /// A traversal of `graph` from the node that `root` names, forward, with
    /// no target and no hook.
    pub fn new(graph: &'a Digraph<K, N, E>, root: &'a K) -> (r: Self)
        ensures
            r.graph == graph,
            r.root == root,
            r.target is None,
            r.transpose == Direction::Forward,
    {
        DiBFS { graph, root, target: None, method: NullMethod, transpose: Direction::Forward }
    }
}

impl<'a, K, N, E, M> DiBFS<'a, K, N, E, M> {
    /// Looks for the node that `target` names.
    pub fn target(self, target: &'a K) -> (r: Self)
        ensures
            r.graph == self.graph,
            r.root == self.root,
            r.target == Some(target),
            r.method == self.method,
            r.transpose == self.transpose,
    {
        DiBFS {
            graph: self.graph,
            root: self.root,
            target: Some(target),
            method: self.method,
            transpose: self.transpose,
        }
    }

    /// Follows inbound edges: traverses the transposed graph.
    pub fn transpose(self) -> (r: Self)
        ensures
            r.graph == self.graph,
            r.root == self.root,
            r.target == self.target,
            r.method == self.method,
            r.transpose == Direction::Backward,
    {
        DiBFS {
            graph: self.graph,
            root: self.root,
            target: self.target,
            method: self.method,
            transpose: Direction::Backward,
        }
    }

    /// Runs `f` on every edge that leads to a node not seen before, shown
    /// from its source to its target, and follows each.
    pub fn map<F: Fn(&Node<K, N, E>, &Node<K, N, E>, &E)>(self, f: F) -> (r: DiBFS<
        'a,
        K,
        N,
        E,
        MapMethod<F>,
    >)
        ensures
            r.graph == self.graph,
            r.root == self.root,
            r.target == self.target,
            r.method.0 == f,
            r.transpose == self.transpose,
    {
        DiBFS {
            graph: self.graph,
            root: self.root,
            target: self.target,
            method: MapMethod(f),
            transpose: self.transpose,
        }
    }

    /// Follows the edges on which `f` holds; `f` is shown each edge from
    /// its source to its target.
    pub fn filter<F: Fn(&Node<K, N, E>, &Node<K, N, E>, &E) -> bool>(self, f: F) -> (r: DiBFS<
        'a,
        K,
        N,
        E,
        FilterMethod<F>,
    >)
        ensures
            r.graph == self.graph,
            r.root == self.root,
            r.target == self.target,
            r.method.0 == f,
            r.transpose == self.transpose,
    {
        DiBFS {
            graph: self.graph,
            root: self.root,
            target: self.target,
            method: FilterMethod(f),
            transpose: self.transpose,
        }
    }

    /// Follows the edges on which `f` holds; `f` may act on the nodes it is
    /// shown.
    pub fn filter_map<F: Fn(&Node<K, N, E>, &Node<K, N, E>, &E) -> bool>(self, f: F) -> (r: DiBFS<
        'a,
        K,
        N,
        E,
        FilterMapMethod<F>,
    >)
        ensures
            r.graph == self.graph,
            r.root == self.root,
            r.target == self.target,
            r.method.0 == f,
            r.transpose == self.transpose,
    {
        DiBFS {
            graph: self.graph,
            root: self.root,
            target: self.target,
            method: FilterMapMethod(f),
            transpose: self.transpose,
        }
    }
}

impl<'a, K: Hash + Eq, N, E, M: Method<K, N, E>> DiBFS<'a, K, N, E, M> {
    /// The route to the target: the edges from the root to it.
    pub fn search_path(&self) -> (r: Option<Path<'a, K, N, E>>)
        requires
            self.graph.wf(),
            obeys_key_model::<K>(),
            all_callable(self.graph.arena(), self.transpose, self.method),
        ensures
            search_outcome(
                self.graph,
                *self.root,
                key_of(self.target),
                self.transpose,
                self.method,
                false,
                true,
                path_view(r),
            ),
            r matches Some(path) ==> path.direction() == self.transpose,
            refuses_nothing(self.graph.arena(), self.transpose, self.method) ==> path_view(r) == search_result::<K, N, E, Queue>(
                self.graph,
                *self.root,
                key_of(self.target),
                self.transpose,
                false,
                Seq::empty(),
            ),
    {
        search_from(
            self.graph,
            self.root,
            self.target,
            self.transpose,
            &self.method,
            Queue::new(),
            false,
        )
    }

    /// A route from the root back to the root: the target is the root
    /// itself, which does not count as seen at the start.
    pub fn search_cycle(&self) -> (r: Option<Path<'a, K, N, E>>)
        requires
            self.graph.wf(),
            obeys_key_model::<K>(),
            all_callable(self.graph.arena(), self.transpose, self.method),
        ensures
            search_outcome(
                self.graph,
                *self.root,
                key_of(self.target),
                self.transpose,
                self.method,
                true,
                true,
                path_view(r),
            ),
            r matches Some(path) ==> path.direction() == self.transpose,
            refuses_nothing(self.graph.arena(), self.transpose, self.method) ==> path_view(r) == search_result::<K, N, E, Queue>(
                self.graph,
                *self.root,
                key_of(self.target),
                self.transpose,
                true,
                Seq::empty(),
            ),
    {
        search_from(
            self.graph,
            self.root,
            self.target,
            self.transpose,
            &self.method,
            Queue::new(),
            true,
        )
    }

    /// The target, where the traversal reaches it.
    pub fn search(&self) -> (r: Option<&'a Node<K, N, E>>)
        requires
            self.graph.wf(),
            obeys_key_model::<K>(),
            all_callable(self.graph.arena(), self.transpose, self.method),
        ensures
            node_outcome(
                self.graph,
                *self.root,
                key_of(self.target),
                self.transpose,
                self.method,
                false,
                true,
                r,
            ),
            refuses_nothing(self.graph.arena(), self.transpose, self.method) ==> r == end_of(self.transpose, search_result::<K, N, E, Queue>(
                self.graph,
                *self.root,
                key_of(self.target),
                self.transpose,
                false,
                Seq::empty(),
            )),
    {
        match self.search_path() {
            Some(path) => {
                proof {
                    crate::model::lemma_slot_of_some(self.graph@, *self.root);
                }
                path.last()
            },
            None => None,
        }
    }

    /// The edges of the route to the target.
    pub fn path_edges(&self) -> (r: Option<Vec<Edge<'a, K, N, E>>>)
        requires
            self.graph.wf(),
            obeys_key_model::<K>(),
            all_callable(self.graph.arena(), self.transpose, self.method),
        ensures
            search_outcome(
                self.graph,
                *self.root,
                key_of(self.target),
                self.transpose,
                self.method,
                false,
                true,
                seq_of(r),
            ),
            refuses_nothing(self.graph.arena(), self.transpose, self.method) ==> seq_of(r) == search_result::<K, N, E, Queue>(
                self.graph,
                *self.root,
                key_of(self.target),
                self.transpose,
                false,
                Seq::empty(),
            ),
    {
        match self.search_path() {
            Some(path) => Some(path.to_vec_edges()),
            None => None,
        }
    }

    /// The nodes of the route to the target, from the root on.
    pub fn path_nodes(&self) -> (r: Option<Vec<&'a Node<K, N, E>>>)
        requires
            self.graph.wf(),
            obeys_key_model::<K>(),
            all_callable(self.graph.arena(), self.transpose, self.method),
        ensures
            nodes_outcome(
                self.graph,
                *self.root,
                key_of(self.target),
                self.transpose,
                self.method,
                false,
                true,
                seq_of(r),
            ),
            refuses_nothing(self.graph.arena(), self.transpose, self.method) ==> seq_of(r) == nodes_of(self.transpose, search_result::<K, N, E, Queue>(
                self.graph,
                *self.root,
                key_of(self.target),
                self.transpose,
                false,
                Seq::empty(),
            )),
    {
        match self.search_path() {
            Some(path) => Some(path.to_vec_nodes()),
            None => None,
        }
    }
}

} // verus!
