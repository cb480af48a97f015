use vstd::prelude::*;
use crate::edge::Edge;
use crate::node::Node;
use crate::walk::{head, tail, Direction};

verus! {

/// The nodes along the edges of a walk in direction `dir`, in the order in
/// which the walk comes to them: where it starts, then where each step
/// leads.
pub open spec fn nodes_along<'a, K, N, E>(dir: Direction, edges: Seq<Edge<'a, K, N, E>>) -> Seq<
    &'a Node<K, N, E>,
> {
    if edges.len() == 0 {
        Seq::empty()
    } else {
        Seq::new(
            edges.len() + 1,
            |i: int|
                if i == 0 {
                    tail(dir, edges[0])
                } else {
                    head(dir, edges[i - 1])
                },
        )
    }
}

/// The route that a traversal found: its edges in the order in which the
/// traversal went over them, from the root on, each from its source to its
/// target, and the direction in which the traversal went.
pub struct Path<'a, K, N, E> {
    pub(crate) edges: Vec<Edge<'a, K, N, E>>,
    pub(crate) direction: Direction,
}

impl<'a, K, N, E> View for Path<'a, K, N, E> {
    type V = Seq<Edge<'a, K, N, E>>;

    closed spec fn view(&self) -> Seq<Edge<'a, K, N, E>> {
        self.edges@
    }
}

impl<'a, K, N, E> Path<'a, K, N, E> {
    /// The direction in which the route was gone.
    pub closed spec fn direction(&self) -> Direction {
        self.direction
    }

    /// The route over `edges`, gone in `direction`.
    pub fn new(edges: Vec<Edge<'a, K, N, E>>, direction: Direction) -> (r: Self)
        ensures
            r@ == edges@,
            r.direction() == direction,
    {
        Path { edges, direction }
    }

    /// The number of edges.
    pub fn len(&self) -> (r: usize)
        ensures
            r == self@.len(),
    {
        self.edges.len()
    }

    /// The edges of the route, in order.
    pub fn to_vec_edges(self) -> (r: Vec<Edge<'a, K, N, E>>)
        ensures
            r@ == self@,
    {
        self.edges
    }

    /// The node at which the step over `edge` is taken.
    fn from(&self, edge: &Edge<'a, K, N, E>) -> (r: &'a Node<K, N, E>)
        ensures
            r == tail(self.direction(), *edge),
    {
        match self.direction {
            Direction::Forward => edge.source,
            Direction::Backward => edge.target,
        }
    }

    /// The node to which the step over `edge` leads.
    fn to(&self, edge: &Edge<'a, K, N, E>) -> (r: &'a Node<K, N, E>)
        ensures
            r == head(self.direction(), *edge),
    {
        match self.direction {
            Direction::Forward => edge.target,
            Direction::Backward => edge.source,
        }
    }

    /// The nodes of the route, from the root on: one more than it has edges,
    /// or none if it has no edge.
    pub fn to_vec_nodes(&self) -> (r: Vec<&'a Node<K, N, E>>)
        ensures
            r@ == nodes_along(self.direction(), self@),
    {
        let mut nodes: Vec<&'a Node<K, N, E>> = Vec::new();
        if self.edges.len() == 0 {
            assert(nodes@ =~= nodes_along(self.direction(), self@));
            return nodes;
        }
        nodes.push(self.from(&self.edges[0]));
        let mut i: usize = 0;
        while i < self.edges.len()
            invariant
                self.edges@.len() > 0,
                i <= self.edges@.len(),
                nodes@.len() == i + 1,
                forall|k: int|
                    0 <= k <= i ==> #[trigger] nodes@[k] == nodes_along(
                        self.direction(),
                        self@,
                    )[k],
            decreases self.edges@.len() - i,
        {
            nodes.push(self.to(&self.edges[i]));
            i += 1;
        }
        assert(nodes@ =~= nodes_along(self.direction(), self@));
        nodes
    }

    /// The node that the route starts at.
    pub fn first(&self) -> (r: Option<&'a Node<K, N, E>>)
        ensures
            r == if self@.len() > 0 {
                Some(tail(self.direction(), self@[0]))
            } else {
                None
            },
    {
        if self.edges.len() > 0 {
            Some(self.from(&self.edges[0]))
        } else {
            None
        }
    }

    /// The node that the route ends at.
    pub fn last(&self) -> (r: Option<&'a Node<K, N, E>>)
        ensures
            r == if self@.len() > 0 {
                Some(head(self.direction(), self@.last()))
            } else {
                None
            },
    {
        if self.edges.len() > 0 {
            Some(self.to(&self.edges[self.edges.len() - 1]))
        } else {
            None
        }
    }

    /// The route from its start to its end; a path already runs that way.
    pub fn backtrack(self) -> (r: Self)
        ensures
            r@ == self@,
            r.direction() == self.direction(),
    {
        self
    }
}

} // verus!
