use vstd::prelude::*;
use crate::adjacent::WeakNode;
use crate::edge::Edge;
use crate::method::Method;
use crate::node::Node;

verus! {

/// Which of the two edge lists a traversal follows: the outbound edges, or
/// the inbound ones, which is a traversal of the transposed graph.
#[derive(Clone, Copy, Debug, PartialEq, Eq, Structural)]
pub enum Direction {
    Forward,
    Backward,
}

/// The edge list that a traversal in direction `dir` follows at the node in
/// slot `x`.
pub open spec fn links<K, N, E>(g: Seq<Node<K, N, E>>, dir: Direction, x: int) -> Seq<
    (WeakNode, E),
> {
    match dir {
        Direction::Forward => g[x]@.outbound,
        Direction::Backward => g[x]@.inbound,
    }
}

/// The node at which a traversal in direction `dir` stands when it takes the
/// step over `edge`: the source of the edge, or its target where inbound
/// edges are followed.
pub open spec fn tail<'a, K, N, E>(dir: Direction, edge: Edge<'a, K, N, E>) -> &'a Node<K, N, E> {
    match dir {
        Direction::Forward => edge.source,
        Direction::Backward => edge.target,
    }
}

/// The node that a traversal in direction `dir` comes to by the step over
/// `edge`: the target of the edge, or its source where inbound edges are
/// followed.
pub open spec fn head<'a, K, N, E>(dir: Direction, edge: Edge<'a, K, N, E>) -> &'a Node<K, N, E> {
    match dir {
        Direction::Forward => edge.target,
        Direction::Backward => edge.source,
    }
}

/// The method can say yes to the edge with the value `e` between `x`, where
/// the traversal stands, and `y`; it is shown the edge from its source to
/// its target, whichever way the traversal goes.
pub open spec fn accepts<K, N, E, M: Method<K, N, E>>(
    g: Seq<Node<K, N, E>>,
    dir: Direction,
    method: M,
    x: int,
    y: int,
    e: E,
) -> bool {
    match dir {
        Direction::Forward => method.may_accept(&g[x], &g[y], &e),
        Direction::Backward => method.may_accept(&g[y], &g[x], &e),
    }
}

/// The method can say no to the edge with the value `e` between `x`, where
/// the traversal stands, and `y`.
pub open spec fn refuses<K, N, E, M: Method<K, N, E>>(
    g: Seq<Node<K, N, E>>,
    dir: Direction,
    method: M,
    x: int,
    y: int,
    e: E,
) -> bool {
    match dir {
        Direction::Forward => method.may_reject(&g[x], &g[y], &e),
        Direction::Backward => method.may_reject(&g[y], &g[x], &e),
    }
}

/// `edge` is an edge of `g`: its two nodes are nodes of `g`, and the
/// outbound list of its source holds an entry to its target with its value.
pub open spec fn is_edge<'a, K, N, E>(g: Seq<Node<K, N, E>>, edge: Edge<'a, K, N, E>) -> bool {
    &&& edge.source.slot < g.len()
    &&& edge.target.slot < g.len()
    &&& g[edge.source.slot as int] == *edge.source
    &&& g[edge.target.slot as int] == *edge.target
    &&& g[edge.source.slot as int]@.outbound.contains(
        (WeakNode { slot: edge.target.slot }, *edge.value),
    )
}

/// `edge` is a step of a traversal of `g` in direction `dir`: it is an edge
/// of `g`, from its source to its target whichever way the traversal goes,
/// and the list that the traversal follows where it stands holds it.
pub open spec fn is_hop<'a, K, N, E>(
    g: Seq<Node<K, N, E>>,
    dir: Direction,
    edge: Edge<'a, K, N, E>,
) -> bool {
    &&& is_edge(g, edge)
    &&& links(g, dir, tail(dir, edge).slot as int).contains(
        (WeakNode { slot: head(dir, edge).slot }, *edge.value),
    )
}

/// Each edge of `edges` is a step of a traversal, taken where the one before
/// it led.
pub open spec fn is_walk<'a, K, N, E>(
    g: Seq<Node<K, N, E>>,
    dir: Direction,
    edges: Seq<Edge<'a, K, N, E>>,
) -> bool {
    &&& forall|i: int| 0 <= i < edges.len() ==> is_hop(g, dir, #[trigger] edges[i])
    &&& forall|i: int|
        0 < i < edges.len() ==> tail(dir, #[trigger] edges[i]).slot == head(
            dir,
            edges[i - 1],
        ).slot
}

/// No two steps over `edges` are taken at the same node.
pub open spec fn is_simple<'a, K, N, E>(dir: Direction, edges: Seq<Edge<'a, K, N, E>>) -> bool {
    forall|i: int, j: int|
        0 <= i < j < edges.len() ==> tail(dir, #[trigger] edges[i]).slot != tail(
            dir,
            #[trigger] edges[j],
        ).slot
}

/// No step over `edges` is taken at the node in slot `x`.
pub open spec fn avoids<'a, K, N, E>(dir: Direction, edges: Seq<Edge<'a, K, N, E>>, x: int) -> bool {
    forall|i: int| 0 <= i < edges.len() ==> tail(dir, #[trigger] edges[i]).slot != x
}

/// The method can say yes to every edge of `edges`.
pub open spec fn all_accepted<'a, K, N, E, M: Method<K, N, E>>(
    method: M,
    edges: Seq<Edge<'a, K, N, E>>,
) -> bool {
    forall|i: int|
        0 <= i < edges.len() ==> method.may_accept(
            (#[trigger] edges[i]).source,
            edges[i].target,
            edges[i].value,
        )
}

/// The method may be asked about every edge that a traversal can come upon.
pub open spec fn all_callable<K, N, E, M: Method<K, N, E>>(
    g: Seq<Node<K, N, E>>,
    dir: Direction,
    method: M,
) -> bool {
    forall|x: int, j: int|
        0 <= x < g.len() && 0 <= j < links(g, dir, x).len() && links(g, dir, x)[j].0.slot
            < g.len() ==> match dir {
            Direction::Forward => method.callable(
                &g[x],
                &g[(#[trigger] links(g, dir, x)[j]).0.slot as int],
                &links(g, dir, x)[j].1,
            ),
            Direction::Backward => method.callable(
                &g[links(g, dir, x)[j].0.slot as int],
                &g[x],
                &links(g, dir, x)[j].1,
            ),
        }
}

/// The list that the traversal follows at `x` has an entry to `y` that the
/// method cannot refuse.
pub open spec fn firmly_linked<K, N, E, M: Method<K, N, E>>(
    g: Seq<Node<K, N, E>>,
    dir: Direction,
    method: M,
    x: int,
    y: int,
) -> bool {
    exists|j: int|
        0 <= j < links(g, dir, x).len() && (#[trigger] links(g, dir, x)[j]).0.slot == y
            && !refuses(g, dir, method, x, y, links(g, dir, x)[j].1)
}

/// `route` names two or more nodes of `g`, each firmly linked to the next.
pub open spec fn is_firm_route<K, N, E, M: Method<K, N, E>>(
    g: Seq<Node<K, N, E>>,
    dir: Direction,
    method: M,
    route: Seq<int>,
) -> bool {
    &&& route.len() >= 2
    &&& forall|i: int| 0 <= i < route.len() ==> 0 <= #[trigger] route[i] < g.len()
    &&& forall|i: int|
        0 < i < route.len() ==> firmly_linked(g, dir, method, route[i - 1], #[trigger] route[i])
}

/// From `from`, one or more edges that the method cannot refuse lead to `to`.
pub open spec fn reachable<K, N, E, M: Method<K, N, E>>(
    g: Seq<Node<K, N, E>>,
    dir: Direction,
    method: M,
    from: int,
    to: int,
) -> bool {
    exists|route: Seq<int>|
        #[trigger] is_firm_route(g, dir, method, route) && route[0] == from && route.last() == to
}

/// No firm route from `root` to `goal` has fewer edges than `path`.
pub open spec fn is_shortest<'a, K, N, E, M: Method<K, N, E>>(
    g: Seq<Node<K, N, E>>,
    dir: Direction,
    method: M,
    root: int,
    goal: int,
    path: Seq<Edge<'a, K, N, E>>,
) -> bool {
    forall|route: Seq<int>|
        #![trigger is_firm_route(g, dir, method, route)]
        is_firm_route(g, dir, method, route) && route[0] == root && route.last() == goal
            ==> path.len() < route.len()
}

/// What a traversal from `root` may return. A path is a walk from `root` to
/// the goal, each of its edges from its source to its target whichever way
/// the traversal goes, over edges that the method could accept, which comes to no node
/// twice but, in a search for a cycle, to the root, and is a single edge where
/// the root has an edge to the goal that the method could not refuse; where
/// the root counts as seen from the start (`cycle` is false) no path leads
/// back to it. No path means that the goal cannot be reached over edges that
/// the method could not refuse, or that it is the root, seen from the start,
/// or that there is no goal. Where the nodes were taken up in the order in
/// which they were found (`fifo`), no route over edges that the method could
/// not refuse is shorter than the path.
pub open spec fn outcome<'a, K, N, E, M: Method<K, N, E>>(
    g: Seq<Node<K, N, E>>,
    dir: Direction,
    method: M,
    root: int,
    goal: Option<int>,
    cycle: bool,
    fifo: bool,
    r: Option<Seq<Edge<'a, K, N, E>>>,
) -> bool {
    match r {
        Some(path) => {
            &&& goal is Some
            &&& (cycle || goal != Some(root))
            &&& path.len() > 0
            &&& is_walk(g, dir, path)
            &&& tail(dir, path[0]).slot == root
            &&& head(dir, path.last()).slot == goal.unwrap()
            &&& is_simple(dir, path)
            &&& (cycle || avoids(dir, path, goal.unwrap()))
            &&& all_accepted(method, path)
            &&& firmly_linked(g, dir, method, root, goal.unwrap()) ==> path.len() == 1
            &&& fifo ==> is_shortest(g, dir, method, root, goal.unwrap(), path)
        },
        None => goal matches Some(t) ==> (!cycle && t == root) || !reachable(
            g,
            dir,
            method,
            root,
            t,
        ),
    }
}

} // verus!
