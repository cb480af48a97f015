use vstd::prelude::*;
use crate::adjacent::{
    first_to, has_peer, is_first_to, lemma_first_to, lemma_first_to_is, lemma_values_to_contains,
    lemma_values_to_empty, lemma_values_to_push, lemma_values_to_remove, lemma_without, values_to,
    WeakNode,
};
use crate::digraph::Digraph;
use crate::edge::Edge;
use crate::method::Method;
use crate::model::{
    connected, graph_wf, handle, isolated, lemma_handles, lemma_linked, lemma_unlinked, linked,
    mirrored, slot_of, total_out, unlinked,
};
use crate::node::{Node, NodeView};
use crate::path::nodes_along;
use crate::search::search_outcome;
use crate::walk::{
    firmly_linked, head, is_edge, is_firm_route, is_hop, is_walk, links, outcome, reachable,
    refuses, tail, Direction,
};

verus! {

/// Mirror: an edge with the value `e` leaves `a` for `b` exactly when one
/// with that value reaches `b` from `a`.
pub proof fn lemma_mirror<K, N, E>(g: Seq<NodeView<K, N, E>>, a: int, b: int, e: E)
    requires
        graph_wf(g),
        0 <= a < g.len(),
        0 <= b < g.len(),
    ensures
        g[a].outbound.contains((handle(b), e)) <==> g[b].inbound.contains((handle(a), e)),
        connected(g, a, b) <==> has_peer(g[b].inbound, handle(a)),
{
    assert(mirrored(g, a, b));
    lemma_values_to_contains(g[a].outbound, handle(b), e);
    lemma_values_to_contains(g[b].inbound, handle(a), e);
    lemma_values_to_empty(g[a].outbound, handle(b));
    lemma_values_to_empty(g[b].inbound, handle(a));
}

/// Identity: two handles of the node in slot `i` are equal, and each names
/// that node of the graph, and with it its key.
pub proof fn lemma_handle_identity<K, N, E>(graph: &Digraph<K, N, E>, i: int, n: WeakNode, m: WeakNode)
    requires
        graph.wf(),
        0 <= i < graph@.len(),
        n.slot == graph.arena()[i]@.slot,
        m.slot == graph.arena()[i]@.slot,
    ensures
        m == n,
        m.slot < graph.arena().len(),
        graph.arena()[m.slot as int] == graph.arena()[i],
        graph.arena()[m.slot as int]@.key == graph.arena()[n.slot as int]@.key,
{
    graph.lemma_view();
    assert(graph@[i].slot == i);
}

/// Isolate: the node that was cut off has no edges, and no list of another
/// node holds an entry to it.
pub proof fn lemma_isolated_orphan<K, N, E>(g: Seq<NodeView<K, N, E>>, n: int)
    requires
        graph_wf(g),
        0 <= n < g.len(),
    ensures
        isolated(g, n)[n].outbound.len() == 0,
        isolated(g, n)[n].inbound.len() == 0,
        forall|x: int|
            0 <= x < g.len() ==> !has_peer((#[trigger] isolated(g, n)[x]).outbound, handle(n))
                && !has_peer(isolated(g, n)[x].inbound, handle(n)),
{
    assert forall|x: int| 0 <= x < g.len() implies !has_peer(
        (#[trigger] isolated(g, n)[x]).outbound,
        handle(n),
    ) && !has_peer(isolated(g, n)[x].inbound, handle(n)) by {
        lemma_without(g[x].outbound, handle(n));
        lemma_without(g[x].inbound, handle(n));
    }
}

/// Isolate leaves the edges among the other nodes as they were.
pub proof fn lemma_isolated_others<K, N, E>(g: Seq<NodeView<K, N, E>>, n: int, x: int, y: int)
    requires
        graph_wf(g),
        0 <= n < g.len(),
        0 <= x < g.len(),
        0 <= y < g.len(),
        x != n,
        y != n,
    ensures
        values_to(isolated(g, n)[x].outbound, handle(y)) == values_to(g[x].outbound, handle(y)),
        values_to(isolated(g, n)[x].inbound, handle(y)) == values_to(g[x].inbound, handle(y)),
        connected(isolated(g, n), x, y) <==> connected(g, x, y),
{
    lemma_handles(g);
    crate::adjacent::lemma_values_to_without(g[x].outbound, handle(n), handle(y));
    crate::adjacent::lemma_values_to_without(g[x].inbound, handle(n), handle(y));
    lemma_values_to_empty(g[x].outbound, handle(y));
    lemma_values_to_empty(isolated(g, n)[x].outbound, handle(y));
}

/// Connect and then disconnect: the number of edges is what it was, every
/// node has edges to and from the nodes it had edges to and from, and where
/// the source had no edge to the target the graph is what it was.
pub proof fn lemma_connect_disconnect<K, N, E>(g: Seq<NodeView<K, N, E>>, s: int, t: int, e: E)
    requires
        graph_wf(g),
        0 <= s < g.len(),
        0 <= t < g.len(),
    ensures
        unlinked(linked(g, s, t, e), s, t).len() == g.len(),
        total_out(unlinked(linked(g, s, t, e), s, t)) == total_out(g),
        graph_wf(unlinked(linked(g, s, t, e), s, t)),
        forall|x: int, y: int|
            #![trigger connected(unlinked(linked(g, s, t, e), s, t), x, y)]
            0 <= x < g.len() && 0 <= y < g.len() ==> (connected(
                unlinked(linked(g, s, t, e), s, t),
                x,
                y,
            ) <==> connected(g, x, y)),
        !connected(g, s, t) ==> unlinked(linked(g, s, t, e), s, t) == g,
{
    lemma_handles(g);
    let g1 = linked(g, s, t, e);
    let g2 = unlinked(g1, s, t);
    lemma_linked(g, s, t, e);
    let pushed = g[s].outbound.len() as int;
    assert(g1[s].outbound[pushed].0 == handle(t));
    assert(connected(g1, s, t));
    lemma_unlinked(g1, s, t);
    lemma_first_to(g1[s].outbound, handle(t));
    lemma_first_to(g1[t].inbound, handle(s));
    let i = first_to(g1[s].outbound, handle(t)).unwrap();
    let j = first_to(g1[t].inbound, handle(s)).unwrap();
    assert forall|x: int, y: int|
        #![trigger connected(g2, x, y)]
        0 <= x < g.len() && 0 <= y < g.len() implies (connected(g2, x, y) <==> connected(
        g,
        x,
        y,
    )) by {
        lemma_values_to_empty(g2[x].outbound, handle(y));
        lemma_values_to_empty(g[x].outbound, handle(y));
        lemma_values_to_push(g[s].outbound, (handle(t), e), handle(y));
        lemma_values_to_remove(g1[s].outbound, handle(t), i, handle(y));
        if x == s && y == t {
            assert(values_to(g2[x].outbound, handle(y)).len() == values_to(
                g[x].outbound,
                handle(y),
            ).len());
        }
    }
    if !connected(g, s, t) {
        assert(mirrored(g, s, t));
        lemma_values_to_empty(g[s].outbound, handle(t));
        lemma_values_to_empty(g[t].inbound, handle(s));
        assert(is_first_to(g1[s].outbound, handle(t), pushed)) by {
            assert forall|k: int| 0 <= k < pushed implies (#[trigger] g1[s].outbound[k]).0
                != handle(t) by {
                assert(g1[s].outbound[k] == g[s].outbound[k]);
            }
        }
        lemma_first_to_is(g1[s].outbound, handle(t), pushed);
        let last = g[t].inbound.len() as int;
        assert(is_first_to(g1[t].inbound, handle(s), last)) by {
            assert(g1[t].inbound[last].0 == handle(s));
            assert forall|k: int| 0 <= k < last implies (#[trigger] g1[t].inbound[k]).0 != handle(
                s,
            ) by {
                assert(g1[t].inbound[k] == g[t].inbound[k]);
            }
        }
        lemma_first_to_is(g1[t].inbound, handle(s), last);
        assert(g1[s].outbound.remove(pushed) =~= g[s].outbound);
        assert(g1[t].inbound.remove(last) =~= g[t].inbound);
        assert forall|x: int| 0 <= x < g.len() implies g2[x] == g[x] by {
            assert(g2[x].outbound =~= g[x].outbound);
            assert(g2[x].inbound =~= g[x].inbound);
        }
        assert(g2 =~= g);
    }
}

/// Connect once: where the source had no edge to the target, it has one
/// after a connect, so that a second `try_connect` is refused, and that edge
/// is the only one and carries the value it was made with.
pub proof fn lemma_connect_once<K, N, E>(g: Seq<NodeView<K, N, E>>, s: int, t: int, e: E)
    requires
        graph_wf(g),
        0 <= s < g.len(),
        0 <= t < g.len(),
        !connected(g, s, t),
    ensures
        connected(linked(g, s, t, e), s, t),
        values_to(linked(g, s, t, e)[s].outbound, handle(t)) == seq![e],
        values_to(linked(g, s, t, e)[t].inbound, handle(s)) == seq![e],
{
    lemma_handles(g);
    let g1 = linked(g, s, t, e);
    lemma_linked(g, s, t, e);
    lemma_values_to_empty(g[s].outbound, handle(t));
    lemma_values_to_push(g[s].outbound, (handle(t), e), handle(t));
    assert(values_to(g1[s].outbound, handle(t)) =~= seq![e]);
    lemma_values_to_empty(g1[s].outbound, handle(t));
    assert(mirrored(g1, s, t));
}

/// The nodes along a path that a traversal returned: the first is the root,
/// the last is the goal, and each has, in the list that the traversal
/// follows, an edge to the next.
pub proof fn lemma_path_nodes<'a, K, N, E, M: Method<K, N, E>>(
    g: Seq<Node<K, N, E>>,
    dir: Direction,
    method: M,
    root: int,
    goal: Option<int>,
    cycle: bool,
    fifo: bool,
    path: Seq<Edge<'a, K, N, E>>,
)
    requires
        outcome(g, dir, method, root, goal, cycle, fifo, Some(path)),
    ensures
        nodes_along(dir, path).len() == path.len() + 1,
        nodes_along(dir, path)[0] == &g[root],
        nodes_along(dir, path).last() == &g[goal.unwrap()],
        forall|i: int|
            0 <= i < path.len() ==> {
                &&& (#[trigger] nodes_along(dir, path)[i]).slot < g.len()
                &&& g[nodes_along(dir, path)[i].slot as int] == *nodes_along(dir, path)[i]
                &&& has_peer(
                    links(g, dir, nodes_along(dir, path)[i].slot as int),
                    WeakNode { slot: nodes_along(dir, path)[i + 1].slot },
                )
            },
{
    let nodes = nodes_along(dir, path);
    assert(is_hop(g, dir, path[0]));
    assert(is_hop(g, dir, path[path.len() - 1]));
    assert forall|i: int| 0 <= i < path.len() implies {
        &&& (#[trigger] nodes[i]).slot < g.len()
        &&& g[nodes[i].slot as int] == *nodes[i]
        &&& has_peer(links(g, dir, nodes[i].slot as int), WeakNode { slot: nodes[i + 1].slot })
    } by {
        assert(is_hop(g, dir, path[i]));
        if i > 0 {
            assert(is_hop(g, dir, path[i - 1]));
            assert(tail(dir, path[i]).slot == head(dir, path[i - 1]).slot);
        }
        let list = links(g, dir, tail(dir, path[i]).slot as int);
        let entry = (WeakNode { slot: head(dir, path[i]).slot }, *path[i].value);
        let k = choose|k: int| 0 <= k < list.len() && list[k] == entry;
        assert(list[k].0 == WeakNode { slot: head(dir, path[i]).slot });
    }
}

/// No walk of `g` in direction `dir` ends where it starts.
pub open spec fn acyclic<K, N, E>(g: Seq<Node<K, N, E>>, dir: Direction) -> bool {
    forall|edges: Seq<Edge<'_, K, N, E>>|
        #![trigger is_walk(g, dir, edges)]
        is_walk(g, dir, edges) && edges.len() > 0 ==> tail(dir, edges[0]).slot != head(
            dir,
            edges.last(),
        ).slot
}

/// A search for a cycle in a graph without cycles returns nothing.
pub proof fn lemma_acyclic_none<'a, K, N, E, M: Method<K, N, E>>(
    g: Seq<Node<K, N, E>>,
    dir: Direction,
    method: M,
    root: int,
    fifo: bool,
    r: Option<Seq<Edge<'a, K, N, E>>>,
)
    requires
        acyclic(g, dir),
        outcome(g, dir, method, root, Some(root), true, fifo, r),
    ensures
        r is None,
{
    if let Some(path) = r {
        assert(is_walk(g, dir, path));
    }
}

/// A search for a cycle from a root with an edge to itself that the method
/// could not refuse returns the two nodes of one edge: the root and the
/// root.
pub proof fn lemma_self_loop<'a, K, N, E, M: Method<K, N, E>>(
    g: Seq<Node<K, N, E>>,
    dir: Direction,
    method: M,
    root: int,
    fifo: bool,
    r: Option<Seq<Edge<'a, K, N, E>>>,
    j: int,
)
    requires
        outcome(g, dir, method, root, Some(root), true, fifo, r),
        0 <= root < g.len(),
        0 <= j < links(g, dir, root).len(),
        links(g, dir, root)[j].0.slot == root,
        !refuses(g, dir, method, root, root, links(g, dir, root)[j].1),
    ensures
        r is Some,
        r.unwrap().len() == 1,
        nodes_along(dir, r.unwrap()) == seq![&g[root], &g[root]],
{
    assert(firmly_linked(g, dir, method, root, root));
    let route = seq![root, root];
    assert(is_firm_route(g, dir, method, route)) by {
        assert forall|i: int| 0 < i < route.len() implies firmly_linked(
            g,
            dir,
            method,
            route[i - 1],
            #[trigger] route[i],
        ) by {}
    }
    assert(route[0] == root && route.last() == root);
    assert(reachable(g, dir, method, root, root));
    let path = r.unwrap();
    assert(is_hop(g, dir, path[0]));
    assert(nodes_along(dir, path) =~= seq![&g[root], &g[root]]);
}

/// An edge of the graph is in the inbound list of its target.
proof fn lemma_hop_back<'a, K, N, E>(graph: &Digraph<K, N, E>, edge: Edge<'a, K, N, E>)
    requires
        graph.wf(),
        is_edge(graph.arena(), edge),
    ensures
        links(graph.arena(), Direction::Backward, edge.target.slot as int).contains(
            (WeakNode { slot: edge.source.slot }, *edge.value),
        ),
{
    graph.lemma_view();
    lemma_handles(graph@);
    let a = edge.source.slot as int;
    let b = edge.target.slot as int;
    assert(graph@[a] == graph.arena()[a]@);
    assert(graph@[b] == graph.arena()[b]@);
    lemma_mirror(graph@, a, b, *edge.value);
    assert(handle(b) == WeakNode { slot: edge.target.slot });
    assert(handle(a) == WeakNode { slot: edge.source.slot });
}

/// Transposition: where a forward traversal from `root` found a path to the
/// node in slot `k`, a backward traversal from that node towards `root`,
/// with a method that refuses no edge, finds a path too.
pub proof fn lemma_transpose<'a, K, N, E, M1: Method<K, N, E>, M2: Method<K, N, E>>(
    graph: &Digraph<K, N, E>,
    root: int,
    k: int,
    forth: M1,
    back: M2,
    fifo: bool,
    path: Seq<Edge<'a, K, N, E>>,
    r: Option<Seq<Edge<'a, K, N, E>>>,
)
    requires
        graph.wf(),
        outcome(graph.arena(), Direction::Forward, forth, root, Some(k), false, fifo, Some(path)),
        outcome(graph.arena(), Direction::Backward, back, k, Some(root), false, fifo, r),
        forall|u: &Node<K, N, E>, v: &Node<K, N, E>, e: &E| !back.may_reject(u, v, e),
    ensures
        r is Some,
{
    let g = graph.arena();
    let n = path.len() as int;
    let route = Seq::new(
        (n + 1) as nat,
        |i: int|
            if i < n {
                path[n - 1 - i].target.slot as int
            } else {
                path[0].source.slot as int
            },
    );
    assert forall|i: int| 0 <= i < route.len() implies 0 <= #[trigger] route[i] < g.len() by {
        if i < n {
            assert(is_hop(g, Direction::Forward, path[n - 1 - i]));
        } else {
            assert(is_hop(g, Direction::Forward, path[0]));
        }
    }
    assert forall|i: int| 0 < i < route.len() implies firmly_linked(
        g,
        Direction::Backward,
        back,
        route[i - 1],
        #[trigger] route[i],
    ) by {
        let edge = path[n - i];
        assert(is_hop(g, Direction::Forward, edge));
        lemma_hop_back(graph, edge);
        assert(route[i - 1] == edge.target.slot);
        if i < n {
            assert(tail(Direction::Forward, path[n - i]).slot == head(
                Direction::Forward,
                path[n - i - 1],
            ).slot);
        }
        assert(route[i] == edge.source.slot);
        let list = links(g, Direction::Backward, edge.target.slot as int);
        let entry = (WeakNode { slot: edge.source.slot }, *edge.value);
        let j = choose|j: int| 0 <= j < list.len() && list[j] == entry;
        assert(list[j].0.slot == route[i]);
    }
    assert(is_firm_route(g, Direction::Backward, back, route));
    assert(route[0] == k && route.last() == root);
    assert(reachable(g, Direction::Backward, back, k, root));
}

/// Transposition, by key: where a forward traversal from the node that
/// `root` names found a path to the node that `target` names, a backward
/// traversal from that node towards the first, with a method that refuses
/// no edge, finds a path too.
pub proof fn lemma_transpose_by_key<'a, K, N, E, M1: Method<K, N, E>, M2: Method<K, N, E>>(
    graph: &Digraph<K, N, E>,
    root: K,
    target: K,
    forth: M1,
    back: M2,
    fifo: bool,
    path: Seq<Edge<'a, K, N, E>>,
    r: Option<Seq<Edge<'a, K, N, E>>>,
)
    requires
        graph.wf(),
        search_outcome(
            graph,
            root,
            Some(target),
            Direction::Forward,
            forth,
            false,
            fifo,
            Some(path),
        ),
        search_outcome(graph, target, Some(root), Direction::Backward, back, false, fifo, r),
        forall|u: &Node<K, N, E>, v: &Node<K, N, E>, e: &E| !back.may_reject(u, v, e),
    ensures
        r is Some,
{
    let s = slot_of(graph@, root).unwrap();
    let k = slot_of(graph@, target).unwrap();
    lemma_transpose(graph, s, k, forth, back, fifo, path, r);
}

} // verus!
