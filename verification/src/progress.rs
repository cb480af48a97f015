use vstd::prelude::*;
use crate::method::Method;
use crate::node::Node;
use crate::walk::{
    accepts, firmly_linked, is_firm_route, links, reachable, refuses, Direction,
};

verus! {

/// How far a traversal has come: which nodes it has seen, the edge over which
/// it found each, how many edges lie between each and the root, and which
/// nodes it has expanded.
pub struct Progress {
    pub visited: Seq<bool>,
    pub parent: Seq<Option<(usize, usize)>>,
    pub depth: Seq<nat>,
    pub expanded: Set<int>,
}

/// The number of nodes not seen yet.
pub open spec fn unvisited(visited: Seq<bool>) -> nat
    decreases visited.len(),
{
    if visited.len() == 0 {
        0
    } else if visited.last() {
        unvisited(visited.drop_last())
    } else {
        unvisited(visited.drop_last()) + 1
    }
}

/// The edge over which `v` was found is an edge to `v` that the method could
/// accept, from a node that is the root or was found itself, one edge nearer
/// to the root.
pub open spec fn step_ok<K, N, E, M: Method<K, N, E>>(
    g: Seq<Node<K, N, E>>,
    dir: Direction,
    method: M,
    root: int,
    parent: Seq<Option<(usize, usize)>>,
    depth: Seq<nat>,
    v: int,
) -> bool {
    let (u, j) = parent[v].unwrap();
    &&& u < g.len()
    &&& j < links(g, dir, u as int).len()
    &&& links(g, dir, u as int)[j as int].0.slot == v
    &&& accepts(g, dir, method, u as int, v, links(g, dir, u as int)[j as int].1)
    &&& depth[v] == depth[u as int] + 1
    &&& (u == root || parent[u as int] is Some)
}

/// The entry in position `j` of the list followed at `x` leads to a node
/// that was seen, or the method could refuse it.
pub open spec fn closed_at<K, N, E, M: Method<K, N, E>>(
    g: Seq<Node<K, N, E>>,
    dir: Direction,
    method: M,
    visited: Seq<bool>,
    x: int,
    j: int,
) -> bool {
    let y = links(g, dir, x)[j].0.slot as int;
    &&& y < g.len()
    &&& (visited[y] || refuses(g, dir, method, x, y, links(g, dir, x)[j].1))
}

/// The node in slot `v` was expanded or waits in the frontier.
pub open spec fn covered(p: Progress, pending: Set<usize>, v: int) -> bool {
    p.expanded.contains(v) || pending.contains(v as usize)
}

/// What holds between two steps of a traversal from `root` towards `goal`,
/// with `pending` waiting in the frontier; `cur` is the node that is being
/// expanded, if one is, and `upto` the number of its entries that are done.
#[verifier::opaque]
pub open spec fn progress_ok<K, N, E, M: Method<K, N, E>>(
    g: Seq<Node<K, N, E>>,
    dir: Direction,
    method: M,
    root: int,
    goal: Option<int>,
    cycle: bool,
    p: Progress,
    pending: Set<usize>,
    cur: Option<int>,
    upto: int,
) -> bool {
    &&& g.len() <= usize::MAX
    &&& p.visited.len() == g.len()
    &&& p.parent.len() == g.len()
    &&& p.depth.len() == g.len()
    &&& 0 <= root < g.len()
    &&& cycle ==> goal == Some(root)
    &&& p.parent[root] is None
    &&& p.depth[root] == 0
    &&& forall|v: int|
        #![trigger p.visited[v]]
        0 <= v < g.len() ==> (p.visited[v] <==> (p.parent[v] is Some || (!cycle && v == root)))
    &&& forall|v: int|
        #![trigger p.parent[v]]
        0 <= v < g.len() && p.parent[v] is Some ==> step_ok(
            g,
            dir,
            method,
            root,
            p.parent,
            p.depth,
            v,
        )
    &&& forall|s: usize|
        #![trigger pending.contains(s)]
        pending.contains(s) ==> s < g.len() && (s == root || p.visited[s as int])
    &&& forall|v: int|
        #![trigger covered(p, pending, v)]
        0 <= v < g.len() && (p.visited[v] || v == root) && Some(v) != cur ==> covered(
            p,
            pending,
            v,
        )
    &&& forall|x: int, j: int|
        #![trigger closed_at(g, dir, method, p.visited, x, j)]
        p.expanded.contains(x) && 0 <= j < links(g, dir, x).len() ==> closed_at(
            g,
            dir,
            method,
            p.visited,
            x,
            j,
        )
    &&& forall|x: int|
        #![trigger p.expanded.contains(x)]
        p.expanded.contains(x) ==> 0 <= x < g.len() && (x == root || p.visited[x])
    &&& match cur {
        Some(c) => p.expanded.contains(root) || c == root,
        None => p.expanded.contains(root) || pending == Set::<usize>::empty().insert(
            root as usize,
        ),
    }
    &&& goal matches Some(t) ==> 0 <= t < g.len() && (!p.visited[t] || (!cycle && t == root))
    &&& cur matches Some(c) ==> {
        &&& 0 <= c < g.len()
        &&& (c == root || p.visited[c])
        &&& 0 <= upto <= links(g, dir, c).len()
        &&& forall|j: int|
            #![trigger closed_at(g, dir, method, p.visited, c, j)]
            0 <= j < upto ==> closed_at(g, dir, method, p.visited, c, j)
    }
}

/// Seeing one more node leaves one node less to see.
pub(crate) proof fn lemma_unvisited_update(visited: Seq<bool>, v: int)
    requires
        0 <= v < visited.len(),
        !visited[v],
    ensures
        unvisited(visited.update(v, true)) == unvisited(visited) - 1,
        unvisited(visited) > 0,
    decreases visited.len(),
{
    let after = visited.update(v, true);
    if v == visited.len() - 1 {
        assert(after.drop_last() =~= visited.drop_last());
    } else {
        assert(after.drop_last() =~= visited.drop_last().update(v, true));
        lemma_unvisited_update(visited.drop_last(), v);
    }
}

/// Taking a node out of the frontier to expand it.
pub(crate) proof fn lemma_begin<K, N, E, M: Method<K, N, E>>(
    g: Seq<Node<K, N, E>>,
    dir: Direction,
    method: M,
    root: int,
    goal: Option<int>,
    cycle: bool,
    p: Progress,
    before: Set<usize>,
    after: Set<usize>,
    cur: usize,
)
    requires
        progress_ok(g, dir, method, root, goal, cycle, p, before, None, 0),
        before.contains(cur),
        after.subset_of(before),
        before.subset_of(after.insert(cur)),
    ensures
        progress_ok(g, dir, method, root, goal, cycle, p, after, Some(cur as int), 0),
        cur < g.len(),
{
    reveal(progress_ok);
    assert forall|v: int|
        #![trigger covered(p, after, v)]
        0 <= v < g.len() && (p.visited[v] || v == root) && Some(v) != Some(
            cur as int,
        ) implies covered(p, after, v) by {
        assert(covered(p, before, v));
        if !p.expanded.contains(v) {
            assert(after.insert(cur).contains(v as usize));
        }
    }
}

/// An entry that leads to a node seen before, or that the method refused, is
/// done.
pub(crate) proof fn lemma_skip<K, N, E, M: Method<K, N, E>>(
    g: Seq<Node<K, N, E>>,
    dir: Direction,
    method: M,
    root: int,
    goal: Option<int>,
    cycle: bool,
    p: Progress,
    pending: Set<usize>,
    cur: int,
    j: int,
)
    requires
        progress_ok(g, dir, method, root, goal, cycle, p, pending, Some(cur), j),
        j < links(g, dir, cur).len(),
        closed_at(g, dir, method, p.visited, cur, j),
    ensures
        progress_ok(g, dir, method, root, goal, cycle, p, pending, Some(cur), j + 1),
{
    reveal(progress_ok);
}

/// The progress after `v` was found over the entry in position `j` of `cur`.
pub open spec fn discovered(p: Progress, cur: int, j: int, v: int) -> Progress {
    Progress {
        visited: p.visited.update(v, true),
        parent: p.parent.update(v, Some((cur as usize, j as usize))),
        depth: p.depth.update(v, p.depth[cur] + 1),
        expanded: p.expanded,
    }
}

/// Finding a node that is not the goal: it is seen, waits in the frontier,
/// and the entry that led to it is done.
pub(crate) proof fn lemma_discover<K, N, E, M: Method<K, N, E>>(
    g: Seq<Node<K, N, E>>,
    dir: Direction,
    method: M,
    root: int,
    goal: Option<int>,
    cycle: bool,
    p: Progress,
    pending: Set<usize>,
    cur: int,
    j: int,
    v: int,
)
    requires
        progress_ok(g, dir, method, root, goal, cycle, p, pending, Some(cur), j),
        0 <= j < links(g, dir, cur).len(),
        j <= usize::MAX,
        v == links(g, dir, cur)[j].0.slot,
        v < g.len(),
        !p.visited[v],
        accepts(g, dir, method, cur, v, links(g, dir, cur)[j].1),
        goal != Some(v),
    ensures
        progress_ok(
            g,
            dir,
            method,
            root,
            goal,
            cycle,
            discovered(p, cur, j, v),
            pending.insert(v as usize),
            Some(cur),
            j + 1,
        ),
        unvisited(discovered(p, cur, j, v).visited) == unvisited(p.visited) - 1,
        unvisited(p.visited) > 0,
{
    reveal(progress_ok);
    let q = discovered(p, cur, j, v);
    let more = pending.insert(v as usize);
    lemma_unvisited_update(p.visited, v);
    assert(v != root);
    assert(cur != v);
    assert(p.parent[v] is None);
    assert forall|w: int| #![trigger q.visited[w]] 0 <= w < g.len() implies (q.visited[w] <==> (
    q.parent[w] is Some || (!cycle && w == root))) by {
        assert(p.visited[w] <==> (p.parent[w] is Some || (!cycle && w == root)));
    }
    assert forall|w: int| #![trigger q.parent[w]] 0 <= w < g.len() && q.parent[w] is Some implies step_ok(
        g,
        dir,
        method,
        root,
        q.parent,
        q.depth,
        w,
    ) by {
        if w == v {
            assert(p.visited[cur] <==> (p.parent[cur] is Some || (!cycle && cur == root)));
        } else {
            assert(p.parent[w] is Some);
            assert(step_ok(g, dir, method, root, p.parent, p.depth, w));
            let (u, k) = p.parent[w].unwrap();
            assert(u != v);
        }
    }
    assert forall|s: usize| #![trigger more.contains(s)] more.contains(s) implies s < g.len() && (s
        == root || q.visited[s as int]) by {
        if s != v {
            assert(pending.contains(s));
        }
    }
    assert forall|w: int|
        #![trigger covered(q, more, w)]
        0 <= w < g.len() && (q.visited[w] || w == root) && Some(w) != Some(cur) implies covered(
        q,
        more,
        w,
    ) by {
        if w != v {
            assert(covered(p, pending, w));
        }
    }
    assert forall|x: int, k: int|
        q.expanded.contains(x) && 0 <= k < links(g, dir, x).len() implies #[trigger] closed_at(
        g,
        dir,
        method,
        q.visited,
        x,
        k,
    ) by {
        assert(closed_at(g, dir, method, p.visited, x, k));
    }
    assert forall|k: int| 0 <= k < j + 1 implies #[trigger] closed_at(
        g,
        dir,
        method,
        q.visited,
        cur,
        k,
    ) by {
        if k < j {
            assert(closed_at(g, dir, method, p.visited, cur, k));
        }
    }
}

/// Where the goal, not seen so far, turns up at a node other than the root,
/// the root was expanded before and so has no edge to the goal that the
/// method could not refuse.
pub(crate) proof fn lemma_direct<K, N, E, M: Method<K, N, E>>(
    g: Seq<Node<K, N, E>>,
    dir: Direction,
    method: M,
    root: int,
    goal: Option<int>,
    cycle: bool,
    p: Progress,
    pending: Set<usize>,
    cur: int,
    j: int,
)
    requires
        progress_ok(g, dir, method, root, goal, cycle, p, pending, Some(cur), j),
        goal is Some,
        !p.visited[goal.unwrap()],
        cur != root,
    ensures
        !firmly_linked(g, dir, method, root, goal.unwrap()),
{
    reveal(progress_ok);
    let t = goal.unwrap();
    if firmly_linked(g, dir, method, root, t) {
        let k = choose|k: int|
            0 <= k < links(g, dir, root).len() && (#[trigger] links(g, dir, root)[k]).0.slot == t
                && !refuses(g, dir, method, root, t, links(g, dir, root)[k].1);
        assert(p.expanded.contains(root));
        assert(closed_at(g, dir, method, p.visited, root, k));
    }
}

/// A node all of whose entries are done is expanded.
pub(crate) proof fn lemma_finish<K, N, E, M: Method<K, N, E>>(
    g: Seq<Node<K, N, E>>,
    dir: Direction,
    method: M,
    root: int,
    goal: Option<int>,
    cycle: bool,
    p: Progress,
    pending: Set<usize>,
    cur: int,
)
    requires
        progress_ok(
            g,
            dir,
            method,
            root,
            goal,
            cycle,
            p,
            pending,
            Some(cur),
            links(g, dir, cur).len() as int,
        ),
    ensures
        progress_ok(
            g,
            dir,
            method,
            root,
            goal,
            cycle,
            Progress { expanded: p.expanded.insert(cur), ..p },
            pending,
            None,
            0,
        ),
{
    reveal(progress_ok);
    let q = Progress { expanded: p.expanded.insert(cur), ..p };
    assert forall|v: int|
        #![trigger covered(q, pending, v)]
        0 <= v < g.len() && (q.visited[v] || v == root) && Some(v) != None::<int> implies covered(
        q,
        pending,
        v,
    ) by {
        if v != cur {
            assert(covered(p, pending, v));
        }
    }
    assert forall|x: int, k: int|
        q.expanded.contains(x) && 0 <= k < links(g, dir, x).len() implies #[trigger] closed_at(
        g,
        dir,
        method,
        q.visited,
        x,
        k,
    ) by {
        if x != cur {
            assert(p.expanded.contains(x));
        }
    }
}

/// Once nothing waits, every node on a firm route from the root was seen.
pub(crate) proof fn lemma_route_seen<K, N, E, M: Method<K, N, E>>(
    g: Seq<Node<K, N, E>>,
    dir: Direction,
    method: M,
    root: int,
    goal: Option<int>,
    cycle: bool,
    p: Progress,
    route: Seq<int>,
    i: int,
)
    requires
        progress_ok(g, dir, method, root, goal, cycle, p, Set::<usize>::empty(), None, 0),
        is_firm_route(g, dir, method, route),
        route[0] == root,
        0 < i < route.len(),
    ensures
        p.visited[route[i]],
    decreases i,
{
    reveal(progress_ok);
    let x = route[i - 1];
    let y = route[i];
    if i > 1 {
        lemma_route_seen(g, dir, method, root, goal, cycle, p, route, i - 1);
    }
    assert(0 <= x < g.len());
    assert(covered(p, Set::<usize>::empty(), x));
    assert(firmly_linked(g, dir, method, x, y));
    let j = choose|j: int|
        0 <= j < links(g, dir, x).len() && (#[trigger] links(g, dir, x)[j]).0.slot == y
            && !refuses(g, dir, method, x, y, links(g, dir, x)[j].1);
    assert(closed_at(g, dir, method, p.visited, x, j));
}

/// Once nothing waits and the goal was not found, no firm route leads to it.
pub(crate) proof fn lemma_exhausted<K, N, E, M: Method<K, N, E>>(
    g: Seq<Node<K, N, E>>,
    dir: Direction,
    method: M,
    root: int,
    goal: Option<int>,
    cycle: bool,
    p: Progress,
)
    requires
        progress_ok(g, dir, method, root, goal, cycle, p, Set::<usize>::empty(), None, 0),
    ensures
        goal matches Some(t) ==> (!cycle && t == root) || !reachable(g, dir, method, root, t),
{
    reveal(progress_ok);
    if let Some(t) = goal {
        if !(!cycle && t == root) && reachable(g, dir, method, root, t) {
            let route = choose|route: Seq<int>|
                #[trigger] is_firm_route(g, dir, method, route) && route[0] == root
                    && route.last() == t;
            lemma_route_seen(g, dir, method, root, goal, cycle, p, route, route.len() - 1);
        }
    }
}

} // verus!
