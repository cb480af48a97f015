use vstd::prelude::*;
use crate::edge::Edge;
use crate::frontier::members;
use crate::method::Method;
use crate::node::Node;
use crate::progress::{
    closed_at, covered, discovered, lemma_direct, progress_ok, step_ok, Progress,
};
use crate::walk::{
    all_accepted, avoids, firmly_linked, head, is_firm_route, is_hop, is_shortest, is_simple,
    is_walk, links, outcome, refuses, tail, Direction,
};

verus! {

/// The entry in position `j` of the list followed at `x` leads at most one
/// edge further from the root than `x` is, or the method could refuse it.
pub open spec fn deep_closed<K, N, E, M: Method<K, N, E>>(
    g: Seq<Node<K, N, E>>,
    dir: Direction,
    method: M,
    depth: Seq<nat>,
    x: int,
    j: int,
) -> bool {
    let y = links(g, dir, x)[j].0.slot as int;
    refuses(g, dir, method, x, y, links(g, dir, x)[j].1) || depth[y] <= depth[x] + 1
}

/// What holds, beside `progress_ok`, of a traversal that takes nodes up in
/// the order `line` in which it found them: they wait in the order of their
/// distance from the root, which is `lvl`, that of the node taken up last,
/// or one more; what was expanded is no further than `lvl`, and what was
/// seen no further than one more.
#[verifier::opaque]
pub open spec fn level_ok<K, N, E, M: Method<K, N, E>>(
    g: Seq<Node<K, N, E>>,
    dir: Direction,
    method: M,
    root: int,
    p: Progress,
    line: Seq<usize>,
    cur: Option<int>,
    upto: int,
    lvl: nat,
) -> bool {
    &&& forall|i: int, j: int|
        #![trigger line[i], line[j]]
        0 <= i < j < line.len() ==> p.depth[line[i] as int] <= p.depth[line[j] as int]
    &&& forall|i: int|
        #![trigger line[i]]
        0 <= i < line.len() ==> lvl <= p.depth[line[i] as int] <= lvl + 1
    &&& cur matches Some(c) ==> {
        &&& p.depth[c] == lvl
        &&& forall|j: int|
            #![trigger deep_closed(g, dir, method, p.depth, c, j)]
            0 <= j < upto ==> deep_closed(g, dir, method, p.depth, c, j)
    }
    &&& forall|v: int|
        #![trigger p.depth[v]]
        0 <= v < g.len() && (p.visited[v] || v == root) ==> p.depth[v] <= lvl + 1
    &&& forall|x: int|
        #![trigger p.expanded.contains(x)]
        p.expanded.contains(x) ==> p.depth[x] <= lvl
    &&& forall|x: int, j: int|
        #![trigger deep_closed(g, dir, method, p.depth, x, j)]
        p.expanded.contains(x) && 0 <= j < links(g, dir, x).len() ==> deep_closed(
            g,
            dir,
            method,
            p.depth,
            x,
            j,
        )
}

/// Taking the node at the head of the line up.
pub(crate) proof fn lemma_level_begin<K, N, E, M: Method<K, N, E>>(
    g: Seq<Node<K, N, E>>,
    dir: Direction,
    method: M,
    root: int,
    p: Progress,
    line: Seq<usize>,
    lvl: nat,
)
    requires
        level_ok(g, dir, method, root, p, line, None, 0, lvl),
        line.len() > 0,
    ensures
        level_ok(
            g,
            dir,
            method,
            root,
            p,
            line.drop_first(),
            Some(line[0] as int),
            0,
            p.depth[line[0] as int],
        ),
{
    reveal(level_ok);
    let rest = line.drop_first();
    let next = p.depth[line[0] as int];
    assert(lvl <= next <= lvl + 1);
    assert forall|i: int, j: int|
        #![trigger rest[i], rest[j]]
        0 <= i < j < rest.len() implies p.depth[rest[i] as int] <= p.depth[rest[j] as int] by {
        assert(rest[i] == line[i + 1] && rest[j] == line[j + 1]);
    }
    assert forall|i: int| #![trigger rest[i]] 0 <= i < rest.len() implies next
        <= p.depth[rest[i] as int] <= next + 1 by {
        assert(rest[i] == line[i + 1]);
        assert(p.depth[line[0] as int] <= p.depth[line[i + 1] as int]);
    }
}

/// An entry that is done because its node was seen before, or because the
/// method refused it, leads no deeper than one edge on.
pub(crate) proof fn lemma_level_skip<K, N, E, M: Method<K, N, E>>(
    g: Seq<Node<K, N, E>>,
    dir: Direction,
    method: M,
    root: int,
    p: Progress,
    line: Seq<usize>,
    cur: int,
    j: int,
    lvl: nat,
)
    requires
        level_ok(g, dir, method, root, p, line, Some(cur), j, lvl),
        0 <= j < links(g, dir, cur).len(),
        closed_at(g, dir, method, p.visited, cur, j),
    ensures
        level_ok(g, dir, method, root, p, line, Some(cur), j + 1, lvl),
{
    reveal(level_ok);
    let y = links(g, dir, cur)[j].0.slot as int;
    assert(deep_closed(g, dir, method, p.depth, cur, j)) by {
        if p.visited[y] {
            assert(p.depth[y] <= lvl + 1);
        }
    }
}

/// A node found from the node at the level `lvl` joins the end of the line,
/// one level on.
pub(crate) proof fn lemma_level_discover<K, N, E, M: Method<K, N, E>>(
    g: Seq<Node<K, N, E>>,
    dir: Direction,
    method: M,
    root: int,
    goal: Option<int>,
    cycle: bool,
    p: Progress,
    pending: Set<usize>,
    line: Seq<usize>,
    cur: int,
    j: int,
    v: int,
    lvl: nat,
)
    requires
        progress_ok(g, dir, method, root, goal, cycle, p, pending, Some(cur), j),
        level_ok(g, dir, method, root, p, line, Some(cur), j, lvl),
        pending == members(line),
        0 <= j < links(g, dir, cur).len(),
        v == links(g, dir, cur)[j].0.slot,
        v < g.len(),
        !p.visited[v],
        goal != Some(v),
    ensures
        level_ok(
            g,
            dir,
            method,
            root,
            discovered(p, cur, j, v),
            line.push(v as usize),
            Some(cur),
            j + 1,
            lvl,
        ),
{
    reveal(progress_ok);
    reveal(level_ok);
    let q = discovered(p, cur, j, v);
    let more = line.push(v as usize);
    assert(v != root);
    assert(cur != v);
    assert forall|i: int| 0 <= i < line.len() implies (#[trigger] line[i]) != v && line[i]
        < g.len() by {
        assert(pending.contains(line[i]));
    }
    assert forall|a: int, b: int|
        #![trigger more[a], more[b]]
        0 <= a < b < more.len() implies q.depth[more[a] as int] <= q.depth[more[b] as int] by {
        assert(more[a] == line[a]);
        if b < line.len() {
            assert(more[b] == line[b]);
        }
    }
    assert forall|i: int| #![trigger more[i]] 0 <= i < more.len() implies lvl
        <= q.depth[more[i] as int] <= lvl + 1 by {
        if i < line.len() {
            assert(more[i] == line[i]);
        }
    }
    assert forall|k: int|
        #![trigger deep_closed(g, dir, method, q.depth, cur, k)]
        0 <= k < j + 1 implies deep_closed(g, dir, method, q.depth, cur, k) by {
        if k < j {
            assert(deep_closed(g, dir, method, p.depth, cur, k));
            assert(closed_at(g, dir, method, p.visited, cur, k));
        }
    }
    assert forall|w: int|
        #![trigger q.depth[w]]
        0 <= w < g.len() && (q.visited[w] || w == root) implies q.depth[w] <= lvl + 1 by {
        if w != v {
            assert(p.depth[w] <= lvl + 1);
        }
    }
    assert forall|x: int| #![trigger q.expanded.contains(x)] q.expanded.contains(x) implies q.depth[x]
        <= lvl by {
        assert(p.expanded.contains(x));
    }
    assert forall|x: int, k: int|
        #![trigger deep_closed(g, dir, method, q.depth, x, k)]
        q.expanded.contains(x) && 0 <= k < links(g, dir, x).len() implies deep_closed(
        g,
        dir,
        method,
        q.depth,
        x,
        k,
    ) by {
        assert(p.expanded.contains(x));
        assert(deep_closed(g, dir, method, p.depth, x, k));
        assert(closed_at(g, dir, method, p.visited, x, k));
    }
}

/// A node all of whose entries are done is expanded, at the level `lvl`.
pub(crate) proof fn lemma_level_finish<K, N, E, M: Method<K, N, E>>(
    g: Seq<Node<K, N, E>>,
    dir: Direction,
    method: M,
    root: int,
    p: Progress,
    line: Seq<usize>,
    cur: int,
    lvl: nat,
)
    requires
        level_ok(
            g,
            dir,
            method,
            root,
            p,
            line,
            Some(cur),
            links(g, dir, cur).len() as int,
            lvl,
        ),
    ensures
        level_ok(
            g,
            dir,
            method,
            root,
            Progress { expanded: p.expanded.insert(cur), ..p },
            line,
            None,
            0,
            lvl,
        ),
{
    reveal(level_ok);
    let q = Progress { expanded: p.expanded.insert(cur), ..p };
    assert forall|x: int| #![trigger q.expanded.contains(x)] q.expanded.contains(x) implies q.depth[x]
        <= lvl by {
        if x != cur {
            assert(p.expanded.contains(x));
        }
    }
    assert forall|x: int, k: int|
        #![trigger deep_closed(g, dir, method, q.depth, x, k)]
        q.expanded.contains(x) && 0 <= k < links(g, dir, x).len() implies deep_closed(
        g,
        dir,
        method,
        q.depth,
        x,
        k,
    ) by {
        if x != cur {
            assert(p.expanded.contains(x));
        }
    }
}

/// While the node at level `lvl` is expanded, every node that a firm route
/// from the root reaches in at most `lvl` edges was seen, no deeper than the
/// route is long.
pub(crate) proof fn lemma_route_levels<K, N, E, M: Method<K, N, E>>(
    g: Seq<Node<K, N, E>>,
    dir: Direction,
    method: M,
    root: int,
    goal: Option<int>,
    cycle: bool,
    p: Progress,
    pending: Set<usize>,
    line: Seq<usize>,
    cur: int,
    upto: int,
    lvl: nat,
    route: Seq<int>,
    i: int,
)
    requires
        progress_ok(g, dir, method, root, goal, cycle, p, pending, Some(cur), upto),
        level_ok(g, dir, method, root, p, line, Some(cur), upto, lvl),
        pending == members(line),
        is_firm_route(g, dir, method, route),
        route[0] == root,
        0 <= i < route.len(),
        i <= lvl,
    ensures
        i == 0 || p.visited[route[i]],
        p.depth[route[i]] <= i,
    decreases i,
{
    reveal(progress_ok);
    reveal(level_ok);
    if i > 0 {
        lemma_route_levels(
            g,
            dir,
            method,
            root,
            goal,
            cycle,
            p,
            pending,
            line,
            cur,
            upto,
            lvl,
            route,
            i - 1,
        );
        let x = route[i - 1];
        let y = route[i];
        assert(0 <= x < g.len());
        assert(p.depth[x] < lvl);
        assert(x != cur);
        assert(covered(p, pending, x));
        if pending.contains(x as usize) {
            let k = choose|k: int| 0 <= k < line.len() && #[trigger] line[k] == x as usize;
            assert(lvl <= p.depth[line[k] as int]);
        }
        assert(p.expanded.contains(x));
        assert(firmly_linked(g, dir, method, x, y));
        let j = choose|j: int|
            0 <= j < links(g, dir, x).len() && (#[trigger] links(g, dir, x)[j]).0.slot == y
                && !refuses(g, dir, method, x, y, links(g, dir, x)[j].1);
        assert(closed_at(g, dir, method, p.visited, x, j));
        assert(deep_closed(g, dir, method, p.depth, x, j));
    }
}

/// A goal that turns up, not seen so far, while the node at level `lvl` is
/// expanded lies more than `lvl` edges from the root on every firm route.
pub(crate) proof fn lemma_level_shortest<K, N, E, M: Method<K, N, E>>(
    g: Seq<Node<K, N, E>>,
    dir: Direction,
    method: M,
    root: int,
    goal: Option<int>,
    cycle: bool,
    p: Progress,
    pending: Set<usize>,
    line: Seq<usize>,
    cur: int,
    upto: int,
    lvl: nat,
    t: int,
)
    requires
        progress_ok(g, dir, method, root, goal, cycle, p, pending, Some(cur), upto),
        level_ok(g, dir, method, root, p, line, Some(cur), upto, lvl),
        pending == members(line),
        0 <= t < g.len(),
        !p.visited[t],
    ensures
        forall|route: Seq<int>|
            #![trigger is_firm_route(g, dir, method, route)]
            is_firm_route(g, dir, method, route) && route[0] == root && route.last() == t
                ==> route.len() > lvl + 1,
{
    assert forall|route: Seq<int>|
        #![trigger is_firm_route(g, dir, method, route)]
        is_firm_route(g, dir, method, route) && route[0] == root && route.last()
            == t implies route.len() > lvl + 1 by {
        if route.len() <= lvl + 1 {
            lemma_route_levels(
                g,
                dir,
                method,
                root,
                goal,
                cycle,
                p,
                pending,
                line,
                cur,
                upto,
                lvl,
                route,
                route.len() - 1,
            );
        }
    }
}

/// The state in which a traversal starts: nothing seen but, unless a cycle
/// is looked for, the root, which alone waits.
pub(crate) proof fn lemma_start<K, N, E, M: Method<K, N, E>>(
    g: Seq<Node<K, N, E>>,
    dir: Direction,
    method: M,
    root: int,
    goal: Option<int>,
    cycle: bool,
    p: Progress,
    pending: Set<usize>,
)
    requires
        g.len() <= usize::MAX,
        0 <= root < g.len(),
        p.visited.len() == g.len(),
        p.parent.len() == g.len(),
        p.depth.len() == g.len(),
        p.expanded == Set::<int>::empty(),
        forall|i: int| 0 <= i < g.len() ==> #[trigger] p.visited[i] == (!cycle && i == root),
        forall|i: int| 0 <= i < g.len() ==> (#[trigger] p.parent[i]) is None,
        forall|i: int| 0 <= i < g.len() ==> #[trigger] p.depth[i] == 0,
        cycle ==> goal == Some(root),
        goal matches Some(t) ==> 0 <= t < g.len(),
        pending == Set::<usize>::empty().insert(root as usize),
    ensures
        progress_ok(g, dir, method, root, goal, cycle, p, pending, None, 0),
        level_ok(g, dir, method, root, p, seq![root as usize], None, 0, 0),
{
    reveal(progress_ok);
    reveal(level_ok);
    assert forall|v: int|
        #![trigger covered(p, pending, v)]
        0 <= v < g.len() && (p.visited[v] || v == root) && Some(v) != None::<int> implies covered(
        p,
        pending,
        v,
    ) by {
        assert(p.visited[v] == (!cycle && v == root));
    }
}

/// What the state of a traversal says of the edges over which nodes were
/// found, as the reconstruction of a path needs it.
pub(crate) proof fn lemma_ready<K, N, E, M: Method<K, N, E>>(
    g: Seq<Node<K, N, E>>,
    dir: Direction,
    method: M,
    root: int,
    goal: Option<int>,
    cycle: bool,
    p: Progress,
    pending: Set<usize>,
    cur: int,
    j: int,
)
    requires
        progress_ok(g, dir, method, root, goal, cycle, p, pending, Some(cur), j),
    ensures
        p.visited.len() == g.len(),
        p.parent.len() == g.len(),
        p.depth.len() == g.len(),
        0 <= cur < g.len(),
        cur == root || p.parent[cur] is Some,
        p.depth[root] == 0,
        forall|v: int|
            0 <= v < g.len() && (#[trigger] p.parent[v]) is Some ==> step_ok(
                g,
                dir,
                method,
                root,
                p.parent,
                p.depth,
                v,
            ),
{
    reveal(progress_ok);
    assert(p.visited[cur] <==> (p.parent[cur] is Some || (!cycle && cur == root)));
}

/// The path read off the state when the goal turns up is what a traversal
/// may return.
pub(crate) proof fn lemma_found<'a, K, N, E, M: Method<K, N, E>>(
    g: Seq<Node<K, N, E>>,
    dir: Direction,
    method: M,
    root: int,
    goal: Option<int>,
    cycle: bool,
    fifo: bool,
    p: Progress,
    pending: Set<usize>,
    line: Seq<usize>,
    cur: int,
    j: int,
    v: int,
    lvl: nat,
    path: Seq<Edge<'a, K, N, E>>,
)
    requires
        progress_ok(g, dir, method, root, goal, cycle, p, pending, Some(cur), j),
        fifo ==> level_ok(g, dir, method, root, p, line, Some(cur), j, lvl) && pending == members(
            line,
        ),
        0 <= v < g.len(),
        !p.visited[v],
        goal == Some(v),
        path.len() > 0,
        is_walk(g, dir, path),
        tail(dir, path[0]).slot == root,
        head(dir, path.last()).slot == v,
        tail(dir, path.last()).slot == cur,
        all_accepted(method, path),
        cur == root ==> path.len() == 1,
        forall|i: int| 0 <= i < path.len() ==> p.depth[tail(dir, #[trigger] path[i]).slot as int] == i,
        forall|i: int|
            0 <= i < path.len() ==> tail(dir, #[trigger] path[i]).slot == root
                || p.parent[tail(dir, path[i]).slot as int] is Some,
    ensures
        outcome(g, dir, method, root, goal, cycle, fifo, Some(path)),
{
    assert(cycle || goal != Some(root)) by {
        reveal(progress_ok);
    }
    assert(is_simple(dir, path)) by {
        assert forall|a: int, b: int| 0 <= a < b < path.len() implies tail(
            dir,
            #[trigger] path[a],
        ).slot != tail(dir, #[trigger] path[b]).slot by {
            assert(p.depth[tail(dir, path[a]).slot as int] == a);
            assert(p.depth[tail(dir, path[b]).slot as int] == b);
        }
    }
    if !cycle {
        assert forall|a: int| 0 <= a < path.len() implies tail(dir, #[trigger] path[a]).slot != v by {
            reveal(progress_ok);
            let x = tail(dir, path[a]).slot as int;
            assert(is_hop(g, dir, path[a]));
            assert(p.visited[x] <==> (p.parent[x] is Some || (!cycle && x == root)));
        }
        assert(avoids(dir, path, v));
    }
    if cur != root {
        lemma_direct(g, dir, method, root, goal, cycle, p, pending, cur, j);
    }
    if fifo {
        lemma_level_shortest(g, dir, method, root, goal, cycle, p, pending, line, cur, j, lvl, v);
        assert(p.depth[cur] == lvl) by {
            reveal(level_ok);
        }
        assert(p.depth[tail(dir, path[path.len() - 1]).slot as int] == path.len() - 1);
        assert(is_shortest(g, dir, method, root, v, path));
    }
}

} // verus!
