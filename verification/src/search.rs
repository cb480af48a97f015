use std::hash::Hash;
use vstd::prelude::*;
use vstd::std_specs::hash::obeys_key_model;
use crate::adjacent::{handles_in_range, WeakNode};
use crate::digraph::Digraph;
use crate::edge::Edge;
use crate::frontier::{members, Feed, Frontier};
use crate::level::{
    lemma_found, lemma_level_begin, lemma_level_discover, lemma_level_finish, lemma_level_skip,
    lemma_ready, lemma_start, level_ok,
};
use crate::method::Method;
use crate::model::{lemma_handles, lemma_slot_of_some, slot_of};
use crate::node::Node;
use crate::path::{nodes_along, Path};
use crate::progress::{
    lemma_begin, lemma_discover, lemma_exhausted, lemma_finish, lemma_skip, progress_ok, step_ok,
    unvisited, Progress,
};
use crate::laws::lemma_mirror;
use crate::run::{
    edge_over, edges_over, expand, is_run_so_far, is_trail, lemma_result, lemma_run_on,
    refuses_nothing, searched, start, step, Scan,
};
use crate::walk::{
    accepts, all_accepted, all_callable, head, is_hop, is_walk, links, outcome, tail, Direction,
};

verus! {

/// A vector of `n` copies of `fill`.
fn filled<T: Copy>(n: usize, fill: T) -> (r: Vec<T>)
    ensures
        r@.len() == n,
        forall|i: int| 0 <= i < n ==> r@[i] == fill,
{
    let mut r: Vec<T> = Vec::new();
    while r.len() < n
        invariant
            r@.len() <= n,
            forall|i: int| 0 <= i < r@.len() ==> r@[i] == fill,
        decreases n - r@.len(),
    {
        r.push(fill);
    }
    r
}

/// The edge list that a traversal in direction `dir` follows at slot `x`.
fn list_of<'a, K, N, E>(graph: &'a Digraph<K, N, E>, dir: Direction, x: usize) -> (list: &'a Vec<
    (WeakNode, E),
>)
    requires
        x < graph.arena().len(),
    ensures
        list@ == links(graph.arena(), dir, x as int),
{
    match dir {
        Direction::Forward => &graph.nodes[x].adjacent.outbound,
        Direction::Backward => &graph.nodes[x].adjacent.inbound,
    }
}

/// In a well-formed graph every entry of a list leads to a node of the graph
/// and every node sits in its slot.
proof fn lemma_links<K, N, E>(graph: &Digraph<K, N, E>, dir: Direction, x: int)
    requires
        graph.wf(),
        0 <= x < graph.arena().len(),
    ensures
        handles_in_range(links(graph.arena(), dir, x), graph.arena().len()),
        graph.arena()[x].slot == x,
{
    graph.lemma_view();
    assert(graph@[x] == graph.arena()[x]@);
}

/// The step over the entry in position `j` of the list followed at `u`:
/// the edge behind it, from its source to its target.
fn edge_at<'a, K, N, E>(graph: &'a Digraph<K, N, E>, dir: Direction, u: usize, j: usize) -> (e:
    Edge<'a, K, N, E>)
    requires
        graph.wf(),
        u < graph.arena().len(),
        j < links(graph.arena(), dir, u as int).len(),
    ensures
        is_hop(graph.arena(), dir, e),
        e == edge_over(graph.arena(), dir, (u, j)),
        tail(dir, e).slot == u,
        head(dir, e).slot == links(graph.arena(), dir, u as int)[j as int].0.slot,
{
    let list = list_of(graph, dir, u);
    let v = list[j].0.slot;
    proof {
        lemma_links(graph, dir, u as int);
        assert(list@[j as int].0.slot < graph.arena().len());
        lemma_links(graph, dir, v as int);
        assert(list@[j as int] == (WeakNode { slot: v }, list@[j as int].1));
        graph.lemma_view();
        lemma_handles(graph@);
        assert(graph@[u as int] == graph.arena()[u as int]@);
        assert(graph@[v as int] == graph.arena()[v as int]@);
        lemma_mirror(graph@, v as int, u as int, list@[j as int].1);
    }
    match dir {
        Direction::Forward => Edge {
            source: &graph.nodes[u],
            target: &graph.nodes[v],
            value: &list[j].1,
        },
        Direction::Backward => Edge {
            source: &graph.nodes[v],
            target: &graph.nodes[u],
            value: &list[j].1,
        },
    }
}

/// What holds of the entry in position `i` of the way back from the node
/// `cur` to the root, and of the edge behind it: the edge is a step that the
/// method could accept, taken `i` edges nearer to the root than `cur` lies,
/// and the entry before it is the one over which its node was found.
spec fn back_ok<'a, K, N, E, M: Method<K, N, E>>(
    g: Seq<Node<K, N, E>>,
    dir: Direction,
    method: M,
    root: int,
    cur: int,
    parent: Seq<Option<(usize, usize)>>,
    depth: Seq<nat>,
    back: Seq<Edge<'a, K, N, E>>,
    at: Seq<(usize, usize)>,
    i: int,
) -> bool {
    &&& back[i] == edge_over(g, dir, at[i])
    &&& is_hop(g, dir, back[i])
    &&& tail(dir, back[i]).slot == at[i].0
    &&& depth[at[i].0 as int] + i == depth[cur]
    &&& (at[i].0 == root || parent[at[i].0 as int] is Some)
    &&& method.may_accept(back[i].source, back[i].target, back[i].value)
    &&& i > 0 ==> head(dir, back[i]).slot == at[i - 1].0
    &&& i < at.len() - 1 ==> at[i].0 != root && parent[at[i].0 as int] == Some(at[i + 1])
}

/// `at`, last entry first.
spec fn turned(at: Seq<(usize, usize)>) -> Seq<(usize, usize)> {
    Seq::new(at.len(), |i: int| at[at.len() - 1 - i])
}

/// The way back from the node `cur` to the root, turned round, is the path
/// from the root over the trail to the entry `j` of `cur`.
proof fn lemma_way_back<'a, K, N, E, M: Method<K, N, E>>(
    g: Seq<Node<K, N, E>>,
    dir: Direction,
    method: M,
    root: int,
    cur: int,
    j: int,
    parent: Seq<Option<(usize, usize)>>,
    depth: Seq<nat>,
    whole: Seq<Edge<'a, K, N, E>>,
    at: Seq<(usize, usize)>,
    path: Seq<Edge<'a, K, N, E>>,
)
    requires
        whole.len() > 0,
        at.len() == whole.len(),
        path.len() == whole.len(),
        at[0] == (cur as usize, j as usize),
        0 <= cur <= usize::MAX,
        0 <= j <= usize::MAX,
        at.last().0 == root,
        depth[root] == 0,
        cur == root ==> whole.len() == 1,
        head(dir, whole[0]).slot == links(g, dir, cur)[j].0.slot,
        forall|i: int|
            0 <= i < whole.len() ==> #[trigger] back_ok(
                g,
                dir,
                method,
                root,
                cur,
                parent,
                depth,
                whole,
                at,
                i,
            ),
        forall|i: int| 0 <= i < path.len() ==> #[trigger] path[i] == whole[whole.len() - 1 - i],
    ensures
        is_walk(g, dir, path),
        tail(dir, path[0]).slot == root,
        head(dir, path.last()).slot == links(g, dir, cur)[j].0.slot,
        tail(dir, path.last()).slot == cur,
        all_accepted(method, path),
        forall|i: int| 0 <= i < path.len() ==> depth[tail(dir, #[trigger] path[i]).slot as int] == i,
        forall|i: int|
            0 <= i < path.len() ==> tail(dir, #[trigger] path[i]).slot == root || parent[tail(
                dir,
                path[i],
            ).slot as int] is Some,
        is_trail(root, parent, (cur as usize, j as usize), turned(at)),
        path == edges_over(g, dir, turned(at)),
{
    let steps = turned(at);
    let n = whole.len() as int;
    assert(back_ok(g, dir, method, root, cur, parent, depth, whole, at, n - 1));
    assert(back_ok(g, dir, method, root, cur, parent, depth, whole, at, 0));
    assert(path[n - 1] == whole[0]);
    assert(path[0] == whole[n - 1]);
    assert forall|i: int| 0 <= i < path.len() implies #[trigger] path[i] == edge_over(
        g,
        dir,
        steps[i],
    ) && is_hop(g, dir, path[i]) && tail(dir, path[i]).slot == steps[i].0 && depth[tail(
        dir,
        path[i],
    ).slot as int] == i && (tail(dir, path[i]).slot == root || parent[tail(
        dir,
        path[i],
    ).slot as int] is Some) && method.may_accept(path[i].source, path[i].target, path[i].value) by {
        assert(path[i] == whole[n - 1 - i]);
        assert(back_ok(g, dir, method, root, cur, parent, depth, whole, at, n - 1 - i));
    }
    assert forall|i: int| 0 < i < path.len() implies tail(dir, #[trigger] path[i]).slot == head(
        dir,
        path[i - 1],
    ).slot by {
        let k = n - i;
        assert(path[i] == whole[k - 1]);
        assert(path[i - 1] == whole[k]);
        assert(back_ok(g, dir, method, root, cur, parent, depth, whole, at, k));
        assert(back_ok(g, dir, method, root, cur, parent, depth, whole, at, k - 1));
    }
    assert forall|i: int| 0 < i < steps.len() implies (#[trigger] steps[i]).0 != root
        && parent[steps[i].0 as int] == Some(steps[i - 1]) by {
        let k = n - 1 - i;
        assert(back_ok(g, dir, method, root, cur, parent, depth, whole, at, k));
    }
    assert(path =~= edges_over(g, dir, steps));
}

/// The route from the root to the node found over the entry in position `j`
/// of `cur`, read off the entries over which the nodes before it were found,
/// and those entries.
fn reconstruct<'a, K, N, E, M: Method<K, N, E>>(
    graph: &'a Digraph<K, N, E>,
    dir: Direction,
    method: &M,
    parent: &Vec<Option<(usize, usize)>>,
    root: usize,
    cur: usize,
    j: usize,
    Ghost(depth): Ghost<Seq<nat>>,
) -> (r: (Path<'a, K, N, E>, Ghost<Seq<(usize, usize)>>))
    requires
        graph.wf(),
        parent@.len() == graph.arena().len(),
        depth.len() == graph.arena().len(),
        root < graph.arena().len(),
        cur < graph.arena().len(),
        cur == root || parent@[cur as int] is Some,
        depth[root as int] == 0,
        forall|v: int|
            0 <= v < graph.arena().len() && (#[trigger] parent@[v]) is Some ==> step_ok(
                graph.arena(),
                dir,
                *method,
                root as int,
                parent@,
                depth,
                v,
            ),
        j < links(graph.arena(), dir, cur as int).len(),
        links(graph.arena(), dir, cur as int)[j as int].0.slot < graph.arena().len(),
        accepts(
            graph.arena(),
            dir,
            *method,
            cur as int,
            links(graph.arena(), dir, cur as int)[j as int].0.slot as int,
            links(graph.arena(), dir, cur as int)[j as int].1,
        ),
    ensures
        r.0@.len() > 0,
        r.0.direction() == dir,
        is_walk(graph.arena(), dir, r.0@),
        tail(dir, r.0@[0]).slot == root,
        head(dir, r.0@.last()).slot == links(graph.arena(), dir, cur as int)[j as int].0.slot,
        tail(dir, r.0@.last()).slot == cur,
        all_accepted(*method, r.0@),
        cur == root ==> r.0@.len() == 1,
        forall|i: int| 0 <= i < r.0@.len() ==> depth[tail(dir, #[trigger] r.0@[i]).slot as int] == i,
        forall|i: int|
            0 <= i < r.0@.len() ==> tail(dir, #[trigger] r.0@[i]).slot == root || parent@[tail(
                dir,
                r.0@[i],
            ).slot as int] is Some,
        is_trail(root as int, parent@, (cur, j), r.1@),
        r.0@ == edges_over(graph.arena(), dir, r.1@),
{
    let ghost g = graph.arena();
    let mut back: Vec<Edge<'a, K, N, E>> = Vec::new();
    back.push(edge_at(graph, dir, cur, j));
    let ghost mut at: Seq<(usize, usize)> = seq![(cur, j)];
    let mut x = cur;
    proof {
        assert(back_ok(g, dir, *method, root as int, cur as int, parent@, depth, back@, at, 0));
    }
    while x != root
        invariant
            graph.wf(),
            g == graph.arena(),
            parent@.len() == g.len(),
            depth.len() == g.len(),
            root < g.len(),
            x < g.len(),
            forall|v: int|
                0 <= v < g.len() && (#[trigger] parent@[v]) is Some ==> step_ok(
                    g,
                    dir,
                    *method,
                    root as int,
                    parent@,
                    depth,
                    v,
                ),
            back@.len() > 0,
            at.len() == back@.len(),
            at[0] == (cur, j),
            at.last().0 == x,
            cur == root ==> x == root && back@.len() == 1,
            head(dir, back@[0]).slot == links(g, dir, cur as int)[j as int].0.slot,
            forall|i: int|
                0 <= i < back@.len() ==> #[trigger] back_ok(
                    g,
                    dir,
                    *method,
                    root as int,
                    cur as int,
                    parent@,
                    depth,
                    back@,
                    at,
                    i,
                ),
        decreases depth[x as int],
    {
        let ghost before = back@;
        let ghost was = at;
        let ghost last = at.len() - 1;
        assert(back_ok(g, dir, *method, root as int, cur as int, parent@, depth, before, was, last));
        assert(step_ok(g, dir, *method, root as int, parent@, depth, x as int));
        let (u, k) = parent[x].unwrap();
        let edge = edge_at(graph, dir, u, k);
        back.push(edge);
        proof {
            at = at.push((u, k));
            assert forall|i: int| 0 <= i < back@.len() implies #[trigger] back_ok(
                g,
                dir,
                *method,
                root as int,
                cur as int,
                parent@,
                depth,
                back@,
                at,
                i,
            ) by {
                if i <= last {
                    assert(back_ok(
                        g,
                        dir,
                        *method,
                        root as int,
                        cur as int,
                        parent@,
                        depth,
                        before,
                        was,
                        i,
                    ));
                    assert(back@[i] == before[i]);
                    assert(at[i] == was[i]);
                    if i > 0 {
                        assert(at[i - 1] == was[i - 1]);
                    }
                    if i < last {
                        assert(at[i + 1] == was[i + 1]);
                    }
                } else {
                    assert(back@[i] == edge);
                    assert(at[i] == (u, k));
                    assert(at[i - 1] == was[last]);
                }
            }
        }
        x = u;
    }
    let ghost whole = back@;
    let ghost steps: Seq<(usize, usize)> = turned(at);
    let mut edges: Vec<Edge<'a, K, N, E>> = Vec::new();
    while back.len() > 0
        invariant
            whole.len() > 0,
            back@.len() + edges@.len() == whole.len(),
            forall|i: int| 0 <= i < back@.len() ==> back@[i] == whole[i],
            forall|i: int|
                0 <= i < edges@.len() ==> #[trigger] edges@[i] == whole[whole.len() - 1 - i],
        decreases back@.len(),
    {
        let edge = back.pop().unwrap();
        edges.push(edge);
    }
    proof {
        lemma_way_back(g, dir, *method, root as int, cur as int, j as int, parent@, depth, whole, at, edges@);
        assert(steps =~= turned(at));
    }
    (Path::new(edges, dir), Ghost(steps))
}

/// The traversal proper, from a root that is a node of the graph, with a
/// target that is one if there is one, and a frontier in which nothing
/// waits.
fn walk_from<'a, K, N, E, M: Method<K, N, E>, F: Feed<N>>(
    graph: &'a Digraph<K, N, E>,
    root: usize,
    target: Option<usize>,
    dir: Direction,
    method: &M,
    frontier: F,
    cycle: bool,
) -> (r: Option<Path<'a, K, N, E>>)
    requires
        graph.wf(),
        root < graph.arena().len(),
        target matches Some(t) ==> t < graph.arena().len(),
        frontier.size() == 0,
        frontier.pending() == Set::<usize>::empty(),
        frontier.fifo() ==> frontier.line() == Seq::<usize>::empty(),
        all_callable(graph.arena(), dir, *method),
    ensures
        outcome(
            graph.arena(),
            dir,
            *method,
            root as int,
            goal_of(root, target, cycle),
            cycle,
            frontier.fifo(),
            path_view(r),
        ),
        r matches Some(path) ==> path.direction() == dir,
        refuses_nothing(graph.arena(), dir, *method) ==> path_view(r) == searched::<K, N, E, F>(
            graph.arena(),
            dir,
            root as int,
            goal_of(root, target, cycle),
            cycle,
            frontier.model(),
        ),
{
    let ghost fifo = frontier.fifo();
    let ghost exact = refuses_nothing(graph.arena(), dir, *method);
    let ghost empty = frontier.model();
    let ghost mut lvl: nat = 0;
    let ghost g = graph.arena();
    let ghost goal = goal_of(root, target, cycle);
    let n = graph.nodes.len();
    let mut visited: Vec<bool> = filled(n, false);
    let mut parent: Vec<Option<(usize, usize)>> = filled(n, None);
    if !cycle {
        visited[root] = true;
    }
    let mut front = frontier;
    front.push(root, &graph.nodes[root].value);
    let ghost mut depth: Seq<nat> = Seq::new(n as nat, |i: int| 0nat);
    let ghost mut expanded: Set<int> = Set::empty();
    let ghost first = start::<K, N, E, F>(g, root as int, cycle, empty);
    let ghost mut states: Seq<Scan<F::Model>> = seq![first];
    proof {
        let p = Progress { visited: visited@, parent: parent@, depth, expanded };
        assert(front.pending() =~= Set::<usize>::empty().insert(root));
        lemma_start(g, dir, *method, root as int, goal, cycle, p, front.pending());
        if fifo {
            assert(front.line() =~= seq![root]);
        }
        assert(visited@ =~= first.visited);
        assert(parent@ =~= first.parent);
    }
    loop
        invariant
            graph.wf(),
            g == graph.arena(),
            n == g.len(),
            root < n,
            goal == goal_of(root, target, cycle),
            all_callable(g, dir, *method),
            visited@.len() == n,
            parent@.len() == n,
            depth.len() == n,
            progress_ok(
                g,
                dir,
                *method,
                root as int,
                goal,
                cycle,
                Progress { visited: visited@, parent: parent@, depth, expanded },
                front.pending(),
                None,
                0,
            ),
            front.fifo() == fifo,
            frontier.fifo() == fifo,
            fifo ==> front.pending() == members(front.line()),
            fifo ==> level_ok(
                g,
                dir,
                *method,
                root as int,
                Progress { visited: visited@, parent: parent@, depth, expanded },
                front.line(),
                None,
                0,
                lvl,
            ),
            exact == refuses_nothing(g, dir, *method),
            empty == frontier.model(),
            first == start::<K, N, E, F>(g, root as int, cycle, empty),
            exact ==> is_run_so_far::<K, N, E, F>(g, dir, goal, first, states),
            exact ==> states.last() == (Scan::<F::Model> {
                visited: visited@,
                parent: parent@,
                front: front.model(),
                found: None,
            }),
        decreases unvisited(visited@) + front.size(),
    {
        let ghost before = front.pending();
        let ghost line = front.line();
        let ghost measure = unvisited(visited@) + front.size();
        match front.pop() {
            None => {
                proof {
                    lemma_exhausted(
                        g,
                        dir,
                        *method,
                        root as int,
                        goal,
                        cycle,
                        Progress { visited: visited@, parent: parent@, depth, expanded },
                    );
                }
                proof {
                    if exact {
                        lemma_result::<K, N, E, F>(
                            g,
                            dir,
                            root as int,
                            goal,
                            cycle,
                            empty,
                            states,
                            Seq::empty(),
                            None,
                        );
                    }
                }
                return None;
            },
            Some(cur) => {
                proof {
                    lemma_begin(
                        g,
                        dir,
                        *method,
                        root as int,
                        goal,
                        cycle,
                        Progress { visited: visited@, parent: parent@, depth, expanded },
                        before,
                        front.pending(),
                        cur,
                    );
                    if fifo {
                        lemma_level_begin(
                            g,
                            dir,
                            *method,
                            root as int,
                            Progress { visited: visited@, parent: parent@, depth, expanded },
                            line,
                            lvl,
                        );
                        lvl = depth[cur as int];
                    }
                }
                let list = list_of(graph, dir, cur);
                let mut j: usize = 0;
                while j < list.len()
                    invariant
                        graph.wf(),
                        g == graph.arena(),
                        n == g.len(),
                        root < n,
                        cur < n,
                        goal == goal_of(root, target, cycle),
                        all_callable(g, dir, *method),
                        visited@.len() == n,
                        parent@.len() == n,
                        depth.len() == n,
                        list@ == links(g, dir, cur as int),
                        j <= list@.len(),
                        progress_ok(
                            g,
                            dir,
                            *method,
                            root as int,
                            goal,
                            cycle,
                            Progress { visited: visited@, parent: parent@, depth, expanded },
                            front.pending(),
                            Some(cur as int),
                            j as int,
                        ),
                        front.fifo() == fifo,
                        frontier.fifo() == fifo,
                        exact == refuses_nothing(g, dir, *method),
                        empty == frontier.model(),
                        first == start::<K, N, E, F>(g, root as int, cycle, empty),
                        exact ==> is_run_so_far::<K, N, E, F>(g, dir, goal, first, states),
                        exact ==> !crate::run::done::<F>(states.last()),
                        exact ==> step::<K, N, E, F>(g, dir, goal, states.last()) == expand::<
                            K,
                            N,
                            E,
                            F,
                        >(
                            g,
                            dir,
                            goal,
                            cur as int,
                            j as int,
                            Scan {
                                visited: visited@,
                                parent: parent@,
                                front: front.model(),
                                found: None,
                            },
                        ),
                        fifo ==> front.pending() == members(front.line()),
                        fifo ==> level_ok(
                            g,
                            dir,
                            *method,
                            root as int,
                            Progress { visited: visited@, parent: parent@, depth, expanded },
                            front.line(),
                            Some(cur as int),
                            j as int,
                            lvl,
                        ),
                        unvisited(visited@) + front.size() == measure - 1,
                    decreases list@.len() - j,
                {
                    let ghost p = Progress { visited: visited@, parent: parent@, depth, expanded };
                    let ghost waiting = front.line();
                    let v = list[j].0.slot;
                    proof {
                        lemma_links(graph, dir, cur as int);
                        assert(list@[j as int].0.slot < n);
                    }
                    if !visited[v] {
                        let accept = match dir {
                            Direction::Forward => method.exec(
                                &graph.nodes[cur],
                                &graph.nodes[v],
                                &list[j].1,
                            ),
                            Direction::Backward => method.exec(
                                &graph.nodes[v],
                                &graph.nodes[cur],
                                &list[j].1,
                            ),
                        };
                        if accept {
                            let found = match target {
                                Some(t) => if cycle {
                                    v == root
                                } else {
                                    v == t
                                },
                                None => cycle && v == root,
                            };
                            if found {
                                proof {
                                    lemma_ready(
                                        g,
                                        dir,
                                        *method,
                                        root as int,
                                        goal,
                                        cycle,
                                        p,
                                        front.pending(),
                                        cur as int,
                                        j as int,
                                    );
                                }
                                let (path, Ghost(steps)) = reconstruct(
                                    graph,
                                    dir,
                                    method,
                                    &parent,
                                    root,
                                    cur,
                                    j,
                                    Ghost(depth),
                                );
                                proof {
                                    if exact {
                                        let last = Scan::<F::Model> {
                                            visited: visited@,
                                            parent: parent@,
                                            front: front.model(),
                                            found: Some((cur, j)),
                                        };
                                        lemma_run_on::<K, N, E, F>(
                                            g,
                                            dir,
                                            goal,
                                            first,
                                            states,
                                            last,
                                        );
                                        lemma_result::<K, N, E, F>(
                                            g,
                                            dir,
                                            root as int,
                                            goal,
                                            cycle,
                                            empty,
                                            states.push(last),
                                            steps,
                                            Some(path@),
                                        );
                                    }
                                    lemma_found(
                                        g,
                                        dir,
                                        *method,
                                        root as int,
                                        goal,
                                        cycle,
                                        fifo,
                                        p,
                                        front.pending(),
                                        waiting,
                                        cur as int,
                                        j as int,
                                        v as int,
                                        lvl,
                                        path@,
                                    );
                                }
                                return Some(path);
                            }
                            proof {
                                lemma_discover(
                                    g,
                                    dir,
                                    *method,
                                    root as int,
                                    goal,
                                    cycle,
                                    p,
                                    front.pending(),
                                    cur as int,
                                    j as int,
                                    v as int,
                                );
                                if fifo {
                                    lemma_level_discover(
                                        g,
                                        dir,
                                        *method,
                                        root as int,
                                        goal,
                                        cycle,
                                        p,
                                        front.pending(),
                                        waiting,
                                        cur as int,
                                        j as int,
                                        v as int,
                                        lvl,
                                    );
                                }
                                depth = depth.update(v as int, depth[cur as int] + 1);
                            }
                            visited[v] = true;
                            parent[v] = Some((cur, j));
                            front.push(v, &graph.nodes[v].value);
                        } else {
                            proof {
                                lemma_skip(
                                    g,
                                    dir,
                                    *method,
                                    root as int,
                                    goal,
                                    cycle,
                                    p,
                                    front.pending(),
                                    cur as int,
                                    j as int,
                                );
                                if fifo {
                                    lemma_level_skip(
                                        g,
                                        dir,
                                        *method,
                                        root as int,
                                        p,
                                        waiting,
                                        cur as int,
                                        j as int,
                                        lvl,
                                    );
                                }
                            }
                        }
                    } else {
                        proof {
                            lemma_skip(
                                g,
                                dir,
                                *method,
                                root as int,
                                goal,
                                cycle,
                                p,
                                front.pending(),
                                cur as int,
                                j as int,
                            );
                            if fifo {
                                lemma_level_skip(
                                    g,
                                    dir,
                                    *method,
                                    root as int,
                                    p,
                                    waiting,
                                    cur as int,
                                    j as int,
                                    lvl,
                                );
                            }
                        }
                    }
                    j += 1;
                }
                proof {
                    lemma_finish(
                        g,
                        dir,
                        *method,
                        root as int,
                        goal,
                        cycle,
                        Progress { visited: visited@, parent: parent@, depth, expanded },
                        front.pending(),
                        cur as int,
                    );
                    if fifo {
                        lemma_level_finish(
                            g,
                            dir,
                            *method,
                            root as int,
                            Progress { visited: visited@, parent: parent@, depth, expanded },
                            front.line(),
                            cur as int,
                            lvl,
                        );
                    }
                    expanded = expanded.insert(cur as int);
                    if exact {
                        let next = Scan::<F::Model> {
                            visited: visited@,
                            parent: parent@,
                            front: front.model(),
                            found: None,
                        };
                        lemma_run_on::<K, N, E, F>(g, dir, goal, first, states, next);
                        states = states.push(next);
                    }
                }
            },
        }
    }
}

/// The slot that a traversal looks for: `target`, or the root in a search
/// for a cycle.
pub open spec fn goal_of(root: usize, target: Option<usize>, cycle: bool) -> Option<int> {
    if cycle {
        Some(root as int)
    } else {
        match target {
            Some(t) => Some(t as int),
            None => None,
        }
    }
}

/// `target`, if it is one of the first `n` slots.
pub open spec fn within(target: Option<usize>, n: nat) -> Option<usize> {
    match target {
        Some(t) => if t < n {
            Some(t)
        } else {
            None
        },
        None => None,
    }
}

/// Takes out of `frontier` whatever waits in it.
fn drain<F: Frontier>(frontier: &mut F)
    ensures
        final(frontier).size() == 0,
        final(frontier).pending() == Set::<usize>::empty(),
        final(frontier).fifo() == old(frontier).fifo(),
        final(frontier).fifo() ==> final(frontier).line() == Seq::<usize>::empty(),
        final(frontier).model() == F::cleared(old(frontier).model()),
{
    loop
        invariant
            frontier.fifo() == old(frontier).fifo(),
            F::cleared(frontier.model()) == F::cleared(old(frontier).model()),
        decreases frontier.size(),
    {
        let ghost before = frontier.line();
        match frontier.pop() {
            Some(_) => {},
            None => {
                proof {
                    if frontier.fifo() && frontier.line().len() > 0 {
                        assert(members(frontier.line()).contains(frontier.line()[0]));
                    }
                    if frontier.fifo() {
                        assert(frontier.line() =~= Seq::<usize>::empty());
                    }
                }
                return ;
            },
        }
    }
}

/// Walks `graph` from the node in slot `root`, taking nodes up in the order
/// of `frontier` and following, at each, the edges of its list for `dir` in
/// list order: an edge to a node not seen before is shown to `method`, and
/// where `method` accepts it the node is seen and waits in the frontier, or,
/// if it is the goal, the walk ends and the route to it is returned. The goal
/// is `target`; with `cycle` it is the root itself, which then does not count
/// as seen at the start. Whatever waits in `frontier` at the start is dropped;
/// a root that is no slot of the graph gives no path, and a target that is
/// none is no target.
pub fn traverse<'a, K, N, E, M: Method<K, N, E>, F: Feed<N>>(
    graph: &'a Digraph<K, N, E>,
    root: usize,
    target: Option<usize>,
    dir: Direction,
    method: &M,
    frontier: F,
    cycle: bool,
) -> (r: Option<Path<'a, K, N, E>>)
    requires
        graph.wf(),
        all_callable(graph.arena(), dir, *method),
    ensures
        if root < graph.arena().len() {
            outcome(
                graph.arena(),
                dir,
                *method,
                root as int,
                goal_of(root, within(target, graph.arena().len()), cycle),
                cycle,
                frontier.fifo(),
                path_view(r),
            )
        } else {
            r is None
        },
        r matches Some(path) ==> path.direction() == dir,
        root < graph.arena().len() && refuses_nothing(graph.arena(), dir, *method) ==> path_view(r)
            == searched::<K, N, E, F>(
            graph.arena(),
            dir,
            root as int,
            goal_of(root, within(target, graph.arena().len()), cycle),
            cycle,
            F::cleared(frontier.model()),
        ),
{
    if root >= graph.nodes.len() {
        return None;
    }
    let goal = match target {
        Some(t) => if t < graph.nodes.len() {
            Some(t)
        } else {
            None
        },
        None => None,
    };
    let mut front = frontier;
    drain(&mut front);
    walk_from(graph, root, goal, dir, method, front, cycle)
}

/// The slot that a traversal of `graph` looks for: that of the node that
/// `target` names, if it names one, or the root's in a search for a cycle.
pub open spec fn goal_slot<K, N, E>(
    graph: &Digraph<K, N, E>,
    root: int,
    target: Option<K>,
    cycle: bool,
) -> Option<int> {
    if cycle {
        Some(root)
    } else {
        match target {
            Some(key) => slot_of(graph@, key),
            None => None,
        }
    }
}

/// What a traversal of `graph` from the node that `root` names may return:
/// nothing where `root` names no node, and else what `outcome` says.
pub open spec fn search_outcome<'a, K, N, E, M: Method<K, N, E>>(
    graph: &Digraph<K, N, E>,
    root: K,
    target: Option<K>,
    dir: Direction,
    method: M,
    cycle: bool,
    fifo: bool,
    r: Option<Seq<Edge<'a, K, N, E>>>,
) -> bool {
    match slot_of(graph@, root) {
        Some(s) => outcome(
            graph.arena(),
            dir,
            method,
            s,
            goal_slot(graph, s, target, cycle),
            cycle,
            fifo,
            r,
        ),
        None => r is None,
    }
}

/// What a traversal that hands out the node it found may return: the node at
/// the end of a path that it may return.
pub open spec fn node_outcome<'a, K, N, E, M: Method<K, N, E>>(
    graph: &Digraph<K, N, E>,
    root: K,
    target: Option<K>,
    dir: Direction,
    method: M,
    cycle: bool,
    fifo: bool,
    r: Option<&'a Node<K, N, E>>,
) -> bool {
    match r {
        Some(node) => exists|path: Seq<Edge<'a, K, N, E>>|
            #![trigger search_outcome(graph, root, target, dir, method, cycle, fifo, Some(path))]
            search_outcome(graph, root, target, dir, method, cycle, fifo, Some(path)) && node
                == head(dir, path.last()),
        None => search_outcome(
            graph,
            root,
            target,
            dir,
            method,
            cycle,
            fifo,
            None::<Seq<Edge<'a, K, N, E>>>,
        ),
    }
}

/// What a traversal that hands out the nodes of its path may return: the
/// nodes along a path that it may return.
pub open spec fn nodes_outcome<'a, K, N, E, M: Method<K, N, E>>(
    graph: &Digraph<K, N, E>,
    root: K,
    target: Option<K>,
    dir: Direction,
    method: M,
    cycle: bool,
    fifo: bool,
    r: Option<Seq<&'a Node<K, N, E>>>,
) -> bool {
    match r {
        Some(nodes) => exists|path: Seq<Edge<'a, K, N, E>>|
            #![trigger search_outcome(graph, root, target, dir, method, cycle, fifo, Some(path))]
            search_outcome(graph, root, target, dir, method, cycle, fifo, Some(path)) && nodes
                == nodes_along(dir, path),
        None => search_outcome(
            graph,
            root,
            target,
            dir,
            method,
            cycle,
            fifo,
            None::<Seq<Edge<'a, K, N, E>>>,
        ),
    }
}

/// The path that a traversal of `graph` from the node that `root` names
/// returns where every edge is followed: none where `root` names no node,
/// and else what `searched` names.
pub open spec fn search_result<'a, K, N, E, F: Feed<N>>(
    graph: &Digraph<K, N, E>,
    root: K,
    target: Option<K>,
    dir: Direction,
    cycle: bool,
    empty: F::Model,
) -> Option<Seq<Edge<'a, K, N, E>>> {
    match slot_of(graph@, root) {
        Some(s) => searched::<K, N, E, F>(
            graph.arena(),
            dir,
            s,
            goal_slot(graph, s, target, cycle),
            cycle,
            empty,
        ),
        None => None,
    }
}

/// The nodes along a path that may be there.
pub open spec fn nodes_of<'a, K, N, E>(dir: Direction, r: Option<Seq<Edge<'a, K, N, E>>>) -> Option<
    Seq<&'a Node<K, N, E>>,
> {
    match r {
        Some(path) => Some(nodes_along(dir, path)),
        None => None,
    }
}

/// The node at the end of a path that may be there.
pub open spec fn end_of<'a, K, N, E>(dir: Direction, r: Option<Seq<Edge<'a, K, N, E>>>) -> Option<
    &'a Node<K, N, E>,
> {
    match r {
        Some(path) => Some(head(dir, path.last())),
        None => None,
    }
}

/// The view of a path that may be there.
pub open spec fn path_view<'a, K, N, E>(r: Option<Path<'a, K, N, E>>) -> Option<
    Seq<Edge<'a, K, N, E>>,
> {
    match r {
        Some(path) => Some(path@),
        None => None,
    }
}

/// The key behind a reference that may be there.
pub open spec fn key_of<K>(target: Option<&K>) -> Option<K> {
    match target {
        Some(key) => Some(*key),
        None => None,
    }
}

/// The views of the elements of a vector that may be there.
pub open spec fn seq_of<T>(r: Option<Vec<T>>) -> Option<Seq<T>> {
    match r {
        Some(v) => Some(v@),
        None => None,
    }
}

/// Walks `graph` from the node that `root` names towards the node that
/// `target` names, or back to the root with `cycle`, as `traverse` does.
/// Where `root` names no node there is no path; where `target` names none,
/// the walk goes on until nothing waits and finds no path.
pub fn search_from<'a, K: Hash + Eq, N, E, M: Method<K, N, E>, F: Feed<N>>(
    graph: &'a Digraph<K, N, E>,
    root: &K,
    target: Option<&K>,
    dir: Direction,
    method: &M,
    frontier: F,
    cycle: bool,
) -> (r: Option<Path<'a, K, N, E>>)
    requires
        graph.wf(),
        obeys_key_model::<K>(),
        all_callable(graph.arena(), dir, *method),
    ensures
        search_outcome(
            graph,
            *root,
            match target {
                Some(key) => Some(*key),
                None => None,
            },
            dir,
            *method,
            cycle,
            frontier.fifo(),
            path_view(r),
        ),
        r matches Some(path) ==> path.direction() == dir,
        refuses_nothing(graph.arena(), dir, *method) ==> path_view(r) == search_result::<K, N, E, F>(
            graph,
            *root,
            key_of(target),
            dir,
            cycle,
            F::cleared(frontier.model()),
        ),
{
    proof {
        lemma_slot_of_some(graph@, *root);
        lemma_handles(graph@);
        graph.lemma_view();
    }
    match graph.handle(root) {
        Some(start) => {
            let goal = match target {
                Some(key) => {
                    proof {
                        lemma_slot_of_some(graph@, *key);
                    }
                    match graph.handle(key) {
                        Some(w) => Some(w.slot),
                        None => None,
                    }
                },
                None => None,
            };
            traverse(graph, start.slot, goal, dir, method, frontier, cycle)
        },
        None => None,
    }
}

} // verus!
