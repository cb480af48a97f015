use vstd::prelude::*;
use crate::edge::Edge;
use crate::frontier::{Feed, Frontier};
use crate::method::Method;
use crate::node::Node;
use crate::walk::{links, refuses, Direction};

verus! {

/// The state of a traversal between two nodes that it takes up: which nodes
/// it has seen, the entry (node and position in its list) over which it
/// found each, what waits in the frontier, and the entry over which it found
/// the goal, once it has.
pub struct Scan<W> {
    pub visited: Seq<bool>,
    pub parent: Seq<Option<(usize, usize)>>,
    pub front: W,
    pub found: Option<(usize, usize)>,
}

/// The method refuses no edge that a traversal of `g` in direction `dir` can
/// come upon.
pub open spec fn refuses_nothing<K, N, E, M: Method<K, N, E>>(
    g: Seq<Node<K, N, E>>,
    dir: Direction,
    method: M,
) -> bool {
    forall|x: int, j: int|
        0 <= x < g.len() && 0 <= j < links(g, dir, x).len() ==> !refuses(
            g,
            dir,
            method,
            x,
            (#[trigger] links(g, dir, x)[j]).0.slot as int,
            links(g, dir, x)[j].1,
        )
}

/// The state after the entries of `cur` from position `j` on were gone
/// through in list order, every edge followed: an entry to a node seen
/// before is passed over; an entry to the goal ends the traversal; over any
/// other entry its node is seen and joins the frontier.
pub open spec fn expand<K, N, E, F: Feed<N>>(
    g: Seq<Node<K, N, E>>,
    dir: Direction,
    goal: Option<int>,
    cur: int,
    j: int,
    s: Scan<F::Model>,
) -> Scan<F::Model>
    decreases links(g, dir, cur).len() - j,
{
    if j < 0 || j >= links(g, dir, cur).len() {
        s
    } else {
        let v = links(g, dir, cur)[j].0.slot;
        if s.visited[v as int] {
            expand::<K, N, E, F>(g, dir, goal, cur, j + 1, s)
        } else if goal == Some(v as int) {
            Scan { found: Some((cur as usize, j as usize)), ..s }
        } else {
            expand::<K, N, E, F>(
                g,
                dir,
                goal,
                cur,
                j + 1,
                Scan {
                    visited: s.visited.update(v as int, true),
                    parent: s.parent.update(v as int, Some((cur as usize, j as usize))),
                    front: F::given(s.front, v, g[v as int].value),
                    found: None,
                },
            )
        }
    }
}

/// The traversal is over: the goal was found, or nothing waits.
pub open spec fn done<F: Frontier>(s: Scan<F::Model>) -> bool {
    s.found is Some || F::taken(s.front) is None
}

/// The state after the node that leaves the frontier next was taken up and
/// its entries were gone through.
pub open spec fn step<K, N, E, F: Feed<N>>(
    g: Seq<Node<K, N, E>>,
    dir: Direction,
    goal: Option<int>,
    s: Scan<F::Model>,
) -> Scan<F::Model> {
    match F::taken(s.front) {
        Some((cur, rest)) => expand::<K, N, E, F>(
            g,
            dir,
            goal,
            cur as int,
            0,
            Scan { front: rest, ..s },
        ),
        None => s,
    }
}

/// The state in which a traversal from `root` starts, with a frontier that
/// held `empty`: the root waits, and counts as seen unless a cycle is
/// looked for.
pub open spec fn start<K, N, E, F: Feed<N>>(
    g: Seq<Node<K, N, E>>,
    root: int,
    cycle: bool,
    empty: F::Model,
) -> Scan<F::Model> {
    Scan {
        visited: Seq::new(g.len(), |i: int| !cycle && i == root),
        parent: Seq::new(g.len(), |i: int| None),
        front: F::given(empty, root as usize, g[root].value),
        found: None,
    }
}

/// `states` are the states of a traversal that starts in `first`, one node
/// taken up between each and the next, up to the state in which it is over.
pub open spec fn is_run<K, N, E, F: Feed<N>>(
    g: Seq<Node<K, N, E>>,
    dir: Direction,
    goal: Option<int>,
    first: Scan<F::Model>,
    states: Seq<Scan<F::Model>>,
) -> bool {
    &&& states.len() > 0
    &&& states[0] == first
    &&& forall|i: int|
        0 <= i < states.len() - 1 ==> !done::<F>(#[trigger] states[i]) && states[i + 1] == step::<
            K,
            N,
            E,
            F,
        >(g, dir, goal, states[i])
    &&& done::<F>(states.last())
}

/// `steps` are the entries over which the goal was reached from the root:
/// the last is the one over which it was found, and each is an entry of the
/// node that was found over the one before it.
pub open spec fn is_trail(
    root: int,
    parent: Seq<Option<(usize, usize)>>,
    found: (usize, usize),
    steps: Seq<(usize, usize)>,
) -> bool {
    &&& steps.len() > 0
    &&& steps.last() == found
    &&& steps[0].0 == root
    &&& forall|i: int|
        0 < i < steps.len() ==> (#[trigger] steps[i]).0 != root && parent[steps[i].0 as int]
            == Some(steps[i - 1])
}

/// The edge behind the entry `at` (node and position in the list that a
/// traversal in direction `dir` follows), from its source to its target.
pub open spec fn edge_over<'a, K, N, E>(
    g: Seq<Node<K, N, E>>,
    dir: Direction,
    at: (usize, usize),
) -> Edge<'a, K, N, E> {
    let entry = links(g, dir, at.0 as int)[at.1 as int];
    match dir {
        Direction::Forward => Edge {
            source: &g[at.0 as int],
            target: &g[entry.0.slot as int],
            value: &entry.1,
        },
        Direction::Backward => Edge {
            source: &g[entry.0.slot as int],
            target: &g[at.0 as int],
            value: &entry.1,
        },
    }
}

/// The edges behind `steps`.
pub open spec fn edges_over<'a, K, N, E>(
    g: Seq<Node<K, N, E>>,
    dir: Direction,
    steps: Seq<(usize, usize)>,
) -> Seq<Edge<'a, K, N, E>> {
    Seq::new(steps.len(), |i: int| edge_over(g, dir, steps[i]))
}

/// `r` is what a traversal that follows every edge returns: it ends in some
/// state, with the path over the trail to the goal if it found the goal, and
/// without a path if not.
pub open spec fn is_result<'a, K, N, E, F: Feed<N>>(
    g: Seq<Node<K, N, E>>,
    dir: Direction,
    root: int,
    goal: Option<int>,
    cycle: bool,
    empty: F::Model,
    r: Option<Seq<Edge<'a, K, N, E>>>,
) -> bool {
    exists|states: Seq<Scan<F::Model>>, steps: Seq<(usize, usize)>|
        #![trigger is_run::<K, N, E, F>(g, dir, goal, start::<K, N, E, F>(g, root, cycle, empty), states), edges_over::<K, N, E>(g, dir, steps)]
        is_run::<K, N, E, F>(g, dir, goal, start::<K, N, E, F>(g, root, cycle, empty), states)
            && match states.last().found {
            Some(found) => is_trail(root, states.last().parent, found, steps) && r == Some(
                edges_over(g, dir, steps),
            ),
            None => r is None,
        }
}

/// The path that a traversal of `g` from `root` towards `goal` returns where
/// every edge is followed, with a frontier `F` that held `empty` at the
/// start: the nodes are taken up in the order in which `F` hands them out,
/// and the entries of each are gone through in list order.
pub open spec fn searched<'a, K, N, E, F: Feed<N>>(
    g: Seq<Node<K, N, E>>,
    dir: Direction,
    root: int,
    goal: Option<int>,
    cycle: bool,
    empty: F::Model,
) -> Option<Seq<Edge<'a, K, N, E>>> {
    choose|r: Option<Seq<Edge<'a, K, N, E>>>|
        is_result::<K, N, E, F>(g, dir, root, goal, cycle, empty, r)
}

/// `states` are the states of a traversal that starts in `first`, as far as
/// it has come.
pub open spec fn is_run_so_far<K, N, E, F: Feed<N>>(
    g: Seq<Node<K, N, E>>,
    dir: Direction,
    goal: Option<int>,
    first: Scan<F::Model>,
    states: Seq<Scan<F::Model>>,
) -> bool {
    &&& states.len() > 0
    &&& states[0] == first
    &&& forall|i: int|
        0 <= i < states.len() - 1 ==> !done::<F>(#[trigger] states[i]) && states[i + 1] == step::<
            K,
            N,
            E,
            F,
        >(g, dir, goal, states[i])
}

/// A run that is not over goes on with the next state.
pub proof fn lemma_run_on<K, N, E, F: Feed<N>>(
    g: Seq<Node<K, N, E>>,
    dir: Direction,
    goal: Option<int>,
    first: Scan<F::Model>,
    states: Seq<Scan<F::Model>>,
    next: Scan<F::Model>,
)
    requires
        is_run_so_far::<K, N, E, F>(g, dir, goal, first, states),
        !done::<F>(states.last()),
        next == step::<K, N, E, F>(g, dir, goal, states.last()),
    ensures
        is_run_so_far::<K, N, E, F>(g, dir, goal, first, states.push(next)),
        states.push(next).last() == next,
        done::<F>(next) ==> is_run::<K, N, E, F>(g, dir, goal, first, states.push(next)),
{
    let more = states.push(next);
    assert forall|i: int| 0 <= i < more.len() - 1 implies !done::<F>(#[trigger] more[i]) && more[i
        + 1] == step::<K, N, E, F>(g, dir, goal, more[i]) by {
        if i < states.len() - 1 {
            assert(more[i] == states[i]);
            assert(more[i + 1] == states[i + 1]);
        } else {
            assert(more[i] == states.last());
        }
    }
}

/// A traversal whose run ended without the goal returns nothing; one whose
/// run ended with the goal returns the edges over the trail to it.
pub proof fn lemma_result<'a, K, N, E, F: Feed<N>>(
    g: Seq<Node<K, N, E>>,
    dir: Direction,
    root: int,
    goal: Option<int>,
    cycle: bool,
    empty: F::Model,
    states: Seq<Scan<F::Model>>,
    steps: Seq<(usize, usize)>,
    r: Option<Seq<Edge<'a, K, N, E>>>,
)
    requires
        is_run_so_far::<K, N, E, F>(
            g,
            dir,
            goal,
            start::<K, N, E, F>(g, root, cycle, empty),
            states,
        ),
        done::<F>(states.last()),
        match states.last().found {
            Some(found) => is_trail(root, states.last().parent, found, steps) && r == Some(
                edges_over(g, dir, steps),
            ),
            None => r is None,
        },
    ensures
        is_result::<K, N, E, F>(g, dir, root, goal, cycle, empty, r),
        searched::<K, N, E, F>(g, dir, root, goal, cycle, empty) == r,
{
    assert(is_run::<K, N, E, F>(g, dir, goal, start::<K, N, E, F>(g, root, cycle, empty), states));
    assert(edges_over::<K, N, E>(g, dir, steps) == edges_over::<K, N, E>(g, dir, steps));
    lemma_searched::<K, N, E, F>(g, dir, root, goal, cycle, empty, r);
}

/// Two runs from one state go through the same states.
proof fn lemma_run_same<K, N, E, F: Feed<N>>(
    g: Seq<Node<K, N, E>>,
    dir: Direction,
    goal: Option<int>,
    first: Scan<F::Model>,
    a: Seq<Scan<F::Model>>,
    b: Seq<Scan<F::Model>>,
    i: int,
)
    requires
        is_run::<K, N, E, F>(g, dir, goal, first, a),
        is_run::<K, N, E, F>(g, dir, goal, first, b),
        0 <= i < a.len(),
        i < b.len(),
    ensures
        a[i] == b[i],
    decreases i,
{
    if i > 0 {
        lemma_run_same::<K, N, E, F>(g, dir, goal, first, a, b, i - 1);
        assert(a[i] == step::<K, N, E, F>(g, dir, goal, a[i - 1]));
        assert(b[i] == step::<K, N, E, F>(g, dir, goal, b[i - 1]));
    }
}

/// Two runs from one state end in the same state.
proof fn lemma_run_unique<K, N, E, F: Feed<N>>(
    g: Seq<Node<K, N, E>>,
    dir: Direction,
    goal: Option<int>,
    first: Scan<F::Model>,
    a: Seq<Scan<F::Model>>,
    b: Seq<Scan<F::Model>>,
)
    requires
        is_run::<K, N, E, F>(g, dir, goal, first, a),
        is_run::<K, N, E, F>(g, dir, goal, first, b),
    ensures
        a.last() == b.last(),
{
    if a.len() < b.len() {
        lemma_run_same::<K, N, E, F>(g, dir, goal, first, a, b, a.len() - 1);
        assert(!done::<F>(b[a.len() - 1]));
    } else if b.len() < a.len() {
        lemma_run_same::<K, N, E, F>(g, dir, goal, first, a, b, b.len() - 1);
        assert(!done::<F>(a[b.len() - 1]));
    } else {
        lemma_run_same::<K, N, E, F>(g, dir, goal, first, a, b, a.len() - 1);
    }
}

/// Two trails to one entry agree from the end.
proof fn lemma_trail_same(
    root: int,
    parent: Seq<Option<(usize, usize)>>,
    found: (usize, usize),
    a: Seq<(usize, usize)>,
    b: Seq<(usize, usize)>,
    k: int,
)
    requires
        is_trail(root, parent, found, a),
        is_trail(root, parent, found, b),
        0 <= k < a.len(),
        k < b.len(),
    ensures
        a[a.len() - 1 - k] == b[b.len() - 1 - k],
    decreases k,
{
    if k > 0 {
        lemma_trail_same(root, parent, found, a, b, k - 1);
        let i = a.len() - k;
        let j = b.len() - k;
        assert(parent[a[i].0 as int] == Some(a[i - 1]));
        assert(parent[b[j].0 as int] == Some(b[j - 1]));
    }
}

/// There is one trail to an entry.
proof fn lemma_trail_unique(
    root: int,
    parent: Seq<Option<(usize, usize)>>,
    found: (usize, usize),
    a: Seq<(usize, usize)>,
    b: Seq<(usize, usize)>,
)
    requires
        is_trail(root, parent, found, a),
        is_trail(root, parent, found, b),
    ensures
        a == b,
{
    if a.len() < b.len() {
        lemma_trail_same(root, parent, found, a, b, a.len() - 1);
        assert(b[b.len() - a.len()].0 != root);
    } else if b.len() < a.len() {
        lemma_trail_same(root, parent, found, a, b, b.len() - 1);
        assert(a[a.len() - b.len()].0 != root);
    } else {
        assert forall|i: int| 0 <= i < a.len() implies a[i] == b[i] by {
            lemma_trail_same(root, parent, found, a, b, a.len() - 1 - i);
        }
        assert(a =~= b);
    }
}

/// A traversal that follows every edge has one result: what it returns is
/// what `searched` names.
pub proof fn lemma_searched<'a, K, N, E, F: Feed<N>>(
    g: Seq<Node<K, N, E>>,
    dir: Direction,
    root: int,
    goal: Option<int>,
    cycle: bool,
    empty: F::Model,
    r: Option<Seq<Edge<'a, K, N, E>>>,
)
    requires
        is_result::<K, N, E, F>(g, dir, root, goal, cycle, empty, r),
    ensures
        searched::<K, N, E, F>(g, dir, root, goal, cycle, empty) == r,
{
    let first = start::<K, N, E, F>(g, root, cycle, empty);
    let other = searched::<K, N, E, F>(g, dir, root, goal, cycle, empty);
    assert(is_result::<K, N, E, F>(g, dir, root, goal, cycle, empty, other));
    let (sa, ta) = choose|states: Seq<Scan<F::Model>>, steps: Seq<(usize, usize)>|
        #![trigger is_run::<K, N, E, F>(g, dir, goal, first, states), edges_over::<K, N, E>(g, dir, steps)]
        is_run::<K, N, E, F>(g, dir, goal, first, states) && match states.last().found {
            Some(found) => is_trail(root, states.last().parent, found, steps) && r == Some(
                edges_over(g, dir, steps),
            ),
            None => r is None,
        };
    let (sb, tb) = choose|states: Seq<Scan<F::Model>>, steps: Seq<(usize, usize)>|
        #![trigger is_run::<K, N, E, F>(g, dir, goal, first, states), edges_over::<K, N, E>(g, dir, steps)]
        is_run::<K, N, E, F>(g, dir, goal, first, states) && match states.last().found {
            Some(found) => is_trail(root, states.last().parent, found, steps) && other == Some(
                edges_over(g, dir, steps),
            ),
            None => other is None,
        };
    lemma_run_unique::<K, N, E, F>(g, dir, goal, first, sa, sb);
    if let Some(found) = sa.last().found {
        lemma_trail_unique(root, sa.last().parent, found, ta, tb);
    }
}

} // verus!
