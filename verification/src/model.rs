use vstd::prelude::*;
use crate::adjacent::{
    first_to, handles_in_range, has_peer, lemma_first_to, lemma_values_to_empty,
    lemma_values_to_push, lemma_values_to_remove, lemma_values_to_without,
    lemma_without_in_range, values_to, without, WeakNode,
};
use crate::node::NodeView;

verus! {

/// The handle of the node in slot `i`.
pub open spec fn handle(i: int) -> WeakNode {
    WeakNode { slot: i as usize }
}

/// The number of edges of `g`: the outbound entries of all its nodes.
pub open spec fn total_out<K, N, E>(g: Seq<NodeView<K, N, E>>) -> nat
    decreases g.len(),
{
    if g.len() == 0 {
        0
    } else {
        total_out(g.drop_last()) + g.last().outbound.len()
    }
}

/// The edges from `a` to `b` carry the same values, in the same order, in the
/// outbound list of `a` and in the inbound list of `b`.
pub open spec fn mirrored<K, N, E>(g: Seq<NodeView<K, N, E>>, a: int, b: int) -> bool {
    values_to(g[a].outbound, handle(b)) == values_to(g[b].inbound, handle(a))
}

/// What holds of the arena of every graph: each node knows its slot, no key
/// occurs twice, every edge leads to a node of the arena, and the two lists
/// that hold an edge agree on it.
pub open spec fn graph_wf<K, N, E>(g: Seq<NodeView<K, N, E>>) -> bool {
    &&& forall|i: int| 0 <= i < g.len() ==> (#[trigger] g[i]).slot == i
    &&& forall|i: int, j: int|
        0 <= i < g.len() && 0 <= j < g.len() && i != j ==> (#[trigger] g[i]).key != (
        #[trigger] g[j]).key
    &&& forall|i: int| 0 <= i < g.len() ==> handles_in_range((#[trigger] g[i]).outbound, g.len())
    &&& forall|i: int| 0 <= i < g.len() ==> handles_in_range((#[trigger] g[i]).inbound, g.len())
    &&& forall|a: int, b: int| 0 <= a < g.len() && 0 <= b < g.len() ==> #[trigger] mirrored(g, a, b)
}

/// Some node of `g` has the key `key`.
pub open spec fn has_key<K, N, E>(g: Seq<NodeView<K, N, E>>, key: K) -> bool {
    exists|i: int| 0 <= i < g.len() && (#[trigger] g[i]).key == key
}

/// The slot of the node that `key` names, if there is one.
pub open spec fn slot_of<K, N, E>(g: Seq<NodeView<K, N, E>>, key: K) -> Option<int> {
    if has_key(g, key) {
        Some(choose|i: int| 0 <= i < g.len() && (#[trigger] g[i]).key == key)
    } else {
        None
    }
}

/// `index` leads from the key of every node of `g` to its slot, and from
/// nothing else.
pub open spec fn indexed<K, N, E>(index: Map<K, usize>, g: Seq<NodeView<K, N, E>>) -> bool {
    &&& forall|i: int|
        0 <= i < g.len() ==> index.contains_key((#[trigger] g[i]).key) && index[g[i].key] == i
    &&& forall|key: K| #[trigger]
        index.contains_key(key) ==> index[key] < g.len() && g[index[key] as int].key == key
}

/// An index of `g` is one of every arena with the same keys in the same
/// slots.
pub proof fn lemma_indexed_keep<K, N, E>(
    index: Map<K, usize>,
    g: Seq<NodeView<K, N, E>>,
    g2: Seq<NodeView<K, N, E>>,
)
    requires
        indexed(index, g),
        g2.len() == g.len(),
        forall|i: int| 0 <= i < g.len() ==> (#[trigger] g2[i]).key == g[i].key,
    ensures
        indexed(index, g2),
{
    assert forall|i: int| 0 <= i < g2.len() implies index.contains_key((#[trigger] g2[i]).key)
        && index[g2[i].key] == i by {
        assert(g[i].key == g2[i].key);
    }
    assert forall|key: K| #[trigger] index.contains_key(key) implies index[key] < g2.len()
        && g2[index[key] as int].key == key by {
        assert(g2[index[key] as int].key == g[index[key] as int].key);
    }
}

/// An index that takes in the key of a new node is an index of the arena
/// with that node.
pub proof fn lemma_indexed_insert<K, N, E>(
    index: Map<K, usize>,
    g: Seq<NodeView<K, N, E>>,
    key: K,
    value: N,
)
    requires
        indexed(index, g),
        !has_key(g, key),
        g.len() <= usize::MAX,
    ensures
        indexed(index.insert(key, g.len() as usize), inserted(g, key, value)),
{
    let g2 = inserted(g, key, value);
    let index2 = index.insert(key, g.len() as usize);
    assert forall|i: int| 0 <= i < g2.len() implies index2.contains_key((#[trigger] g2[i]).key)
        && index2[g2[i].key] == i by {
        if i < g.len() {
            assert(g[i].key == g2[i].key);
        }
    }
    assert forall|k: K| #[trigger] index2.contains_key(k) implies index2[k] < g2.len()
        && g2[index2[k] as int].key == k by {
        if k != key {
            assert(index.contains_key(k));
            assert(g2[index[k] as int] == g[index[k] as int]);
        }
    }
}

/// What an index says of a key is what `slot_of` says.
pub proof fn lemma_indexed_slot<K, N, E>(index: Map<K, usize>, g: Seq<NodeView<K, N, E>>, key: K)
    requires
        graph_wf(g),
        indexed(index, g),
    ensures
        index.contains_key(key) <==> has_key(g, key),
        index.contains_key(key) ==> slot_of(g, key) == Some(index[key] as int),
{
    if index.contains_key(key) {
        lemma_slot_of(g, key, index[key] as int);
    }
    if has_key(g, key) {
        let i = choose|i: int| 0 <= i < g.len() && (#[trigger] g[i]).key == key;
        assert(index.contains_key(g[i].key));
    }
}

/// `a` has an edge to `b`.
pub open spec fn connected<K, N, E>(g: Seq<NodeView<K, N, E>>, a: int, b: int) -> bool {
    has_peer(g[a].outbound, handle(b))
}

/// `n` with `list` for its outbound edges.
pub open spec fn with_outbound<K, N, E>(n: NodeView<K, N, E>, list: Seq<(WeakNode, E)>) -> NodeView<
    K,
    N,
    E,
> {
    NodeView { outbound: list, ..n }
}

/// `n` with `list` for its inbound edges.
pub open spec fn with_inbound<K, N, E>(n: NodeView<K, N, E>, list: Seq<(WeakNode, E)>) -> NodeView<
    K,
    N,
    E,
> {
    NodeView { inbound: list, ..n }
}

/// `g` with one more node, which has no edges.
pub open spec fn inserted<K, N, E>(g: Seq<NodeView<K, N, E>>, key: K, value: N) -> Seq<
    NodeView<K, N, E>,
> {
    g.push(
        NodeView {
            key,
            value,
            slot: g.len() as usize,
            outbound: Seq::empty(),
            inbound: Seq::empty(),
        },
    )
}

/// `g` with `value` for the payload of the node in slot `i`.
pub open spec fn stored<K, N, E>(g: Seq<NodeView<K, N, E>>, i: int, value: N) -> Seq<
    NodeView<K, N, E>,
> {
    g.update(i, NodeView { value, ..g[i] })
}

/// `g` with one more edge from `s` to `t`, at the end of both its lists.
pub open spec fn linked<K, N, E>(g: Seq<NodeView<K, N, E>>, s: int, t: int, e: E) -> Seq<
    NodeView<K, N, E>,
> {
    let g1 = g.update(s, with_outbound(g[s], g[s].outbound.push((handle(t), e))));
    g1.update(t, with_inbound(g1[t], g1[t].inbound.push((handle(s), e))))
}

/// `g` without the first edge from `s` to `t`; `g` itself if there is none.
pub open spec fn unlinked<K, N, E>(g: Seq<NodeView<K, N, E>>, s: int, t: int) -> Seq<
    NodeView<K, N, E>,
> {
    match (first_to(g[s].outbound, handle(t)), first_to(g[t].inbound, handle(s))) {
        (Some(i), Some(j)) => {
            let g1 = g.update(s, with_outbound(g[s], g[s].outbound.remove(i)));
            g1.update(t, with_inbound(g1[t], g1[t].inbound.remove(j)))
        },
        _ => g,
    }
}

/// `g` without any edge that leaves or reaches `n`.
pub open spec fn isolated<K, N, E>(g: Seq<NodeView<K, N, E>>, n: int) -> Seq<NodeView<K, N, E>> {
    Seq::new(
        g.len(),
        |x: int|
            if x == n {
                NodeView { outbound: Seq::empty(), inbound: Seq::empty(), ..g[x] }
            } else {
                NodeView {
                    outbound: without(g[x].outbound, handle(n)),
                    inbound: without(g[x].inbound, handle(n)),
                    ..g[x]
                }
            },
    )
}

/// With distinct keys, the node that holds a key is the one `slot_of` names.
pub proof fn lemma_slot_of<K, N, E>(g: Seq<NodeView<K, N, E>>, key: K, i: int)
    requires
        graph_wf(g),
        0 <= i < g.len(),
        g[i].key == key,
    ensures
        slot_of(g, key) == Some(i),
{
}

/// What `slot_of` names holds the key.
pub proof fn lemma_slot_of_some<K, N, E>(g: Seq<NodeView<K, N, E>>, key: K)
    ensures
        slot_of(g, key) matches Some(i) ==> 0 <= i < g.len() && g[i].key == key,
        slot_of(g, key) is None ==> forall|i: int| 0 <= i < g.len() ==> (#[trigger] g[i]).key != key,
{
}

/// An arena has at most as many slots as `usize` has values, so a slot and
/// its handle name each other.
pub proof fn lemma_handles<K, N, E>(g: Seq<NodeView<K, N, E>>)
    requires
        graph_wf(g),
    ensures
        g.len() <= usize::MAX + 1,
        forall|i: int| 0 <= i < g.len() ==> (#[trigger] handle(i)).slot == i,
{
    if g.len() > 0 {
        assert(g[g.len() - 1].slot == g.len() - 1);
    }
}

/// Replacing one node changes the edge count by the change of its outbound
/// list.
pub proof fn lemma_total_out_update<K, N, E>(
    g: Seq<NodeView<K, N, E>>,
    i: int,
    node: NodeView<K, N, E>,
)
    requires
        0 <= i < g.len(),
    ensures
        total_out(g.update(i, node)) == total_out(g) - g[i].outbound.len() + node.outbound.len(),
        total_out(g) >= g[i].outbound.len(),
    decreases g.len(),
{
    if i == g.len() - 1 {
        assert(g.update(i, node).drop_last() =~= g.drop_last());
    } else {
        assert(g.update(i, node).drop_last() =~= g.drop_last().update(i, node));
        lemma_total_out_update(g.drop_last(), i, node);
    }
}

/// Where no node has more than `bound` outbound edges, there are no more
/// edges than that for each node.
pub proof fn lemma_total_out_bound<K, N, E>(g: Seq<NodeView<K, N, E>>, bound: nat)
    requires
        forall|i: int| 0 <= i < g.len() ==> (#[trigger] g[i]).outbound.len() <= bound,
    ensures
        total_out(g) <= g.len() * bound,
    decreases g.len(),
{
    if g.len() > 0 {
        let init = g.drop_last();
        assert forall|i: int| 0 <= i < init.len() implies (#[trigger] init[i]).outbound.len()
            <= bound by {
            assert(init[i] == g[i]);
        }
        lemma_total_out_bound(init, bound);
        assert(g[g.len() - 1].outbound.len() <= bound);
        assert(init.len() * bound + bound == g.len() * bound) by (nonlinear_arith)
            requires
                init.len() + 1 == g.len(),
        ;
    } else {
        assert(g.len() * bound == 0) by (nonlinear_arith)
            requires
                g.len() == 0,
        ;
    }
}

/// A node without edges adds nothing to the edge count.
pub proof fn lemma_total_out_push<K, N, E>(g: Seq<NodeView<K, N, E>>, node: NodeView<K, N, E>)
    ensures
        total_out(g.push(node)) == total_out(g) + node.outbound.len(),
{
    assert(g.push(node).drop_last() =~= g);
}

/// A new key gives a well-formed arena with as many edges.
pub proof fn lemma_inserted<K, N, E>(g: Seq<NodeView<K, N, E>>, key: K, value: N)
    requires
        graph_wf(g),
        !has_key(g, key),
        g.len() <= usize::MAX,
    ensures
        graph_wf(inserted(g, key, value)),
        total_out(inserted(g, key, value)) == total_out(g),
{
    let g2 = inserted(g, key, value);
    lemma_total_out_push(g, g2.last());
    assert forall|i: int, j: int| 0 <= i < g2.len() && 0 <= j < g2.len() && i != j implies (
    #[trigger] g2[i]).key != (#[trigger] g2[j]).key by {
        if i < g.len() {
            assert(g[i].key == g2[i].key);
        }
        if j < g.len() {
            assert(g[j].key == g2[j].key);
        }
    }
    assert forall|i: int| 0 <= i < g2.len() implies handles_in_range(
        (#[trigger] g2[i]).outbound,
        g2.len(),
    ) by {
        if i < g.len() {
            assert(handles_in_range(g[i].outbound, g.len()));
        }
    }
    assert forall|i: int| 0 <= i < g2.len() implies handles_in_range(
        (#[trigger] g2[i]).inbound,
        g2.len(),
    ) by {
        if i < g.len() {
            assert(handles_in_range(g[i].inbound, g.len()));
        }
    }
    assert forall|a: int, b: int| 0 <= a < g2.len() && 0 <= b < g2.len() implies #[trigger] mirrored(
        g2,
        a,
        b,
    ) by {
        let n = g.len() as int;
        if a < n && b < n {
            assert(mirrored(g, a, b));
        } else if a < n {
            // no edge of `a` leads to the new slot
            assert(!has_peer(g[a].outbound, handle(b))) by {
                assert(handles_in_range(g[a].outbound, g.len()));
            }
            lemma_values_to_empty(g[a].outbound, handle(b));
            assert(values_to(g2[a].outbound, handle(b)) =~= Seq::<E>::empty());
            assert(values_to(g2[b].inbound, handle(a)) =~= Seq::<E>::empty());
        } else if b < n {
            assert(!has_peer(g[b].inbound, handle(a))) by {
                assert(handles_in_range(g[b].inbound, g.len()));
            }
            lemma_values_to_empty(g[b].inbound, handle(a));
            assert(values_to(g2[b].inbound, handle(a)) =~= Seq::<E>::empty());
            assert(values_to(g2[a].outbound, handle(b)) =~= Seq::<E>::empty());
        }
    }
}

/// A new payload leaves the arena well-formed, with as many edges.
pub proof fn lemma_stored<K, N, E>(g: Seq<NodeView<K, N, E>>, i: int, value: N)
    requires
        graph_wf(g),
        0 <= i < g.len(),
    ensures
        graph_wf(stored(g, i, value)),
        total_out(stored(g, i, value)) == total_out(g),
{
    let g2 = stored(g, i, value);
    lemma_total_out_update(g, i, g2[i]);
    assert forall|x: int, y: int| 0 <= x < g2.len() && 0 <= y < g2.len() && x != y implies (
    #[trigger] g2[x]).key != (#[trigger] g2[y]).key by {
        assert(g[x].key == g2[x].key);
        assert(g[y].key == g2[y].key);
    }
    assert forall|x: int| 0 <= x < g2.len() implies handles_in_range(
        (#[trigger] g2[x]).outbound,
        g2.len(),
    ) by {
        assert(handles_in_range(g[x].outbound, g.len()));
    }
    assert forall|x: int| 0 <= x < g2.len() implies handles_in_range(
        (#[trigger] g2[x]).inbound,
        g2.len(),
    ) by {
        assert(handles_in_range(g[x].inbound, g.len()));
    }
    assert forall|a: int, b: int| 0 <= a < g2.len() && 0 <= b < g2.len() implies #[trigger] mirrored(
        g2,
        a,
        b,
    ) by {
        assert(mirrored(g, a, b));
    }
}

/// A new edge leaves the arena well-formed, with one edge more.
pub proof fn lemma_linked<K, N, E>(g: Seq<NodeView<K, N, E>>, s: int, t: int, e: E)
    requires
        graph_wf(g),
        0 <= s < g.len(),
        0 <= t < g.len(),
    ensures
        graph_wf(linked(g, s, t, e)),
        total_out(linked(g, s, t, e)) == total_out(g) + 1,
        linked(g, s, t, e).len() == g.len(),
{
    lemma_handles(g);
    let g1 = g.update(s, with_outbound(g[s], g[s].outbound.push((handle(t), e))));
    let g2 = linked(g, s, t, e);
    lemma_total_out_update(g, s, g1[s]);
    lemma_total_out_update(g1, t, g2[t]);
    assert forall|x: int, y: int| 0 <= x < g2.len() && 0 <= y < g2.len() && x != y implies (
    #[trigger] g2[x]).key != (#[trigger] g2[y]).key by {
        assert(g[x].key == g2[x].key);
        assert(g[y].key == g2[y].key);
    }
    assert forall|x: int| 0 <= x < g2.len() implies handles_in_range(
        (#[trigger] g2[x]).outbound,
        g2.len(),
    ) by {
        assert(handles_in_range(g[x].outbound, g.len()));
    }
    assert forall|x: int| 0 <= x < g2.len() implies handles_in_range(
        (#[trigger] g2[x]).inbound,
        g2.len(),
    ) by {
        assert(handles_in_range(g[x].inbound, g.len()));
    }
    assert forall|a: int, b: int| 0 <= a < g2.len() && 0 <= b < g2.len() implies #[trigger] mirrored(
        g2,
        a,
        b,
    ) by {
        assert(mirrored(g, a, b));
        lemma_values_to_push(g[a].outbound, (handle(t), e), handle(b));
        lemma_values_to_push(g[b].inbound, (handle(s), e), handle(a));
    }
}

/// Where `s` has an edge to `t`, `t` has one from `s`, and taking the first
/// of them out of both lists leaves the arena well-formed, with one edge less.
pub proof fn lemma_unlinked<K, N, E>(g: Seq<NodeView<K, N, E>>, s: int, t: int)
    requires
        graph_wf(g),
        0 <= s < g.len(),
        0 <= t < g.len(),
        connected(g, s, t),
    ensures
        first_to(g[s].outbound, handle(t)) is Some,
        first_to(g[t].inbound, handle(s)) is Some,
        g[s].outbound[first_to(g[s].outbound, handle(t)).unwrap()].1 == g[t].inbound[first_to(
            g[t].inbound,
            handle(s),
        ).unwrap()].1,
        graph_wf(unlinked(g, s, t)),
        total_out(unlinked(g, s, t)) == total_out(g) - 1,
        unlinked(g, s, t).len() == g.len(),
{
    lemma_handles(g);
    assert(mirrored(g, s, t));
    lemma_values_to_empty(g[s].outbound, handle(t));
    lemma_values_to_empty(g[t].inbound, handle(s));
    lemma_first_to(g[s].outbound, handle(t));
    lemma_first_to(g[t].inbound, handle(s));
    let i = first_to(g[s].outbound, handle(t)).unwrap();
    let j = first_to(g[t].inbound, handle(s)).unwrap();
    lemma_values_to_remove(g[s].outbound, handle(t), i, handle(t));
    lemma_values_to_remove(g[t].inbound, handle(s), j, handle(s));
    let g1 = g.update(s, with_outbound(g[s], g[s].outbound.remove(i)));
    let g2 = unlinked(g, s, t);
    lemma_total_out_update(g, s, g1[s]);
    lemma_total_out_update(g1, t, g2[t]);
    assert forall|x: int, y: int| 0 <= x < g2.len() && 0 <= y < g2.len() && x != y implies (
    #[trigger] g2[x]).key != (#[trigger] g2[y]).key by {
        assert(g[x].key == g2[x].key);
        assert(g[y].key == g2[y].key);
    }
    assert forall|x: int| 0 <= x < g2.len() implies handles_in_range(
        (#[trigger] g2[x]).outbound,
        g2.len(),
    ) by {
        assert(handles_in_range(g[x].outbound, g.len()));
        if x == s {
            assert forall|k: int| 0 <= k < g2[x].outbound.len() implies (
            #[trigger] g2[x].outbound[k]).0.slot < g2.len() by {
                if k < i {
                    assert(g2[x].outbound[k] == g[x].outbound[k]);
                } else {
                    assert(g2[x].outbound[k] == g[x].outbound[k + 1]);
                }
            }
        }
    }
    assert forall|x: int| 0 <= x < g2.len() implies handles_in_range(
        (#[trigger] g2[x]).inbound,
        g2.len(),
    ) by {
        assert(handles_in_range(g[x].inbound, g.len()));
        if x == t {
            assert forall|k: int| 0 <= k < g2[x].inbound.len() implies (
            #[trigger] g2[x].inbound[k]).0.slot < g2.len() by {
                if k < j {
                    assert(g2[x].inbound[k] == g[x].inbound[k]);
                } else {
                    assert(g2[x].inbound[k] == g[x].inbound[k + 1]);
                }
            }
        }
    }
    assert forall|a: int, b: int| 0 <= a < g2.len() && 0 <= b < g2.len() implies #[trigger] mirrored(
        g2,
        a,
        b,
    ) by {
        assert(mirrored(g, a, b));
        lemma_values_to_remove(g[s].outbound, handle(t), i, handle(b));
        lemma_values_to_remove(g[t].inbound, handle(s), j, handle(a));
    }
}

/// Cutting a node off leaves the arena well-formed.
pub proof fn lemma_isolated<K, N, E>(g: Seq<NodeView<K, N, E>>, n: int)
    requires
        graph_wf(g),
        0 <= n < g.len(),
    ensures
        graph_wf(isolated(g, n)),
        isolated(g, n).len() == g.len(),
{
    lemma_handles(g);
    let g2 = isolated(g, n);
    assert forall|x: int, y: int| 0 <= x < g2.len() && 0 <= y < g2.len() && x != y implies (
    #[trigger] g2[x]).key != (#[trigger] g2[y]).key by {
        assert(g[x].key == g2[x].key);
        assert(g[y].key == g2[y].key);
    }
    assert forall|x: int| 0 <= x < g2.len() implies handles_in_range(
        (#[trigger] g2[x]).outbound,
        g2.len(),
    ) by {
        assert(handles_in_range(g[x].outbound, g.len()));
        lemma_without_in_range(g[x].outbound, handle(n), g.len());
    }
    assert forall|x: int| 0 <= x < g2.len() implies handles_in_range(
        (#[trigger] g2[x]).inbound,
        g2.len(),
    ) by {
        assert(handles_in_range(g[x].inbound, g.len()));
        lemma_without_in_range(g[x].inbound, handle(n), g.len());
    }
    assert forall|a: int, b: int| 0 <= a < g2.len() && 0 <= b < g2.len() implies #[trigger] mirrored(
        g2,
        a,
        b,
    ) by {
        assert(mirrored(g, a, b));
        lemma_values_to_without(g[a].outbound, handle(n), handle(b));
        lemma_values_to_without(g[b].inbound, handle(n), handle(a));
    }
}

} // verus!
