use vstd::prelude::*;
use crate::error::Error;

verus! {

/// A non-owning handle to a node: the position of the node in the arena of
/// the graph that owns it. A handle is plain data; whether it names a node is
/// decided by the graph it is upgraded against.
#[derive(Clone, Copy, Debug, PartialEq, Eq, Structural)]
pub struct WeakNode {
    pub slot: usize,
}

/// `i` is the position of the first entry of `list` that leads to `peer`.
pub open spec fn is_first_to<E>(list: Seq<(WeakNode, E)>, peer: WeakNode, i: int) -> bool {
    &&& 0 <= i < list.len()
    &&& list[i].0 == peer
    &&& forall|j: int| 0 <= j < i ==> (#[trigger] list[j]).0 != peer
}

/// Some entry of `list` leads to `peer`.
pub open spec fn has_peer<E>(list: Seq<(WeakNode, E)>, peer: WeakNode) -> bool {
    exists|i: int| 0 <= i < list.len() && (#[trigger] list[i]).0 == peer
}

/// The position of the first entry of `list` that leads to `peer`, if any.
pub open spec fn first_to<E>(list: Seq<(WeakNode, E)>, peer: WeakNode) -> Option<int> {
    if has_peer(list, peer) {
        Some(choose|i: int| is_first_to(list, peer, i))
    } else {
        None
    }
}

/// The values of the entries of `list` that lead to `peer`, in list order.
pub open spec fn values_to<E>(list: Seq<(WeakNode, E)>, peer: WeakNode) -> Seq<E>
    decreases list.len(),
{
    if list.len() == 0 {
        Seq::empty()
    } else if list.last().0 == peer {
        values_to(list.drop_last(), peer).push(list.last().1)
    } else {
        values_to(list.drop_last(), peer)
    }
}

/// `list` without the entries that lead to `peer`, the others in list order.
pub open spec fn without<E>(list: Seq<(WeakNode, E)>, peer: WeakNode) -> Seq<(WeakNode, E)>
    decreases list.len(),
{
    if list.len() == 0 {
        Seq::empty()
    } else if list.last().0 == peer {
        without(list.drop_last(), peer)
    } else {
        without(list.drop_last(), peer).push(list.last())
    }
}

/// What an adjacency record of `entries` edges is counted as, in bytes: each
/// entry at `entry_size`, on top of the `base` size of the record, or
/// `usize::MAX` if that count does not fit.
pub open spec fn footprint(entries: nat, entry_size: nat, base: nat) -> usize {
    if entries * entry_size + base <= usize::MAX {
        (entries * entry_size + base) as usize
    } else {
        usize::MAX
    }
}

/// Below an entry that leads to `peer` there is a first one.
proof fn lemma_least_to<E>(list: Seq<(WeakNode, E)>, peer: WeakNode, k: int)
    requires
        0 <= k < list.len(),
        list[k].0 == peer,
    ensures
        exists|i: int| is_first_to(list, peer, i) && i <= k,
    decreases k,
{
    if exists|j: int| 0 <= j < k && (#[trigger] list[j]).0 == peer {
        let j = choose|j: int| 0 <= j < k && (#[trigger] list[j]).0 == peer;
        lemma_least_to(list, peer, j);
    } else {
        assert(is_first_to(list, peer, k));
    }
}

/// `first_to` is the least position that leads to `peer`, and `None` exactly
/// when no entry does.
pub proof fn lemma_first_to<E>(list: Seq<(WeakNode, E)>, peer: WeakNode)
    ensures
        match first_to(list, peer) {
            Some(i) => is_first_to(list, peer, i),
            None => forall|j: int| 0 <= j < list.len() ==> (#[trigger] list[j]).0 != peer,
        },
{
    if has_peer(list, peer) {
        let k = choose|i: int| 0 <= i < list.len() && (#[trigger] list[i]).0 == peer;
        lemma_least_to(list, peer, k);
    }
}

/// A first position is the first position.
pub proof fn lemma_first_to_is<E>(list: Seq<(WeakNode, E)>, peer: WeakNode, i: int)
    requires
        is_first_to(list, peer, i),
    ensures
        first_to(list, peer) == Some(i),
{
    lemma_first_to(list, peer);
    let c = first_to(list, peer).unwrap();
    assert(list[c].0 == peer);
    assert(list[i].0 == peer);
}

/// Appending an entry appends its value to the values of its peer only.
pub proof fn lemma_values_to_push<E>(list: Seq<(WeakNode, E)>, entry: (WeakNode, E), peer: WeakNode)
    ensures
        values_to(list.push(entry), peer) == if entry.0 == peer {
            values_to(list, peer).push(entry.1)
        } else {
            values_to(list, peer)
        },
{
    assert(list.push(entry).drop_last() =~= list);
}

/// The values that lead to `peer` are empty exactly when no entry leads there.
pub proof fn lemma_values_to_empty<E>(list: Seq<(WeakNode, E)>, peer: WeakNode)
    ensures
        values_to(list, peer).len() == 0 <==> !has_peer(list, peer),
    decreases list.len(),
{
    if list.len() > 0 {
        lemma_values_to_empty(list.drop_last(), peer);
        if list.last().0 == peer {
            assert(list[list.len() - 1].0 == peer);
        } else if has_peer(list, peer) {
            let i = choose|i: int| 0 <= i < list.len() && (#[trigger] list[i]).0 == peer;
            assert(list.drop_last()[i].0 == peer);
        } else if has_peer(list.drop_last(), peer) {
            let i = choose|i: int|
                0 <= i < list.drop_last().len() && (#[trigger] list.drop_last()[i]).0 == peer;
            assert(list[i].0 == peer);
        }
    }
}

/// A value is among those that lead to `peer` exactly when an entry holds it
/// together with `peer`.
pub proof fn lemma_values_to_contains<E>(list: Seq<(WeakNode, E)>, peer: WeakNode, value: E)
    ensures
        values_to(list, peer).contains(value) <==> list.contains((peer, value)),
    decreases list.len(),
{
    if list.len() > 0 {
        let init = list.drop_last();
        lemma_values_to_contains(init, peer, value);
        if list.contains((peer, value)) {
            let i = choose|i: int| 0 <= i < list.len() && list[i] == (peer, value);
            if i < list.len() - 1 {
                assert(init[i] == (peer, value));
                let k = choose|k: int|
                    0 <= k < values_to(init, peer).len() && values_to(init, peer)[k] == value;
                assert(values_to(list, peer)[k] == value);
            } else {
                assert(values_to(list, peer).last() == value);
            }
        }
        if values_to(list, peer).contains(value) {
            let k = choose|k: int|
                0 <= k < values_to(list, peer).len() && values_to(list, peer)[k] == value;
            if k < values_to(init, peer).len() {
                assert(values_to(init, peer)[k] == value);
                let i = choose|i: int| 0 <= i < init.len() && init[i] == (peer, value);
                assert(list[i] == (peer, value));
            } else {
                assert(list[list.len() - 1] == (peer, value));
            }
        }
    }
}

/// Taking out the first entry that leads to `peer` takes the first of the
/// values that lead to `peer`, and leaves those of every other peer.
pub proof fn lemma_values_to_remove<E>(
    list: Seq<(WeakNode, E)>,
    peer: WeakNode,
    i: int,
    other: WeakNode,
)
    requires
        is_first_to(list, peer, i),
    ensures
        values_to(list, peer).len() > 0,
        values_to(list, peer)[0] == list[i].1,
        values_to(list.remove(i), other) == if other == peer {
            values_to(list, peer).drop_first()
        } else {
            values_to(list, other)
        },
    decreases list.len(),
{
    let init = list.drop_last();
    if i == list.len() - 1 {
        assert(list.remove(i) =~= init);
        assert(!has_peer(init, peer)) by {
            if has_peer(init, peer) {
                let j = choose|j: int| 0 <= j < init.len() && (#[trigger] init[j]).0 == peer;
                assert(list[j].0 == peer);
            }
        }
        lemma_values_to_empty(init, peer);
        assert(values_to(list, peer) =~= seq![list[i].1]);
        assert(values_to(list, peer).drop_first() =~= values_to(init, peer));
    } else {
        assert(is_first_to(init, peer, i)) by {
            assert(init[i] == list[i]);
            assert forall|j: int| 0 <= j < i implies (#[trigger] init[j]).0 != peer by {
                assert(init[j] == list[j]);
            }
        }
        lemma_values_to_remove(init, peer, i, other);
        assert(list.remove(i) =~= init.remove(i).push(list.last()));
        lemma_values_to_push(init.remove(i), list.last(), other);
        if other == peer && list.last().0 == peer {
            assert(values_to(init, peer).push(list.last().1).drop_first() =~= values_to(
                init,
                peer,
            ).drop_first().push(list.last().1));
        }
    }
}

/// Dropping the entries to one peer empties its values and keeps the others'.
pub proof fn lemma_values_to_without<E>(list: Seq<(WeakNode, E)>, peer: WeakNode, other: WeakNode)
    ensures
        values_to(without(list, peer), other) == if other == peer {
            Seq::<E>::empty()
        } else {
            values_to(list, other)
        },
    decreases list.len(),
{
    if list.len() > 0 {
        lemma_values_to_without(list.drop_last(), peer, other);
        if list.last().0 != peer {
            lemma_values_to_push(without(list.drop_last(), peer), list.last(), other);
        }
    }
}

/// What `without` keeps: no entry to `peer`, never more than there was, and
/// the list itself where none led to `peer`.
pub proof fn lemma_without<E>(list: Seq<(WeakNode, E)>, peer: WeakNode)
    ensures
        !has_peer(without(list, peer), peer),
        without(list, peer).len() <= list.len(),
        !has_peer(list, peer) ==> without(list, peer) == list,
    decreases list.len(),
{
    if list.len() > 0 {
        let init = list.drop_last();
        let last = list.last();
        lemma_without(init, peer);
        let out = without(list, peer);
        if has_peer(out, peer) {
            let j = choose|j: int| 0 <= j < out.len() && (#[trigger] out[j]).0 == peer;
            if j < without(init, peer).len() {
                assert(without(init, peer)[j].0 == peer);
            }
        }
        if !has_peer(list, peer) {
            assert(list[list.len() - 1].0 != peer);
            if has_peer(init, peer) {
                let j = choose|j: int| 0 <= j < init.len() && (#[trigger] init[j]).0 == peer;
                assert(list[j].0 == peer);
            }
            assert(out =~= list);
        }
    }
}

/// Taking out the first entry to `peer` does not change what is left once
/// all of them are gone.
pub proof fn lemma_without_remove<E>(list: Seq<(WeakNode, E)>, peer: WeakNode, i: int)
    requires
        is_first_to(list, peer, i),
    ensures
        without(list.remove(i), peer) == without(list, peer),
    decreases list.len(),
{
    let init = list.drop_last();
    if i == list.len() - 1 {
        assert(list.remove(i) =~= init);
    } else {
        assert(is_first_to(init, peer, i)) by {
            assert(init[i] == list[i]);
            assert forall|j: int| 0 <= j < i implies (#[trigger] init[j]).0 != peer by {
                assert(init[j] == list[j]);
            }
        }
        lemma_without_remove(init, peer, i);
        assert(list.remove(i) =~= init.remove(i).push(list.last()));
        assert(list.remove(i).drop_last() =~= init.remove(i));
    }
}

/// Every entry of `list` leads to one of the first `n` slots.
pub open spec fn handles_in_range<E>(list: Seq<(WeakNode, E)>, n: nat) -> bool {
    forall|k: int| 0 <= k < list.len() ==> (#[trigger] list[k]).0.slot < n
}

/// What is left after `without` leads where the list led.
pub proof fn lemma_without_in_range<E>(list: Seq<(WeakNode, E)>, peer: WeakNode, n: nat)
    requires
        handles_in_range(list, n),
    ensures
        handles_in_range(without(list, peer), n),
    decreases list.len(),
{
    if list.len() > 0 {
        let init = list.drop_last();
        assert forall|k: int| 0 <= k < init.len() implies (#[trigger] init[k]).0.slot < n by {
            assert(init[k] == list[k]);
        }
        lemma_without_in_range(init, peer, n);
        assert(list[list.len() - 1].0.slot < n);
    }
}

/// The position of the first entry of `list` that leads to `peer`.
pub fn position<E>(list: &Vec<(WeakNode, E)>, peer: &WeakNode) -> (r: Option<usize>)
    ensures
        r.is_some() == first_to(list@, *peer).is_some(),
        r matches Some(i) ==> first_to(list@, *peer) == Some(i as int),
{
    let mut i: usize = 0;
    while i < list.len()
        invariant
            i <= list.len(),
            forall|j: int| 0 <= j < i ==> (#[trigger] list@[j]).0 != *peer,
        decreases list.len() - i,
    {
        if list[i].0.slot == peer.slot {
            proof {
                lemma_first_to_is(list@, *peer, i as int);
            }
            return Some(i);
        }
        i += 1;
    }
    proof {
        lemma_first_to(list@, *peer);
    }
    None
}

/// Takes every entry that leads to `peer` out of `list` and returns how many
/// there were.
pub fn purge<E>(list: &mut Vec<(WeakNode, E)>, peer: &WeakNode) -> (removed: usize)
    ensures
        final(list)@ == without(old(list)@, *peer),
        removed == old(list)@.len() - final(list)@.len(),
{
    let mut removed: usize = 0;
    let total = list.len();
    loop
        invariant
            without(list@, *peer) == without(old(list)@, *peer),
            removed + list@.len() == total,
            total == old(list)@.len(),
        decreases list@.len(),
    {
        match position(list, peer) {
            Some(i) => {
                proof {
                    lemma_first_to(list@, *peer);
                    lemma_without_remove(list@, *peer, i as int);
                }
                list.remove(i);
                removed += 1;
            },
            None => {
                proof {
                    lemma_first_to(list@, *peer);
                    lemma_without(list@, *peer);
                }
                return removed;
            },
        }
    }
}

/// The byte count `footprint` of two lists of `inbound` and `outbound`
/// entries, each entry a handle and a value.
pub fn count_bytes(inbound: usize, outbound: usize, handle: usize, value: usize, base: usize) -> (r:
    usize)
    ensures
        r == footprint((inbound + outbound) as nat, (handle + value) as nat, base as nat),
{
    let ghost entries: nat = (inbound + outbound) as nat;
    let ghost entry_size: nat = (handle + value) as nat;
    match inbound.checked_add(outbound) {
        Some(n) => match handle.checked_add(value) {
            Some(size) => match n.checked_mul(size) {
                Some(bytes) => match bytes.checked_add(base) {
                    Some(total) => total,
                    None => usize::MAX,
                },
                None => usize::MAX,
            },
            None => {
                if n == 0 {
                    assert(entries * entry_size == 0) by (nonlinear_arith)
                        requires
                            entries == 0,
                    ;
                    base
                } else {
                    proof {
                        lemma_product_grows(entries, entry_size);
                    }
                    usize::MAX
                }
            },
        },
        None => {
            if handle == 0 && value == 0 {
                assert(entries * entry_size == 0) by (nonlinear_arith)
                    requires
                        entry_size == 0,
                ;
                base
            } else {
                proof {
                    lemma_product_grows(entry_size, entries);
                    assert(entries * entry_size == entry_size * entries) by (nonlinear_arith);
                }
                usize::MAX
            }
        },
    }
}

/// The two edge lists of a node: the edges that leave it and the edges that
/// reach it, each in the order in which they were added.
pub struct Adjacent<E> {
    pub outbound: Vec<(WeakNode, E)>,
    pub inbound: Vec<(WeakNode, E)>,
}

impl<E> Adjacent<E> {
    /// A record with no edge in either list.
    pub fn new() -> (r: Self)
        ensures
            r.outbound@ == Seq::<(WeakNode, E)>::empty(),
            r.inbound@ == Seq::<(WeakNode, E)>::empty(),
    {
        Adjacent { outbound: Vec::new(), inbound: Vec::new() }
    }

    /// The outbound entry at position `idx`.
    pub fn get_outbound(&self, idx: usize) -> (r: Option<(&WeakNode, &E)>)
        ensures
            r == if idx < self.outbound@.len() {
                Some((&self.outbound@[idx as int].0, &self.outbound@[idx as int].1))
            } else {
                None
            },
    {
        if idx < self.outbound.len() {
            let entry = &self.outbound[idx];
            Some((&entry.0, &entry.1))
        } else {
            None
        }
    }

    /// The inbound entry at position `idx`.
    pub fn get_inbound(&self, idx: usize) -> (r: Option<(&WeakNode, &E)>)
        ensures
            r == if idx < self.inbound@.len() {
                Some((&self.inbound@[idx as int].0, &self.inbound@[idx as int].1))
            } else {
                None
            },
    {
        if idx < self.inbound.len() {
            let entry = &self.inbound[idx];
            Some((&entry.0, &entry.1))
        } else {
            None
        }
    }

    /// The first outbound entry that leads to `node`.
    pub fn find_outbound(&self, node: &WeakNode) -> (r: Option<(&WeakNode, &E)>)
        ensures
            r == match first_to(self.outbound@, *node) {
                Some(i) => Some((&self.outbound@[i].0, &self.outbound@[i].1)),
                None => None,
            },
    {
        proof {
            lemma_first_to(self.outbound@, *node);
        }
        match position(&self.outbound, node) {
            Some(i) => {
                let entry = &self.outbound[i];
                Some((&entry.0, &entry.1))
            },
            None => None,
        }
    }

    /// The first inbound entry that comes from `node`.
    pub fn find_inbound(&self, node: &WeakNode) -> (r: Option<(&WeakNode, &E)>)
        ensures
            r == match first_to(self.inbound@, *node) {
                Some(i) => Some((&self.inbound@[i].0, &self.inbound@[i].1)),
                None => None,
            },
    {
        proof {
            lemma_first_to(self.inbound@, *node);
        }
        match position(&self.inbound, node) {
            Some(i) => {
                let entry = &self.inbound[i];
                Some((&entry.0, &entry.1))
            },
            None => None,
        }
    }

    /// The number of outbound entries.
    pub fn len_outbound(&self) -> (r: usize)
        ensures
            r == self.outbound@.len(),
    {
        self.outbound.len()
    }

    /// The number of inbound entries.
    pub fn len_inbound(&self) -> (r: usize)
        ensures
            r == self.inbound@.len(),
    {
        self.inbound.len()
    }

    /// Appends an entry to the inbound list.
    pub fn push_inbound(&mut self, edge: (WeakNode, E))
        ensures
            final(self).inbound@ == old(self).inbound@.push(edge),
            final(self).outbound@ == old(self).outbound@,
    {
        self.inbound.push(edge);
    }

    /// Appends an entry to the outbound list.
    pub fn push_outbound(&mut self, edge: (WeakNode, E))
        ensures
            final(self).outbound@ == old(self).outbound@.push(edge),
            final(self).inbound@ == old(self).inbound@,
    {
        self.outbound.push(edge);
    }

    /// Takes the first inbound entry that comes from `source` out of the list
    /// and returns its value; fails with `NoSuchEdge`, changing nothing, if
    /// there is none.
    pub fn remove_inbound(&mut self, source: &WeakNode) -> (r: Result<E, Error>)
        ensures
            final(self).outbound@ == old(self).outbound@,
            match first_to(old(self).inbound@, *source) {
                Some(i) => r == Ok::<E, Error>(old(self).inbound@[i].1) && final(self).inbound@
                    == old(self).inbound@.remove(i),
                None => r == Err::<E, Error>(Error::NoSuchEdge) && final(self).inbound@ == old(
                    self,
                ).inbound@,
            },
    {
        proof {
            lemma_first_to(self.inbound@, *source);
        }
        match position(&self.inbound, source) {
            Some(i) => Ok(self.inbound.remove(i).1),
            None => Err(Error::NoSuchEdge),
        }
    }

    /// Takes the first outbound entry that leads to `target` out of the list
    /// and returns its value; fails with `NoSuchEdge`, changing nothing, if
    /// there is none.
    pub fn remove_outbound(&mut self, target: &WeakNode) -> (r: Result<E, Error>)
        ensures
            final(self).inbound@ == old(self).inbound@,
            match first_to(old(self).outbound@, *target) {
                Some(i) => r == Ok::<E, Error>(old(self).outbound@[i].1) && final(self).outbound@
                    == old(self).outbound@.remove(i),
                None => r == Err::<E, Error>(Error::NoSuchEdge) && final(self).outbound@ == old(
                    self,
                ).outbound@,
            },
    {
        proof {
            lemma_first_to(self.outbound@, *target);
        }
        match position(&self.outbound, target) {
            Some(i) => Ok(self.outbound.remove(i).1),
            None => Err(Error::NoSuchEdge),
        }
    }

    /// Empties the inbound list.
    pub fn clear_inbound(&mut self)
        ensures
            final(self).inbound@ == Seq::<(WeakNode, E)>::empty(),
            final(self).outbound@ == old(self).outbound@,
    {
        self.inbound.clear();
    }

    /// Empties the outbound list.
    pub fn clear_outbound(&mut self)
        ensures
            final(self).outbound@ == Seq::<(WeakNode, E)>::empty(),
            final(self).inbound@ == old(self).inbound@,
    {
        self.outbound.clear();
    }

    /// A byte count for diagnostics: every entry of either list at the size
    /// of a handle and an edge value, on top of the size of the record.
    pub fn sizeof(&self) -> (r: usize)
        ensures
            r == footprint(
                self.inbound@.len() + self.outbound@.len(),
                vstd::layout::size_of::<WeakNode>() + vstd::layout::size_of::<E>(),
                vstd::layout::size_of::<Adjacent<E>>(),
            ),
    {
        count_bytes(
            self.inbound.len(),
            self.outbound.len(),
            core::mem::size_of::<WeakNode>(),
            core::mem::size_of::<E>(),
            core::mem::size_of::<Adjacent<E>>(),
        )
    }
}

/// A product is at least its second factor when the first is not zero.
proof fn lemma_product_grows(a: nat, b: nat)
    requires
        a > 0,
    ensures
        a * b >= b,
{
    assert(a * b >= b) by (nonlinear_arith)
        requires
            a >= 1,
            b >= 0,
    ;
}

} // verus!
