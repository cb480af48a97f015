use min_max_heap::MinMaxHeap;
use vstd::multiset::Multiset;
use vstd::prelude::*;
use crate::frontier::{Feed, Frontier};

verus! {

/// The double-ended priority queue of the `min_max_heap` crate, as an opaque
/// type.
#[verifier::external_type_specification]
#[verifier::external_body]
#[verifier::reject_recursive_types(T)]
pub struct ExMinMaxHeap<T>(MinMaxHeap<T>);

/// The items that a heap holds, each as often as it was pushed and not yet
/// popped.
pub uninterp spec fn heap_items(heap: MinMaxHeap<(u64, usize)>) -> Multiset<(u64, usize)>;

/// The order of pairs by which the heap goes: by the first component, and by
/// the second where the first are equal.
pub open spec fn precedes(a: (u64, usize), b: (u64, usize)) -> bool {
    a.0 < b.0 || (a.0 == b.0 && a.1 <= b.1)
}

/// `MinMaxHeap::new`: a heap that holds nothing.
#[verifier::external_body]
fn heap_new() -> (heap: MinMaxHeap<(u64, usize)>)
    ensures
        heap_items(heap) == Multiset::<(u64, usize)>::empty(),
{
    MinMaxHeap::new()
}

/// `MinMaxHeap::push`: the heap holds the item once more, and what it held.
#[verifier::external_body]
fn heap_push(heap: &mut MinMaxHeap<(u64, usize)>, item: (u64, usize))
    ensures
        heap_items(*final(heap)) == heap_items(*old(heap)).insert(item),
{
    heap.push(item)
}

/// `MinMaxHeap::pop_min`: takes out an item that precedes every item of the
/// heap, or returns `None` and leaves the heap as it is if it holds nothing.
#[verifier::external_body]
fn heap_pop_min(heap: &mut MinMaxHeap<(u64, usize)>) -> (r: Option<(u64, usize)>)
    ensures
        match r {
            Some(item) => {
                &&& heap_items(*old(heap)).count(item) > 0
                &&& heap_items(*final(heap)) == heap_items(*old(heap)).remove(item)
                &&& forall|other: (u64, usize)|
                    heap_items(*old(heap)).count(other) > 0 ==> precedes(item, other)
            },
            None => {
                &&& heap_items(*old(heap)).len() == 0
                &&& heap_items(*final(heap)) == heap_items(*old(heap))
            },
        },
{
    heap.pop_min()
}

/// `MinMaxHeap::pop_max`: takes out an item that every item of the heap
/// precedes, or returns `None` and leaves the heap as it is if it holds
/// nothing.
#[verifier::external_body]
fn heap_pop_max(heap: &mut MinMaxHeap<(u64, usize)>) -> (r: Option<(u64, usize)>)
    ensures
        match r {
            Some(item) => {
                &&& heap_items(*old(heap)).count(item) > 0
                &&& heap_items(*final(heap)) == heap_items(*old(heap)).remove(item)
                &&& forall|other: (u64, usize)|
                    heap_items(*old(heap)).count(other) > 0 ==> precedes(other, item)
            },
            None => {
                &&& heap_items(*old(heap)).len() == 0
                &&& heap_items(*final(heap)) == heap_items(*old(heap))
            },
        },
{
    heap.pop_max()
}

/// A payload that a priority-first traversal can order nodes by.
pub trait Rank {
    /// The priority of a node with this payload.
    spec fn priority(&self) -> u64;

    /// The priority of a node with this payload: the lower, the sooner a
    /// minimum-first traversal takes the node up.
    fn rank(&self) -> (r: u64)
        ensures
            r == self.priority(),
    ;
}

impl Rank for u8 {
    open spec fn priority(&self) -> u64 {
        *self as u64
    }

    fn rank(&self) -> (r: u64) {
        *self as u64
    }
}

impl Rank for u16 {
    open spec fn priority(&self) -> u64 {
        *self as u64
    }

    fn rank(&self) -> (r: u64) {
        *self as u64
    }
}

impl Rank for u32 {
    open spec fn priority(&self) -> u64 {
        *self as u64
    }

    fn rank(&self) -> (r: u64) {
        *self as u64
    }
}

impl Rank for u64 {
    open spec fn priority(&self) -> u64 {
        *self as u64
    }

    fn rank(&self) -> (r: u64) {
        *self
    }
}

impl Rank for usize {
    open spec fn priority(&self) -> u64 {
        *self as u64
    }

    fn rank(&self) -> (r: u64) {
        *self as u64
    }
}

/// Which end of the order a priority-first traversal takes nodes from.
#[derive(Clone, Copy, Debug, PartialEq, Eq, Structural)]
pub enum Priority {
    Min,
    Max,
}

/// The frontier of a priority-first traversal: of the nodes that wait, the
/// one with the least rank is taken up first, or the one with the greatest;
/// among equal ranks the slot decides.
pub struct Heap {
    pub(crate) items: MinMaxHeap<(u64, usize)>,
    pub(crate) priority: Priority,
}

impl View for Heap {
    type V = Multiset<(u64, usize)>;

    closed spec fn view(&self) -> Multiset<(u64, usize)> {
        heap_items(self.items)
    }
}

/// `item` was taken from the `end` end of `before`, which left `after`: it
/// was in `before`, at that end of the order, and `after` is `before`
/// without it.
pub open spec fn taken_from(
    before: Multiset<(u64, usize)>,
    after: Multiset<(u64, usize)>,
    end: Priority,
    item: (u64, usize),
) -> bool {
    &&& before.count(item) > 0
    &&& after == before.remove(item)
    &&& forall|other: (u64, usize)| #[trigger]
        before.count(other) > 0 ==> match end {
            Priority::Min => precedes(item, other),
            Priority::Max => precedes(other, item),
        }
}

/// `item` is in `items`, at the `end` end of the order.
pub open spec fn is_extreme(items: Multiset<(u64, usize)>, end: Priority, item: (u64, usize)) -> bool {
    &&& items.count(item) > 0
    &&& forall|other: (u64, usize)| #[trigger]
        items.count(other) > 0 ==> match end {
            Priority::Min => precedes(item, other),
            Priority::Max => precedes(other, item),
        }
}

/// The item at the `end` end of `items`.
pub open spec fn extreme(items: Multiset<(u64, usize)>, end: Priority) -> (u64, usize) {
    choose|item: (u64, usize)| is_extreme(items, end, item)
}

/// There is one item at each end of the order: the order tells any two
/// items apart.
pub proof fn lemma_extreme(items: Multiset<(u64, usize)>, end: Priority, item: (u64, usize))
    requires
        is_extreme(items, end, item),
    ensures
        extreme(items, end) == item,
{
    let other = extreme(items, end);
    assert(items.count(other) > 0);
    assert(items.count(item) > 0);
}

/// The slots that occur in a collection of ranked slots.
pub open spec fn ranked_slots(items: Multiset<(u64, usize)>) -> Set<usize> {
    Set::new(|s: usize| exists|p: u64| items.count((p, s)) > 0)
}

/// One more item is one more slot.
proof fn lemma_ranked_insert(items: Multiset<(u64, usize)>, item: (u64, usize))
    ensures
        ranked_slots(items.insert(item)) == ranked_slots(items).insert(item.1),
        items.insert(item).len() == items.len() + 1,
{
    let more = items.insert(item);
    assert forall|s: usize| ranked_slots(more).contains(s) <==> ranked_slots(items).insert(
        item.1,
    ).contains(s) by {
        if ranked_slots(more).contains(s) {
            let p = choose|p: u64| more.count((p, s)) > 0;
            if (p, s) != item {
                assert(items.count((p, s)) > 0);
            }
        }
        if ranked_slots(items).contains(s) {
            let p = choose|p: u64| items.count((p, s)) > 0;
            assert(more.count((p, s)) > 0);
        }
        if s == item.1 {
            assert(more.count((item.0, s)) > 0);
        }
    }
    assert(ranked_slots(more) =~= ranked_slots(items).insert(item.1));
}

/// Without one of its items a collection has no new slot, and none is lost
/// but perhaps that of the item.
proof fn lemma_ranked_remove(items: Multiset<(u64, usize)>, item: (u64, usize))
    requires
        items.count(item) > 0,
    ensures
        ranked_slots(items).contains(item.1),
        ranked_slots(items.remove(item)).subset_of(ranked_slots(items)),
        ranked_slots(items).subset_of(ranked_slots(items.remove(item)).insert(item.1)),
        items.remove(item).len() == items.len() - 1,
{
    let less = items.remove(item);
    assert(items.count((item.0, item.1)) > 0);
    assert forall|s: usize| ranked_slots(less).contains(s) implies ranked_slots(items).contains(
        s,
    ) by {
        let p = choose|p: u64| less.count((p, s)) > 0;
        assert(items.count((p, s)) > 0);
    }
    assert forall|s: usize| ranked_slots(items).contains(s) implies ranked_slots(less).insert(
        item.1,
    ).contains(s) by {
        let p = choose|p: u64| items.count((p, s)) > 0;
        if s != item.1 {
            assert(less.count((p, s)) > 0);
        }
    }
}

/// A collection without items has no slots.
proof fn lemma_ranked_empty(items: Multiset<(u64, usize)>)
    requires
        items.len() == 0,
    ensures
        ranked_slots(items) == Set::<usize>::empty(),
{
    assert forall|s: usize| !ranked_slots(items).contains(s) by {
        if ranked_slots(items).contains(s) {
            let p = choose|p: u64| items.count((p, s)) > 0;
            vstd::multiset::lemma_multiset_empty_len(items);
        }
    }
    assert(ranked_slots(items) =~= Set::<usize>::empty());
}

impl Heap {
    /// A heap that holds nothing and hands out from the `priority` end.
    pub fn new(priority: Priority) -> (r: Self)
        ensures
            r@ == Multiset::<(u64, usize)>::empty(),
            r.end() == priority,
            r.pending() == Set::<usize>::empty(),
            r.size() == 0,
    {
        let r = Heap { items: heap_new(), priority };
        proof {
            lemma_ranked_empty(r@);
        }
        r
    }

    /// The end that the heap hands out from.
    pub closed spec fn end(&self) -> Priority {
        self.priority
    }
}

impl Frontier for Heap {
    type Model = (Priority, Multiset<(u64, usize)>);

    open spec fn model(&self) -> (Priority, Multiset<(u64, usize)>) {
        (self.end(), self@)
    }

    open spec fn taken(m: (Priority, Multiset<(u64, usize)>)) -> Option<
        (usize, (Priority, Multiset<(u64, usize)>)),
    > {
        if m.1.len() > 0 {
            Some((extreme(m.1, m.0).1, (m.0, m.1.remove(extreme(m.1, m.0)))))
        } else {
            None
        }
    }

    open spec fn cleared(m: (Priority, Multiset<(u64, usize)>)) -> (
        Priority,
        Multiset<(u64, usize)>,
    ) {
        (m.0, Multiset::empty())
    }

    open spec fn pending(&self) -> Set<usize> {
        ranked_slots(self@)
    }

    open spec fn size(&self) -> nat {
        self@.len()
    }

    open spec fn fifo(&self) -> bool {
        false
    }

    open spec fn line(&self) -> Seq<usize> {
        Seq::empty()
    }

    fn pop(&mut self) -> (r: Option<usize>)
        ensures
            final(self).end() == old(self).end(),
            r matches Some(slot) ==> exists|p: u64|
                #![trigger taken_from(old(self)@, final(self)@, old(self).end(), (p, slot))]
                taken_from(old(self)@, final(self)@, old(self).end(), (p, slot)),
            r is None ==> final(self)@ == old(self)@,
    {
        let popped = match self.priority {
            Priority::Min => heap_pop_min(&mut self.items),
            Priority::Max => heap_pop_max(&mut self.items),
        };
        match popped {
            Some(item) => {
                proof {
                    lemma_ranked_remove(old(self)@, item);
                    assert(item == (item.0, item.1));
                    lemma_extreme(old(self)@, old(self).end(), item);
                    assert(old(self)@.len() > 0) by {
                        if old(self)@.len() == 0 {
                            vstd::multiset::lemma_multiset_empty_len(old(self)@);
                        }
                    }
                    assert(taken_from(old(self)@, self@, old(self).end(), (item.0, item.1)));
                }
                Some(item.1)
            },
            None => {
                proof {
                    lemma_ranked_empty(old(self)@);
                    vstd::multiset::lemma_multiset_empty_len(old(self)@);
                    assert(old(self)@ =~= Multiset::<(u64, usize)>::empty());
                }
                None
            },
        }
    }
}

impl<N: Rank> Feed<N> for Heap {
    open spec fn given(m: (Priority, Multiset<(u64, usize)>), slot: usize, value: N) -> (
        Priority,
        Multiset<(u64, usize)>,
    ) {
        (m.0, m.1.insert((value.priority(), slot)))
    }

    fn push(&mut self, slot: usize, value: &N)
        ensures
            final(self).end() == old(self).end(),
            final(self)@ == old(self)@.insert((value.priority(), slot)),
    {
        let rank = value.rank();
        proof {
            lemma_ranked_insert(self@, (rank, slot));
        }
        heap_push(&mut self.items, (rank, slot));
    }
}

} // verus!
