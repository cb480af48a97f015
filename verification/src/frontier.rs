use std::collections::VecDeque;
use vstd::prelude::*;

verus! {

/// The nodes that a traversal has found and not yet expanded, and the order
/// in which it takes them up.
pub trait Frontier {
    /// What the frontier holds, as far as it decides what leaves it next.
    type Model;

    /// What the frontier holds.
    spec fn model(&self) -> Self::Model;

    /// The slot that leaves a frontier holding `m` next, and what it holds
    /// then; `None` where nothing waits.
    spec fn taken(m: Self::Model) -> Option<(usize, Self::Model)>;

    /// What a frontier holding `m` holds once nothing waits in it.
    spec fn cleared(m: Self::Model) -> Self::Model;

    /// The slots that are waiting.
    spec fn pending(&self) -> Set<usize>;

    /// How many entries are waiting; a slot may wait more than once.
    spec fn size(&self) -> nat;

    /// Whether nodes leave the frontier in the order in which they came.
    spec fn fifo(&self) -> bool;

    /// The slots that are waiting, in the order in which they came, where
    /// the frontier keeps that order.
    spec fn line(&self) -> Seq<usize>;

    /// Takes the next node out, or says that none is waiting.
    fn pop(&mut self) -> (r: Option<usize>)
        ensures
            match r {
                Some(slot) => {
                    &&& old(self).pending().contains(slot)
                    &&& final(self).size() == old(self).size() - 1
                    &&& final(self).pending().subset_of(old(self).pending())
                    &&& old(self).pending().subset_of(final(self).pending().insert(slot))
                },
                None => {
                    &&& old(self).size() == 0
                    &&& old(self).pending() == Set::<usize>::empty()
                    &&& final(self).size() == 0
                    &&& final(self).pending() == Set::<usize>::empty()
                },
            },
            final(self).fifo() == old(self).fifo(),
            old(self).fifo() ==> {
                &&& final(self).pending() == members(final(self).line())
                &&& match r {
                    Some(slot) => old(self).line().len() > 0 && slot == old(self).line()[0]
                        && final(self).line() == old(self).line().drop_first(),
                    None => final(self).line() == old(self).line(),
                }
            },
            Self::taken(old(self).model()) == match r {
                Some(slot) => Some((slot, final(self).model())),
                None => None,
            },
            Self::cleared(final(self).model()) == Self::cleared(old(self).model()),
            r is None ==> final(self).model() == Self::cleared(old(self).model()),
    ;
}

/// A frontier that takes in nodes whose payload is an `N`, by which it may
/// order them.
pub trait Feed<N>: Frontier {
    /// What a frontier holding `m` holds once it has taken in the node in
    /// `slot`, whose payload is `value`.
    spec fn given(m: Self::Model, slot: usize, value: N) -> Self::Model;

    /// Adds the node in `slot`, whose payload is `value`.
    fn push(&mut self, slot: usize, value: &N)
        ensures
            final(self).model() == Self::given(old(self).model(), slot, *value),
            final(self).pending() == old(self).pending().insert(slot),
            final(self).size() == old(self).size() + 1,
            final(self).fifo() == old(self).fifo(),
            old(self).fifo() ==> final(self).line() == old(self).line().push(slot)
                && final(self).pending() == members(final(self).line()),
    ;
}

/// The values of a sequence, as a set.
pub open spec fn members(items: Seq<usize>) -> Set<usize> {
    Set::new(|s: usize| exists|i: int| 0 <= i < items.len() && #[trigger] items[i] == s)
}

/// One more item is one more member.
pub proof fn lemma_members_push(items: Seq<usize>, slot: usize)
    ensures
        members(items.push(slot)) == members(items).insert(slot),
{
    let more = items.push(slot);
    assert forall|s: usize| members(more).contains(s) <==> members(items).insert(slot).contains(
        s,
    ) by {
        if members(more).contains(s) {
            let i = choose|i: int| 0 <= i < more.len() && #[trigger] more[i] == s;
            if i < items.len() {
                assert(items[i] == s);
            }
        }
        if members(items).contains(s) {
            let i = choose|i: int| 0 <= i < items.len() && #[trigger] items[i] == s;
            assert(more[i] == s);
        }
        if s == slot {
            assert(more[items.len() as int] == s);
        }
    }
    assert(members(more) =~= members(items).insert(slot));
}

/// A sequence without one of its items has no new member, and none is lost
/// but perhaps that item.
pub proof fn lemma_members_remove(items: Seq<usize>, k: int)
    requires
        0 <= k < items.len(),
    ensures
        members(items).contains(items[k]),
        members(items.remove(k)).subset_of(members(items)),
        members(items).subset_of(members(items.remove(k)).insert(items[k])),
{
    let less = items.remove(k);
    assert forall|s: usize| members(less).contains(s) implies members(items).contains(s) by {
        let i = choose|i: int| 0 <= i < less.len() && #[trigger] less[i] == s;
        if i < k {
            assert(items[i] == s);
        } else {
            assert(items[i + 1] == s);
        }
    }
    assert forall|s: usize| members(items).contains(s) implies members(less).insert(
        items[k],
    ).contains(s) by {
        let i = choose|i: int| 0 <= i < items.len() && #[trigger] items[i] == s;
        if i < k {
            assert(less[i] == s);
        } else if i > k {
            assert(less[i - 1] == s);
        }
    }
}

/// Nothing is a member of the empty sequence.
pub proof fn lemma_members_empty(items: Seq<usize>)
    requires
        items.len() == 0,
    ensures
        members(items) == Set::<usize>::empty(),
{
    assert(members(items) =~= Set::<usize>::empty());
}

/// The frontier of a depth-first traversal: the node found last is taken up
/// first.
pub struct Stack {
    pub items: Vec<usize>,
}

/// The frontier of a breadth-first traversal: the node found first is taken
/// up first.
pub struct Queue {
    pub items: VecDeque<usize>,
}

impl Stack {
    /// A stack with nothing on it.
    pub fn new() -> (r: Self)
        ensures
            r.items@ == Seq::<usize>::empty(),
            r.pending() == Set::<usize>::empty(),
            r.size() == 0,
    {
        let r = Stack { items: Vec::new() };
        proof {
            lemma_members_empty(r.items@);
        }
        r
    }
}

impl Queue {
    /// A queue with nothing in it.
    pub fn new() -> (r: Self)
        ensures
            r.items@ == Seq::<usize>::empty(),
            r.pending() == Set::<usize>::empty(),
            r.size() == 0,
    {
        let r = Queue { items: VecDeque::new() };
        proof {
            lemma_members_empty(r.items@);
        }
        r
    }
}

impl Frontier for Stack {
    type Model = Seq<usize>;

    open spec fn model(&self) -> Seq<usize> {
        self.items@
    }

    open spec fn taken(m: Seq<usize>) -> Option<(usize, Seq<usize>)> {
        if m.len() > 0 {
            Some((m.last(), m.drop_last()))
        } else {
            None
        }
    }

    open spec fn cleared(m: Seq<usize>) -> Seq<usize> {
        Seq::empty()
    }

    open spec fn pending(&self) -> Set<usize> {
        members(self.items@)
    }

    open spec fn size(&self) -> nat {
        self.items@.len()
    }

    open spec fn fifo(&self) -> bool {
        false
    }

    open spec fn line(&self) -> Seq<usize> {
        self.items@
    }

    fn pop(&mut self) -> (r: Option<usize>)
        ensures
            r == if old(self).items@.len() > 0 {
                Some(old(self).items@.last())
            } else {
                None
            },
            final(self).items@ == if old(self).items@.len() > 0 {
                old(self).items@.drop_last()
            } else {
                old(self).items@
            },
    {
        proof {
            if self.items@.len() > 0 {
                lemma_members_remove(self.items@, self.items@.len() - 1);
                assert(self.items@.remove(self.items@.len() - 1) =~= self.items@.drop_last());
            } else {
                lemma_members_empty(self.items@);
                assert(self.items@ =~= Seq::<usize>::empty());
            }
        }
        self.items.pop()
    }
}

impl<N> Feed<N> for Stack {
    open spec fn given(m: Seq<usize>, slot: usize, value: N) -> Seq<usize> {
        m.push(slot)
    }

    fn push(&mut self, slot: usize, value: &N)
        ensures
            final(self).items@ == old(self).items@.push(slot),
    {
        proof {
            lemma_members_push(self.items@, slot);
        }
        self.items.push(slot);
    }
}

impl Frontier for Queue {
    type Model = Seq<usize>;

    open spec fn model(&self) -> Seq<usize> {
        self.items@
    }

    open spec fn taken(m: Seq<usize>) -> Option<(usize, Seq<usize>)> {
        if m.len() > 0 {
            Some((m.first(), m.drop_first()))
        } else {
            None
        }
    }

    open spec fn cleared(m: Seq<usize>) -> Seq<usize> {
        Seq::empty()
    }

    open spec fn pending(&self) -> Set<usize> {
        members(self.items@)
    }

    open spec fn size(&self) -> nat {
        self.items@.len()
    }

    open spec fn fifo(&self) -> bool {
        true
    }

    open spec fn line(&self) -> Seq<usize> {
        self.items@
    }

    fn pop(&mut self) -> (r: Option<usize>)
        ensures
            r == if old(self).items@.len() > 0 {
                Some(old(self).items@.first())
            } else {
                None
            },
            final(self).items@ == if old(self).items@.len() > 0 {
                old(self).items@.drop_first()
            } else {
                old(self).items@
            },
    {
        proof {
            if self.items@.len() > 0 {
                lemma_members_remove(self.items@, 0);
                assert(self.items@.remove(0) =~= self.items@.drop_first());
            } else {
                lemma_members_empty(self.items@);
                assert(self.items@ =~= Seq::<usize>::empty());
            }
        }
        self.items.pop_front()
    }
}

impl<N> Feed<N> for Queue {
    open spec fn given(m: Seq<usize>, slot: usize, value: N) -> Seq<usize> {
        m.push(slot)
    }

    fn push(&mut self, slot: usize, value: &N)
        ensures
            final(self).items@ == old(self).items@.push(slot),
    {
        proof {
            lemma_members_push(self.items@, slot);
        }
        self.items.push_back(slot);
    }
}

} // verus!
