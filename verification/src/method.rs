use vstd::prelude::*;
use crate::node::Node;

verus! {

/// What a traversal asks at every edge it could follow to a node it has not
/// seen: whether to follow it. The edge is shown as it lies in the graph,
/// from its source `u` to its target `v` with its value `e`; a traversal of
/// the transposed graph stands at `v` and would come to `u`.
pub trait Method<K, N, E> {
    /// `exec` may be called on this edge.
    spec fn callable(&self, u: &Node<K, N, E>, v: &Node<K, N, E>, e: &E) -> bool;

    /// `exec` can answer `true` on this edge.
    spec fn may_accept(&self, u: &Node<K, N, E>, v: &Node<K, N, E>, e: &E) -> bool;

    /// `exec` can answer `false` on this edge.
    spec fn may_reject(&self, u: &Node<K, N, E>, v: &Node<K, N, E>, e: &E) -> bool;

    /// Runs the hook, if there is one, and says whether the edge is followed.
    fn exec(&self, u: &Node<K, N, E>, v: &Node<K, N, E>, e: &E) -> (r: bool)
        requires
            self.callable(u, v, e),
        ensures
            r ==> self.may_accept(u, v, e),
            !r ==> self.may_reject(u, v, e),
    ;
}

/// No hook: every edge is followed.
pub struct NullMethod;

/// A hook that is run on every edge; every edge is followed.
pub struct MapMethod<F>(pub F);

/// A predicate: an edge is followed where it holds.
pub struct FilterMethod<F>(pub F);

/// A predicate that may also act on the nodes it is shown: an edge is
/// followed where it holds.
pub struct FilterMapMethod<F>(pub F);

impl<K, N, E> Method<K, N, E> for NullMethod {
    open spec fn callable(&self, u: &Node<K, N, E>, v: &Node<K, N, E>, e: &E) -> bool {
        true
    }

    open spec fn may_accept(&self, u: &Node<K, N, E>, v: &Node<K, N, E>, e: &E) -> bool {
        true
    }

    open spec fn may_reject(&self, u: &Node<K, N, E>, v: &Node<K, N, E>, e: &E) -> bool {
        false
    }

    fn exec(&self, u: &Node<K, N, E>, v: &Node<K, N, E>, e: &E) -> (r: bool) {
        true
    }
}

impl<K, N, E, F: Fn(&Node<K, N, E>, &Node<K, N, E>, &E)> Method<K, N, E> for MapMethod<F> {
    open spec fn callable(&self, u: &Node<K, N, E>, v: &Node<K, N, E>, e: &E) -> bool {
        call_requires(self.0, (u, v, e))
    }

    /// The hook can come back from this edge: the edge is followed once the
    /// hook was run on it, so what the hook ensures holds of it.
    open spec fn may_accept(&self, u: &Node<K, N, E>, v: &Node<K, N, E>, e: &E) -> bool {
        call_ensures(self.0, (u, v, e), ())
    }

    open spec fn may_reject(&self, u: &Node<K, N, E>, v: &Node<K, N, E>, e: &E) -> bool {
        false
    }

    fn exec(&self, u: &Node<K, N, E>, v: &Node<K, N, E>, e: &E) -> (r: bool)
        ensures
            r,
            call_ensures(self.0, (u, v, e), ()),
    {
        (self.0)(u, v, e);
        true
    }
}

impl<K, N, E, F: Fn(&Node<K, N, E>, &Node<K, N, E>, &E) -> bool> Method<K, N, E> for FilterMethod<F> {
    open spec fn callable(&self, u: &Node<K, N, E>, v: &Node<K, N, E>, e: &E) -> bool {
        call_requires(self.0, (u, v, e))
    }

    open spec fn may_accept(&self, u: &Node<K, N, E>, v: &Node<K, N, E>, e: &E) -> bool {
        call_ensures(self.0, (u, v, e), true)
    }

    open spec fn may_reject(&self, u: &Node<K, N, E>, v: &Node<K, N, E>, e: &E) -> bool {
        call_ensures(self.0, (u, v, e), false)
    }

    fn exec(&self, u: &Node<K, N, E>, v: &Node<K, N, E>, e: &E) -> (r: bool) {
        (self.0)(u, v, e)
    }
}

impl<K, N, E, F: Fn(&Node<K, N, E>, &Node<K, N, E>, &E) -> bool> Method<K, N, E> for FilterMapMethod<F> {
    open spec fn callable(&self, u: &Node<K, N, E>, v: &Node<K, N, E>, e: &E) -> bool {
        call_requires(self.0, (u, v, e))
    }

    open spec fn may_accept(&self, u: &Node<K, N, E>, v: &Node<K, N, E>, e: &E) -> bool {
        call_ensures(self.0, (u, v, e), true)
    }

    open spec fn may_reject(&self, u: &Node<K, N, E>, v: &Node<K, N, E>, e: &E) -> bool {
        call_ensures(self.0, (u, v, e), false)
    }

    fn exec(&self, u: &Node<K, N, E>, v: &Node<K, N, E>, e: &E) -> (r: bool) {
        (self.0)(u, v, e)
    }
}

} // verus!
