//! The extender: a shared graph and a routing function from a prefix to a
//! node, offering the count, the proposal and the intersection of that
//! node's edge targets.

use crate::filter::{intersection, members_of, retain_intersection};
use crate::graph::{edges_of, well_formed, GraphTrait};
use crate::order::lawful;
use crate::search::ascending;
use core::marker::PhantomData;
use std::rc::Rc;
use vstd::prelude::*;

verus! {

/// `to` has the length of `from` and holds, place by place, a clone of what
/// `from` holds.
pub open spec fn copies<T: Clone>(from: Seq<T>, to: Seq<T>) -> bool {
    &&& to.len() == from.len()
    &&& forall|i: int| 0 <= i < from.len() ==> cloned(#[trigger] from[i], to[i])
}

/// Cloning a `T` gives an equal `T`.
pub open spec fn clones_equal<T: Clone>() -> bool {
    forall|a: T, b: T| #[trigger] cloned(a, b) ==> a == b
}

/// Where clones are equal, a sequence of copies is the sequence copied.
pub proof fn lemma_copies_exact<T: Clone>(from: Seq<T>, to: Seq<T>)
    requires
        copies(from, to),
        clones_equal::<T>(),
    ensures
        to == from,
{
    assert(to =~= from);
}

/// Building an extender from a shared graph.
pub trait GraphExtenderExt<G: GraphTrait> {
    /// An extender over this graph that finds the node of a prefix by `route`.
    fn extend_using<P, L: Fn(&P) -> u64 + 'static>(&self, route: L) -> Rc<GraphExtender<G, P, L>>;
}

impl<G: GraphTrait> GraphExtenderExt<G> for Rc<G> {
    fn extend_using<P, L: Fn(&P) -> u64 + 'static>(&self, logic: L) -> (extender: Rc<
        GraphExtender<G, P, L>,
    >)
        ensures
            extender.graph() == **self,
            extender.routing() == logic,
    {
        Rc::new(GraphExtender { graph: self.clone(), logic: Rc::new(logic), phant: PhantomData })
    }
}

/// A graph together with the function that routes a prefix to a node of it.
pub struct GraphExtender<G: GraphTrait, P, L: Fn(&P) -> u64> {
    graph: Rc<G>,
    logic: Rc<L>,
    phant: PhantomData<P>,
}

impl<G: GraphTrait, P, L: Fn(&P) -> u64 + 'static> GraphExtender<G, P, L> {
    /// The graph that is extended through.
    pub closed spec fn graph(&self) -> G {
        *self.graph
    }

    /// The routing function.
    pub closed spec fn routing(&self) -> L {
        *self.logic
    }

    /// The graph is well formed.
    pub open spec fn wf(&self) -> bool {
        well_formed(self.graph().offsets(), self.graph().targets())
    }

    /// The routing function can be called on `prefix`.
    pub open spec fn accepts(&self, prefix: &P) -> bool {
        call_requires(self.routing(), (prefix,))
    }

    /// The routing function may return `node` for `prefix`. Of a function
    /// that computes its result from its argument alone this holds of one
    /// node only.
    pub open spec fn routes(&self, prefix: &P, node: u64) -> bool {
        call_ensures(self.routing(), (prefix,), node)
    }

    /// The routing function returns `node`, and nothing else, for `prefix`.
    pub open spec fn routes_to(&self, prefix: &P, node: u64) -> bool {
        forall|other: u64| #[trigger] self.routes(prefix, other) ==> other == node
    }

    /// The edge targets of `node`; none where `node` is not a node with
    /// edges.
    pub open spec fn extensions(&self, node: u64) -> Seq<G::Target> {
        edges_of(self.graph().offsets(), self.graph().targets(), node as int)
    }

    /// The node that `prefix` is routed to, and its edge targets.
    fn routed(&self, prefix: &P) -> (found: (u64, &[G::Target]))
        requires
            self.wf(),
            self.accepts(prefix),
        ensures
            self.routes(prefix, found.0),
            found.1@ == self.extensions(found.0),
            ascending(found.1@),
    {
        let node = (*self.logic)(prefix);
        let count = self.graph.nodes();
        let index = if node < count as u64 {
            node as usize
        } else {
            count
        };
        (node, self.graph.edges(index))
    }

    /// The routing function, shared.
    pub fn logic(&self) -> (logic: Rc<L>)
        ensures
            *logic == self.routing(),
    {
        self.logic.clone()
    }

    /// The number of edge targets of the node that `prefix` is routed to.
    pub fn count(&self, prefix: &P) -> (count: u64)
        requires
            self.wf(),
            self.accepts(prefix),
        ensures
            exists|node: u64| #[trigger]
                self.routes(prefix, node) && count == self.extensions(node).len(),
            forall|node: u64| #[trigger]
                self.routes_to(prefix, node) ==> count == self.extensions(node).len(),
    {
        let (node, edges) = self.routed(prefix);
        edges.len() as u64
    }

    /// Keeps of `list`, in their order, the candidates that occur among the
    /// edge targets of the node that `prefix` is routed to and that no
    /// earlier candidate is greater than: of an ascending `list`, all that
    /// occur among them.
    pub fn intersect(&self, prefix: &P, list: &mut Vec<G::Target>)
        requires
            self.wf(),
            self.accepts(prefix),
            lawful::<G::Target>(),
        ensures
            exists|node: u64| #[trigger]
                self.routes(prefix, node) && final(list)@ == intersection(
                    self.extensions(node),
                    old(list)@,
                ),
            forall|node: u64| #[trigger]
                self.routes_to(prefix, node) ==> final(list)@ == intersection(
                    self.extensions(node),
                    old(list)@,
                ),
            forall|node: u64| #[trigger]
                self.routes_to(prefix, node) && ascending(old(list)@) ==> final(list)@
                    == members_of(self.extensions(node), old(list)@),
    {
        let (node, edges) = self.routed(prefix);
        retain_intersection(edges, list);
    }
}

impl<G: GraphTrait, P, L: Fn(&P) -> u64 + 'static> GraphExtender<G, P, L> where
    <G as GraphTrait>::Target: Clone,
 {
    /// Replaces what `list` holds by clones of the edge targets of the node
    /// that `prefix` is routed to, in their order.
    pub fn propose(&self, prefix: &P, list: &mut Vec<G::Target>)
        requires
            self.wf(),
            self.accepts(prefix),
        ensures
            exists|node: u64| #[trigger]
                self.routes(prefix, node) && copies(self.extensions(node), final(list)@),
            forall|node: u64| #[trigger]
                self.routes_to(prefix, node) ==> copies(self.extensions(node), final(list)@),
            forall|node: u64| #[trigger]
                self.routes_to(prefix, node) && clones_equal::<G::Target>() ==> final(list)@
                    == self.extensions(node),
    {
        let (node, edges) = self.routed(prefix);
        list.clear();
        list.extend_from_slice(edges);
        proof {
            assert(copies(self.extensions(node), list@));
            if clones_equal::<G::Target>() {
                lemma_copies_exact(self.extensions(node), list@);
            }
        }
    }
}

} // verus!
