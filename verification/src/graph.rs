//! Graphs in compressed sparse rows: an array of offsets into one flat array
//! of edge targets, read through an interface that any storage can offer.

use crate::order::lawful;
use crate::search::{ascending, is_ascending};
use vstd::prelude::*;
use vstd::slice::slice_subrange;

verus! {

/// The edge targets of `node`: the targets from its offset up to the next
/// node's. The last offset is a sentinel, so the node it belongs to, like
/// every index beyond it, has none.
pub open spec fn edges_of<E>(offsets: Seq<u64>, targets: Seq<E>, node: int) -> Seq<E> {
    if 0 <= node && node + 1 < offsets.len() {
        targets.subrange(offsets[node] as int, offsets[node + 1] as int)
    } else {
        Seq::empty()
    }
}

/// The offsets never decrease and none points beyond the targets.
pub open spec fn in_bounds(offsets: Seq<u64>, count: nat) -> bool {
    &&& forall|i: int, j: int| 0 <= i <= j < offsets.len() ==> offsets[i] <= offsets[j]
    &&& forall|i: int| 0 <= i < offsets.len() ==> offsets[i] <= count
}

/// The offsets are in bounds and the targets of each node are ascending.
pub open spec fn well_formed<E: Ord>(offsets: Seq<u64>, targets: Seq<E>) -> bool {
    &&& in_bounds(offsets, targets.len())
    &&& forall|node: int|
        0 <= node && node + 1 < offsets.len() ==> ascending(
            #[trigger] edges_of(offsets, targets, node),
        )
}

/// The edge targets of `node` as a part of `targets`; empty for the last
/// index of `offsets` and for every index beyond it.
pub fn edge_slice<'a, E>(offsets: &[u64], targets: &'a [E], node: usize) -> (edges: &'a [E])
    requires
        in_bounds(offsets@, targets@.len()),
    ensures
        edges@ == edges_of(offsets@, targets@, node as int),
        node + 1 < offsets@.len() ==> edges@.len() == offsets@[node + 1] - offsets@[node as int],
        node + 1 >= offsets@.len() ==> edges@.len() == 0,
{
    let count = offsets.len();
    let total = targets.len();
    if count > 0 && node < count - 1 {
        assert(offsets@[node as int] <= offsets@[node + 1] <= total);
        let start = offsets[node] as usize;
        let limit = offsets[node + 1] as usize;
        slice_subrange(targets, start, limit)
    } else {
        slice_subrange(targets, 0, 0)
    }
}

/// Whether `offsets` never decrease and none points beyond `count` targets.
pub fn is_in_bounds(offsets: &[u64], count: usize) -> (ok: bool)
    ensures
        ok == in_bounds(offsets@, count as nat),
{
    let len = offsets.len();
    let mut at: usize = 0;
    while at < len
        invariant
            at <= len == offsets@.len(),
            forall|i: int, j: int| 0 <= i <= j < at ==> offsets@[i] <= offsets@[j],
            forall|i: int| 0 <= i < at ==> offsets@[i] <= count,
        decreases len - at,
    {
        if offsets[at] > count as u64 {
            return false;
        }
        if at > 0 && offsets[at - 1] > offsets[at] {
            return false;
        }
        at = at + 1;
    }
    true
}

/// Whether `offsets` and `targets` make a well-formed graph.
pub fn is_well_formed<E: Ord>(offsets: &[u64], targets: &[E]) -> (ok: bool)
    requires
        lawful::<E>(),
    ensures
        ok == well_formed(offsets@, targets@),
{
    if !is_in_bounds(offsets, targets.len()) {
        return false;
    }
    let len = offsets.len();
    if len == 0 {
        return true;
    }
    let mut node: usize = 0;
    while node < len - 1
        invariant
            lawful::<E>(),
            0 < len == offsets@.len(),
            node <= len - 1,
            in_bounds(offsets@, targets@.len()),
            forall|n: int|
                0 <= n < node && n + 1 < len ==> ascending(
                    #[trigger] edges_of(offsets@, targets@, n),
                ),
        decreases len - node,
    {
        if !is_ascending(edge_slice(offsets, targets, node)) {
            return false;
        }
        node = node + 1;
    }
    true
}

/// A read-only graph: a number of nodes and, for each node index, its edge
/// targets in ascending order.
pub trait GraphTrait: 'static {
    /// What an edge points to.
    type Target: Ord;

    /// The offset of each node's first edge target, and a last entry that
    /// closes the range of the node before it. A verified implementation
    /// says what they are; of any other they are some fixed sequence.
    open spec fn offsets(&self) -> Seq<u64> {
        arbitrary()
    }

    /// The edge targets of all nodes, one node after the other. A verified
    /// implementation says what they are; of any other they are some fixed
    /// sequence.
    open spec fn targets(&self) -> Seq<Self::Target> {
        arbitrary()
    }

    /// The number of offsets: one more than the nodes that can have edges.
    fn nodes(&self) -> (count: usize)
        ensures
            count == self.offsets().len(),
    ;

    /// The edge targets of `node`, for any index at all.
    fn edges(&self, node: usize) -> (edges: &[Self::Target])
        requires
            well_formed(self.offsets(), self.targets()),
        ensures
            edges@ == edges_of(self.offsets(), self.targets(), node as int),
            node + 1 < self.offsets().len() ==> edges@.len() == self.offsets()[node + 1]
                - self.offsets()[node as int],
            node + 1 >= self.offsets().len() ==> edges@.len() == 0,
            ascending(edges@),
    ;
}

/// A graph held in two vectors.
pub struct GraphVector<E> {
    /// The offsets, ending in the sentinel.
    pub nodes: Vec<u64>,
    /// The edge targets.
    pub edges: Vec<E>,
}

impl<E: Ord + Send + 'static> GraphTrait for GraphVector<E> {
    type Target = E;

    open spec fn offsets(&self) -> Seq<u64> {
        self.nodes@
    }

    open spec fn targets(&self) -> Seq<E> {
        self.edges@
    }

    #[inline(always)]
    fn nodes(&self) -> (count: usize) {
        self.nodes.len()
    }

    #[inline(always)]
    fn edges(&self, node: usize) -> (edges: &[E]) {
        let edges = edge_slice(self.nodes.as_slice(), self.edges.as_slice(), node);
        proof {
            if node + 1 < self.nodes@.len() {
                assert(ascending(edges_of(self.nodes@, self.edges@, node as int)));
            }
        }
        edges
    }
}

} // verus!
