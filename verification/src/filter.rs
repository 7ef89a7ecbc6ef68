//! Filtering a candidate list down to the values that also occur among the
//! edge targets of a node, with a cursor that only moves forward.

use crate::order::{is_same, lawful, lemma_less_transitive, lemma_same_symmetric, lemma_trichotomy, less, same};
use crate::search::{ascending, gallop, leading_below, lemma_leading_below_splits, scan};
use vstd::prelude::*;

verus! {

/// A candidate list shorter than one part in this many of the edge targets
/// is filtered by galloping, a longer one by merging.
pub const GALLOP_RATIO: usize = 4;

/// Some element of `edges` compares equal to `v`.
pub open spec fn member<T: Ord>(edges: Seq<T>, v: T) -> bool {
    exists|k: int| 0 <= k < edges.len() && same(#[trigger] edges[k], v)
}

/// The candidate at position `i` of `list` stays: it occurs among `edges`
/// and no candidate before it is greater. (The cursor has then not yet moved
/// past its place.)
pub open spec fn survives<T: Ord>(edges: Seq<T>, list: Seq<T>, i: int) -> bool {
    &&& member(edges, list[i])
    &&& forall|j: int| 0 <= j < i ==> !less(list[i], #[trigger] list[j])
}

/// The candidates of `list` that stay, in the order they had.
pub open spec fn intersection<T: Ord>(edges: Seq<T>, list: Seq<T>) -> Seq<T>
    decreases list.len(),
{
    if list.len() == 0 {
        Seq::empty()
    } else {
        let front = intersection(edges, list.drop_last());
        if survives(edges, list, list.len() - 1) {
            front.push(list.last())
        } else {
            front
        }
    }
}

/// The positions of `list` whose candidates stay, in ascending order.
pub open spec fn kept<T: Ord>(edges: Seq<T>, list: Seq<T>) -> Seq<int>
    decreases list.len(),
{
    if list.len() == 0 {
        Seq::empty()
    } else {
        let front = kept(edges, list.drop_last());
        if survives(edges, list, list.len() - 1) {
            front.push(list.len() - 1)
        } else {
            front
        }
    }
}

/// The intersection is a subsequence of the candidate list that keeps its
/// order: it holds the candidates at the positions `kept`, which ascend and
/// are exactly the positions whose candidates stay.
pub proof fn lemma_intersection_is_subsequence<T: Ord>(edges: Seq<T>, list: Seq<T>)
    ensures
        intersection(edges, list).len() == kept(edges, list).len() <= list.len(),
        forall|k: int|
            0 <= k < kept(edges, list).len() ==> {
                let i = #[trigger] kept(edges, list)[k];
                0 <= i < list.len() && survives(edges, list, i) && intersection(edges, list)[k]
                    == list[i]
            },
        forall|k: int, l: int|
            0 <= k < l < kept(edges, list).len() ==> #[trigger] kept(edges, list)[k]
                < #[trigger] kept(edges, list)[l],
        forall|i: int|
            0 <= i < list.len() && survives(edges, list, i) ==> #[trigger] kept(
                edges,
                list,
            ).contains(i),
    decreases list.len(),
{
    if list.len() > 0 {
        let head = list.drop_last();
        let last = list.len() - 1;
        lemma_intersection_is_subsequence(edges, head);
        assert forall|i: int| 0 <= i < last implies survives(edges, head, i) == survives(
            edges,
            list,
            i,
        ) by {
            assert(head[i] == list[i]);
            assert forall|j: int| 0 <= j < i implies head[j] == list[j] by {}
        }
        let at = kept(edges, list);
        let front = kept(edges, head);
        assert forall|k: int| 0 <= k < at.len() implies {
            let i = #[trigger] at[k];
            0 <= i < list.len() && survives(edges, list, i) && intersection(edges, list)[k]
                == list[i]
        } by {
            if k < front.len() {
                assert(at[k] == front[k]);
                assert(head[front[k]] == list[front[k]]);
            }
        }
        assert forall|k: int, l: int| 0 <= k < l < at.len() implies #[trigger] at[k]
            < #[trigger] at[l] by {
            assert(at[k] == front[k]);
            if l < front.len() {
                assert(at[l] == front[l]);
            }
        }
        assert forall|i: int| 0 <= i < list.len() && survives(edges, list, i) implies at.contains(
            i,
        ) by {
            if i < last {
                assert(front.contains(i));
                let k = choose|k: int| 0 <= k < front.len() && front[k] == i;
                assert(at[k] == i);
            } else {
                assert(at[at.len() - 1] == i);
            }
        }
    }
}

/// The candidates of `list` that occur among `edges`, in the order they had.
pub open spec fn members_of<T: Ord>(edges: Seq<T>, list: Seq<T>) -> Seq<T> {
    list.filter(|v: T| member(edges, v))
}

/// Of an ascending candidate list the intersection holds exactly the
/// candidates that occur among `edges`, in the order they had.
pub proof fn lemma_intersection_of_ascending<T: Ord>(edges: Seq<T>, list: Seq<T>)
    requires
        ascending(list),
    ensures
        intersection(edges, list) == members_of(edges, list),
    decreases list.len(),
{
    let occurs = |v: T| member(edges, v);
    reveal(Seq::filter);
    if list.len() > 0 {
        let head = list.drop_last();
        let last = list.len() - 1;
        assert forall|i: int, j: int| 0 <= i <= j < head.len() implies !less(
            #[trigger] head[j],
            #[trigger] head[i],
        ) by {
            assert(head[i] == list[i] && head[j] == list[j]);
        }
        lemma_intersection_of_ascending(edges, head);
        assert(survives(edges, list, last) == occurs(list.last()));
    }
}

/// The edge at position `k` comes strictly before one of the first `n`
/// candidates of `list`.
spec fn passed<T: Ord>(edges: Seq<T>, list: Seq<T>, n: int, k: int) -> bool {
    exists|j: int| 0 <= j < n && less(edges[k], #[trigger] list[j])
}

/// The cursor stands at `cur` after the first `n` candidates: every edge
/// before it was passed, and the edge at it comes before none of them.
spec fn cursor_at<T: Ord>(edges: Seq<T>, list: Seq<T>, n: int, cur: int) -> bool {
    &&& 0 <= cur <= edges.len()
    &&& forall|k: int| 0 <= k < cur ==> #[trigger] passed(edges, list, n, k)
    &&& cur < edges.len() ==> forall|j: int| 0 <= j < n ==> !less(edges[cur], #[trigger] list[j])
}

/// Moving the cursor over the edges that come strictly before candidate `i`
/// puts it where it belongs after that candidate, and the candidate stays
/// exactly if the edge now under the cursor compares equal to it.
proof fn lemma_cursor_step<T: Ord>(edges: Seq<T>, list: Seq<T>, i: int, cur: int, next: int)
    requires
        lawful::<T>(),
        ascending(edges),
        0 <= i < list.len(),
        cursor_at(edges, list, i, cur),
        next == cur + leading_below(edges.skip(cur), list[i]),
    ensures
        cursor_at(edges, list, i + 1, next),
        survives(edges, list, i) == (next < edges.len() && same(edges[next], list[i])),
{
    let v = list[i];
    let tail = edges.skip(cur);
    lemma_leading_below_splits(tail, v);
    assert forall|k: int| 0 <= k < next implies #[trigger] passed(edges, list, i + 1, k) by {
        if k < cur {
            assert(passed(edges, list, i, k));
            let j = choose|j: int| 0 <= j < i && less(edges[k], #[trigger] list[j]);
            assert(less(edges[k], list[j]));
        } else {
            assert(tail[k - cur] == edges[k]);
            assert(less(edges[k], list[i]));
        }
    }
    if next < edges.len() {
        assert(tail[next - cur] == edges[next]);
        assert forall|j: int| 0 <= j < i + 1 implies !less(edges[next], #[trigger] list[j]) by {
            if j < i {
                assert(!less(edges[next], edges[cur]));
                lemma_less_transitive(list[j], edges[cur], edges[next]);
            }
        }
    }
    let hit = next < edges.len() && same(edges[next], v);
    if hit {
        assert forall|j: int| 0 <= j < i implies !less(v, #[trigger] list[j]) by {
            lemma_less_transitive(edges[next], v, list[j]);
        }
    }
    if survives(edges, list, i) {
        let k = choose|k: int| 0 <= k < edges.len() && same(#[trigger] edges[k], v);
        if k < cur {
            assert(passed(edges, list, i, k));
            let j = choose|j: int| 0 <= j < i && less(edges[k], #[trigger] list[j]);
            lemma_same_symmetric(edges[k], v);
            lemma_less_transitive(v, edges[k], list[j]);
            assert(false);
        }
        if k < next {
            assert(tail[k - cur] == edges[k]);
            lemma_trichotomy(edges[k], v);
            assert(false);
        }
        assert(!less(edges[k], edges[next]));
        lemma_less_transitive(edges[k], v, edges[next]);
        lemma_trichotomy(edges[next], v);
        lemma_same_symmetric(edges[next], v);
        assert(hit);
    }
}

/// The candidates that stay among the first `i + 1` are those among the
/// first `i`, and candidate `i` if it stays.
proof fn lemma_intersection_extends<T: Ord>(edges: Seq<T>, list: Seq<T>, i: int)
    requires
        0 <= i < list.len(),
    ensures
        intersection(edges, list.take(i + 1)) == if survives(edges, list, i) {
            intersection(edges, list.take(i)).push(list[i])
        } else {
            intersection(edges, list.take(i))
        },
{
    let t = list.take(i + 1);
    assert(t.drop_last() =~= list.take(i));
    assert(t.last() == list[i]);
    assert(survives(edges, t, i) == survives(edges, list, i)) by {
        assert(t[i] == list[i]);
        assert forall|j: int| 0 <= j < i implies t[j] == list[j] by {}
    }
}

/// Keeps the candidates of `list` that stay, moving the cursor by `gallop`
/// where `galloping` is set and by `scan` where it is not.
fn retain_along<T: Ord>(edges: &[T], list: &mut Vec<T>, galloping: bool)
    requires
        lawful::<T>(),
        ascending(edges@),
    ensures
        final(list)@ == intersection(edges@, old(list)@),
{
    let mut source: Vec<T> = Vec::new();
    core::mem::swap(list, &mut source);
    let ghost all = source@;
    let ghost mut cur: int = 0;
    let mut rest = edges;
    assert(edges@.skip(0) =~= edges@);
    for value in it: source
        invariant
            lawful::<T>(),
            ascending(edges@),
            it.seq() == all,
            cursor_at(edges@, all, it.index() as int, cur),
            rest@ == edges@.skip(cur),
            list@ == intersection(edges@, all.take(it.index() as int)),
    {
        let ghost i = it.index() as int;
        let ghost before = rest@;
        proof {
            assert forall|a: int, b: int| 0 <= a <= b < before.len() implies !less(
                #[trigger] before[b],
                #[trigger] before[a],
            ) by {
                assert(before[a] == edges@[cur + a] && before[b] == edges@[cur + b]);
            }
        }
        rest = if galloping {
            gallop(rest, &value)
        } else {
            scan(rest, &value)
        };
        let keep = rest.len() > 0 && is_same(&rest[0], &value);
        proof {
            let next = cur + leading_below(before, value);
            lemma_leading_below_splits(before, value);
            lemma_cursor_step(edges@, all, i, cur, next);
            lemma_intersection_extends(edges@, all, i);
            assert(rest@ =~= edges@.skip(next));
            if next < edges@.len() {
                assert(rest@[0] == edges@[next]);
            }
            cur = next;
        }
        if keep {
            list.push(value);
        }
    }
    assert(all.take(all.len() as int) =~= all);
}

/// Keeps the candidates of `list` that stay, finding each one's place among
/// `edges` by galloping from the place of the one before.
pub fn retain_galloping<T: Ord>(edges: &[T], list: &mut Vec<T>)
    requires
        lawful::<T>(),
        ascending(edges@),
    ensures
        final(list)@ == intersection(edges@, old(list)@),
{
    retain_along(edges, list, true)
}

/// Keeps the candidates of `list` that stay, stepping through `edges` one
/// element at a time as in a merge.
pub fn retain_merging<T: Ord>(edges: &[T], list: &mut Vec<T>)
    requires
        lawful::<T>(),
        ascending(edges@),
    ensures
        final(list)@ == intersection(edges@, old(list)@),
{
    retain_along(edges, list, false)
}

/// Keeps the candidates of `list` that stay: by galloping where `list` is
/// shorter than one part in `GALLOP_RATIO` of `edges`, else by merging.
/// Either way gives the same list.
pub fn retain_intersection<T: Ord>(edges: &[T], list: &mut Vec<T>)
    requires
        lawful::<T>(),
        ascending(edges@),
    ensures
        final(list)@ == intersection(edges@, old(list)@),
        ascending(old(list)@) ==> final(list)@ == members_of(edges@, old(list)@),
{
    proof {
        if ascending(list@) {
            lemma_intersection_of_ascending(edges@, list@);
        }
    }
    if list.len() < edges.len() / GALLOP_RATIO {
        retain_galloping(edges, list)
    } else {
        retain_merging(edges, list)
    }
}

} // verus!
