//! Galloping search: skipping the leading elements of an ascending slice
//! that come before a value, in time logarithmic in the distance skipped.

use crate::order::{is_less, lawful, lemma_less_transitive, lemma_trichotomy, less};
use vstd::prelude::*;
use vstd::slice::slice_subrange;

verus! {

/// No element of `s` comes strictly before one that stands to its left.
pub open spec fn ascending<T: Ord>(s: Seq<T>) -> bool {
    forall|i: int, j: int| 0 <= i <= j < s.len() ==> !less(#[trigger] s[j], #[trigger] s[i])
}

/// The number of leading elements of `s` that come strictly before `v`.
pub open spec fn leading_below<T: Ord>(s: Seq<T>, v: T) -> nat
    decreases s.len(),
{
    if s.len() > 0 && less(s[0], v) {
        1 + leading_below(s.drop_first(), v)
    } else {
        0
    }
}

/// `n` is a power of two.
spec fn is_doubling(n: nat) -> bool
    decreases n,
{
    n == 1 || (n > 1 && n % 2 == 0 && is_doubling(n / 2))
}

/// `leading_below(s, v)` is the one position `k` with every element before
/// it strictly before `v`, and the element at it, if there is one, not.
pub proof fn lemma_leading_below_unique<T: Ord>(s: Seq<T>, v: T, k: int)
    requires
        0 <= k <= s.len(),
        forall|i: int| 0 <= i < k ==> less(#[trigger] s[i], v),
        k < s.len() ==> !less(s[k], v),
    ensures
        leading_below(s, v) == k,
    decreases k,
{
    if k > 0 {
        let t = s.drop_first();
        assert forall|i: int| 0 <= i < k - 1 implies less(#[trigger] t[i], v) by {
            assert(t[i] == s[i + 1]);
        }
        if k - 1 < t.len() {
            assert(t[k - 1] == s[k]);
        }
        lemma_leading_below_unique(t, v, k - 1);
    }
}

/// What `leading_below(s, v)` splits `s` into: elements strictly before `v`,
/// then an element that is not. In an ascending `s` no later element is
/// strictly before `v` either.
pub proof fn lemma_leading_below_splits<T: Ord>(s: Seq<T>, v: T)
    requires
        lawful::<T>(),
    ensures
        leading_below(s, v) <= s.len(),
        forall|i: int| 0 <= i < leading_below(s, v) ==> less(#[trigger] s[i], v),
        leading_below(s, v) < s.len() ==> !less(s[leading_below(s, v) as int], v),
        ascending(s) ==> forall|i: int|
            leading_below(s, v) <= i < s.len() ==> !less(#[trigger] s[i], v),
    decreases s.len(),
{
    if s.len() > 0 && less(s[0], v) {
        let t = s.drop_first();
        lemma_leading_below_splits(t, v);
        let k = leading_below(s, v);
        assert forall|i: int| 0 <= i < k implies less(#[trigger] s[i], v) by {
            if i > 0 {
                assert(s[i] == t[i - 1]);
            }
        }
        if k < s.len() {
            assert(s[k as int] == t[k - 1]);
        }
    }
    if ascending(s) {
        let k = leading_below(s, v);
        assert forall|i: int| k <= i < s.len() implies !less(#[trigger] s[i], v) by {
            assert(!less(s[i], s[k as int]));
            lemma_less_transitive(v, s[k as int], s[i]);
        }
    }
}

/// Whether `slice` is ascending.
pub fn is_ascending<T: Ord>(slice: &[T]) -> (ok: bool)
    requires
        lawful::<T>(),
    ensures
        ok == ascending(slice@),
{
    let len = slice.len();
    let mut at: usize = 1;
    proof {
        if len > 0 {
            lemma_trichotomy(slice@[0], slice@[0]);
        }
    }
    while at < len
        invariant
            lawful::<T>(),
            len == slice@.len(),
            1 <= at,
            forall|i: int, j: int|
                0 <= i <= j < at && j < len ==> !less(#[trigger] slice@[j], #[trigger] slice@[i]),
        decreases len - at,
    {
        if is_less(&slice[at], &slice[at - 1]) {
            return false;
        }
        proof {
            let prev = slice@[at - 1];
            let here = slice@[at as int];
            assert forall|i: int, j: int| 0 <= i <= j < at + 1 && j < len implies !less(
                #[trigger] slice@[j],
                #[trigger] slice@[i],
            ) by {
                if j == at {
                    if i < at {
                        assert(!less(prev, slice@[i]));
                        lemma_less_transitive(slice@[i], prev, here);
                    } else {
                        lemma_trichotomy(here, here);
                    }
                }
            }
        }
        at = at + 1;
    }
    true
}

/// The rest of `slice` from its first element that is not strictly before
/// `value`: the longest suffix that is empty or starts at such an element.
///
/// Doubles a step until it overshoots, then halves it again to close in on
/// the last element that is strictly before `value`.
pub fn gallop<'a, T: Ord>(slice: &'a [T], value: &T) -> (rest: &'a [T])
    requires
        lawful::<T>(),
        ascending(slice@),
    ensures
        rest@ == slice@.skip(leading_below(slice@, *value) as int),
        rest@.len() <= slice@.len(),
        rest@ == slice@.skip(slice@.len() - rest@.len()),
        forall|i: int| 0 <= i < slice@.len() - rest@.len() ==> less(#[trigger] slice@[i], *value),
        forall|i: int| 0 <= i < rest@.len() ==> !less(#[trigger] rest@[i], *value),
{
    let len = slice.len();
    proof {
        lemma_leading_below_splits(slice@, *value);
    }
    if len == 0 || !is_less(&slice[0], value) {
        assert(slice@.skip(0) =~= slice@);
        return slice;
    }
    let mut base: usize = 0;
    let mut step: usize = 1;
    while step < len - base && is_less(&slice[base + step], value)
        invariant
            lawful::<T>(),
            len == slice@.len(),
            base < len,
            step == base + 1,
            is_doubling(step as nat),
            less(slice@[base as int], *value),
        decreases len - base,
    {
        base = base + step;
        step = step * 2;
    }
    let ghost reach: int = step as int;
    assert forall|i: int| base + reach <= i < len implies !less(#[trigger] slice@[i], *value) by {
        let at = slice@[base + reach];
        assert(!less(slice@[i], at));
        lemma_less_transitive(*value, at, slice@[i]);
    }
    step = step / 2;
    while step > 0
        invariant
            lawful::<T>(),
            ascending(slice@),
            len == slice@.len(),
            base < len,
            less(slice@[base as int], *value),
            step == 0 || is_doubling(step as nat),
            reach == 2 * step || (step == 0 && reach == 1),
            forall|i: int| base + reach <= i < len ==> !less(#[trigger] slice@[i], *value),
        decreases step,
    {
        if step < len - base && is_less(&slice[base + step], value) {
            base = base + step;
        } else {
            assert forall|i: int| base + step <= i < len implies !less(
                #[trigger] slice@[i],
                *value,
            ) by {
                let at = slice@[base + step];
                assert(!less(slice@[i], at));
                lemma_less_transitive(*value, at, slice@[i]);
            }
        }
        proof {
            reach = step as int;
        }
        step = step / 2;
    }
    proof {
        assert forall|i: int| 0 <= i < base + 1 implies less(#[trigger] slice@[i], *value) by {
            let last = slice@[base as int];
            assert(!less(last, slice@[i]));
            lemma_less_transitive(slice@[i], last, *value);
        }
        lemma_leading_below_unique(slice@, *value, base + 1);
    }
    slice_subrange(slice, base + 1, len)
}

/// What `gallop` returns, found by stepping over one element at a time;
/// `slice` need not be ascending.
pub fn scan<'a, T: Ord>(slice: &'a [T], value: &T) -> (rest: &'a [T])
    requires
        lawful::<T>(),
    ensures
        rest@ == slice@.skip(leading_below(slice@, *value) as int),
{
    let len = slice.len();
    let mut at: usize = 0;
    while at < len && is_less(&slice[at], value)
        invariant
            lawful::<T>(),
            at <= len == slice@.len(),
            forall|i: int| 0 <= i < at ==> less(#[trigger] slice@[i], *value),
        decreases len - at,
    {
        at = at + 1;
    }
    proof {
        lemma_leading_below_unique(slice@, *value, at as int);
    }
    slice_subrange(slice, at, len)
}

} // verus!
