//! Stable sorting by a number.
use vstd::prelude::*;

verus! {

/// Whether `perm` lists every position below `n` once.
pub open spec fn is_permutation(perm: Seq<int>, n: nat) -> bool {
    &&& perm.len() == n
    &&& perm.no_duplicates()
    &&& forall|i: int| 0 <= i < perm.len() ==> 0 <= #[trigger] perm[i] < n
}

/// Whether `after` is `before` sorted by the numbers, where `perm` says which
/// element of `before` is at each position: numbers never decrease, and
/// elements with equal numbers keep their order.
pub open spec fn stably_sorted<T>(before: Seq<(T, u128)>, after: Seq<(T, u128)>, perm: Seq<int>) -> bool {
    &&& is_permutation(perm, before.len())
    &&& after.len() == before.len()
    &&& forall|i: int| 0 <= i < after.len() ==> #[trigger] after[i] == before[perm[i]]
    &&& forall|i: int, j: int| 0 <= i < j < after.len() ==> (#[trigger] after[i]).1 < (#[trigger] after[j]).1
        || after[i].1 == after[j].1 && perm[i] < perm[j]
}

/// What sorting does: numbers never decrease, elements with equal numbers keep
/// their order, and every element is there, each as often as before.
pub proof fn sorting_keeps_all<T>(before: Seq<(T, u128)>, after: Seq<(T, u128)>, perm: Seq<int>, i: int, j: int)
    requires
        stably_sorted(before, after, perm),
    ensures
        after.len() == before.len(),
        perm.len() == before.len(),
        0 <= i < after.len() ==> 0 <= perm[i] < before.len() && after[i] == before[perm[i]],
        0 <= i < j < after.len() ==> {
            &&& after[i].1 <= after[j].1
            &&& after[i].1 == after[j].1 ==> perm[i] < perm[j]
            &&& perm[i] != perm[j]
        },
{
}

/// Sorts by the numbers, smallest first; equal ones keep their order.
pub fn stable_sort<T>(items: &mut Vec<(T, u128)>)
    ensures
        exists|perm: Seq<int>| stably_sorted(old(items)@, final(items)@, perm),
{
    let ghost before = items@;
    let n: usize = items.len();
    let ghost mut perm: Seq<int> = Seq::new(before.len(), |i: int| i);
    let mut i: usize = 0;
    while i < n
        invariant
            i <= n,
            n == before.len(),
            items@.len() == n,
            is_permutation(perm, before.len()),
            forall|k: int| 0 <= k < n ==> #[trigger] items@[k] == before[perm[k]],
            forall|a: int, b: int| 0 <= a < b < i ==> (#[trigger] items@[a]).1 < (#[trigger] items@[b]).1
                || items@[a].1 == items@[b].1 && perm[a] < perm[b],
            forall|k: int| i <= k < n ==> #[trigger] perm[k] == k,
            forall|k: int| 0 <= k < i ==> 0 <= #[trigger] perm[k] < i,
        decreases n - i,
    {
        let mut at: usize = i;
        while at > 0 && items[at - 1].1 > items[i].1
            invariant
                at <= i < n,
                items@.len() == n,
                forall|k: int| at <= k < i ==> (#[trigger] items@[k]).1 > items@[i as int].1,
            decreases at,
        {
            at = at - 1;
        }
        let ghost items0 = items@;
        let ghost perm0 = perm;
        let x = items.remove(i);
        items.insert(at, x);
        proof {
            let moved = items0.remove(i as int).insert(at as int, items0[i as int]);
            assert(items@ == moved);
            perm = perm0.remove(i as int).insert(at as int, perm0[i as int]);
            let src = |k: int| if k < at {
                k
            } else if k == at {
                i as int
            } else if k <= i {
                k - 1
            } else {
                k
            };
            assert forall|k: int| 0 <= k < n implies #[trigger] perm[k] == perm0[src(k)] by {}
            assert forall|k: int| 0 <= k < n implies #[trigger] items@[k] == items0[src(k)] by {}
            assert forall|a: int, b: int| 0 <= a < b < n implies perm[a] != perm[b] by {
                assert(src(a) != src(b));
            }
            assert forall|k: int| 0 <= k < perm.len() implies 0 <= #[trigger] perm[k] < n by {
                assert(0 <= perm0[src(k)] < n);
            }
            assert forall|k: int| 0 <= k < n implies #[trigger] items@[k] == before[perm[k]] by {
                assert(items0[src(k)] == before[perm0[src(k)]]);
            }
            assert forall|a: int, b: int| 0 <= a < b < i + 1 implies (#[trigger] items@[a]).1 < (#[trigger] items@[b]).1
                || items@[a].1 == items@[b].1 && perm[a] < perm[b] by {
                assert(items@[a] == items0[src(a)] && items@[b] == items0[src(b)]);
                assert(perm[a] == perm0[src(a)] && perm[b] == perm0[src(b)]);
                if a != at && b != at {
                    assert(src(a) < src(b) < i);
                } else if a == at {
                    assert(at <= src(b) < i);
                } else {
                    assert(src(a) < at);
                    assert(perm0[src(a)] < i && perm0[i as int] == i);
                    if at < i {
                        assert(items0[at - 1].1 <= items0[i as int].1);
                    }
                    assert(items0[at - 1].1 <= items0[i as int].1);
                    if src(a) < at - 1 {
                        assert(items0[src(a)].1 <= items0[at - 1].1);
                    }
                }
            }
            assert forall|k: int| i + 1 <= k < n implies #[trigger] perm[k] == k by {
                assert(perm0[src(k)] == k);
            }
            assert forall|k: int| 0 <= k < i + 1 implies 0 <= #[trigger] perm[k] < i + 1 by {
                assert(perm0[src(k)] <= i);
            }
        }
        i = i + 1;
    }
    assert(stably_sorted(before, items@, perm));
}

} // verus!
