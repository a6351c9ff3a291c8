//! Lists that are taken apart from the front.
use vstd::prelude::*;

verus! {

/// The elements in the opposite order.
pub fn reversed<T>(list: Vec<T>) -> (out: Vec<T>)
    ensures
        out@ == list@.reverse(),
{
    let ghost all = list@;
    let mut rest = list;
    let mut out: Vec<T> = Vec::new();
    while rest.len() > 0
        invariant
            rest@.len() + out@.len() == all.len(),
            rest@ == all.take(rest@.len() as int),
            forall|i: int| 0 <= i < out@.len() ==> #[trigger] out@[i] == all[all.len() - 1 - i],
        decreases rest@.len(),
    {
        let ghost left = rest@;
        let last = rest.pop().unwrap();
        assert(last == left[left.len() - 1]);
        out.push(last);
        assert(rest@ =~= all.take(rest@.len() as int));
    }
    assert(out@ =~= all.reverse());
    out
}

/// What is left of a reversed list after `n` elements ends in element `n`.
pub proof fn lemma_rest_reversed<T>(all: Seq<T>, n: int)
    requires
        0 <= n < all.len(),
    ensures
        all.skip(n).reverse().last() == all[n],
        all.skip(n).reverse().drop_last() == all.skip(n + 1).reverse(),
{
    assert(all.skip(n).reverse().drop_last() =~= all.skip(n + 1).reverse());
}

/// What is filtered out of a list is what the list has of that kind.
pub proof fn lemma_filter_members<T>(list: Seq<T>, p: spec_fn(T) -> bool, x: T)
    ensures
        list.filter(p).contains(x) <==> list.contains(x) && p(x),
    decreases list.len(),
{
    reveal(Seq::filter);
    if list.len() > 0 {
        let init = list.drop_last();
        let before = init.filter(p);
        lemma_filter_members(init, p, x);
        if list.filter(p).contains(x) {
            let i = choose|i: int| 0 <= i < list.filter(p).len() && list.filter(p)[i] == x;
            if i < before.len() {
                assert(before.contains(x));
                let k = choose|k: int| 0 <= k < init.len() && init[k] == x;
                assert(list[k] == x);
            } else {
                assert(list[list.len() - 1] == x);
            }
        }
        if list.contains(x) && p(x) {
            let k = choose|k: int| 0 <= k < list.len() && list[k] == x;
            if k < init.len() {
                assert(init[k] == x);
                let i = choose|i: int| 0 <= i < before.len() && before[i] == x;
                assert(list.filter(p)[i] == x);
            } else {
                assert(list.filter(p)[before.len() as int] == x);
            }
        }
    }
}

} // verus!
