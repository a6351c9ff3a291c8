//! Lexicographic order on byte strings, and sorting.
use vstd::prelude::*;

verus! {

broadcast use {vstd::array::group_array_axioms, vstd::seq_lib::group_to_multiset_ensures};

/// Lexicographic order of byte strings; a proper prefix comes first.
pub open spec fn bytes_le(a: Seq<u8>, b: Seq<u8>) -> bool
    decreases a.len(),
{
    if a.len() == 0 {
        true
    } else if b.len() == 0 {
        false
    } else {
        a[0] < b[0] || (a[0] == b[0] && bytes_le(a.drop_first(), b.drop_first()))
    }
}

pub proof fn lemma_bytes_le_total(a: Seq<u8>, b: Seq<u8>)
    ensures
        bytes_le(a, b) || bytes_le(b, a),
        bytes_le(a, a),
    decreases a.len(),
{
    if a.len() > 0 {
        if b.len() > 0 {
            lemma_bytes_le_total(a.drop_first(), b.drop_first());
        } else {
            lemma_bytes_le_total(a.drop_first(), b);
        }
    }
}

pub proof fn lemma_bytes_le_transitive(a: Seq<u8>, b: Seq<u8>, c: Seq<u8>)
    requires
        bytes_le(a, b),
        bytes_le(b, c),
    ensures
        bytes_le(a, c),
    decreases a.len(),
{
    if a.len() > 0 && b.len() > 0 && c.len() > 0 && a[0] == b[0] && b[0] == c[0] {
        lemma_bytes_le_transitive(a.drop_first(), b.drop_first(), c.drop_first());
    }
}

pub proof fn lemma_bytes_le_antisymmetric(a: Seq<u8>, b: Seq<u8>)
    requires
        bytes_le(a, b),
        bytes_le(b, a),
    ensures
        a == b,
    decreases a.len(),
{
    if a.len() > 0 && b.len() > 0 {
        lemma_bytes_le_antisymmetric(a.drop_first(), b.drop_first());
        assert(a =~= seq![a[0]] + a.drop_first());
        assert(b =~= seq![b[0]] + b.drop_first());
    } else {
        assert(a =~= b);
    }
}

/// Byte strings are ordered by the first byte in which they differ; where they
/// differ in none, the shorter comes first.
pub proof fn first_difference_decides(a: Seq<u8>, b: Seq<u8>)
    ensures
        bytes_le(a, b) <==> (exists|k: int|
            0 <= k < a.len() && k < b.len() && a[k] < b[k] && forall|m: int| 0 <= m < k ==> a[m] == b[m]) || (a.len()
            <= b.len() && forall|m: int| 0 <= m < a.len() ==> a[m] == b[m]),
    decreases a.len(),
{
    if a.len() > 0 && b.len() > 0 {
        let a1 = a.drop_first();
        let b1 = b.drop_first();
        first_difference_decides(a1, b1);
        if bytes_le(a, b) && a[0] == b[0] {
            if exists|k: int|
                0 <= k < a1.len() && k < b1.len() && a1[k] < b1[k] && forall|m: int| 0 <= m < k ==> a1[m] == b1[m] {
                let k = choose|k: int|
                    0 <= k < a1.len() && k < b1.len() && a1[k] < b1[k] && forall|m: int| 0 <= m < k ==> a1[m] == b1[m];
                assert(a[k + 1] < b[k + 1]);
                assert forall|m: int| 0 <= m < k + 1 implies a[m] == b[m] by {
                    if m > 0 {
                        assert(a1[m - 1] == b1[m - 1]);
                    }
                }
            } else {
                assert forall|m: int| 0 <= m < a.len() implies a[m] == b[m] by {
                    if m > 0 {
                        assert(a1[m - 1] == b1[m - 1]);
                    }
                }
            }
        }
        if exists|k: int| 0 <= k < a.len() && k < b.len() && a[k] < b[k] && forall|m: int| 0 <= m < k ==> a[m] == b[m] {
            let k = choose|k: int|
                0 <= k < a.len() && k < b.len() && a[k] < b[k] && forall|m: int| 0 <= m < k ==> a[m] == b[m];
            if k > 0 {
                assert(a[0] == b[0]);
                assert(a1[k - 1] < b1[k - 1]);
                assert forall|m: int| 0 <= m < k - 1 implies a1[m] == b1[m] by {
                    assert(a[m + 1] == b[m + 1]);
                }
            }
        }
        if a.len() <= b.len() && forall|m: int| 0 <= m < a.len() ==> a[m] == b[m] {
            assert(a[0] == b[0]);
            assert forall|m: int| 0 <= m < a1.len() implies a1[m] == b1[m] by {
                assert(a[m + 1] == b[m + 1]);
            }
        }
    }
}

/// Whether `a` comes no later than `b`.
pub fn bytes_at_most(a: &[u8], b: &[u8]) -> (le: bool)
    ensures
        le == bytes_le(a@, b@),
        le <==> (exists|k: int|
            0 <= k < a@.len() && k < b@.len() && a@[k] < b@[k] && forall|m: int| 0 <= m < k ==> a@[m] == b@[m]) || (
        a@.len() <= b@.len() && forall|m: int| 0 <= m < a@.len() ==> a@[m] == b@[m]),
{
    let le = bytes_in_order(a, b);
    proof {
        first_difference_decides(a@, b@);
    }
    le
}

fn bytes_in_order(a: &[u8], b: &[u8]) -> (le: bool)
    ensures
        le == bytes_le(a@, b@),
{
    let mut i: usize = 0;
    assert(a@.skip(0) =~= a@);
    assert(b@.skip(0) =~= b@);
    while i < a.len() && i < b.len()
        invariant
            i <= a@.len(),
            i <= b@.len(),
            bytes_le(a@, b@) == bytes_le(a@.skip(i as int), b@.skip(i as int)),
        decreases a.len() - i,
    {
        proof {
            assert(a@.skip(i as int).drop_first() =~= a@.skip(i + 1));
            assert(b@.skip(i as int).drop_first() =~= b@.skip(i + 1));
        }
        if a[i] < b[i] {
            return true;
        }
        if b[i] < a[i] {
            return false;
        }
        i = i + 1;
    }
    i == a.len()
}

/// Values with a total order.
pub trait Ranked: Copy + Sized {
    spec fn le(self, other: Self) -> bool;

    proof fn total(a: Self, b: Self)
        ensures
            a.le(b) || b.le(a),
    ;

    proof fn transitive(a: Self, b: Self, c: Self)
        requires
            a.le(b),
            b.le(c),
        ensures
            a.le(c),
    ;

    proof fn antisymmetric(a: Self, b: Self)
        requires
            a.le(b),
            b.le(a),
        ensures
            a == b,
    ;

    /// Whether `self` comes no later than `other`.
    fn at_most(&self, other: &Self) -> (le: bool)
        ensures
            le == self.le(*other),
    ;
}

impl Ranked for u64 {
    open spec fn le(self, other: u64) -> bool {
        self <= other
    }

    proof fn total(a: u64, b: u64) {
    }

    proof fn transitive(a: u64, b: u64, c: u64) {
    }

    proof fn antisymmetric(a: u64, b: u64) {
    }

    fn at_most(&self, other: &u64) -> (le: bool) {
        *self <= *other
    }
}

impl Ranked for [u8; 32] {
    open spec fn le(self, other: [u8; 32]) -> bool {
        bytes_le(self@, other@)
    }

    proof fn total(a: [u8; 32], b: [u8; 32]) {
        lemma_bytes_le_total(a@, b@);
    }

    proof fn transitive(a: [u8; 32], b: [u8; 32], c: [u8; 32]) {
        lemma_bytes_le_transitive(a@, b@, c@);
    }

    proof fn antisymmetric(a: [u8; 32], b: [u8; 32]) {
        lemma_bytes_le_antisymmetric(a@, b@);
        assert(a =~= b);
    }

    fn at_most(&self, other: &[u8; 32]) -> (le: bool) {
        bytes_at_most(self.as_slice(), other.as_slice())
    }
}

/// Whether no element comes before an earlier one.
pub open spec fn ascending<K: Ranked>(s: Seq<K>) -> bool {
    forall|i: int, j: int| 0 <= i <= j < s.len() ==> (#[trigger] s[i]).le(#[trigger] s[j])
}

/// Ascending hashes come in byte order, ascending numbers never decrease.
pub proof fn ascending_lists_grow(hashes: Seq<[u8; 32]>, numbers: Seq<u64>, i: int, j: int)
    requires
        ascending(hashes),
        ascending(numbers),
        0 <= i < j,
    ensures
        j < hashes.len() ==> bytes_le(hashes[i]@, hashes[j]@),
        j < numbers.len() ==> numbers[i] <= numbers[j],
{
    if j < hashes.len() {
        assert(hashes[i].le(hashes[j]));
    }
    if j < numbers.len() {
        assert(numbers[i].le(numbers[j]));
    }
}

/// Merges two ascending runs.
fn merge<K: Ranked>(a: &Vec<K>, b: &Vec<K>) -> (out: Vec<K>)
    requires
        ascending(a@),
        ascending(b@),
    ensures
        ascending(out@),
        out@.to_multiset() == a@.to_multiset().add(b@.to_multiset()),
{
    let mut out: Vec<K> = Vec::new();
    let mut i: usize = 0;
    let mut j: usize = 0;
    proof {
        assert(a@.take(0) =~= Seq::empty());
        assert(b@.take(0) =~= Seq::empty());
        assert(out@.to_multiset() =~= a@.take(0).to_multiset().add(b@.take(0).to_multiset()));
    }
    while i < a.len() || j < b.len()
        invariant
            i <= a@.len(),
            j <= b@.len(),
            ascending(a@),
            ascending(b@),
            ascending(out@),
            out@.to_multiset() == a@.take(i as int).to_multiset().add(b@.take(j as int).to_multiset()),
            forall|k: int, m: int| 0 <= k < out@.len() && i <= m < a@.len() ==> (#[trigger] out@[k]).le(
                #[trigger] a@[m],
            ),
            forall|k: int, m: int| 0 <= k < out@.len() && j <= m < b@.len() ==> (#[trigger] out@[k]).le(
                #[trigger] b@[m],
            ),
        decreases a.len() - i + b.len() - j,
    {
        let from_a = if i == a.len() {
            false
        } else if j == b.len() {
            true
        } else {
            a[i].at_most(&b[j])
        };
        let ghost before = out@;
        if from_a {
            let x = a[i];
            proof {
                assert forall|m: int| j <= m < b@.len() implies x.le(#[trigger] b@[m]) by {
                    K::transitive(x, b@[j as int], b@[m]);
                }
                assert(a@.take(i + 1) =~= a@.take(i as int).push(x));
                a@.take(i as int).to_multiset_ensures();
                before.to_multiset_ensures();
                K::total(x, x);
            }
            out.push(x);
            i = i + 1;
        } else {
            let x = b[j];
            proof {
                if i < a@.len() {
                    K::total(a@[i as int], x);
                }
                assert forall|m: int| i <= m < a@.len() implies x.le(#[trigger] a@[m]) by {
                    K::transitive(x, a@[i as int], a@[m]);
                }
                assert(b@.take(j + 1) =~= b@.take(j as int).push(x));
                b@.take(j as int).to_multiset_ensures();
                before.to_multiset_ensures();
                K::total(x, x);
            }
            out.push(x);
            j = j + 1;
        }
        proof {
            assert(out@.to_multiset() =~= a@.take(i as int).to_multiset().add(b@.take(j as int).to_multiset()));
        }
    }
    proof {
        assert(a@.take(i as int) =~= a@);
        assert(b@.take(j as int) =~= b@);
    }
    out
}

fn sort_range<K: Ranked>(v: &Vec<K>, from: usize, to: usize) -> (out: Vec<K>)
    requires
        from <= to <= v@.len(),
    ensures
        ascending(out@),
        out@.to_multiset() == v@.subrange(from as int, to as int).to_multiset(),
    decreases to - from,
{
    if to - from <= 1 {
        let mut out: Vec<K> = Vec::new();
        if from < to {
            out.push(v[from]);
            proof {
                K::total(v@[from as int], v@[from as int]);
            }
        }
        assert(out@ =~= v@.subrange(from as int, to as int));
        return out;
    }
    let mid: usize = from + (to - from) / 2;
    let a = sort_range(v, from, mid);
    let b = sort_range(v, mid, to);
    proof {
        let l = v@.subrange(from as int, mid as int);
        let r = v@.subrange(mid as int, to as int);
        assert(v@.subrange(from as int, to as int) =~= l + r);
        vstd::seq_lib::lemma_multiset_commutative(l, r);
    }
    merge(&a, &b)
}

/// The elements of `v` in ascending order.
pub fn sort<K: Ranked>(v: &Vec<K>) -> (out: Vec<K>)
    ensures
        ascending(out@),
        out@.to_multiset() == v@.to_multiset(),
        forall|i: int, j: int| 0 <= i < j < out@.len() ==> (#[trigger] out@[i]).le(#[trigger] out@[j]),
{
    assert(v@.subrange(0, v@.len() as int) =~= v@);
    sort_range(v, 0, v.len())
}

/// Sequences with the same elements in the same numbers have the same length
/// and membership.
pub proof fn lemma_same_multiset<A>(a: Seq<A>, b: Seq<A>)
    requires
        a.to_multiset() == b.to_multiset(),
    ensures
        a.len() == b.len(),
        forall|x: A| #[trigger] a.contains(x) <==> b.contains(x),
        a.no_duplicates() <==> b.no_duplicates(),
{
    a.to_multiset_ensures();
    b.to_multiset_ensures();
    assert forall|x: A| #[trigger] a.contains(x) <==> b.contains(x) by {
        assert(a.contains(x) <==> a.to_multiset().count(x) > 0);
        assert(b.contains(x) <==> b.to_multiset().count(x) > 0);
    }
    if a.no_duplicates() {
        a.lemma_multiset_has_no_duplicates();
        b.lemma_multiset_has_no_duplicates_conv();
    }
    if b.no_duplicates() {
        b.lemma_multiset_has_no_duplicates();
        a.lemma_multiset_has_no_duplicates_conv();
    }
}

/// An ascending sequence is determined by its elements and their numbers.
pub proof fn lemma_ascending_unique<K: Ranked>(a: Seq<K>, b: Seq<K>)
    requires
        ascending(a),
        ascending(b),
        a.to_multiset() == b.to_multiset(),
    ensures
        a == b,
    decreases a.len(),
{
    lemma_same_multiset(a, b);
    if a.len() == 0 {
        assert(a =~= b);
    } else {
        let x = a.last();
        let y = b.last();
        assert(b.contains(x)) by {
            assert(a[a.len() - 1] == x);
            assert(a.contains(x));
        }
        assert(a.contains(y)) by {
            assert(b[b.len() - 1] == y);
            assert(b.contains(y));
        }
        let i = choose|i: int| 0 <= i < b.len() && b[i] == x;
        let j = choose|j: int| 0 <= j < a.len() && a[j] == y;
        assert(b[i].le(b[b.len() - 1]));
        assert(a[j].le(a[a.len() - 1]));
        K::antisymmetric(x, y);
        let a1 = a.drop_last();
        let b1 = b.drop_last();
        assert(a =~= a1.push(x));
        assert(b =~= b1.push(x));
        a1.to_multiset_ensures();
        b1.to_multiset_ensures();
        assert(a1.to_multiset() =~= a.to_multiset().remove(x));
        assert(b1.to_multiset() =~= b.to_multiset().remove(x));
        lemma_ascending_unique(a1, b1);
    }
}

/// What a longer sequence holds.
pub proof fn lemma_push_contains<A>(s: Seq<A>, a: A, x: A)
    ensures
        s.push(a).contains(x) <==> s.contains(x) || x == a,
{
    if s.contains(x) {
        let k = choose|k: int| 0 <= k < s.len() && s[k] == x;
        assert(s.push(a)[k] == x);
    }
    if x == a {
        assert(s.push(a)[s.len() as int] == x);
    }
}

/// Drops every element of an ascending vector that equals its predecessor.
pub fn dedup<K: Ranked>(v: &Vec<K>) -> (out: Vec<K>)
    requires
        ascending(v@),
    ensures
        ascending(out@),
        out@.no_duplicates(),
        forall|x: K| #[trigger] out@.contains(x) <==> v@.contains(x),
        out@.len() <= v@.len(),
{
    let mut out: Vec<K> = Vec::new();
    let mut i: usize = 0;
    while i < v.len()
        invariant
            i <= v@.len(),
            ascending(v@),
            ascending(out@),
            out@.no_duplicates(),
            out@.len() <= i,
            out@.len() == 0 <==> i == 0,
            i > 0 ==> out@.last() == v@[i - 1],
            forall|x: K| #[trigger] out@.contains(x) <==> v@.take(i as int).contains(x),
            forall|k: int, m: int| 0 <= k < out@.len() && i <= m < v@.len() ==> (#[trigger] out@[k]).le(
                #[trigger] v@[m],
            ),
        decreases v.len() - i,
    {
        let x = v[i];
        let ghost before = out@;
        proof {
            assert(v@.take(i + 1) =~= v@.take(i as int).push(x));
            assert forall|y: K| v@.take(i + 1).contains(y) <==> (v@.take(i as int).contains(y) || y == x) by {
                if v@.take(i as int).contains(y) {
                    let k = choose|k: int| 0 <= k < i && v@.take(i as int)[k] == y;
                    assert(v@.take(i + 1)[k] == y);
                }
                if y == x {
                    assert(v@.take(i + 1)[i as int] == x);
                }
            }
            K::total(x, x);
        }
        let fresh = if out.len() == 0 {
            true
        } else {
            let last = out[out.len() - 1];
            proof {
                assert(last.le(x));
                if x.le(last) {
                    K::antisymmetric(last, x);
                }
            }
            !x.at_most(&last)
        };
        if fresh {
            out.push(x);
            proof {
                assert(out@.no_duplicates()) by {
                    assert forall|k: int, m: int| 0 <= k < m < out@.len() implies out@[k] != out@[m] by {
                        if m == before.len() && out@[k] == x {
                            assert(out@[k].le(before.last()));
                            K::antisymmetric(x, before.last());
                        }
                    }
                }
                assert forall|y: K| #[trigger] out@.contains(y) <==> v@.take(i + 1).contains(y) by {
                    if before.contains(y) {
                        let k = choose|k: int| 0 <= k < before.len() && before[k] == y;
                        assert(out@[k] == y);
                    }
                    if y == x {
                        assert(out@[before.len() as int] == x);
                    }
                    if out@.contains(y) && y != x {
                        let k = choose|k: int| 0 <= k < out@.len() && out@[k] == y;
                        assert(before[k] == y);
                        assert(before.contains(y));
                    }
                }
            }
        } else {
            proof {
                assert(out@.last() == x);
                assert(out@[out@.len() - 1] == x);
                assert forall|y: K| #[trigger] out@.contains(y) <==> v@.take(i + 1).contains(y) by {
                    if y == x {
                        assert(out@.contains(x));
                    }
                }
            }
        }
        i = i + 1;
    }
    assert(v@.take(i as int) =~= v@);
    out
}

} // verus!
