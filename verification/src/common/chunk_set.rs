//! An insertion-ordered set of chunk hashes with constant-time lookup.
use std::collections::HashMap;
use vstd::prelude::*;

use crate::common::bytes::u64_le_at;

verus! {

broadcast use {vstd::std_specs::hash::group_hash_axioms, vstd::array::group_array_axioms};

/// Length of a chunk hash in bytes.
pub const HASH_LEN: usize = 32;

/// Whether two hashes are the same.
pub fn same_hash(a: &[u8; 32], b: &[u8; 32]) -> (same: bool)
    ensures
        same == (*a == *b),
{
    let mut i: usize = 0;
    while i < 32
        invariant
            i <= 32,
            forall|j: int| 0 <= j < i ==> a@[j] == b@[j],
        decreases 32 - i,
    {
        if a[i] != b[i] {
            assert(a@[i as int] != b@[i as int]);
            return false;
        }
        i = i + 1;
    }
    assert(*a =~= *b);
    true
}

/// A 32-byte array with the bytes `data[at..at + 32]`.
pub(crate) fn hash_at(data: &[u8], at: usize) -> (hash: [u8; 32])
    requires
        at + 32 <= data@.len(),
    ensures
        hash@ == data@.subrange(at as int, at + 32),
{
    let mut out: [u8; 32] = [0u8; 32];
    let mut i: usize = 0;
    assert(data@.len() == data.len());
    while i < 32
        invariant
            i <= 32,
            at + 32 <= data.len(),
            data.len() == data@.len(),
            out@.len() == 32,
            forall|j: int| 0 <= j < i ==> out@[j] == data@[at + j],
        decreases 32 - i,
    {
        out[i] = data[at + i];
        i = i + 1;
    }
    assert(out@ =~= data@.subrange(at as int, at + 32));
    out
}

/// The number under which a hash is filed: its first eight bytes.
pub open spec fn bucket_of(hash: [u8; 32]) -> u64 {
    crate::common::bytes::le_value(hash@.subrange(0, 8)) as u64
}

fn bucket_number(hash: &[u8; 32]) -> (key: u64)
    ensures
        key == bucket_of(*hash),
{
    u64_le_at(hash.as_slice(), 0)
}

/// Distinct chunk hashes, in the order in which they were first inserted.
#[derive(Debug)]
pub struct ChunkSet {
    items: Vec<[u8; 32]>,
    buckets: HashMap<u64, Vec<usize>>,
}

impl View for ChunkSet {
    type V = Seq<[u8; 32]>;

    closed spec fn view(&self) -> Seq<[u8; 32]> {
        self.items@
    }
}

/// Every item is filed in its bucket, and every filed position exists.
spec fn filed(items: Seq<[u8; 32]>, buckets: Map<u64, Vec<usize>>) -> bool {
    &&& items.no_duplicates()
    &&& forall|i: int| #![trigger items[i]]
        0 <= i < items.len() ==> buckets.contains_key(bucket_of(items[i]))
            && buckets[bucket_of(items[i])]@.contains(i as usize)
    &&& forall|k: u64, j: int| #![trigger buckets[k]@[j]]
        buckets.contains_key(k) && 0 <= j < buckets[k]@.len() ==> buckets[k]@[j] < items.len()
}

impl ChunkSet {
    #[verifier::type_invariant]
    spec fn inv(self) -> bool {
        filed(self.items@, self.buckets@)
    }

    /// The empty set.
    pub fn new() -> (set: Self)
        ensures
            set@ == Seq::<[u8; 32]>::empty(),
    {
        ChunkSet { items: Vec::new(), buckets: HashMap::new() }
    }

    /// The position of `hash` in insertion order.
    pub fn position(&self, hash: &[u8; 32]) -> (found: Option<usize>)
        ensures
            self@.no_duplicates(),
            match found {
                Some(i) => i < self@.len() && self@[i as int] == *hash,
                None => !self@.contains(*hash),
            },
    {
        proof {
            use_type_invariant(self);
        }
        let key: u64 = bucket_number(hash);
        match self.buckets.get(&key) {
            None => {
                proof {
                    if self.items@.contains(*hash) {
                        let i = choose|i: int| 0 <= i < self.items@.len() && self.items@[i] == *hash;
                        assert(self.buckets@.contains_key(bucket_of(self.items@[i])));
                    }
                }
                None
            },
            Some(bucket) => {
                let mut j: usize = 0;
                while j < bucket.len()
                    invariant
                        filed(self.items@, self.buckets@),
                        self.buckets@.contains_key(key),
                        self.buckets@[key] == *bucket,
                        key == bucket_of(*hash),
                        forall|m: int| 0 <= m < j ==> self.items@[#[trigger] bucket@[m] as int] != *hash,
                    decreases bucket.len() - j,
                {
                    let at: usize = bucket[j];
                    assert(self.buckets@[key]@[j as int] < self.items@.len());
                    if same_hash(&self.items[at], hash) {
                        return Some(at);
                    }
                    j = j + 1;
                }
                proof {
                    if self.items@.contains(*hash) {
                        let i = choose|i: int| 0 <= i < self.items@.len() && self.items@[i] == *hash;
                        assert(self.items@.len() == self.items.len());
                        assert(self.buckets@[bucket_of(self.items@[i])]@.contains(i as usize));
                        let m = choose|m: int| 0 <= m < bucket@.len() && bucket@[m] == i as usize;
                        assert(self.items@[bucket@[m] as int] == *hash);
                    }
                }
                None
            },
        }
    }

    /// Whether `hash` is in the set.
    pub fn contains(&self, hash: &[u8; 32]) -> (found: bool)
        ensures
            self@.no_duplicates(),
            found == self@.contains(*hash),
    {
        match self.position(hash) {
            Some(i) => {
                assert(self@[i as int] == *hash);
                true
            },
            None => false,
        }
    }

    /// Adds `hash`; reports whether it was absent.
    pub fn insert(&mut self, hash: [u8; 32]) -> (fresh: bool)
        ensures
            fresh == !old(self)@.contains(hash),
            final(self)@ == (if fresh { old(self)@.push(hash) } else { old(self)@ }),
            final(self)@.no_duplicates(),
    {
        if self.contains(&hash) {
            return false;
        }
        let mut whole = ChunkSet::new();
        std::mem::swap(self, &mut whole);
        proof {
            use_type_invariant(&whole);
        }
        let ChunkSet { items, buckets } = whole;
        let mut items = items;
        let mut buckets = buckets;
        let ghost items0 = items@;
        let ghost buckets0 = buckets@;
        assert(!items0.contains(hash));
        let key: u64 = bucket_number(&hash);
        let at: usize = items.len();
        let mut bucket: Vec<usize> = match buckets.remove(&key) {
            Some(b) => b,
            None => Vec::new(),
        };
        let ghost bucket0 = bucket@;
        bucket.push(at);
        buckets.insert(key, bucket);
        items.push(hash);
        proof {
            assert(buckets@[key]@ == bucket0.push(at));
            assert(items@.no_duplicates()) by {
                assert forall|i: int, j: int| 0 <= i < j < items@.len() implies items@[i] != items@[j] by {
                    if j == items0.len() {
                        assert(items0.contains(items0[i]));
                    }
                }
            }
            assert forall|i: int| #![trigger items@[i]] 0 <= i < items@.len() implies buckets@.contains_key(
                bucket_of(items@[i]),
            ) && buckets@[bucket_of(items@[i])]@.contains(i as usize) by {
                if i < items0.len() {
                    assert(items@[i] == items0[i]);
                    let k = bucket_of(items0[i]);
                    assert(buckets0[k]@.contains(i as usize));
                    if k == key {
                        let m = choose|m: int| 0 <= m < bucket0.len() && bucket0[m] == i as usize;
                        assert(bucket0.push(at)[m] == i as usize);
                    }
                } else {
                    assert(bucket0.push(at)[bucket0.len() as int] == at);
                }
            }
            assert forall|k: u64, j: int| #![trigger buckets@[k]@[j]]
                buckets@.contains_key(k) && 0 <= j < buckets@[k]@.len() implies buckets@[k]@[j] < items@.len() by {
                if k == key {
                    if j < bucket0.len() {
                        assert(buckets0.contains_key(key));
                        assert(buckets0[key]@[j] < items0.len());
                    }
                } else {
                    assert(buckets0[k]@[j] < items0.len());
                }
            }
        }
        *self = ChunkSet { items, buckets };
        true
    }

    /// The number of hashes in the set.
    pub fn len(&self) -> (n: usize)
        ensures
            n == self@.len(),
            self@.no_duplicates(),
    {
        proof {
            use_type_invariant(self);
        }
        self.items.len()
    }

    /// Whether the set holds nothing.
    pub fn is_empty(&self) -> (empty: bool)
        ensures
            empty == (self@.len() == 0),
    {
        self.items.len() == 0
    }

    /// The hash at position `i` of the insertion order.
    pub fn get(&self, i: usize) -> (hash: [u8; 32])
        requires
            i < self@.len(),
        ensures
            hash == self@[i as int],
    {
        self.items[i]
    }

    /// All hashes, in insertion order.
    pub fn hashes(&self) -> (hashes: &Vec<[u8; 32]>)
        ensures
            hashes@ == self@,
            hashes@.no_duplicates(),
    {
        proof {
            use_type_invariant(self);
        }
        &self.items
    }

    /// The set of the hashes in `hashes`, each at its first occurrence.
    pub fn from_hashes(hashes: &[[u8; 32]]) -> (set: Self)
        ensures
            set@ == first_occurrences(hashes@),
    {
        let mut set = ChunkSet::new();
        let mut i: usize = 0;
        while i < hashes.len()
            invariant
                i <= hashes@.len(),
                set@ == first_occurrences(hashes@.take(i as int)),
            decreases hashes.len() - i,
        {
            set.insert(hashes[i]);
            i = i + 1;
            assert(hashes@.take(i as int).drop_last() =~= hashes@.take(i - 1));
        }
        assert(hashes@.take(i as int) =~= hashes@);
        set
    }
}

/// The sequence without the elements that occurred earlier in it.
pub open spec fn first_occurrences(s: Seq<[u8; 32]>) -> Seq<[u8; 32]>
    decreases s.len(),
{
    if s.len() == 0 {
        Seq::empty()
    } else {
        let before = first_occurrences(s.drop_last());
        if before.contains(s.last()) {
            before
        } else {
            before.push(s.last())
        }
    }
}

/// `first_occurrences` holds each element of the sequence exactly once.
pub proof fn lemma_first_occurrences(s: Seq<[u8; 32]>)
    ensures
        first_occurrences(s).no_duplicates(),
        first_occurrences(s).len() <= s.len(),
        forall|h: [u8; 32]| #[trigger] first_occurrences(s).contains(h) <==> s.contains(h),
    decreases s.len(),
{
    if s.len() > 0 {
        let init = s.drop_last();
        let before = first_occurrences(init);
        lemma_first_occurrences(init);
        assert forall|h: [u8; 32]| #[trigger] first_occurrences(s).contains(h) <==> s.contains(h) by {
            if s.contains(h) {
                let i = choose|i: int| 0 <= i < s.len() && s[i] == h;
                if i < init.len() {
                    assert(init[i] == h);
                    assert(init.contains(h));
                    assert(before.contains(h));
                    let k = choose|k: int| 0 <= k < before.len() && before[k] == h;
                    assert(first_occurrences(s)[k] == h);
                } else if !before.contains(h) {
                    assert(first_occurrences(s)[before.len() as int] == h);
                }
            }
            if first_occurrences(s).contains(h) {
                let k = choose|k: int| 0 <= k < first_occurrences(s).len() && first_occurrences(s)[k] == h;
                if k < before.len() {
                    assert(before[k] == h);
                    assert(before.contains(h));
                    assert(init.contains(h));
                    let i = choose|i: int| 0 <= i < init.len() && init[i] == h;
                    assert(s[i] == h);
                } else {
                    assert(s[s.len() - 1] == h);
                }
            }
        }
    }
}

/// The elements keep the order in which they first occurred.
pub proof fn first_occurrences_keep_their_order(s: Seq<[u8; 32]>, a: int, b: int)
    requires
        0 <= a < b < first_occurrences(s).len(),
    ensures
        exists|i: int, j: int|
            0 <= i < j < s.len() && #[trigger] s[i] == first_occurrences(s)[a] && #[trigger] s[j]
                == first_occurrences(s)[b] && !s.take(j).contains(s[j]),
    decreases s.len(),
{
    let init = s.drop_last();
    let before = first_occurrences(init);
    let now = first_occurrences(s);
    lemma_first_occurrences(init);
    assert(now[a] == before[a]);
    if b < before.len() {
        assert(now[b] == before[b]);
        first_occurrences_keep_their_order(init, a, b);
        let (i, j) = choose|i: int, j: int|
            0 <= i < j < init.len() && #[trigger] init[i] == before[a] && #[trigger] init[j] == before[b]
                && !init.take(j).contains(init[j]);
        assert(s[i] == now[a] && s[j] == now[b]);
        assert(s.take(j) =~= init.take(j));
    } else {
        assert(before.contains(before[a]));
        assert(init.contains(before[a]));
        let i = choose|i: int| 0 <= i < init.len() && init[i] == before[a];
        let j = s.len() - 1;
        assert(s[i] == now[a] && s[j] == now[b]);
        assert(s.take(j) =~= init);
        assert(before.contains(s[j]) <==> init.contains(s[j]));
    }
}

} // verus!
