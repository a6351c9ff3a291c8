//! Spreading chunks over several sources.
use std::collections::HashMap;
use vstd::prelude::*;

use crate::agent::executor;
use crate::common::chunk_set;
use crate::common::chunk_set::ChunkSet;
use crate::common::order;
use crate::common::order::Ranked;
use crate::common::stable;

verus! {

broadcast use {vstd::std_specs::hash::group_hash_axioms, vstd::array::group_array_axioms};

/// Sorts candidates by their round-trip time in nanoseconds, fastest first;
/// equally fast ones keep their order.
pub fn sort_by_rtt<T>(peers: &mut Vec<(T, u128)>)
    ensures
        exists|perm: Seq<int>| stable::stably_sorted(old(peers)@, final(peers)@, perm),
        final(peers)@.len() == old(peers)@.len(),
        forall|i: int, j: int| 0 <= i < j < final(peers)@.len() ==> (#[trigger] final(peers)@[i]).1 <= (
        #[trigger] final(peers)@[j]).1,
        exists|perm: Seq<int>| #[trigger]
            perm.no_duplicates() && perm.len() == old(peers)@.len() && (forall|i: int|
                0 <= i < perm.len() ==> 0 <= #[trigger] perm[i] < old(peers)@.len() && final(peers)@[i] == old(
                    peers)@[perm[i]]) && forall|i: int, j: int|
                0 <= i < j < perm.len() && final(peers)@[i].1 == final(peers)@[j].1 ==> #[trigger] perm[i]
                    < #[trigger] perm[j],
{
    let ghost before = peers@;
    stable::stable_sort(peers);
    proof {
        let perm = choose|perm: Seq<int>| stable::stably_sorted(before, peers@, perm);
        assert(perm.no_duplicates());
        assert forall|i: int| 0 <= i < perm.len() implies 0 <= #[trigger] perm[i] < before.len() && peers@[i]
            == before[perm[i]] by {
            assert(peers@[i] == before[perm[i]]);
        }
        assert forall|i: int, j: int|
            0 <= i < j < perm.len() && peers@[i].1 == peers@[j].1 implies #[trigger] perm[i] < #[trigger] perm[j] by {
            assert(peers@[i].1 == peers@[j].1);
        }
    }
}

/// How many of `len` chunks peer `p` of `n` gets when they are dealt in turn.
pub open spec fn share_len(len: nat, n: nat, p: int) -> nat {
    if p < len && n > 0 {
        ((len - 1 - p) / n as int + 1) as nat
    } else {
        0
    }
}

/// The chunks that peer `p` of `n` gets when they are dealt in turn.
pub open spec fn share(sorted: Seq<[u8; 32]>, n: nat, p: int) -> Seq<[u8; 32]> {
    Seq::new(share_len(sorted.len(), n, p), |k: int| sorted[p + k * n])
}

/// Whether the plan deals the chunks in turn to `n` peers; peers without a
/// chunk are not in it.
pub open spec fn deals(plan: Map<usize, Vec<[u8; 32]>>, sorted: Seq<[u8; 32]>, n: nat) -> bool {
    &&& forall|p: usize| #[trigger] plan.contains_key(p) <==> p < n && p < sorted.len()
    &&& forall|p: usize| #[trigger] plan.contains_key(p) ==> plan[p]@ == share(sorted, n, p as int)
}

/// The list without the chunk.
pub open spec fn without(list: Seq<[u8; 32]>, hash: [u8; 32]) -> Seq<[u8; 32]>
    decreases list.len(),
{
    if list.len() == 0 {
        Seq::empty()
    } else {
        let before = without(list.drop_last(), hash);
        if list.last() == hash {
            before
        } else {
            before.push(list.last())
        }
    }
}

/// The chunks assigned to a peer.
pub open spec fn held_by(given: Map<usize, Vec<[u8; 32]>>, p: usize) -> Seq<[u8; 32]> {
    if given.contains_key(p) {
        given[p]@
    } else {
        Seq::empty()
    }
}

/// What a download manager knows: which chunks wait for a source, and which
/// are assigned to whom.
pub struct Progress {
    pub waiting: Seq<[u8; 32]>,
    pub given: Map<usize, Vec<[u8; 32]>>,
}

impl Progress {
    /// Whether some peer has the chunk.
    pub open spec fn held(self, h: [u8; 32]) -> bool {
        exists|p: usize| self.given.contains_key(p) && #[trigger] self.given[p]@.contains(h)
    }

    /// Whether the chunk waits or some peer has it.
    pub open spec fn accounts(self, h: [u8; 32]) -> bool {
        self.waiting.contains(h) || self.held(h)
    }

    /// Whether no chunk is in two places.
    pub open spec fn each_once(self) -> bool {
        &&& self.waiting.no_duplicates()
        &&& forall|p: usize| #[trigger] self.given.contains_key(p) ==> self.given[p]@.no_duplicates()
        &&& forall|p: usize, h: [u8; 32]|
            self.given.contains_key(p) && #[trigger] self.given[p]@.contains(h) ==> !self.waiting.contains(h)
        &&& forall|p: usize, q: usize, h: [u8; 32]|
            p != q && self.given.contains_key(p) && self.given.contains_key(q) && #[trigger] self.given[p]@.contains(h)
                ==> !#[trigger] self.given[q]@.contains(h)
    }

    /// Whether `after` is what is known once the waiting chunks, sorted, were
    /// dealt in turn to `n` peers, in addition to what each peer had.
    pub open spec fn dealt(self, sorted: Seq<[u8; 32]>, n: usize, after: Progress) -> bool {
        &&& order::ascending(sorted)
        &&& sorted.to_multiset() == self.waiting.to_multiset()
        &&& after.waiting.len() == 0
        &&& forall|p: usize| #[trigger]
            after.given.contains_key(p) <==> self.given.contains_key(p) || (p < n && p < sorted.len())
        &&& forall|p: usize| #[trigger]
            after.given.contains_key(p) ==> after.given[p]@ == held_by(self.given, p) + (if p < n {
                share(sorted, n as nat, p as int)
            } else {
                Seq::empty()
            })
    }

    /// Whether `after` is what is known once a peer failed: its chunks wait
    /// again.
    pub open spec fn lost_peer(self, peer: usize, after: Progress) -> bool {
        &&& after.given == self.given.remove(peer)
        &&& after.waiting.no_duplicates()
        &&& forall|h: [u8; 32]| #[trigger]
            after.waiting.contains(h) <==> self.waiting.contains(h) || held_by(self.given, peer).contains(h)
    }

    /// Whether `after` is what is known once a chunk arrived: nobody has to
    /// fetch it any more.
    pub open spec fn finished(self, hash: [u8; 32], after: Progress) -> bool {
        &&& after.waiting == self.waiting
        &&& forall|p: usize| #[trigger] after.given.contains_key(p) <==> self.given.contains_key(p)
        &&& forall|p: usize| #[trigger]
            after.given.contains_key(p) ==> after.given[p]@ == without(self.given[p]@, hash)
    }
}

/// What can happen to a download.
pub enum Step {
    Assign(usize),
    PeerFailed(usize),
    ChunkDone([u8; 32]),
}

/// Whether a step leads from `before` to `after`.
pub open spec fn follows(before: Progress, step: Step, after: Progress) -> bool {
    match step {
        Step::Assign(n) => (n > 0 || before.waiting.len() == 0) && exists|sorted: Seq<[u8; 32]>| #[trigger]
            before.dealt(sorted, n, after),
        Step::PeerFailed(peer) => before.lost_peer(peer, after),
        Step::ChunkDone(hash) => before.finished(hash, after),
    }
}

/// Which chunks wait for a source, and which are assigned to whom.
#[derive(Debug)]
pub struct DownloadManager {
    pending: ChunkSet,
    assigned: HashMap<usize, Vec<[u8; 32]>>,
    peers: usize,
}

impl View for DownloadManager {
    type V = Progress;

    closed spec fn view(&self) -> Progress {
        Progress { waiting: self.pending@, given: self.assigned@ }
    }
}

impl DownloadManager {
    #[verifier::type_invariant]
    spec fn inv(self) -> bool {
        &&& forall|p: usize| #[trigger] self.assigned@.contains_key(p) ==> p < self.peers
        &&& self@.each_once()
    }

    /// All chunks wait.
    pub fn new(chunks: Vec<[u8; 32]>) -> (m: Self)
        ensures
            m@.waiting == chunk_set::first_occurrences(chunks@),
            m@.given == Map::<usize, Vec<[u8; 32]>>::empty(),
            m@.each_once(),
            m@.waiting.no_duplicates(),
            forall|h: [u8; 32]| #[trigger] m@.waiting.contains(h) <==> chunks@.contains(h),
    {
        let pending = ChunkSet::from_hashes(chunks.as_slice());
        proof {
            chunk_set::lemma_first_occurrences(chunks@);
        }
        let m = DownloadManager { pending, assigned: HashMap::new(), peers: 0 };
        assert(m.assigned@ =~= Map::<usize, Vec<[u8; 32]>>::empty());
        m
    }

    /// The chunks that wait for a source.
    pub fn pending(&self) -> (set: &ChunkSet)
        ensures
            set@ == self@.waiting,
    {
        &self.pending
    }

    /// The chunks assigned to each peer; no chunk is in two places.
    pub fn assigned(&self) -> (map: &HashMap<usize, Vec<[u8; 32]>>)
        ensures
            map@ == self@.given,
            self@.each_once(),
    {
        proof {
            use_type_invariant(self);
        }
        &self.assigned
    }

    /// Deals the waiting chunks, in ascending order, in turn to the peers
    /// `0..peer_count`, in addition to what they have; nothing waits
    /// afterwards. The result is what was dealt. There must be a peer where
    /// something waits.
    pub fn assign(&mut self, peer_count: usize) -> (plan: HashMap<usize, Vec<[u8; 32]>>)
        requires
            peer_count > 0 || old(self)@.waiting.len() == 0,
        ensures
            exists|sorted: Seq<[u8; 32]>| #[trigger]
                old(self)@.dealt(sorted, peer_count, final(self)@) && deals(plan@, sorted, peer_count as nat),
            follows(old(self)@, Step::Assign(peer_count), final(self)@),
            final(self)@.each_once(),
            final(self)@.waiting.len() == 0,
            forall|p: usize| #[trigger] plan@.contains_key(p) <==> p < peer_count && p < old(self)@.waiting.len(),
            forall|p: usize| #[trigger]
                final(self)@.given.contains_key(p) <==> old(self)@.given.contains_key(p) || plan@.contains_key(p),
            forall|p: usize| #[trigger]
                final(self)@.given.contains_key(p) ==> final(self)@.given[p]@ == (if old(self)@.given.contains_key(p) {
                    old(self)@.given[p]@
                } else {
                    Seq::empty()
                }) + (if plan@.contains_key(p) {
                    plan@[p]@
                } else {
                    Seq::empty()
                }),
            forall|h: [u8; 32]| #[trigger]
                old(self)@.waiting.contains(h) <==> exists|p: usize|
                    plan@.contains_key(p) && #[trigger] plan@[p]@.contains(h),
            forall|p: usize, q: usize|
                plan@.contains_key(p) && plan@.contains_key(q) ==> #[trigger] plan@[p]@.len() <= #[trigger]
                plan@[q]@.len() + 1,
            forall|p: usize, q: usize|
                p < q && plan@.contains_key(p) && plan@.contains_key(q) ==> #[trigger] plan@[q]@.len() <= #[trigger] plan@[p]@.len(),
            forall|p: usize, q: usize, k: int|
                p < q && plan@.contains_key(p) && plan@.contains_key(q) && 0 <= k < plan@[q]@.len() ==> order::bytes_le(
                    #[trigger] plan@[p]@[k]@,
                    #[trigger] plan@[q]@[k]@,
                ),
            forall|p: usize, q: usize, k: int, j: int|
                p < q && plan@.contains_key(p) && plan@.contains_key(q) && 0 <= k < plan@[q]@.len() && k < j < plan@[p]@.len()
                    ==> order::bytes_le(#[trigger] plan@[q]@[k]@, #[trigger] plan@[p]@[j]@),
    {
        let ghost before = self@;
        let mut whole = DownloadManager {
            pending: ChunkSet::new(),
            assigned: HashMap::new(),
            peers: 0,
        };
        std::mem::swap(self, &mut whole);
        proof {
            use_type_invariant(&whole);
        }
        let DownloadManager { pending, assigned, peers } = whole;
        let mut assigned = assigned;
        let ghost given0 = assigned@;
        let sorted = order::sort(pending.hashes());
        proof {
            order::lemma_same_multiset(sorted@, pending@);
        }
        let mut plan: HashMap<usize, Vec<[u8; 32]>> = HashMap::new();
        let mut p: usize = 0;
        while p < peer_count && p < sorted.len()
            invariant
                p <= peer_count,
                p <= sorted@.len(),
                forall|q: usize| #[trigger] plan@.contains_key(q) <==> q < p,
                forall|q: usize| #[trigger] plan@.contains_key(q) ==> plan@[q]@ == share(
                    sorted@,
                    peer_count as nat,
                    q as int,
                ),
                forall|q: usize| #[trigger] assigned@.contains_key(q) <==> given0.contains_key(q) || q < p,
                forall|q: usize| #[trigger] assigned@.contains_key(q) ==> assigned@[q]@ == held_by(given0, q) + (
                if q < p {
                    share(sorted@, peer_count as nat, q as int)
                } else {
                    Seq::empty()
                }),
            decreases peer_count - p,
        {
            let list = deal(&sorted, peer_count, p);
            let mut more = executor::copy_hashes(&list);
            plan.insert(p, list);
            let mut all: Vec<[u8; 32]> = match assigned.remove(&p) {
                None => Vec::new(),
                Some(l) => l,
            };
            assert(all@ =~= held_by(given0, p));
            all.append(&mut more);
            assigned.insert(p, all);
            p = p + 1;
        }
        assert(deals(plan@, sorted@, peer_count as nat));
        let peers: usize = if peers < peer_count {
            peer_count
        } else {
            peers
        };
        let pending = ChunkSet::new();
        proof {
            let after = Progress { waiting: pending@, given: assigned@ };
            assert forall|q: usize| #[trigger] after.given.contains_key(q) implies after.given[q]@ == held_by(
                before.given,
                q,
            ) + (if q < peer_count {
                share(sorted@, peer_count as nat, q as int)
            } else {
                Seq::empty()
            }) by {
                if p <= q < peer_count {
                    assert(share(sorted@, peer_count as nat, q as int) =~= Seq::empty());
                }
            }
            assert(before.dealt(sorted@, peer_count, after));
            lemma_dealt_once(before, sorted@, peer_count, after);
            lemma_dealt_fully(before, sorted@, peer_count, plan@);
            lemma_dealt_in_turn(sorted@, peer_count, plan@);
            assert(sorted@.len() == before.waiting.len()) by {
                sorted@.to_multiset_ensures();
                before.waiting.to_multiset_ensures();
            }
        }
        *self = DownloadManager { pending, assigned, peers };
        plan
    }

    /// A peer failed: its chunks wait again.
    pub fn peer_failed(&mut self, peer: usize)
        ensures
            !final(self)@.given.contains_key(peer),
            forall|p: usize|
                p != peer ==> (#[trigger] final(self)@.given.contains_key(p) <==> old(self)@.given.contains_key(p)),
            forall|p: usize| #[trigger]
                final(self)@.given.contains_key(p) ==> final(self)@.given[p]@ == old(self)@.given[p]@,
            forall|h: [u8; 32]| #[trigger]
                final(self)@.waiting.contains(h) <==> old(self)@.waiting.contains(h) || (old(self)@.given.contains_key(
                    peer,
                ) && old(self)@.given[peer]@.contains(h)),
            old(self)@.lost_peer(peer, final(self)@),
            follows(old(self)@, Step::PeerFailed(peer), final(self)@),
            final(self)@.each_once(),
    {
        let ghost start = self@;
        let mut whole = DownloadManager {
            pending: ChunkSet::new(),
            assigned: HashMap::new(),
            peers: 0,
        };
        std::mem::swap(self, &mut whole);
        proof {
            use_type_invariant(&whole);
        }
        let DownloadManager { pending, assigned, peers } = whole;
        let mut pending = pending;
        let mut assigned = assigned;
        let ghost waiting0 = pending@;
        let ghost given0 = assigned@;
        let _ = pending.len();
        match assigned.remove(&peer) {
            None => {
                assert(given0.remove(peer) =~= given0);
                assert(assigned@ =~= given0);
            },
            Some(list) => {
                let mut i: usize = 0;
                while i < list.len()
                    invariant
                        i <= list@.len(),
                        pending@.no_duplicates(),
                        forall|h: [u8; 32]| #[trigger] pending@.contains(h) <==> waiting0.contains(h) || list@.take(
                            i as int,
                        ).contains(h),
                    decreases list.len() - i,
                {
                    let ghost before = pending@;
                    let x = list[i];
                    pending.insert(x);
                    proof {
                        assert(list@.take(i + 1) =~= list@.take(i as int).push(x));
                        assert forall|h: [u8; 32]| #[trigger] pending@.contains(h) <==> waiting0.contains(h)
                            || list@.take(i + 1).contains(h) by {
                            order::lemma_push_contains(list@.take(i as int), x, h);
                            order::lemma_push_contains(before, x, h);
                            assert(before.contains(h) <==> waiting0.contains(h) || list@.take(i as int).contains(h));
                        }
                    }
                    i = i + 1;
                }
                assert(list@.take(i as int) =~= list@);
            },
        }
        assert(start.lost_peer(peer, Progress { waiting: pending@, given: assigned@ }));
        *self = DownloadManager { pending, assigned, peers };
    }

    /// A chunk arrived: it is assigned to nobody any more.
    pub fn chunk_done(&mut self, hash: &[u8; 32])
        ensures
            final(self)@.waiting == old(self)@.waiting,
            forall|p: usize| #[trigger] final(self)@.given.contains_key(p) <==> old(self)@.given.contains_key(p),
            forall|p: usize| #[trigger]
                final(self)@.given.contains_key(p) ==> final(self)@.given[p]@ == old(self)@.given[p]@.filter(
                    |h: [u8; 32]| h != *hash,
                ),
            old(self)@.finished(*hash, final(self)@),
            follows(old(self)@, Step::ChunkDone(*hash), final(self)@),
            final(self)@.each_once(),
    {
        let ghost start = self@;
        let mut whole = DownloadManager {
            pending: ChunkSet::new(),
            assigned: HashMap::new(),
            peers: 0,
        };
        std::mem::swap(self, &mut whole);
        proof {
            use_type_invariant(&whole);
        }
        let DownloadManager { pending, assigned, peers } = whole;
        let mut assigned = assigned;
        let ghost given0 = assigned@;
        let mut p: usize = 0;
        while p < peers
            invariant
                p <= peers,
                forall|q: usize| #[trigger] assigned@.contains_key(q) <==> given0.contains_key(q),
                forall|q: usize| #[trigger] assigned@.contains_key(q) ==> assigned@[q]@ == (if q < p {
                    without(given0[q]@, *hash)
                } else {
                    given0[q]@
                }),
            decreases peers - p,
        {
            match assigned.remove(&p) {
                None => {},
                Some(list) => {
                    let kept = drop_hash(&list, hash);
                    assigned.insert(p, kept);
                },
            }
            p = p + 1;
        }
        proof {
            let after = Progress { waiting: pending@, given: assigned@ };
            assert(start.finished(*hash, after));
            lemma_finished_once(start, *hash, after);
            assert forall|q: usize| #[trigger] after.given.contains_key(q) implies after.given[q]@
                == start.given[q]@.filter(|h: [u8; 32]| h != *hash) by {
                only_the_chunk_is_taken(start.given[q]@, *hash);
            }
        }
        *self = DownloadManager { pending, assigned, peers };
    }
}

/// The share of peer `p`.
fn deal(sorted: &Vec<[u8; 32]>, n: usize, p: usize) -> (list: Vec<[u8; 32]>)
    requires
        p < n,
        p < sorted@.len(),
    ensures
        list@ == share(sorted@, n as nat, p as int),
{
    let mut list: Vec<[u8; 32]> = Vec::new();
    let mut at: usize = p;
    let ghost count = share_len(sorted@.len(), n as nat, p as int);
    let ghost mut k: int = 0;
    proof {
        lemma_share_bounds(sorted@.len() as int, n as int, p as int, 0);
    }
    loop
        invariant_except_break
            p < n,
            0 <= k < count,
            count == share_len(sorted@.len(), n as nat, p as int),
            at == p + k * n,
            at < sorted@.len(),
            list@.len() == k,
            forall|m: int| 0 <= m < k ==> #[trigger] list@[m] == sorted@[p + m * n],
        ensures
            list@.len() == count,
            forall|m: int| 0 <= m < count ==> #[trigger] list@[m] == sorted@[p + m * n],
        decreases sorted.len() - at,
    {
        list.push(sorted[at]);
        proof {
            lemma_share_bounds(sorted@.len() as int, n as int, p as int, k);
            lemma_share_bounds(sorted@.len() as int, n as int, p as int, k + 1);
            assert((k + 1) * n == k * n + n) by (nonlinear_arith);
        }
        if n >= sorted.len() - at {
            break;
        }
        at = at + n;
        proof {
            k = k + 1;
        }
    }
    assert(list@ =~= share(sorted@, n as nat, p as int));
    list
}

/// Position `p + k * n` is below `len` exactly for the `k` of the share.
proof fn lemma_share_bounds(len: int, n: int, p: int, k: int)
    requires
        0 <= p < n,
        p < len,
        0 <= k,
    ensures
        p + k * n < len <==> k < share_len(len as nat, n as nat, p),
{
    let q = (len - 1 - p) / n;
    assert(q * n <= len - 1 - p < (q + 1) * n) by (nonlinear_arith)
        requires
            q == (len - 1 - p) / n,
            n > 0,
    ;
    if k <= q {
        assert(k * n <= q * n) by (nonlinear_arith)
            requires
                k <= q,
                n > 0,
        ;
    } else {
        assert(k * n >= (q + 1) * n) by (nonlinear_arith)
            requires
                k >= q + 1,
                n > 0,
        ;
    }
    assert(q >= 0) by (nonlinear_arith)
        requires
            q == (len - 1 - p) / n,
            n > 0,
            len - 1 - p >= 0,
    ;
}

/// The list without the chunk.
fn drop_hash(list: &Vec<[u8; 32]>, hash: &[u8; 32]) -> (kept: Vec<[u8; 32]>)
    ensures
        kept@ == without(list@, *hash),
{
    let mut kept: Vec<[u8; 32]> = Vec::new();
    let mut i: usize = 0;
    assert(list@.take(0) =~= Seq::empty());
    while i < list.len()
        invariant
            i <= list@.len(),
            kept@ == without(list@.take(i as int), *hash),
        decreases list.len() - i,
    {
        assert(list@.take(i + 1).drop_last() =~= list@.take(i as int));
        if !chunk_set::same_hash(&list[i], hash) {
            kept.push(list[i]);
        }
        i = i + 1;
    }
    assert(list@.take(i as int) =~= list@);
    kept
}

/// Dealing is a partition: every chunk is in exactly one place of one peer's
/// share, the one that its position gives.
pub proof fn dealt_exactly_once(sorted: Seq<[u8; 32]>, n: nat, i: int, p: int, k: int)
    requires
        n > 0,
        0 <= i < sorted.len(),
        0 <= p < n,
        0 <= k < share_len(sorted.len(), n, p),
    ensures
        0 <= i / n as int,
        (i / n as int) < share_len(sorted.len(), n, i % n as int),
        share(sorted, n, i % n as int)[i / n as int] == sorted[i],
        share(sorted, n, p)[k] == sorted[p + k * n],
        p + k * n == i ==> p == i % n as int && k == i / n as int,
{
    let q = i % n as int;
    let d = i / n as int;
    assert(0 <= q < n && d >= 0 && q + d * n == i) by (nonlinear_arith)
        requires
            q == i % n as int,
            d == i / n as int,
            n > 0,
            i >= 0,
    ;
    lemma_share_bounds(sorted.len() as int, n as int, q, d);
    if p + k * n == i {
        assert(p == i % n as int && k == i / n as int) by (nonlinear_arith)
            requires
                p + k * n == i,
                0 <= p < n,
                k >= 0,
        ;
    }
}

/// A chunk that arrived is assigned to nobody, and no other chunk is taken
/// from anybody.
pub proof fn done_chunk_is_gone(list: Seq<[u8; 32]>, hash: [u8; 32], h: [u8; 32])
    ensures
        without(list, hash).contains(h) <==> list.contains(h) && h != hash,
    decreases list.len(),
{
    if list.len() > 0 {
        done_chunk_is_gone(list.drop_last(), hash, h);
        assert(list =~= list.drop_last().push(list.last()));
        order::lemma_push_contains(list.drop_last(), list.last(), h);
        order::lemma_push_contains(without(list.drop_last(), hash), list.last(), h);
    }
}

/// Taking a chunk from a list leaves all others, in their order.
pub proof fn only_the_chunk_is_taken(list: Seq<[u8; 32]>, hash: [u8; 32])
    ensures
        without(list, hash) == list.filter(|h: [u8; 32]| h != hash),
    decreases list.len(),
{
    reveal(Seq::filter);
    if list.len() > 0 {
        only_the_chunk_is_taken(list.drop_last(), hash);
    }
    assert(without(list, hash) =~= list.filter(|h: [u8; 32]| h != hash));
}

/// Without a chunk a list has no more duplicates than before.
proof fn lemma_without_no_duplicates(list: Seq<[u8; 32]>, hash: [u8; 32])
    requires
        list.no_duplicates(),
    ensures
        without(list, hash).no_duplicates(),
    decreases list.len(),
{
    if list.len() > 0 {
        let init = list.drop_last();
        lemma_without_no_duplicates(init, hash);
        done_chunk_is_gone(init, hash, list.last());
    }
}

proof fn lemma_finished_once(before: Progress, hash: [u8; 32], after: Progress)
    requires
        before.each_once(),
        before.finished(hash, after),
    ensures
        after.each_once(),
{
    assert forall|p: usize| #[trigger] after.given.contains_key(p) implies after.given[p]@.no_duplicates() by {
        lemma_without_no_duplicates(before.given[p]@, hash);
    }
    assert forall|p: usize, h: [u8; 32]|
        after.given.contains_key(p) && #[trigger] after.given[p]@.contains(h) implies !after.waiting.contains(h) by {
        done_chunk_is_gone(before.given[p]@, hash, h);
    }
    assert forall|p: usize, q: usize, h: [u8; 32]|
        p != q && after.given.contains_key(p) && after.given.contains_key(q) && #[trigger] after.given[p]@.contains(
            h,
        ) implies !#[trigger] after.given[q]@.contains(h) by {
        done_chunk_is_gone(before.given[p]@, hash, h);
        done_chunk_is_gone(before.given[q]@, hash, h);
    }
}

/// What peer `p` has once chunks were dealt: what it had, and its share.
proof fn lemma_dealt_to(before: Progress, sorted: Seq<[u8; 32]>, n: usize, after: Progress, p: usize, h: [u8; 32])
    requires
        before.dealt(sorted, n, after),
        after.given.contains_key(p),
    ensures
        after.given[p]@.contains(h) <==> held_by(before.given, p).contains(h) || (p < n && share(
            sorted,
            n as nat,
            p as int,
        ).contains(h)),
        p < n && share(sorted, n as nat, p as int).contains(h) ==> sorted.contains(h) && before.waiting.contains(h),
{
    let had = held_by(before.given, p);
    let more = if p < n {
        share(sorted, n as nat, p as int)
    } else {
        Seq::empty()
    };
    lemma_concat_contains(had, more, h);
    if p < n && more.contains(h) {
        let k = choose|k: int| 0 <= k < more.len() && more[k] == h;
        lemma_share_at(sorted, n as nat, p as int, k);
        order::lemma_same_multiset(sorted, before.waiting);
        assert(sorted.contains(h));
    }
}

/// Where an element of a share lies in the whole.
proof fn lemma_share_at(sorted: Seq<[u8; 32]>, n: nat, p: int, k: int)
    requires
        0 <= p < n,
        0 <= k < share(sorted, n, p).len(),
    ensures
        0 <= p + k * n < sorted.len(),
        share(sorted, n, p)[k] == sorted[p + k * n],
{
    lemma_share_bounds(sorted.len() as int, n as int, p, k);
    assert(k * n >= 0) by (nonlinear_arith)
        requires
            k >= 0,
            n >= 0,
    ;
}

proof fn lemma_concat_contains(a: Seq<[u8; 32]>, b: Seq<[u8; 32]>, h: [u8; 32])
    ensures
        (a + b).contains(h) <==> a.contains(h) || b.contains(h),
{
    if a.contains(h) {
        let i = choose|i: int| 0 <= i < a.len() && a[i] == h;
        assert((a + b)[i] == h);
    }
    if b.contains(h) {
        let i = choose|i: int| 0 <= i < b.len() && b[i] == h;
        assert((a + b)[a.len() + i] == h);
    }
}

/// Two places in the shares of one or two peers are two places in the whole.
proof fn lemma_shares_apart(sorted: Seq<[u8; 32]>, n: nat, p: int, k: int, q: int, m: int)
    requires
        sorted.no_duplicates(),
        0 <= p < n,
        0 <= q < n,
        0 <= k < share(sorted, n, p).len(),
        0 <= m < share(sorted, n, q).len(),
        share(sorted, n, p)[k] == share(sorted, n, q)[m],
    ensures
        p == q && k == m,
{
    lemma_share_at(sorted, n, p, k);
    lemma_share_at(sorted, n, q, m);
    assert(p + k * n == q + m * n);
    assert(p == q && k == m) by (nonlinear_arith)
        requires
            p + k * n == q + m * n,
            0 <= p < n,
            0 <= q < n,
    ;
}

/// Dealing leaves nothing over, and no peer gets more than one chunk more than
/// another.
proof fn lemma_dealt_fully(before: Progress, sorted: Seq<[u8; 32]>, n: usize, plan: Map<usize, Vec<[u8; 32]>>)
    requires
        n > 0 || before.waiting.len() == 0,
        sorted.to_multiset() == before.waiting.to_multiset(),
        deals(plan, sorted, n as nat),
    ensures
        forall|h: [u8; 32]| #[trigger]
            before.waiting.contains(h) <==> exists|p: usize|
                plan.contains_key(p) && #[trigger] plan[p]@.contains(h),
        forall|p: usize, q: usize|
            plan.contains_key(p) && plan.contains_key(q) ==> #[trigger] plan[p]@.len() <= #[trigger] plan[q]@.len() + 1,
{
    order::lemma_same_multiset(sorted, before.waiting);
    sorted.to_multiset_ensures();
    before.waiting.to_multiset_ensures();
    assert forall|h: [u8; 32]| #[trigger] before.waiting.contains(h) <==> exists|p: usize|
        plan.contains_key(p) && #[trigger] plan[p]@.contains(h) by {
        assert(sorted.contains(h) <==> before.waiting.contains(h));
        if sorted.contains(h) {
            let i = choose|i: int| 0 <= i < sorted.len() && sorted[i] == h;
            let q = i % n as int;
            assert(0 <= q < n && q <= i) by (nonlinear_arith)
                requires
                    q == i % n as int,
                    n > 0,
                    i >= 0,
            ;
            assert(share_len(sorted.len(), n as nat, 0) >= 1) by {
                lemma_share_bounds(sorted.len() as int, n as int, 0, 0);
            }
            dealt_exactly_once(sorted, n as nat, i, 0, 0);
            let p = q as usize;
            assert(plan.contains_key(p));
            assert(plan[p]@[i / n as int] == h);
            assert(plan[p]@.contains(h));
        }
        if exists|p: usize| plan.contains_key(p) && #[trigger] plan[p]@.contains(h) {
            let p = choose|p: usize| plan.contains_key(p) && #[trigger] plan[p]@.contains(h);
            let s = share(sorted, n as nat, p as int);
            let k = choose|k: int| 0 <= k < s.len() && s[k] == h;
            lemma_share_at(sorted, n as nat, p as int, k);
        }
    }
    assert forall|p: usize, q: usize| plan.contains_key(p) && plan.contains_key(q) implies #[trigger] plan[p]@.len()
        <= #[trigger] plan[q]@.len() + 1 by {
        let len = sorted.len() as int;
        assert((len - 1 - p) / n as int <= (len - 1 - q) / n as int + 1) by (nonlinear_arith)
            requires
                n > 0,
                0 <= p < n,
                0 <= q < n,
                p < len,
                q < len,
        ;
    }
}

/// Dealing goes round by round: a peer's chunk of a round comes before that of
/// a later peer, and this before the chunk of the next round.
proof fn lemma_dealt_in_turn(sorted: Seq<[u8; 32]>, n: usize, plan: Map<usize, Vec<[u8; 32]>>)
    requires
        order::ascending(sorted),
        deals(plan, sorted, n as nat),
    ensures
        forall|p: usize, q: usize|
            p < q && plan.contains_key(p) && plan.contains_key(q) ==> #[trigger] plan[q]@.len() <= #[trigger] plan[p]@.len(),
        forall|p: usize, q: usize, k: int|
            p < q && plan.contains_key(p) && plan.contains_key(q) && 0 <= k < plan[q]@.len() ==> order::bytes_le(
                #[trigger] plan[p]@[k]@,
                #[trigger] plan[q]@[k]@,
            ),
        forall|p: usize, q: usize, k: int, j: int|
            p < q && plan.contains_key(p) && plan.contains_key(q) && 0 <= k < plan[q]@.len() && k < j < plan[p]@.len()
                ==> order::bytes_le(#[trigger] plan[q]@[k]@, #[trigger] plan[p]@[j]@),
{
    let len = sorted.len() as int;
    assert forall|p: usize, q: usize| p < q && plan.contains_key(p) && plan.contains_key(q) implies #[trigger] plan[q]@.len()
        <= #[trigger] plan[p]@.len() by {
        let last = plan[q]@.len() - 1;
        if last >= 0 {
            lemma_share_at(sorted, n as nat, q as int, last);
            lemma_share_bounds(len, n as int, p as int, last);
        }
    }
    assert forall|p: usize, q: usize, k: int|
        p < q && plan.contains_key(p) && plan.contains_key(q) && 0 <= k < plan[q]@.len() implies order::bytes_le(
        #[trigger] plan[p]@[k]@,
        #[trigger] plan[q]@[k]@,
    ) by {
        assert(plan[q]@.len() <= plan[p]@.len());
        lemma_share_at(sorted, n as nat, q as int, k);
        lemma_share_at(sorted, n as nat, p as int, k);
        assert(sorted[p + k * n].le(sorted[q + k * n]));
    }
    assert forall|p: usize, q: usize, k: int, j: int|
        p < q && plan.contains_key(p) && plan.contains_key(q) && 0 <= k < plan[q]@.len() && k < j
            < plan[p]@.len() implies order::bytes_le(#[trigger] plan[q]@[k]@, #[trigger] plan[p]@[j]@) by {
        lemma_share_at(sorted, n as nat, q as int, k);
        lemma_share_at(sorted, n as nat, p as int, j);
        assert(q + k * n <= p + j * n) by (nonlinear_arith)
            requires
                k < j,
                0 <= p < n,
                0 <= q < n,
        ;
        assert(sorted[q + k * n].le(sorted[p + j * n]));
    }
}

/// Dealing puts no chunk in two places.
proof fn lemma_dealt_once(before: Progress, sorted: Seq<[u8; 32]>, n: usize, after: Progress)
    requires
        before.each_once(),
        before.dealt(sorted, n, after),
    ensures
        after.each_once(),
{
    order::lemma_same_multiset(sorted, before.waiting);
    assert forall|p: usize| #[trigger] after.given.contains_key(p) implies after.given[p]@.no_duplicates() by {
        let had = held_by(before.given, p);
        let all = after.given[p]@;
        assert forall|i: int, j: int| 0 <= i < j < all.len() implies all[i] != all[j] by {
            if j < had.len() {
                assert(before.given.contains_key(p));
            } else if p < n {
                let more = share(sorted, n as nat, p as int);
                if i < had.len() {
                    assert(had.contains(all[i]));
                    if all[i] == all[j] {
                        assert(more.contains(more[j - had.len()]));
                        lemma_dealt_to(before, sorted, n, after, p, all[j]);
                        assert(before.given[p]@.contains(all[i]));
                    }
                } else if all[i] == all[j] {
                    lemma_shares_apart(sorted, n as nat, p as int, i - had.len(), p as int, j - had.len());
                }
            }
        }
    }
    assert forall|p: usize, q: usize, h: [u8; 32]|
        p != q && after.given.contains_key(p) && after.given.contains_key(q) && #[trigger] after.given[p]@.contains(
            h,
        ) implies !#[trigger] after.given[q]@.contains(h) by {
        lemma_dealt_to(before, sorted, n, after, p, h);
        lemma_dealt_to(before, sorted, n, after, q, h);
        if after.given[q]@.contains(h) {
            let a = held_by(before.given, p).contains(h);
            let b = held_by(before.given, q).contains(h);
            if a {
                assert(before.given[p]@.contains(h));
            }
            if b {
                assert(before.given[q]@.contains(h));
            }
            if !a && !b {
                let s = share(sorted, n as nat, p as int);
                let t = share(sorted, n as nat, q as int);
                let k = choose|k: int| 0 <= k < s.len() && s[k] == h;
                let m = choose|m: int| 0 <= m < t.len() && t[m] == h;
                lemma_shares_apart(sorted, n as nat, p as int, k, q as int, m);
            }
        }
    }
}

/// A step loses no chunk and invents none: exactly the chunks from before wait
/// or are held afterwards, but for one that arrived and did not wait.
pub proof fn step_keeps_every_chunk(before: Progress, step: Step, after: Progress, h: [u8; 32])
    requires
        follows(before, step, after),
    ensures
        match step {
            Step::ChunkDone(hash) => after.accounts(h) <==> before.accounts(h) && (h != hash || before.waiting.contains(h)),
            _ => after.accounts(h) <==> before.accounts(h),
        },
{
    match step {
        Step::Assign(n) => {
            let sorted = choose|sorted: Seq<[u8; 32]>| #[trigger] before.dealt(sorted, n, after);
            order::lemma_same_multiset(sorted, before.waiting);
            if before.held(h) {
                let p = choose|p: usize| before.given.contains_key(p) && #[trigger] before.given[p]@.contains(h);
                assert(after.given.contains_key(p));
                lemma_dealt_to(before, sorted, n, after, p, h);
                assert(after.given[p]@.contains(h));
            }
            if before.waiting.contains(h) {
                assert(sorted.contains(h));
                let i = choose|i: int| 0 <= i < sorted.len() && sorted[i] == h;
                assert(before.waiting.len() > 0);
                let q = i % n as int;
                assert(0 <= q < n && q <= i) by (nonlinear_arith)
                    requires
                        q == i % n as int,
                        n > 0,
                        i >= 0,
                ;
                assert(share_len(sorted.len(), n as nat, 0) >= 1) by {
                    lemma_share_bounds(sorted.len() as int, n as int, 0, 0);
                }
                dealt_exactly_once(sorted, n as nat, i, 0, 0);
                let p = q as usize;
                assert(after.given.contains_key(p));
                let s = share(sorted, n as nat, q);
                assert(s[i / n as int] == h);
                assert(s.contains(h));
                lemma_dealt_to(before, sorted, n, after, p, h);
                assert(after.given[p]@.contains(h));
            }
            if after.held(h) {
                let p = choose|p: usize| after.given.contains_key(p) && #[trigger] after.given[p]@.contains(h);
                lemma_dealt_to(before, sorted, n, after, p, h);
                if held_by(before.given, p).contains(h) {
                    assert(before.given[p]@.contains(h));
                }
            }
        },
        Step::PeerFailed(peer) => {
            if before.held(h) {
                let p = choose|p: usize| before.given.contains_key(p) && #[trigger] before.given[p]@.contains(h);
                if p != peer {
                    assert(after.given[p]@.contains(h));
                }
            }
            if after.held(h) {
                let p = choose|p: usize| after.given.contains_key(p) && #[trigger] after.given[p]@.contains(h);
                assert(before.given[p]@.contains(h));
            }
            if held_by(before.given, peer).contains(h) {
                assert(before.given[peer]@.contains(h));
            }
        },
        Step::ChunkDone(hash) => {
            if before.held(h) && h != hash {
                let p = choose|p: usize| before.given.contains_key(p) && #[trigger] before.given[p]@.contains(h);
                done_chunk_is_gone(before.given[p]@, hash, h);
                assert(after.given.contains_key(p));
                assert(after.given[p]@.contains(h));
            }
            if after.held(h) {
                let p = choose|p: usize| after.given.contains_key(p) && #[trigger] after.given[p]@.contains(h);
                done_chunk_is_gone(before.given[p]@, hash, h);
                assert(before.given[p]@.contains(h));
            }
        },
    }
}

/// No chunk is ever lost: whatever the steps of a download, in whatever order,
/// each of its chunks waits, is held by a peer, or has arrived.
pub proof fn every_chunk_waits_is_held_or_is_done(
    chunks: Seq<[u8; 32]>,
    states: Seq<Progress>,
    steps: Seq<Step>,
    h: [u8; 32],
)
    requires
        states.len() == steps.len() + 1,
        states[0].waiting == chunk_set::first_occurrences(chunks),
        forall|i: int| 0 <= i < steps.len() ==> #[trigger] follows(states[i], steps[i], states[i + 1]),
        chunks.contains(h),
    ensures
        states.last().accounts(h) || steps.contains(Step::ChunkDone(h)),
    decreases steps.len(),
{
    if steps.len() == 0 {
        chunk_set::lemma_first_occurrences(chunks);
    } else {
        let n = steps.len() - 1;
        let before = states.drop_last();
        let init = steps.drop_last();
        assert forall|i: int| 0 <= i < init.len() implies #[trigger] follows(before[i], init[i], before[i + 1]) by {
            assert(follows(states[i], steps[i], states[i + 1]));
        }
        every_chunk_waits_is_held_or_is_done(chunks, before, init, h);
        if init.contains(Step::ChunkDone(h)) {
            let i = choose|i: int| 0 <= i < init.len() && init[i] == Step::ChunkDone(h);
            assert(steps[i] == Step::ChunkDone(h));
        } else {
            assert(follows(states[n], steps[n], states[n + 1]));
            step_keeps_every_chunk(states[n], steps[n], states[n + 1], h);
            if steps[n] == Step::ChunkDone(h) {
                assert(steps.contains(Step::ChunkDone(h)));
            }
        }
    }
}

} // verus!
