//! Which addresses of nodes can be reached: each is probed once per interval,
//! and one that does not answer several times in a row counts as unreachable.
use vstd::prelude::*;

use crate::common::keepalive;
use crate::common::lists;
use crate::common::order;
use crate::common::text;
use crate::origin::storage;
use crate::scheduler::db::NodeRecord;

verus! {

/// A socket address: its text and the hash that spreads probes over time.
#[derive(Debug, Clone, PartialEq, Eq)]
pub struct SockAddr {
    pub text: String,
    pub hash: u64,
}

impl View for SockAddr {
    type V = (Seq<char>, u64);

    open spec fn view(&self) -> (Seq<char>, u64) {
        (self.text@, self.hash)
    }
}

impl SockAddr {
    /// The same address once more.
    pub fn copy(&self) -> (a: Self)
        ensures
            a@ == self@,
    {
        SockAddr { text: self.text.as_str().to_owned(), hash: self.hash }
    }
}

/// What is known of an address.
#[derive(Debug, Clone, Copy, PartialEq, Eq)]
pub struct AddrState {
    /// Probes without an answer since the last answer.
    pub failures: u32,
    pub available: bool,
}

/// What is known of an address that was never probed.
pub open spec fn fresh() -> AddrState {
    AddrState { failures: 0, available: true }
}

impl Default for AddrState {
    fn default() -> (s: Self)
        ensures
            s == fresh(),
    {
        AddrState { failures: 0, available: true }
    }
}

/// What is known of an address after a probe: an answer makes it available;
/// with as many failures in a row as the threshold it no longer is.
pub open spec fn after_probe(s: AddrState, ok: bool, threshold: u32) -> AddrState {
    if ok {
        fresh()
    } else {
        let failures = if s.failures < u32::MAX {
            (s.failures + 1) as u32
        } else {
            s.failures
        };
        AddrState { failures, available: s.available && failures < threshold }
    }
}

/// An address and what is known of it.
#[derive(Debug)]
struct Known {
    addr: SockAddr,
    state: AddrState,
}

/// What is known, by address.
spec fn known_map(list: Seq<Known>) -> Map<Seq<char>, (u64, AddrState)>
    decreases list.len(),
{
    if list.len() == 0 {
        Map::empty()
    } else {
        known_map(list.drop_last()).insert(list.last().addr.text@, (list.last().addr.hash, list.last().state))
    }
}

/// Whether no address is there twice.
spec fn distinct(list: Seq<Known>) -> bool {
    forall|i: int, j: int| 0 <= i < j < list.len() ==> (#[trigger] list[i]).addr.text@ != (#[trigger] list[j]).addr.text@
}

proof fn lemma_known_map(list: Seq<Known>)
    requires
        distinct(list),
    ensures
        forall|i: int| 0 <= i < list.len() ==> known_map(list).contains_key((#[trigger] list[i]).addr.text@) && known_map(
            list,
        )[list[i].addr.text@] == (list[i].addr.hash, list[i].state),
        forall|a: Seq<char>| #[trigger]
            known_map(list).contains_key(a) ==> exists|i: int| 0 <= i < list.len() && (#[trigger] list[i]).addr.text@ == a,
    decreases list.len(),
{
    if list.len() > 0 {
        let init = list.drop_last();
        assert forall|i: int, j: int| 0 <= i < j < init.len() implies (#[trigger] init[i]).addr.text@ != (
        #[trigger] init[j]).addr.text@ by {
            assert(list[i].addr.text@ != list[j].addr.text@);
        }
        lemma_known_map(init);
        assert forall|i: int| 0 <= i < list.len() implies known_map(list).contains_key(
            (#[trigger] list[i]).addr.text@,
        ) && known_map(list)[list[i].addr.text@] == (list[i].addr.hash, list[i].state) by {
            if i < init.len() {
                assert(init[i] == list[i]);
                assert(list[i].addr.text@ != list[list.len() - 1].addr.text@);
            }
        }
        assert forall|a: Seq<char>| #[trigger] known_map(list).contains_key(a) implies exists|i: int|
            0 <= i < list.len() && (#[trigger] list[i]).addr.text@ == a by {
            if a == list.last().addr.text@ {
                assert(list[list.len() - 1].addr.text@ == a);
            } else {
                assert(known_map(init).contains_key(a));
                let i = choose|i: int| 0 <= i < init.len() && (#[trigger] init[i]).addr.text@ == a;
                assert(list[i].addr.text@ == a);
            }
        }
    }
}

/// The addresses that are probed, and what is known of them.
#[derive(Debug)]
pub struct Keepalive {
    addrs: Vec<Known>,
}

impl View for Keepalive {
    type V = Map<Seq<char>, (u64, AddrState)>;

    closed spec fn view(&self) -> Map<Seq<char>, (u64, AddrState)> {
        known_map(self.addrs@)
    }
}

/// What is known of an address, with nothing known counting as available.
pub open spec fn known_of(keep: Map<Seq<char>, (u64, AddrState)>, addr: (Seq<char>, u64)) -> (u64, AddrState) {
    if keep.contains_key(addr.0) {
        keep[addr.0]
    } else {
        (addr.1, fresh())
    }
}

/// What is known once an address was probed.
pub open spec fn with_probe(
    keep: Map<Seq<char>, (u64, AddrState)>,
    addr: (Seq<char>, u64),
    ok: bool,
    threshold: u32,
) -> Map<Seq<char>, (u64, AddrState)> {
    let before = known_of(keep, addr);
    keep.insert(addr.0, (before.0, after_probe(before.1, ok, threshold)))
}

impl Keepalive {
    #[verifier::type_invariant]
    spec fn inv(self) -> bool {
        distinct(self.addrs@)
    }

    /// No addresses.
    pub fn new() -> (k: Self)
        ensures
            k@ == Map::<Seq<char>, (u64, AddrState)>::empty(),
    {
        Keepalive { addrs: Vec::new() }
    }

    /// Where an address is in the list.
    fn find(&self, addr: &str) -> (at: Option<usize>)
        ensures
            match at {
                Some(i) => i < self.addrs@.len() && self.addrs@[i as int].addr.text@ == addr@ && self@.contains_key(
                    addr@,
                ) && self@[addr@] == (self.addrs@[i as int].addr.hash, self.addrs@[i as int].state),
                None => !self@.contains_key(addr@) && forall|i: int|
                    0 <= i < self.addrs@.len() ==> (#[trigger] self.addrs@[i]).addr.text@ != addr@,
            },
    {
        proof {
            use_type_invariant(&*self);
            lemma_known_map(self.addrs@);
        }
        let mut i: usize = 0;
        while i < self.addrs.len()
            invariant
                i <= self.addrs@.len(),
                forall|k: int| 0 <= k < i ==> (#[trigger] self.addrs@[k]).addr.text@ != addr@,
            decreases self.addrs.len() - i,
        {
            if text::same_text(self.addrs[i].addr.text.as_str(), addr) {
                proof {
                    use_type_invariant(&*self);
                    lemma_known_map(self.addrs@);
                }
                return Some(i);
            }
            i = i + 1;
        }
        None
    }

    /// Adds an address, which counts as available, unless it is there.
    pub fn register(&mut self, addr: &SockAddr)
        ensures
            final(self)@ == (if old(self)@.contains_key(addr.text@) {
                old(self)@
            } else {
                old(self)@.insert(addr.text@, (addr.hash, fresh()))
            }),
    {
        match self.find(addr.text.as_str()) {
            Some(_) => {},
            None => {
                let mut whole = Keepalive::new();
                std::mem::swap(self, &mut whole);
                proof {
                    use_type_invariant(&whole);
                }
                let Keepalive { addrs } = whole;
                let mut addrs = addrs;
                let ghost before = addrs@;
                addrs.push(Known { addr: addr.copy(), state: AddrState { failures: 0, available: true } });
                assert(addrs@.drop_last() =~= before);
                *self = Keepalive { addrs };
            },
        }
    }

    /// What is known of an address.
    pub fn state(&self, addr: &str) -> (s: Option<AddrState>)
        ensures
            s == (if self@.contains_key(addr@) {
                Some(self@[addr@].1)
            } else {
                None
            }),
    {
        match self.find(addr) {
            Some(i) => Some(self.addrs[i].state),
            None => None,
        }
    }

    /// Notes whether an address answered.
    pub fn record(&mut self, addr: &SockAddr, ok: bool, fail_threshold: u32)
        ensures
            final(self)@ == with_probe(old(self)@, addr@, ok, fail_threshold),
            final(self)@.contains_key(addr.text@),
            final(self)@[addr.text@].0 == (if old(self)@.contains_key(addr.text@) {
                old(self)@[addr.text@].0
            } else {
                addr.hash
            }),
            ok ==> final(self)@[addr.text@].1.available && final(self)@[addr.text@].1.failures == 0,
            !ok && old(self)@.contains_key(addr.text@) && old(self)@[addr.text@].1.failures < u32::MAX ==> final(self)@[addr.text@].1.failures == old(self)@[addr.text@].1.failures + 1,
            !ok && old(self)@.contains_key(addr.text@) ==> (final(self)@[addr.text@].1.available <==> old(self)@[addr.text@].1.available && final(self)@[addr.text@].1.failures < fail_threshold),
            !ok && !old(self)@.contains_key(addr.text@) ==> final(self)@[addr.text@].1.failures == 1 && (final(self)@[addr.text@].1.available <==> 1 < fail_threshold),
            forall|a: Seq<char>|
                a != addr.text@ ==> (#[trigger] final(self)@.contains_key(a) <==> old(self)@.contains_key(a)) && final(self)@[a] == old(self)@[a],
    {
        let ghost before = self@;
        self.register(addr);
        let found = self.find(addr.text.as_str());
        let at: usize = found.unwrap();
        let mut whole = Keepalive::new();
        std::mem::swap(self, &mut whole);
        proof {
            use_type_invariant(&whole);
        }
        let Keepalive { addrs } = whole;
        let mut addrs = addrs;
        let ghost list = addrs@;
        let old_state = addrs[at].state;
        let state = if ok {
            AddrState { failures: 0, available: true }
        } else {
            let failures: u32 = if old_state.failures < u32::MAX {
                old_state.failures + 1
            } else {
                old_state.failures
            };
            AddrState { failures, available: old_state.available && failures < fail_threshold }
        };
        let known = Known { addr: addrs[at].addr.copy(), state };
        addrs.set(at, known);
        proof {
            let now = addrs@;
            assert forall|i: int, j: int| 0 <= i < j < now.len() implies (#[trigger] now[i]).addr.text@ != (
            #[trigger] now[j]).addr.text@ by {
                assert(now[i].addr.text@ == list[i].addr.text@);
                assert(now[j].addr.text@ == list[j].addr.text@);
            }
            lemma_known_map(list);
            lemma_known_map(now);
            let after = with_probe(before, addr@, ok, fail_threshold);
            assert forall|a: Seq<char>| #[trigger] known_map(now).contains_key(a) <==> after.contains_key(a) by {
                if known_map(now).contains_key(a) {
                    let i = choose|i: int| 0 <= i < now.len() && (#[trigger] now[i]).addr.text@ == a;
                    assert(list[i].addr.text@ == a);
                }
                if after.contains_key(a) {
                    assert(known_map(list).contains_key(a));
                    let i = choose|i: int| 0 <= i < list.len() && (#[trigger] list[i]).addr.text@ == a;
                    assert(now[i].addr.text@ == a);
                }
            }
            assert forall|a: Seq<char>| #[trigger] known_map(now).contains_key(a) implies known_map(now)[a] == after[a] by {
                let i = choose|i: int| 0 <= i < now.len() && (#[trigger] now[i]).addr.text@ == a;
                assert(list[i].addr.text@ == a);
                assert(known_map(list)[a] == (list[i].addr.hash, list[i].state));
                if i != at {
                    if i < at {
                        assert(list[i].addr.text@ != list[at as int].addr.text@);
                    } else {
                        assert(list[at as int].addr.text@ != list[i].addr.text@);
                    }
                    assert(now[i] == list[i]);
                }
            }
            assert(known_map(now) =~= after);
        }
        *self = Keepalive { addrs };
    }

    /// The addresses to probe at this second: each has its own in an interval.
    pub fn probe_due(&self, now_secs: u64, interval_secs: u64) -> (due: Vec<String>)
        requires
            interval_secs > 0,
        ensures
            text::text_views(due@).no_duplicates(),
            forall|a: Seq<char>| #[trigger]
                text::text_views(due@).contains(a) <==> self@.contains_key(a) && is_due(
                    self@[a].0,
                    now_secs,
                    interval_secs,
                ),
            forall|a: Seq<char>| #[trigger]
                text::text_views(due@).contains(a) <==> self@.contains_key(a) && self@[a].0 % interval_secs == now_secs
                    % interval_secs,
    {
        proof {
            use_type_invariant(&*self);
            lemma_known_map(self.addrs@);
        }
        let mut due: Vec<String> = Vec::new();
        let mut i: usize = 0;
        assert(text::text_views(due@) =~= Seq::empty());
        while i < self.addrs.len()
            invariant
                interval_secs > 0,
                i <= self.addrs@.len(),
                distinct(self.addrs@),
                text::text_views(due@).no_duplicates(),
                forall|a: Seq<char>| #[trigger]
                    text::text_views(due@).contains(a) <==> exists|k: int|
                        0 <= k < i && (#[trigger] self.addrs@[k]).addr.text@ == a && is_due(
                            self.addrs@[k].addr.hash,
                            now_secs,
                            interval_secs,
                        ),
            decreases self.addrs.len() - i,
        {
            let known = &self.addrs[i];
            let ghost before = text::text_views(due@);
            if addr_slot(known.addr.hash, interval_secs) == now_secs % interval_secs {
                due.push(known.addr.text.as_str().to_owned());
                assert(text::text_views(due@) =~= before.push(known.addr.text@));
            }
            proof {
                lemma_step(
                    self.addrs@,
                    before,
                    text::text_views(due@),
                    i as int,
                    |k: Known| is_due(k.addr.hash, now_secs, interval_secs),
                );
            }
            i = i + 1;
        }
        due
    }

    /// The addresses that count as unreachable.
    pub fn unavailable(&self) -> (list: Vec<String>)
        ensures
            text::text_views(list@).no_duplicates(),
            forall|a: Seq<char>| #[trigger]
                text::text_views(list@).contains(a) <==> self@.contains_key(a) && !self@[a].1.available,
    {
        proof {
            use_type_invariant(&*self);
            lemma_known_map(self.addrs@);
        }
        let mut list: Vec<String> = Vec::new();
        let mut i: usize = 0;
        assert(text::text_views(list@) =~= Seq::empty());
        while i < self.addrs.len()
            invariant
                i <= self.addrs@.len(),
                distinct(self.addrs@),
                text::text_views(list@).no_duplicates(),
                forall|a: Seq<char>| #[trigger]
                    text::text_views(list@).contains(a) <==> exists|k: int|
                        0 <= k < i && (#[trigger] self.addrs@[k]).addr.text@ == a && !self.addrs@[k].state.available,
            decreases self.addrs.len() - i,
        {
            let known = &self.addrs[i];
            let ghost before = text::text_views(list@);
            if !known.state.available {
                list.push(known.addr.text.as_str().to_owned());
                assert(text::text_views(list@) =~= before.push(known.addr.text@));
            }
            proof {
                lemma_step(
                    self.addrs@,
                    before,
                    text::text_views(list@),
                    i as int,
                    |k: Known| !k.state.available,
                );
            }
            i = i + 1;
        }
        list
    }
}

/// One more address of the list, taken where it is wanted.
proof fn lemma_step(
    list: Seq<Known>,
    before: Seq<Seq<char>>,
    after: Seq<Seq<char>>,
    i: int,
    wanted: spec_fn(Known) -> bool,
)
    requires
        0 <= i < list.len(),
        distinct(list),
        before.no_duplicates(),
        forall|a: Seq<char>| #[trigger]
            before.contains(a) <==> exists|k: int| 0 <= k < i && (#[trigger] list[k]).addr.text@ == a && wanted(list[k]),
        after == (if wanted(list[i]) {
            before.push(list[i].addr.text@)
        } else {
            before
        }),
    ensures
        after.no_duplicates(),
        forall|a: Seq<char>| #[trigger]
            after.contains(a) <==> exists|k: int|
                0 <= k < i + 1 && (#[trigger] list[k]).addr.text@ == a && wanted(list[k]),
{
    let new = list[i].addr.text@;
    assert(!before.contains(new)) by {
        if before.contains(new) {
            let k = choose|k: int| 0 <= k < i && (#[trigger] list[k]).addr.text@ == new && wanted(list[k]);
            assert(list[k].addr.text@ != list[i].addr.text@);
        }
    }
    assert forall|a: Seq<char>| #[trigger] after.contains(a) <==> exists|k: int|
        0 <= k < i + 1 && (#[trigger] list[k]).addr.text@ == a && wanted(list[k]) by {
        order::lemma_push_contains(before, new, a);
        if before.contains(a) {
            let k = choose|k: int| 0 <= k < i && (#[trigger] list[k]).addr.text@ == a && wanted(list[k]);
            assert(list[k].addr.text@ == a);
        }
        if wanted(list[i]) && a == new {
            assert(list[i].addr.text@ == a);
        }
    }
}

/// Whether an address is probed at this second.
pub open spec fn is_due(hash: u64, now_secs: u64, interval_secs: u64) -> bool {
    hash % interval_secs == now_secs % interval_secs
}

/// The second of the interval at which an address is probed.
pub fn addr_slot(hash: u64, interval_secs: u64) -> (slot: u64)
    requires
        interval_secs > 0,
    ensures
        slot == hash % interval_secs,
{
    hash % interval_secs
}

/// What is known of an address after so many probes without an answer.
pub open spec fn after_failures(s: AddrState, n: nat, threshold: u32) -> AddrState
    decreases n,
{
    if n == 0 {
        s
    } else {
        after_probe(after_failures(s, (n - 1) as nat, threshold), false, threshold)
    }
}

/// An address stays available for fewer failures in a row than the threshold,
/// no longer is with as many or more, and is again after one answer.
pub proof fn unreachable_after_threshold(s: AddrState, n: nat, threshold: u32)
    requires
        threshold > 0,
    ensures
        ({
            let after = after_failures(fresh(), n, threshold);
            &&& after.available == (n < threshold)
            &&& after.failures == (if n < u32::MAX {
                n
            } else {
                u32::MAX as nat
            })
            &&& after_probe(s, true, threshold) == fresh()
        }),
    decreases n,
{
    if n > 0 {
        unreachable_after_threshold(s, (n - 1) as nat, threshold);
    }
}

/// Every address is probed exactly once in each interval.
pub proof fn probed_once_per_interval(hash: u64, start: u64, interval_secs: u64)
    requires
        interval_secs > 0,
        start + interval_secs <= u64::MAX,
    ensures
        exists|t: u64| start <= t < start + interval_secs && #[trigger] is_due(hash, t, interval_secs),
        forall|t: u64, u: u64|
            start <= t < start + interval_secs && start <= u < start + interval_secs && #[trigger] is_due(
                hash,
                t,
                interval_secs,
            ) && #[trigger] is_due(hash, u, interval_secs) ==> t == u,
{
    let n = interval_secs as int;
    let r = hash as int % n;
    let s = start as int % n;
    let d = if r >= s {
        r - s
    } else {
        r - s + n
    };
    let t = (start + d) as u64;
    assert((start + d) % n == r) by (nonlinear_arith)
        requires
            n > 0,
            s == start as int % n,
            0 <= r < n,
            d == r - s || d == r - s + n,
    {
        let q = start as int / n;
        assert(start as int == n * q + s);
        if d == r - s {
            vstd::arithmetic::div_mod::lemma_mod_multiples_vanish(q, r, n);
            assert(start + d == n * q + r);
        } else {
            vstd::arithmetic::div_mod::lemma_mod_multiples_vanish(q + 1, r, n);
            assert(start + d == n * (q + 1) + r);
        }
        vstd::arithmetic::div_mod::lemma_small_mod(r as nat, n as nat);
    }
    assert(is_due(hash, t, interval_secs));
    assert forall|t: u64, u: u64|
        start <= t < start + interval_secs && start <= u < start + interval_secs && #[trigger] is_due(
            hash,
            t,
            interval_secs,
        ) && #[trigger] is_due(hash, u, interval_secs) implies t == u by {
        let a = t as int;
        let b = u as int;
        assert(a == b) by (nonlinear_arith)
            requires
                n > 0,
                a % n == b % n,
                -n < a - b < n,
        {
            let qa = a / n;
            let qb = b / n;
            assert(a == n * qa + a % n);
            assert(b == n * qb + b % n);
            assert(a - b == n * (qa - qb));
            if qa - qb >= 1 {
                assert(n * (qa - qb) >= n);
            }
            if qa - qb <= -1 {
                assert(n * (qa - qb) <= -n);
            }
        }
    }
}

/// An address to probe: whose it is, and which of the node's addresses.
#[derive(Debug)]
pub struct Target {
    pub addr: SockAddr,
    pub node_id: u64,
    pub addr_index: u32,
}

impl View for Target {
    type V = ((Seq<char>, u64), u64, u32);

    open spec fn view(&self) -> ((Seq<char>, u64), u64, u32) {
        (self.addr@, self.node_id, self.addr_index)
    }
}

/// What targets say.
pub open spec fn target_views(list: Seq<Target>) -> Seq<((Seq<char>, u64), u64, u32)> {
    list.map_values(|t: Target| t@)
}

/// A probe that has not been answered.
#[derive(Debug)]
pub struct Sent {
    pub seq: u32,
    pub addr: SockAddr,
    /// When it was sent, in nanoseconds.
    pub at_ns: u128,
}

impl View for Sent {
    type V = (u32, (Seq<char>, u64), u128);

    open spec fn view(&self) -> (u32, (Seq<char>, u64), u128) {
        (self.seq, self.addr@, self.at_ns)
    }
}

/// What unanswered probes say.
pub open spec fn sent_views(list: Seq<Sent>) -> Seq<(u32, (Seq<char>, u64), u128)> {
    list.map_values(|s: Sent| s@)
}

/// A packet to send.
#[derive(Debug)]
pub struct Ping {
    pub addr: String,
    pub packet: [u8; 22],
}

/// A declared address that has to be parsed before it can be probed.
#[derive(Debug)]
pub struct Declared {
    pub node_id: u64,
    pub addr_index: u32,
    pub addr: String,
}

/// The addresses of one node that are declared to be reachable, in order.
pub open spec fn declared_by(node: NodeRecord, n: int) -> Seq<(u64, u32, Seq<char>)>
    decreases n,
{
    if n <= 0 {
        Seq::empty()
    } else {
        let before = declared_by(node, n - 1);
        if node.addrs@[n - 1].kind@ == "config"@ {
            before.push((node.id, storage::low32((n - 1) as nat), node.addrs@[n - 1].addr@))
        } else {
            before
        }
    }
}

/// The addresses of the nodes that are declared to be reachable, in order.
pub open spec fn all_declared(nodes: Seq<NodeRecord>) -> Seq<(u64, u32, Seq<char>)>
    decreases nodes.len(),
{
    if nodes.len() == 0 {
        Seq::empty()
    } else {
        all_declared(nodes.drop_last()) + declared_by(nodes.last(), nodes.last().addrs@.len() as int)
    }
}

/// What declared addresses say.
pub open spec fn declared_views(list: Seq<Declared>) -> Seq<(u64, u32, Seq<char>)> {
    list.map_values(|d: Declared| (d.node_id, d.addr_index, d.addr@))
}

/// The addresses that are to be probed once they are parsed: those that nodes
/// declare to be reachable. Addresses found otherwise are not probed.
pub fn declared_addrs(nodes: &Vec<NodeRecord>) -> (list: Vec<Declared>)
    ensures
        declared_views(list@) == all_declared(nodes@),
{
    let mut list: Vec<Declared> = Vec::new();
    let mut i: usize = 0;
    assert(nodes@.take(0) =~= Seq::empty());
    assert(declared_views(list@) =~= Seq::empty());
    while i < nodes.len()
        invariant
            i <= nodes@.len(),
            declared_views(list@) == all_declared(nodes@.take(i as int)),
        decreases nodes.len() - i,
    {
        let node = &nodes[i];
        let ghost before = declared_views(list@);
        let mut j: usize = 0;
        assert(before + declared_by(*node, 0) =~= before);
        while j < node.addrs.len()
            invariant
                j <= node.addrs@.len(),
                declared_views(list@) == before + declared_by(*node, j as int),
            decreases node.addrs.len() - j,
        {
            let ghost now = declared_views(list@);
            if text::same_text(node.addrs[j].kind.as_str(), "config") {
                let d = Declared {
                    node_id: node.id,
                    addr_index: storage::length32(j),
                    addr: node.addrs[j].addr.as_str().to_owned(),
                };
                let ghost v = (d.node_id, d.addr_index, d.addr@);
                list.push(d);
                assert(declared_views(list@) =~= now.push(v));
                assert(before + declared_by(*node, j + 1) =~= now.push(v));
            }
            j = j + 1;
        }
        assert(nodes@.take(i + 1).drop_last() =~= nodes@.take(i as int));
        i = i + 1;
    }
    assert(nodes@.take(i as int) =~= nodes@);
    list
}

/// The declared addresses that could be parsed, as targets.
pub open spec fn with_addrs(
    declared: Seq<(u64, u32, Seq<char>)>,
    parsed: Seq<Option<(Seq<char>, u64)>>,
) -> Seq<((Seq<char>, u64), u64, u32)>
    decreases declared.len(),
{
    if declared.len() == 0 {
        Seq::empty()
    } else {
        let before = with_addrs(declared.drop_last(), parsed.drop_last());
        let d = declared.last();
        match parsed.last() {
            Some(addr) => before.push((addr, d.0, d.1)),
            None => before,
        }
    }
}

/// What an optional address says.
pub open spec fn addr_view(addr: Option<SockAddr>) -> Option<(Seq<char>, u64)> {
    match addr {
        Some(a) => Some(a@),
        None => None,
    }
}

/// The targets for declared addresses; `parsed` holds what each was parsed to,
/// and one that could not be is not probed.
pub fn parsed_targets(declared: &Vec<Declared>, parsed: Vec<Option<SockAddr>>) -> (list: Vec<Target>)
    requires
        declared@.len() == parsed@.len(),
    ensures
        target_views(list@) == with_addrs(
            declared_views(declared@),
            parsed@.map_values(|a: Option<SockAddr>| addr_view(a)),
        ),
{
    let ghost all = parsed@;
    let ghost ds = declared_views(declared@);
    let ghost ps = all.map_values(|a: Option<SockAddr>| addr_view(a));
    let mut rest = lists::reversed(parsed);
    let mut list: Vec<Target> = Vec::new();
    let mut i: usize = 0;
    proof {
        assert(all.skip(0) =~= all);
        assert(target_views(list@) =~= Seq::empty());
        assert(ds.take(0) =~= Seq::empty());
    }
    while i < declared.len()
        invariant
            i <= declared@.len(),
            declared@.len() == all.len(),
            i + rest@.len() == all.len(),
            rest@ == all.skip(i as int).reverse(),
            ds == declared_views(declared@),
            ps == all.map_values(|a: Option<SockAddr>| addr_view(a)),
            target_views(list@) == with_addrs(ds.take(i as int), ps.take(i as int)),
        decreases declared.len() - i,
    {
        proof {
            lists::lemma_rest_reversed(all, i as int);
            assert(ds.take(i + 1).drop_last() =~= ds.take(i as int));
            assert(ps.take(i + 1).drop_last() =~= ps.take(i as int));
        }
        let ghost before = target_views(list@);
        match rest.pop().unwrap() {
            None => {},
            Some(addr) => {
                let target = Target { addr, node_id: declared[i].node_id, addr_index: declared[i].addr_index };
                let ghost v = target@;
                list.push(target);
                assert(target_views(list@) =~= before.push(v));
            },
        }
        i = i + 1;
    }
    proof {
        assert(ds.take(i as int) =~= ds);
        assert(ps.take(i as int) =~= ps);
    }
    list
}

/// Where an address is among the targets.
pub open spec fn target_place(targets: Seq<((Seq<char>, u64), u64, u32)>, addr: Seq<char>) -> Option<int>
    decreases targets.len(),
{
    if targets.len() == 0 {
        None
    } else {
        match target_place(targets.drop_last(), addr) {
            Some(i) => Some(i),
            None => if targets.last().0.0 == addr {
                Some(targets.len() - 1)
            } else {
                None
            },
        }
    }
}

/// The targets with one more; an address that is there gets a new owner.
pub open spec fn put_target(
    targets: Seq<((Seq<char>, u64), u64, u32)>,
    t: ((Seq<char>, u64), u64, u32),
) -> Seq<((Seq<char>, u64), u64, u32)> {
    match target_place(targets, t.0.0) {
        Some(i) => targets.update(i, (targets[i].0, t.1, t.2)),
        None => targets.push(t),
    }
}

/// The targets of a list in which a later owner of an address replaces an
/// earlier one.
pub open spec fn targets_of(list: Seq<((Seq<char>, u64), u64, u32)>) -> Seq<((Seq<char>, u64), u64, u32)>
    decreases list.len(),
{
    if list.len() == 0 {
        Seq::empty()
    } else {
        put_target(targets_of(list.drop_last()), list.last())
    }
}

/// What is known once the addresses are registered.
pub open spec fn with_targets(
    keep: Map<Seq<char>, (u64, AddrState)>,
    list: Seq<((Seq<char>, u64), u64, u32)>,
) -> Map<Seq<char>, (u64, AddrState)>
    decreases list.len(),
{
    if list.len() == 0 {
        keep
    } else {
        let before = with_targets(keep, list.drop_last());
        let addr = list.last().0;
        if before.contains_key(addr.0) {
            before
        } else {
            before.insert(addr.0, (addr.1, fresh()))
        }
    }
}

/// The sequence number that comes `k` after `seq`.
pub open spec fn seq_after(seq: u32, k: nat) -> u32 {
    ((seq + k) % 0x1_0000_0000) as u32
}

/// The targets to probe at this second.
pub open spec fn due_targets(
    targets: Seq<((Seq<char>, u64), u64, u32)>,
    now_secs: u64,
    interval_secs: u64,
) -> Seq<((Seq<char>, u64), u64, u32)> {
    targets.filter(|t: ((Seq<char>, u64), u64, u32)| is_due(t.0.1, now_secs, interval_secs))
}

/// The unanswered probes without those of a sequence number.
pub open spec fn without_seq(list: Seq<(u32, (Seq<char>, u64), u128)>, seq: u32) -> Seq<
    (u32, (Seq<char>, u64), u128),
> {
    list.filter(|s: (u32, (Seq<char>, u64), u128)| s.0 != seq)
}

/// The unanswered probes once the due ones are sent.
pub open spec fn with_sent(
    list: Seq<(u32, (Seq<char>, u64), u128)>,
    due: Seq<((Seq<char>, u64), u64, u32)>,
    seq: u32,
    now_ns: u128,
) -> Seq<(u32, (Seq<char>, u64), u128)>
    decreases due.len(),
{
    if due.len() == 0 {
        list
    } else {
        let s = seq_after(seq, due.len());
        without_seq(with_sent(list, due.drop_last(), seq, now_ns), s).push((s, due.last().0, now_ns))
    }
}

/// Where a sequence number is among the unanswered probes.
pub open spec fn sent_place(list: Seq<(u32, (Seq<char>, u64), u128)>, seq: u32) -> Option<int>
    decreases list.len(),
{
    if list.len() == 0 {
        None
    } else {
        match sent_place(list.drop_last(), seq) {
            Some(i) => Some(i),
            None => if list.last().0 == seq {
                Some(list.len() - 1)
            } else {
                None
            },
        }
    }
}

/// Whether a probe has waited for an interval.
pub open spec fn is_overdue(s: (u32, (Seq<char>, u64), u128), now_ns: u128, interval_secs: u64) -> bool {
    now_ns - s.2 >= interval_secs * 1_000_000_000 && now_ns >= s.2
}

/// What is known once the probes have failed.
pub open spec fn with_failed(
    keep: Map<Seq<char>, (u64, AddrState)>,
    failed: Seq<(u32, (Seq<char>, u64), u128)>,
    threshold: u32,
) -> Map<Seq<char>, (u64, AddrState)>
    decreases failed.len(),
{
    if failed.len() == 0 {
        keep
    } else {
        with_probe(with_failed(keep, failed.drop_last(), threshold), failed.last().1, false, threshold)
    }
}

/// Whether an address counts as available.
pub open spec fn is_available(keep: Map<Seq<char>, (u64, AddrState)>, addr: Seq<char>) -> bool {
    keep.contains_key(addr) ==> keep[addr].1.available
}

/// The state of probing. The caller sends and receives the packets.
#[derive(Debug)]
pub struct Prober {
    pub keep: Keepalive,
    /// The sequence number of the last probe.
    pub seq: u32,
    pub targets: Vec<Target>,
    pub outstanding: Vec<Sent>,
}

impl Prober {
    /// Nothing to probe.
    pub fn new() -> (p: Self)
        ensures
            p.keep@ == Map::<Seq<char>, (u64, AddrState)>::empty(),
            p.seq == 0,
            p.targets@.len() == 0,
            p.outstanding@.len() == 0,
    {
        Prober { keep: Keepalive::new(), seq: 0, targets: Vec::new(), outstanding: Vec::new() }
    }

    /// Replaces the targets. What is known of addresses is kept.
    pub fn sync(&mut self, list: Vec<Target>)
        ensures
            target_views(final(self).targets@) == targets_of(target_views(list@)),
            final(self).keep@ == with_targets(old(self).keep@, target_views(list@)),
            final(self).seq == old(self).seq,
            final(self).outstanding == old(self).outstanding,
    {
        let ghost all = target_views(list@);
        let ghost whole = list@;
        let ghost keep0 = self.keep@;
        let mut rest = lists::reversed(list);
        let mut targets: Vec<Target> = Vec::new();
        let ghost mut i: int = 0;
        proof {
            assert(whole.skip(0) =~= whole);
            assert(all.take(0) =~= Seq::empty());
            assert(target_views(targets@) =~= Seq::empty());
        }
        while rest.len() > 0
            invariant
                0 <= i,
                i + rest@.len() == whole.len(),
                all == target_views(whole),
                rest@ == whole.skip(i).reverse(),
                target_views(targets@) == targets_of(all.take(i)),
                self.keep@ == with_targets(keep0, all.take(i)),
                self.seq == old(self).seq,
                self.outstanding == old(self).outstanding,
            decreases rest@.len(),
        {
            proof {
                lists::lemma_rest_reversed(whole, i);
                assert(all.take(i + 1).drop_last() =~= all.take(i));
            }
            let t = rest.pop().unwrap();
            assert(all.take(i + 1).last() == t@);
            self.keep.register(&t.addr);
            let ghost before = target_views(targets@);
            let mut at: usize = 0;
            assert(before.take(0) =~= Seq::empty());
            while at < targets.len() && !text::same_text(targets[at].addr.text.as_str(), t.addr.text.as_str())
                invariant
                    at <= targets@.len(),
                    before == target_views(targets@),
                    target_place(before.take(at as int), t.addr.text@) is None,
                decreases targets.len() - at,
            {
                assert(before.take(at + 1).drop_last() =~= before.take(at as int));
                at = at + 1;
            }
            if at < targets.len() {
                proof {
                    assert(before.take(at + 1).drop_last() =~= before.take(at as int));
                    lemma_target_place(before, at + 1, t.addr.text@);
                }
                let addr = targets[at].addr.copy();
                targets.set(at, Target { addr, node_id: t.node_id, addr_index: t.addr_index });
                assert(target_views(targets@) =~= before.update(at as int, (before[at as int].0, t@.1, t@.2)));
            } else {
                assert(before.take(at as int) =~= before);
                let ghost v = t@;
                targets.push(t);
                assert(target_views(targets@) =~= before.push(v));
            }
            proof {
                i = i + 1;
            }
        }
        assert(all.take(i) =~= all);
        self.targets = targets;
    }

    /// The packets to send at this second.
    pub fn due(&mut self, now_secs: u64, interval_secs: u64, now_ns: u128) -> (pings: Vec<Ping>)
        requires
            interval_secs > 0,
        ensures
            ({
                let due = due_targets(target_views(old(self).targets@), now_secs, interval_secs);
                &&& pings@.len() == due.len()
                &&& forall|i: int| 0 <= i < pings@.len() ==> (#[trigger] pings@[i]).addr@ == due[i].0.0
                    && pings@[i].packet@ == keepalive::ping_bytes(
                    seq_after(old(self).seq, (i + 1) as nat),
                    due[i].1,
                    due[i].2,
                )
                &&& final(self).seq == seq_after(old(self).seq, due.len())
                &&& sent_views(final(self).outstanding@) == with_sent(
                    sent_views(old(self).outstanding@),
                    due,
                    old(self).seq,
                    now_ns,
                )
            }),
            final(self).keep == old(self).keep,
            final(self).targets == old(self).targets,
            ({
                let due = old(self).targets@.map_values(|t: Target| t@).filter(
                    |t: ((Seq<char>, u64), u64, u32)| t.0.1 % interval_secs == now_secs % interval_secs,
                );
                &&& pings@.len() == due.len()
                &&& final(self).seq == (old(self).seq + due.len()) % 0x1_0000_0000
                &&& forall|i: int| 0 <= i < pings@.len() ==> (#[trigger] pings@[i]).addr@ == due[i].0.0
            }),
    {
        proof {
            let plain = |t: ((Seq<char>, u64), u64, u32)| t.0.1 % interval_secs == now_secs % interval_secs;
            assert(plain =~= (|t: ((Seq<char>, u64), u64, u32)| is_due(t.0.1, now_secs, interval_secs)));
            assert(self.targets@.map_values(|t: Target| t@) =~= target_views(self.targets@));
        }
        let ghost all = target_views(self.targets@);
        let ghost pred = |t: ((Seq<char>, u64), u64, u32)| is_due(t.0.1, now_secs, interval_secs);
        let ghost seq0 = self.seq;
        let mut pings: Vec<Ping> = Vec::new();
        let mut i: usize = 0;
        proof {
            reveal(Seq::filter);
            assert(all.take(0).filter(pred) =~= Seq::empty());
        }
        while i < self.targets.len()
            invariant
                interval_secs > 0,
                i <= self.targets@.len(),
                all == target_views(self.targets@),
                pred == (|t: ((Seq<char>, u64), u64, u32)| is_due(t.0.1, now_secs, interval_secs)),
                pings@.len() == all.take(i as int).filter(pred).len(),
                forall|k: int| 0 <= k < pings@.len() ==> (#[trigger] pings@[k]).addr@ == all.take(i as int).filter(
                    pred,
                )[k].0.0 && pings@[k].packet@ == keepalive::ping_bytes(
                    seq_after(seq0, (k + 1) as nat),
                    all.take(i as int).filter(pred)[k].1,
                    all.take(i as int).filter(pred)[k].2,
                ),
                self.seq == seq_after(seq0, pings@.len()),
                sent_views(self.outstanding@) == with_sent(
                    sent_views(old(self).outstanding@),
                    all.take(i as int).filter(pred),
                    seq0,
                    now_ns,
                ),
                self.keep == old(self).keep,
                self.targets == old(self).targets,
            decreases self.targets.len() - i,
        {
            let ghost due = all.take(i as int).filter(pred);
            let ghost v = self.targets@[i as int]@;
            proof {
                reveal(Seq::filter);
                assert(all.take(i + 1).drop_last() =~= all.take(i as int));
                assert(all.take(i + 1).last() == v);
            }
            if addr_slot(self.targets[i].addr.hash, interval_secs) == now_secs % interval_secs {
                let ghost last = self.seq;
                self.seq = if self.seq == u32::MAX {
                    0
                } else {
                    self.seq + 1
                };
                assert(self.seq == seq_after(seq0, due.len() + 1)) by {
                    assert((seq0 + due.len() + 1) % 0x1_0000_0000 == (if last == u32::MAX {
                        0int
                    } else {
                        last + 1
                    }));
                }
                let target = &self.targets[i];
                let packet = keepalive::build_ping(self.seq, target.node_id, target.addr_index);
                let ping = Ping { addr: target.addr.text.as_str().to_owned(), packet };
                let addr = target.addr.copy();
                pings.push(ping);
                drop_seq(&mut self.outstanding, self.seq);
                let ghost left = sent_views(self.outstanding@);
                self.outstanding.push(Sent { seq: self.seq, addr, at_ns: now_ns });
                proof {
                    assert(sent_views(self.outstanding@) =~= left.push((self.seq, v.0, now_ns)));
                    assert(due.push(v).drop_last() =~= due);
                    assert(all.take(i + 1).filter(pred) == due.push(v));
                }
            }
            i = i + 1;
        }
        assert(all.take(i as int) =~= all);
        pings
    }

    /// Takes a packet. A pong to an unanswered probe makes its address
    /// available; anything else is passed over.
    pub fn pong(&mut self, packet: &[u8], fail_threshold: u32)
        ensures
            final(self).seq == old(self).seq,
            final(self).targets == old(self).targets,
            ({
                let list = sent_views(old(self).outstanding@);
                let seq = keepalive::pong_spec(packet@);
                if seq is Some && sent_place(list, seq->0) is Some {
                    &&& final(self).keep@ == with_probe(
                        old(self).keep@,
                        list[sent_place(list, seq->0)->0].1,
                        true,
                        fail_threshold,
                    )
                    &&& sent_views(final(self).outstanding@) == without_seq(list, seq->0)
                } else {
                    final(self).keep@ == old(self).keep@ && final(self).outstanding@ == old(self).outstanding@
                }
            }),
    {
        let seq: u32 = match keepalive::parse_pong(packet) {
            None => {
                return;
            },
            Some(s) => s,
        };
        let ghost list = sent_views(self.outstanding@);
        let mut at: usize = 0;
        assert(list.take(0) =~= Seq::empty());
        while at < self.outstanding.len() && self.outstanding[at].seq != seq
            invariant
                at <= self.outstanding@.len(),
                *self == *old(self),
                list == sent_views(self.outstanding@),
                sent_place(list.take(at as int), seq) is None,
            decreases self.outstanding.len() - at,
        {
            assert(list.take(at + 1).drop_last() =~= list.take(at as int));
            at = at + 1;
        }
        if at == self.outstanding.len() {
            assert(list.take(at as int) =~= list);
            return;
        }
        proof {
            assert(list.take(at + 1).drop_last() =~= list.take(at as int));
            lemma_sent_place(list, at + 1, seq);
        }
        let addr = self.outstanding[at].addr.copy();
        self.keep.record(&addr, true, fail_threshold);
        drop_seq(&mut self.outstanding, seq);
    }

    /// Counts every probe that has waited for an interval as failed.
    pub fn expire(&mut self, now_ns: u128, interval_secs: u64, fail_threshold: u32)
        ensures
            final(self).seq == old(self).seq,
            final(self).targets == old(self).targets,
            ({
                let list = sent_views(old(self).outstanding@);
                &&& final(self).keep@ == with_failed(
                    old(self).keep@,
                    list.filter(|s: (u32, (Seq<char>, u64), u128)| is_overdue(s, now_ns, interval_secs)),
                    fail_threshold,
                )
                &&& sent_views(final(self).outstanding@) == list.filter(
                    |s: (u32, (Seq<char>, u64), u128)| !is_overdue(s, now_ns, interval_secs),
                )
            }),
            sent_views(final(self).outstanding@) == sent_views(old(self).outstanding@).filter(
                |s: (u32, (Seq<char>, u64), u128)| now_ns < s.2 || now_ns - s.2 < interval_secs * 1_000_000_000,
            ),
    {
        proof {
            let young = |s: (u32, (Seq<char>, u64), u128)|
                now_ns < s.2 || now_ns - s.2 < interval_secs * 1_000_000_000;
            assert(young =~= (|s: (u32, (Seq<char>, u64), u128)| !is_overdue(s, now_ns, interval_secs)));
        }
        let ghost pred = |s: (u32, (Seq<char>, u64), u128)| is_overdue(s, now_ns, interval_secs);
        let ghost stays = |s: (u32, (Seq<char>, u64), u128)| !is_overdue(s, now_ns, interval_secs);
        let ghost whole = self.outstanding@;
        let ghost all = sent_views(whole);
        let mut taken: Vec<Sent> = Vec::new();
        std::mem::swap(&mut self.outstanding, &mut taken);
        let mut rest = lists::reversed(taken);
        let mut left: Vec<Sent> = Vec::new();
        let wait: u128 = interval_secs as u128 * 1_000_000_000;
        let ghost mut i: int = 0;
        proof {
            reveal(Seq::filter);
            assert(whole.skip(0) =~= whole);
            assert(all.take(0).filter(pred) =~= Seq::empty());
            assert(all.take(0).filter(stays) =~= Seq::empty());
            assert(sent_views(left@) =~= Seq::empty());
        }
        while rest.len() > 0
            invariant
                0 <= i,
                i + rest@.len() == whole.len(),
                rest@ == whole.skip(i).reverse(),
                all == sent_views(whole),
                wait == interval_secs * 1_000_000_000,
                pred == (|s: (u32, (Seq<char>, u64), u128)| is_overdue(s, now_ns, interval_secs)),
                stays == (|s: (u32, (Seq<char>, u64), u128)| !is_overdue(s, now_ns, interval_secs)),
                self.seq == old(self).seq,
                self.targets == old(self).targets,
                self.keep@ == with_failed(old(self).keep@, all.take(i).filter(pred), fail_threshold),
                sent_views(left@) == all.take(i).filter(stays),
            decreases rest@.len(),
        {
            proof {
                lists::lemma_rest_reversed(whole, i);
            }
            let s = rest.pop().unwrap();
            let ghost failed = all.take(i).filter(pred);
            let ghost kept = all.take(i).filter(stays);
            proof {
                reveal(Seq::filter);
                assert(all.take(i + 1).drop_last() =~= all.take(i));
                assert(all.take(i + 1).last() == s@);
                assert(failed.push(s@).drop_last() =~= failed);
                i = i + 1;
            }
            if now_ns >= s.at_ns && now_ns - s.at_ns >= wait {
                self.keep.record(&s.addr, false, fail_threshold);
            } else {
                let ghost v = s@;
                left.push(s);
                assert(sent_views(left@) =~= kept.push(v));
            }
        }
        assert(all.take(i) =~= all);
        self.outstanding = left;
    }

    /// Whether each target counts as available, by node.
    pub fn statuses(&self) -> (list: Vec<(u64, bool)>)
        ensures
            list@.len() == self.targets@.len(),
            forall|i: int| 0 <= i < list@.len() ==> #[trigger] list@[i] == (
                self.targets@[i].node_id,
                is_available(self.keep@, self.targets@[i].addr.text@),
            ),
            forall|i: int|
                0 <= i < list@.len() ==> (#[trigger] list@[i]).0 == self.targets@[i].node_id && (list@[i].1
                    <==> !self.keep@.contains_key(self.targets@[i].addr.text@)
                    || self.keep@[self.targets@[i].addr.text@].1.available),
    {
        let mut list: Vec<(u64, bool)> = Vec::new();
        let mut i: usize = 0;
        while i < self.targets.len()
            invariant
                i <= self.targets@.len(),
                list@.len() == i,
                forall|k: int| 0 <= k < i ==> #[trigger] list@[k] == (
                    self.targets@[k].node_id,
                    is_available(self.keep@, self.targets@[k].addr.text@),
                ),
            decreases self.targets.len() - i,
        {
            let available = match self.keep.state(self.targets[i].addr.text.as_str()) {
                Some(s) => s.available,
                None => true,
            };
            list.push((self.targets[i].node_id, available));
            i = i + 1;
        }
        list
    }
}

/// A target found among the first is the one found among all.
proof fn lemma_target_place(targets: Seq<((Seq<char>, u64), u64, u32)>, n: int, addr: Seq<char>)
    requires
        0 <= n <= targets.len(),
        target_place(targets.take(n), addr) is Some,
    ensures
        target_place(targets, addr) == target_place(targets.take(n), addr),
    decreases targets.len(),
{
    if n < targets.len() {
        assert(targets.drop_last().take(n) =~= targets.take(n));
        lemma_target_place(targets.drop_last(), n, addr);
    } else {
        assert(targets.take(n) =~= targets);
    }
}

/// A probe found among the first is the one found among all.
proof fn lemma_sent_place(list: Seq<(u32, (Seq<char>, u64), u128)>, n: int, seq: u32)
    requires
        0 <= n <= list.len(),
        sent_place(list.take(n), seq) is Some,
    ensures
        sent_place(list, seq) == sent_place(list.take(n), seq),
    decreases list.len(),
{
    if n < list.len() {
        assert(list.drop_last().take(n) =~= list.take(n));
        lemma_sent_place(list.drop_last(), n, seq);
    } else {
        assert(list.take(n) =~= list);
    }
}

/// The probe that a pong answers is the first with its sequence number; with the
/// answer all probes of that number are gone, and no others.
pub proof fn first_sent_is_answered(list: Seq<(u32, (Seq<char>, u64), u128)>, seq: u32, i: int)
    requires
        0 <= i < list.len(),
        list[i].0 == seq,
        forall|k: int| 0 <= k < i ==> (#[trigger] list[k]).0 != seq,
    ensures
        sent_place(list, seq) == Some(i),
        without_seq(list, seq) == list.filter(|s: (u32, (Seq<char>, u64), u128)| s.0 != seq),
{
    lemma_without_seq(list, seq, |s: (u32, (Seq<char>, u64), u128)| s.0 != seq);
    lemma_sent_first(list, seq);
    if let Some(k) = sent_place(list, seq) {
        if k < i {
            assert(list[k].0 != seq);
        }
        if i < k {
            assert(list[i].0 != seq);
        }
    } else {
        assert(list[i].0 != seq);
    }
}

/// A sequence number under which no probe waits is answered by none.
pub proof fn unknown_numbers_are_passed_over(list: Seq<(u32, (Seq<char>, u64), u128)>, seq: u32)
    requires
        forall|k: int| 0 <= k < list.len() ==> (#[trigger] list[k]).0 != seq,
    ensures
        sent_place(list, seq) is None,
{
    lemma_sent_first(list, seq);
}

proof fn lemma_without_seq(
    list: Seq<(u32, (Seq<char>, u64), u128)>,
    seq: u32,
    p: spec_fn((u32, (Seq<char>, u64), u128)) -> bool,
)
    requires
        forall|x: (u32, (Seq<char>, u64), u128)| #[trigger] p(x) <==> x.0 != seq,
    ensures
        without_seq(list, seq) == list.filter(p),
    decreases list.len(),
{
    reveal(Seq::filter);
    if list.len() > 0 {
        lemma_without_seq(list.drop_last(), seq, p);
        assert(p(list.last()) <==> list.last().0 != seq);
    }
}

proof fn lemma_sent_first(list: Seq<(u32, (Seq<char>, u64), u128)>, seq: u32)
    ensures
        match sent_place(list, seq) {
            Some(i) => 0 <= i < list.len() && list[i].0 == seq && forall|k: int|
                0 <= k < i ==> (#[trigger] list[k]).0 != seq,
            None => forall|k: int| 0 <= k < list.len() ==> (#[trigger] list[k]).0 != seq,
        },
    decreases list.len(),
{
    if list.len() > 0 {
        let init = list.drop_last();
        lemma_sent_first(init, seq);
        let n = match sent_place(init, seq) {
            Some(i) => i,
            None => init.len() as int,
        };
        assert forall|k: int| 0 <= k < n implies (#[trigger] list[k]).0 != seq by {
            assert(init[k].0 != seq);
        }
    }
}

/// Takes the probes of a sequence number out of the list.
fn drop_seq(list: &mut Vec<Sent>, seq: u32)
    ensures
        sent_views(final(list)@) == without_seq(sent_views(old(list)@), seq),
{
    let ghost whole = list@;
    let ghost all = sent_views(whole);
    let mut taken: Vec<Sent> = Vec::new();
    std::mem::swap(list, &mut taken);
    let mut rest = lists::reversed(taken);
    let ghost mut i: int = 0;
    proof {
        reveal(Seq::filter);
        assert(whole.skip(0) =~= whole);
        assert(without_seq(all.take(0), seq) =~= Seq::empty());
        assert(sent_views(list@) =~= Seq::empty());
    }
    while rest.len() > 0
        invariant
            0 <= i,
            i + rest@.len() == whole.len(),
            rest@ == whole.skip(i).reverse(),
            all == sent_views(whole),
            sent_views(list@) == without_seq(all.take(i), seq),
        decreases rest@.len(),
    {
        proof {
            lists::lemma_rest_reversed(whole, i);
        }
        let s = rest.pop().unwrap();
        let ghost before = without_seq(all.take(i), seq);
        proof {
            reveal(Seq::filter);
            assert(all.take(i + 1).drop_last() =~= all.take(i));
            assert(all.take(i + 1).last() == s@);
            i = i + 1;
        }
        if s.seq != seq {
            let ghost v = s@;
            list.push(s);
            assert(sent_views(list@) =~= before.push(v));
        }
    }
    assert(all.take(i) =~= all);
}

/// The record of a node whose status has to change; `None` where it is right.
pub fn node_status(node: NodeRecord, available: bool) -> (updated: Option<NodeRecord>)
    ensures
        ({
            let want = if available {
                "online"@
            } else {
                "offline"@
            };
            match updated {
                None => node.status@ == want,
                Some(u) => {
                    &&& node.status@ != want
                    &&& u.status@ == want
                    &&& u == (NodeRecord { status: u.status, ..node })
                },
            }
        }),
{
    let want = if available {
        "online"
    } else {
        "offline"
    };
    if text::same_text(node.status.as_str(), want) {
        return None;
    }
    let mut node = node;
    node.status = want.to_owned();
    Some(node)
}

/// What is known after a probe: of the address that was probed, whether it
/// answered and how often it did not; of every other address, what was known.
pub proof fn probes_change_one_address(
    keep: Map<Seq<char>, (u64, AddrState)>,
    addr: (Seq<char>, u64),
    ok: bool,
    threshold: u32,
    other: Seq<char>,
)
    requires
        other != addr.0,
    ensures
        ({
            let after = with_probe(keep, addr, ok, threshold);
            let failed: int = if keep.contains_key(addr.0) {
                keep[addr.0].1.failures as int
            } else {
                0
            };
            let was_available = !keep.contains_key(addr.0) || keep[addr.0].1.available;
            &&& after.contains_key(addr.0)
            &&& ok ==> after[addr.0].1.failures == 0 && after[addr.0].1.available
            &&& !ok && failed < u32::MAX ==> after[addr.0].1.failures == failed + 1
            &&& !ok && failed == u32::MAX ==> after[addr.0].1.failures == failed
            &&& !ok ==> (after[addr.0].1.available <==> was_available && after[addr.0].1.failures < threshold)
            &&& keep.contains_key(addr.0) ==> after[addr.0].0 == keep[addr.0].0
            &&& !keep.contains_key(addr.0) ==> after[addr.0].0 == addr.1
            &&& after.contains_key(other) <==> keep.contains_key(other)
            &&& after[other] == keep[other]
        }),
{
}

/// Two targets say the same exactly where address, hash, node and place do; so do
/// two probes with number, address, hash and time.
pub proof fn targets_say_all(a: Target, b: Target, s: Sent, t: Sent)
    ensures
        a@ == b@ <==> a.addr.text@ == b.addr.text@ && a.addr.hash == b.addr.hash && a.node_id == b.node_id
            && a.addr_index == b.addr_index,
        s@ == t@ <==> s.seq == t.seq && s.addr.text@ == t.addr.text@ && s.addr.hash == t.addr.hash && s.at_ns == t.at_ns,
{
}

/// What lists say, one by one.
pub proof fn lists_say_all(
    declared: Seq<Declared>,
    targets: Seq<Target>,
    sent: Seq<Sent>,
    addr: SockAddr,
    i: int,
)
    ensures
        declared_views(declared).len() == declared.len(),
        0 <= i < declared.len() ==> declared_views(declared)[i] == (declared[i].node_id, declared[i].addr_index, declared[i].addr@),
        target_views(targets).len() == targets.len(),
        0 <= i < targets.len() ==> target_views(targets)[i] == (
            (targets[i].addr.text@, targets[i].addr.hash),
            targets[i].node_id,
            targets[i].addr_index,
        ),
        sent_views(sent).len() == sent.len(),
        0 <= i < sent.len() ==> sent_views(sent)[i] == (sent[i].seq, (sent[i].addr.text@, sent[i].addr.hash), sent[i].at_ns),
        addr_view(Some(addr)) == Some((addr.text@, addr.hash)),
        addr_view(None) is None,
{
}

/// Failed probes count one after the other.
pub proof fn failures_are_counted_in_turn(
    keep: Map<Seq<char>, (u64, AddrState)>,
    failed: Seq<(u32, (Seq<char>, u64), u128)>,
    threshold: u32,
)
    ensures
        with_failed(keep, failed, threshold) == failed.fold_left(
            keep,
            |k: Map<Seq<char>, (u64, AddrState)>, s: (u32, (Seq<char>, u64), u128)|
                with_probe(k, s.1, false, threshold),
        ),
    decreases failed.len(),
{
    if failed.len() > 0 {
        failures_are_counted_in_turn(keep, failed.drop_last(), threshold);
    }
}

/// A probe is overdue once it has waited for an interval, not before.
pub proof fn overdue_after_an_interval(s: (u32, (Seq<char>, u64), u128), now_ns: u128, interval_secs: u64)
    ensures
        is_overdue(s, now_ns, interval_secs) <==> s.2 + interval_secs * 1_000_000_000 <= now_ns,
{
    assert(interval_secs * 1_000_000_000 >= 0);
}

/// The declared addresses are those of each node in turn, and of a node those
/// that it declares, each with its place in the node's list.
pub proof fn declared_in_order(nodes: Seq<NodeRecord>, node: NodeRecord, n: int)
    requires
        0 <= n <= node.addrs@.len(),
    ensures
        all_declared(nodes) == nodes.map_values(
            |x: NodeRecord| declared_by(x, x.addrs@.len() as int),
        ).flatten(),
        declared_by(node, n) == Seq::new(n as nat, |k: int| k).filter(
            |k: int| node.addrs@[k].kind@ == "config"@,
        ).map_values(|k: int| (node.id, (k % 0x1_0000_0000) as u32, node.addrs@[k].addr@)),
{
    lemma_declared_flatten(nodes);
    lemma_declared_filter(node, n);
}

proof fn lemma_declared_flatten(nodes: Seq<NodeRecord>)
    ensures
        all_declared(nodes) == nodes.map_values(
            |x: NodeRecord| declared_by(x, x.addrs@.len() as int),
        ).flatten(),
    decreases nodes.len(),
{
    let f = |x: NodeRecord| declared_by(x, x.addrs@.len() as int);
    if nodes.len() == 0 {
        assert(nodes.map_values(f).flatten() =~= Seq::empty());
    } else {
        lemma_declared_flatten(nodes.drop_last());
        let parts = nodes.map_values(f);
        assert(parts.drop_last() =~= nodes.drop_last().map_values(f));
        parts.lemma_flatten_and_flatten_alt_are_equivalent();
        parts.drop_last().lemma_flatten_and_flatten_alt_are_equivalent();
        assert(parts.flatten_alt() == parts.drop_last().flatten_alt() + parts.last());
    }
}

proof fn lemma_declared_filter(node: NodeRecord, n: int)
    requires
        0 <= n <= node.addrs@.len(),
    ensures
        declared_by(node, n) == Seq::new(n as nat, |k: int| k).filter(
            |k: int| node.addrs@[k].kind@ == "config"@,
        ).map_values(|k: int| (node.id, (k % 0x1_0000_0000) as u32, node.addrs@[k].addr@)),
    decreases n,
{
    reveal(Seq::filter);
    let is_config = |k: int| node.addrs@[k].kind@ == "config"@;
    let entry = |k: int| (node.id, (k % 0x1_0000_0000) as u32, node.addrs@[k].addr@);
    let places = Seq::new(n as nat, |k: int| k);
    if n == 0 {
        assert(places.filter(is_config).map_values(entry) =~= Seq::empty());
    } else {
        lemma_declared_filter(node, n - 1);
        let before = Seq::new((n - 1) as nat, |k: int| k);
        assert(places.drop_last() =~= before);
        assert(places.last() == n - 1);
        let kept = before.filter(is_config);
        assert(kept.push(n - 1).map_values(entry) =~= kept.map_values(entry).push(entry(n - 1)));
        assert(storage::low32((n - 1) as nat) == ((n - 1) % 0x1_0000_0000) as u32);
    }
}

/// A declared address that can be parsed is a target, in its turn; one that
/// cannot be is none.
pub proof fn parsed_addresses_are_targets(
    declared: Seq<(u64, u32, Seq<char>)>,
    parsed: Seq<Option<(Seq<char>, u64)>>,
    d: (u64, u32, Seq<char>),
    addr: (Seq<char>, u64),
    k: int,
)
    requires
        declared.len() == parsed.len(),
    ensures
        with_addrs(Seq::empty(), Seq::empty()) == Seq::<((Seq<char>, u64), u64, u32)>::empty(),
        with_addrs(declared.push(d), parsed.push(Some(addr))) == with_addrs(declared, parsed).push((addr, d.0, d.1)),
        with_addrs(declared.push(d), parsed.push(None)) == with_addrs(declared, parsed),
        0 <= k < declared.len() && parsed[k] is Some ==> with_addrs(declared, parsed).contains(
            (parsed[k]->0, declared[k].0, declared[k].1),
        ),
    decreases declared.len(),
{
    assert(declared.push(d).drop_last() =~= declared);
    assert(parsed.push(Some(addr)).drop_last() =~= parsed);
    assert(parsed.push(None).drop_last() =~= parsed);
    if 0 <= k < declared.len() && parsed[k] is Some {
        let d0 = declared.drop_last();
        let p0 = parsed.drop_last();
        let now = with_addrs(declared, parsed);
        let t = (parsed[k]->0, declared[k].0, declared[k].1);
        if k < d0.len() {
            parsed_addresses_are_targets(d0, p0, d, addr, k);
            assert(d0[k] == declared[k] && p0[k] == parsed[k]);
            let j = choose|j: int| 0 <= j < with_addrs(d0, p0).len() && with_addrs(d0, p0)[j] == t;
            assert(now[j] == t);
        } else {
            assert(now[now.len() - 1] == t);
        }
    }
}

/// The last owner of an address is the one that is probed there: no address is
/// a target twice, and no address is left out.
pub proof fn last_owner_is_probed(list: Seq<((Seq<char>, u64), u64, u32)>, i: int)
    requires
        0 <= i < list.len(),
        forall|j: int| i < j < list.len() ==> (#[trigger] list[j]).0.0 != list[i].0.0,
    ensures
        targets_of(Seq::empty()) == Seq::<((Seq<char>, u64), u64, u32)>::empty(),
        exists|k: int|
            0 <= k < targets_of(list).len() && (#[trigger] targets_of(list)[k]).0.0 == list[i].0.0 && targets_of(
                list,
            )[k].1 == list[i].1 && targets_of(list)[k].2 == list[i].2,
        forall|a: int, b: int|
            0 <= a < b < targets_of(list).len() ==> (#[trigger] targets_of(list)[a]).0.0 != (#[trigger] targets_of(
                list,
            )[b]).0.0,
        forall|k: int|
            0 <= k < targets_of(list).len() ==> exists|m: int|
                0 <= m < list.len() && (#[trigger] list[m]).0 == (#[trigger] targets_of(list)[k]).0,
    decreases list.len(),
{
    lemma_targets_distinct(list);
    let init = list.drop_last();
    let t = list.last();
    let before = targets_of(init);
    let now = targets_of(list);
    lemma_target_found(before, t.0.0);
    if i == list.len() - 1 {
        match target_place(before, t.0.0) {
            Some(k) => {
                assert(now[k].0.0 == list[i].0.0);
            },
            None => {
                assert(now[before.len() as int] == t);
            },
        }
    } else {
        assert forall|j: int| i < j < init.len() implies (#[trigger] init[j]).0.0 != init[i].0.0 by {
            assert(list[j].0.0 != list[i].0.0);
        }
        assert(list[list.len() - 1].0.0 != list[i].0.0);
        last_owner_is_probed(init, i);
        let k = choose|k: int|
            0 <= k < before.len() && (#[trigger] before[k]).0.0 == init[i].0.0 && before[k].1 == init[i].1 && before[k].2
                == init[i].2;
        assert(now[k] == before[k]);
    }
    assert forall|k: int| 0 <= k < now.len() implies exists|m: int|
        0 <= m < list.len() && (#[trigger] list[m]).0 == (#[trigger] now[k]).0 by {
        lemma_targets_of(list, k);
    }
}

proof fn lemma_target_missing(targets: Seq<((Seq<char>, u64), u64, u32)>, addr: Seq<char>)
    requires
        target_place(targets, addr) is None,
    ensures
        forall|k: int| 0 <= k < targets.len() ==> (#[trigger] targets[k]).0.0 != addr,
    decreases targets.len(),
{
    if targets.len() > 0 {
        let init = targets.drop_last();
        lemma_target_missing(init, addr);
        assert forall|k: int| 0 <= k < targets.len() implies (#[trigger] targets[k]).0.0 != addr by {
            if k < init.len() {
                assert(init[k].0.0 != addr);
            }
        }
    }
}

proof fn lemma_targets_distinct(list: Seq<((Seq<char>, u64), u64, u32)>)
    ensures
        forall|a: int, b: int|
            0 <= a < b < targets_of(list).len() ==> (#[trigger] targets_of(list)[a]).0.0 != (#[trigger] targets_of(
                list,
            )[b]).0.0,
    decreases list.len(),
{
    if list.len() > 0 {
        let before = targets_of(list.drop_last());
        let t = list.last();
        let now = targets_of(list);
        lemma_targets_distinct(list.drop_last());
        lemma_target_found(before, t.0.0);
        if target_place(before, t.0.0) is None {
            lemma_target_missing(before, t.0.0);
        }
        assert forall|a: int, b: int| 0 <= a < b < now.len() implies (#[trigger] now[a]).0.0 != (
        #[trigger] now[b]).0.0 by {
            assert(a < before.len());
            if b < before.len() {
                assert(before[a].0.0 != before[b].0.0);
            } else {
                assert(before[a].0.0 != t.0.0);
            }
        }
    }
}

/// Registering addresses changes nothing of those that were known, and adds those
/// of the list alone.
pub proof fn registering_keeps_what_is_known(
    keep: Map<Seq<char>, (u64, AddrState)>,
    list: Seq<((Seq<char>, u64), u64, u32)>,
    a: Seq<char>,
)
    ensures
        keep.contains_key(a) ==> with_targets(keep, list).contains_key(a) && with_targets(keep, list)[a] == keep[a],
        with_targets(keep, list).contains_key(a) && !keep.contains_key(a) ==> list.map_values(
            |t: ((Seq<char>, u64), u64, u32)| t.0.0,
        ).contains(a),
    decreases list.len(),
{
    let texts = list.map_values(|t: ((Seq<char>, u64), u64, u32)| t.0.0);
    if list.len() > 0 {
        let init = list.drop_last();
        let before = init.map_values(|t: ((Seq<char>, u64), u64, u32)| t.0.0);
        registering_keeps_what_is_known(keep, init, a);
        if with_targets(keep, list).contains_key(a) && !keep.contains_key(a) {
            if with_targets(keep, init).contains_key(a) {
                let i = choose|i: int| 0 <= i < before.len() && before[i] == a;
                assert(texts[i] == a);
            } else {
                assert(texts[list.len() - 1] == a);
            }
        }
    }
}

/// An address that was not known is available once it is registered, with no
/// failures, and probed by the hash under which it was named first.
pub proof fn new_addresses_are_available(
    keep: Map<Seq<char>, (u64, AddrState)>,
    list: Seq<((Seq<char>, u64), u64, u32)>,
    i: int,
)
    requires
        0 <= i < list.len(),
        !keep.contains_key(list[i].0.0),
        forall|k: int| 0 <= k < i ==> (#[trigger] list[k]).0.0 != list[i].0.0,
    ensures
        with_targets(keep, list).contains_key(list[i].0.0),
        with_targets(keep, list)[list[i].0.0] == (list[i].0.1, AddrState { failures: 0, available: true }),
    decreases list.len(),
{
    let init = list.drop_last();
    let a = list[i].0.0;
    if i < init.len() {
        assert forall|k: int| 0 <= k < i implies (#[trigger] init[k]).0.0 != init[i].0.0 by {
            assert(list[k].0.0 != a);
        }
        new_addresses_are_available(keep, init, i);
    } else {
        registering_keeps_what_is_known(keep, init, a);
        if with_targets(keep, init).contains_key(a) {
            let texts = init.map_values(|t: ((Seq<char>, u64), u64, u32)| t.0.0);
            let k = choose|k: int| 0 <= k < texts.len() && texts[k] == a;
            assert(list[k].0.0 == a);
        }
    }
}

/// A probe that is sent takes the place of one with its sequence number, and
/// waits behind all others.
pub proof fn sent_probes_wait(
    list: Seq<(u32, (Seq<char>, u64), u128)>,
    due: Seq<((Seq<char>, u64), u64, u32)>,
    seq: u32,
    now_ns: u128,
    t: ((Seq<char>, u64), u64, u32),
)
    ensures
        with_sent(list, Seq::empty(), seq, now_ns) == list,
        ({
            let number = ((seq + due.len() + 1) % 0x1_0000_0000) as u32;
            with_sent(list, due.push(t), seq, now_ns) == with_sent(list, due, seq, now_ns).filter(
                |s: (u32, (Seq<char>, u64), u128)| s.0 != number,
            ).push((number, t.0, now_ns))
        }),
{
    assert(due.push(t).drop_last() =~= due);
    assert(seq + (due.len() + 1) == seq + due.len() + 1);
    let number = ((seq + due.len() + 1) % 0x1_0000_0000) as u32;
    lemma_without_seq(
        with_sent(list, due, seq, now_ns),
        number,
        |s: (u32, (Seq<char>, u64), u128)| s.0 != number,
    );
}

/// Every probe that is sent waits for its answer, if fewer are sent at once than
/// there are sequence numbers.
pub proof fn each_sent_probe_waits(
    list: Seq<(u32, (Seq<char>, u64), u128)>,
    due: Seq<((Seq<char>, u64), u64, u32)>,
    seq: u32,
    now_ns: u128,
    k: int,
)
    requires
        0 <= k < due.len() <= 0x1_0000_0000,
    ensures
        with_sent(list, due, seq, now_ns).contains((((seq + k + 1) % 0x1_0000_0000) as u32, due[k].0, now_ns)),
    decreases due.len(),
{
    let init = due.drop_last();
    let s = seq_after(seq, due.len());
    let before = with_sent(list, init, seq, now_ns);
    let left = without_seq(before, s);
    let e = (((seq + k + 1) % 0x1_0000_0000) as u32, due[k].0, now_ns);
    let now = with_sent(list, due, seq, now_ns);
    if k < init.len() {
        each_sent_probe_waits(list, init, seq, now_ns, k);
        let p = |x: (u32, (Seq<char>, u64), u128)| x.0 != s;
        lemma_without_seq(before, s, p);
        assert((seq + k + 1) % 0x1_0000_0000 != (seq + due.len()) % 0x1_0000_0000);
        assert(e.0 != s);
        lists::lemma_filter_members(before, p, e);
        assert(now == left.push((s, due.last().0, now_ns)));
        let j = choose|j: int| 0 <= j < left.len() && left[j] == e;
        assert(now[j] == e);
    } else {
        assert(now[left.len() as int] == e);
    }
}

/// Something that the probing loop does: it takes the nodes as they are now, or
/// it sends packets, takes one or counts overdue ones, which changes no target.
pub enum Round {
    Sync(Seq<NodeRecord>),
    Probe,
}

/// The targets after a round. `parse` says what an address is parsed to.
pub open spec fn targets_after(
    targets: Seq<((Seq<char>, u64), u64, u32)>,
    round: Round,
    parse: spec_fn(Seq<char>) -> Option<(Seq<char>, u64)>,
) -> Seq<((Seq<char>, u64), u64, u32)> {
    match round {
        Round::Sync(nodes) => targets_of(
            with_addrs(all_declared(nodes), all_declared(nodes).map_values(|d: (u64, u32, Seq<char>)| parse(d.2))),
        ),
        Round::Probe => targets,
    }
}

/// Whether a node, if it is there, declares no address that can be parsed.
pub open spec fn declares_none(
    nodes: Seq<NodeRecord>,
    node_id: u64,
    parse: spec_fn(Seq<char>) -> Option<(Seq<char>, u64)>,
) -> bool {
    forall|i: int, k: int|
        0 <= i < nodes.len() && (#[trigger] nodes[i]).id == node_id && 0 <= k < nodes[i].addrs@.len()
            && nodes[i].addrs@[k].kind@ == "config"@ ==> parse((#[trigger] nodes[i].addrs@[k]).addr@) is None
}

/// Whether a node declares the address, so that it is parsed to that.
pub open spec fn declares(
    node: NodeRecord,
    addr: (Seq<char>, u64),
    parse: spec_fn(Seq<char>) -> Option<(Seq<char>, u64)>,
) -> bool {
    exists|k: int|
        0 <= k < node.addrs@.len() && (#[trigger] node.addrs@[k]).kind@ == "config"@ && parse(node.addrs@[k].addr@)
            == Some(addr)
}

proof fn lemma_declared_by(node: NodeRecord, n: int, j: int)
    requires
        0 <= n <= node.addrs@.len(),
        0 <= j < declared_by(node, n).len(),
    ensures
        declared_by(node, n)[j].0 == node.id,
        exists|k: int|
            0 <= k < n && (#[trigger] node.addrs@[k]).kind@ == "config"@ && node.addrs@[k].addr@ == declared_by(
                node,
                n,
            )[j].2,
    decreases n,
{
    if n > 0 {
        if j < declared_by(node, n - 1).len() {
            lemma_declared_by(node, n - 1, j);
        } else {
            assert(node.addrs@[n - 1].kind@ == "config"@);
        }
    }
}

proof fn lemma_all_declared(nodes: Seq<NodeRecord>, j: int)
    requires
        0 <= j < all_declared(nodes).len(),
    ensures
        exists|i: int, k: int|
            0 <= i < nodes.len() && 0 <= k < (#[trigger] nodes[i]).addrs@.len() && nodes[i].id == all_declared(nodes)[j].0
                && (#[trigger] nodes[i].addrs@[k]).kind@ == "config"@ && nodes[i].addrs@[k].addr@ == all_declared(
                nodes,
            )[j].2,
    decreases nodes.len(),
{
    let init = nodes.drop_last();
    let last = nodes.last();
    let n = last.addrs@.len() as int;
    let before = all_declared(init);
    if j < before.len() {
        lemma_all_declared(init, j);
        let (i, k) = choose|i: int, k: int|
            0 <= i < init.len() && 0 <= k < (#[trigger] init[i]).addrs@.len() && init[i].id == before[j].0 && (
            #[trigger] init[i].addrs@[k]).kind@ == "config"@ && init[i].addrs@[k].addr@ == before[j].2;
        assert(nodes[i] == init[i]);
        assert(nodes[i].addrs@[k].kind@ == "config"@);
    } else {
        lemma_declared_by(last, n, j - before.len());
        let k = choose|k: int|
            0 <= k < n && (#[trigger] last.addrs@[k]).kind@ == "config"@ && last.addrs@[k].addr@ == declared_by(
                last,
                n,
            )[j - before.len()].2;
        assert(nodes[nodes.len() - 1].addrs@[k].kind@ == "config"@);
    }
}

proof fn lemma_with_addrs(declared: Seq<(u64, u32, Seq<char>)>, parsed: Seq<Option<(Seq<char>, u64)>>, j: int)
    requires
        declared.len() == parsed.len(),
        0 <= j < with_addrs(declared, parsed).len(),
    ensures
        exists|k: int|
            0 <= k < declared.len() && (#[trigger] declared[k]).0 == with_addrs(declared, parsed)[j].1 && parsed[k]
                == Some(with_addrs(declared, parsed)[j].0),
    decreases declared.len(),
{
    let d0 = declared.drop_last();
    let p0 = parsed.drop_last();
    let before = with_addrs(d0, p0);
    if j < before.len() {
        lemma_with_addrs(d0, p0, j);
        let k = choose|k: int| 0 <= k < d0.len() && (#[trigger] d0[k]).0 == before[j].1 && p0[k] == Some(before[j].0);
        assert(declared[k] == d0[k] && parsed[k] == p0[k]);
    } else {
        assert(declared[declared.len() - 1].0 == with_addrs(declared, parsed)[j].1);
    }
}

proof fn lemma_target_found(targets: Seq<((Seq<char>, u64), u64, u32)>, addr: Seq<char>)
    ensures
        target_place(targets, addr) matches Some(i) ==> 0 <= i < targets.len() && targets[i].0.0 == addr,
    decreases targets.len(),
{
    if targets.len() > 0 {
        lemma_target_found(targets.drop_last(), addr);
    }
}

/// The owner and the address of a target are each those of an entry of the list.
proof fn lemma_targets_of(list: Seq<((Seq<char>, u64), u64, u32)>, j: int)
    requires
        0 <= j < targets_of(list).len(),
    ensures
        exists|k: int| 0 <= k < list.len() && (#[trigger] list[k]).1 == targets_of(list)[j].1,
        exists|k: int| 0 <= k < list.len() && (#[trigger] list[k]).0 == targets_of(list)[j].0,
    decreases list.len(),
{
    let init = list.drop_last();
    let t = list.last();
    let before = targets_of(init);
    lemma_target_found(before, t.0.0);
    let n = list.len() - 1;
    if j < before.len() {
        lemma_targets_of(init, j);
        let a = choose|k: int| 0 <= k < init.len() && (#[trigger] init[k]).1 == before[j].1;
        let b = choose|k: int| 0 <= k < init.len() && (#[trigger] init[k]).0 == before[j].0;
        assert(list[a] == init[a] && list[b] == init[b]);
        assert(list[n] == t);
    } else {
        assert(list[n] == t);
    }
}

/// What becomes a target after a round in which the nodes were taken comes from
/// a node that declares it.
proof fn lemma_synced(
    nodes: Seq<NodeRecord>,
    parse: spec_fn(Seq<char>) -> Option<(Seq<char>, u64)>,
    j: int,
)
    requires
        0 <= j < targets_after(Seq::empty(), Round::Sync(nodes), parse).len(),
    ensures
        ({
            let t = targets_after(Seq::empty(), Round::Sync(nodes), parse)[j];
            &&& exists|i: int| 0 <= i < nodes.len() && #[trigger] declares(nodes[i], t.0, parse)
            &&& forall|id: u64| #[trigger] declares_none(nodes, id, parse) ==> t.1 != id
        }),
{
    let declared = all_declared(nodes);
    let parsed = declared.map_values(|d: (u64, u32, Seq<char>)| parse(d.2));
    let list = with_addrs(declared, parsed);
    let t = targets_of(list)[j];
    lemma_targets_of(list, j);
    let a = choose|k: int| 0 <= k < list.len() && (#[trigger] list[k]).1 == t.1;
    let b = choose|k: int| 0 <= k < list.len() && (#[trigger] list[k]).0 == t.0;
    lemma_with_addrs(declared, parsed, a);
    let c = choose|k: int| 0 <= k < declared.len() && (#[trigger] declared[k]).0 == list[a].1 && parsed[k] == Some(list[a].0);
    lemma_all_declared(nodes, c);
    let (i, k) = choose|i: int, k: int|
        0 <= i < nodes.len() && 0 <= k < (#[trigger] nodes[i]).addrs@.len() && nodes[i].id == declared[c].0 && (
        #[trigger] nodes[i].addrs@[k]).kind@ == "config"@ && nodes[i].addrs@[k].addr@ == declared[c].2;
    assert(parse(nodes[i].addrs@[k].addr@) is Some);
    lemma_with_addrs(declared, parsed, b);
    let e = choose|k: int| 0 <= k < declared.len() && (#[trigger] declared[k]).0 == list[b].1 && parsed[k] == Some(list[b].0);
    lemma_all_declared(nodes, e);
    let (m, q) = choose|i: int, k: int|
        0 <= i < nodes.len() && 0 <= k < (#[trigger] nodes[i]).addrs@.len() && nodes[i].id == declared[e].0 && (
        #[trigger] nodes[i].addrs@[k]).kind@ == "config"@ && nodes[i].addrs@[k].addr@ == declared[e].2;
    assert(nodes[m].addrs@[q].kind@ == "config"@ && parse(nodes[m].addrs@[q].addr@) == Some(t.0));
    assert(declares(nodes[m], t.0, parse));
}

/// Whether a node declared the address when the nodes were taken in one of the
/// rounds.
pub open spec fn was_declared(
    rounds: Seq<Round>,
    addr: (Seq<char>, u64),
    parse: spec_fn(Seq<char>) -> Option<(Seq<char>, u64)>,
) -> bool {
    exists|nodes: Seq<NodeRecord>, i: int|
        rounds.contains(Round::Sync(nodes)) && 0 <= i < nodes.len() && #[trigger] declares(nodes[i], addr, parse)
}

/// What is filtered out of a list is in the list.
proof fn lemma_filtered<A>(list: Seq<A>, p: spec_fn(A) -> bool, j: int)
    requires
        0 <= j < list.filter(p).len(),
    ensures
        exists|k: int| 0 <= k < list.len() && #[trigger] list[k] == list.filter(p)[j],
    decreases list.len(),
{
    reveal(Seq::filter);
    let init = list.drop_last();
    if j < init.filter(p).len() {
        lemma_filtered(init, p, j);
        let k = choose|k: int| 0 <= k < init.len() && #[trigger] init[k] == init.filter(p)[j];
        assert(list[k] == init[k]);
    } else {
        assert(list[list.len() - 1] == list.filter(p)[j]);
    }
}

proof fn lemma_targets_declared(
    states: Seq<Seq<((Seq<char>, u64), u64, u32)>>,
    rounds: Seq<Round>,
    parse: spec_fn(Seq<char>) -> Option<(Seq<char>, u64)>,
    node_id: u64,
    j: int,
)
    requires
        states.len() == rounds.len() + 1,
        states[0].len() == 0,
        forall|r: int| 0 <= r < rounds.len() ==> #[trigger] states[r + 1] == targets_after(states[r], rounds[r], parse),
        forall|r: int|
            0 <= r < rounds.len() && (#[trigger] rounds[r]) is Sync ==> declares_none(
                rounds[r]->Sync_0,
                node_id,
                parse,
            ),
        0 <= j < states.last().len(),
    ensures
        states.last()[j].1 != node_id,
        was_declared(rounds, states.last()[j].0, parse),
    decreases rounds.len(),
{
    if rounds.len() > 0 {
        let n = rounds.len() - 1;
        let t = states.last()[j];
        assert(states[n + 1] == targets_after(states[n], rounds[n], parse));
        match rounds[n] {
            Round::Sync(nodes) => {
                lemma_synced(nodes, parse, j);
                assert(declares_none(nodes, node_id, parse));
                let i = choose|i: int| 0 <= i < nodes.len() && #[trigger] declares(nodes[i], t.0, parse);
                assert(rounds.contains(Round::Sync(nodes)));
                assert(declares(nodes[i], t.0, parse));
            },
            Round::Probe => {
                let s0 = states.drop_last();
                let r0 = rounds.drop_last();
                assert forall|r: int| 0 <= r < r0.len() implies #[trigger] s0[r + 1] == targets_after(
                    s0[r],
                    r0[r],
                    parse,
                ) by {
                    assert(states[r + 1] == targets_after(states[r], rounds[r], parse));
                }
                assert forall|r: int| 0 <= r < r0.len() && (#[trigger] r0[r]) is Sync implies declares_none(
                    r0[r]->Sync_0,
                    node_id,
                    parse,
                ) by {
                    assert(rounds[r] == r0[r]);
                }
                lemma_targets_declared(s0, r0, parse, node_id, j);
                let (nodes, i) = choose|nodes: Seq<NodeRecord>, i: int|
                    r0.contains(Round::Sync(nodes)) && 0 <= i < nodes.len() && #[trigger] declares(
                        nodes[i],
                        t.0,
                        parse,
                    );
                let r = choose|r: int| 0 <= r < r0.len() && r0[r] == Round::Sync(nodes);
                assert(rounds[r] == Round::Sync(nodes));
                assert(rounds.contains(Round::Sync(nodes)));
                assert(declares(nodes[i], t.0, parse));
            },
        }
    }
}

/// Only declared addresses are probed: however the loop goes on, from no
/// targets, a node that never declares an address that can be parsed is no
/// target, so it is never probed and its status is never changed; and every
/// address that is probed, at any second, is one that a node declared.
pub proof fn only_declared_addresses_are_probed(
    states: Seq<Seq<((Seq<char>, u64), u64, u32)>>,
    rounds: Seq<Round>,
    parse: spec_fn(Seq<char>) -> Option<(Seq<char>, u64)>,
    node_id: u64,
    now_secs: u64,
    interval_secs: u64,
)
    requires
        states.len() == rounds.len() + 1,
        states[0].len() == 0,
        forall|r: int| 0 <= r < rounds.len() ==> #[trigger] states[r + 1] == targets_after(states[r], rounds[r], parse),
        forall|r: int|
            0 <= r < rounds.len() && (#[trigger] rounds[r]) is Sync ==> declares_none(
                rounds[r]->Sync_0,
                node_id,
                parse,
            ),
    ensures
        forall|j: int| 0 <= j < states.last().len() ==> (#[trigger] states.last()[j]).1 != node_id,
        forall|j: int|
            0 <= j < due_targets(states.last(), now_secs, interval_secs).len() ==> (#[trigger] due_targets(
                states.last(),
                now_secs,
                interval_secs,
            )[j]).1 != node_id && was_declared(
                rounds,
                due_targets(states.last(), now_secs, interval_secs)[j].0,
                parse,
            ),
{
    let targets = states.last();
    let due = due_targets(targets, now_secs, interval_secs);
    assert forall|j: int| 0 <= j < targets.len() implies (#[trigger] targets[j]).1 != node_id by {
        lemma_targets_declared(states, rounds, parse, node_id, j);
    }
    assert forall|j: int| 0 <= j < due.len() implies (#[trigger] due[j]).1 != node_id && was_declared(
        rounds,
        due[j].0,
        parse,
    ) by {
        lemma_filtered(
            targets,
            |t: ((Seq<char>, u64), u64, u32)| is_due(t.0.1, now_secs, interval_secs),
            j,
        );
        let k = choose|k: int| 0 <= k < targets.len() && #[trigger] targets[k] == due[j];
        lemma_targets_declared(states, rounds, parse, node_id, k);
    }
}

} // verus!
