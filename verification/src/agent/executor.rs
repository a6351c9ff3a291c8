//! Running a download task: which source each missing chunk is fetched from,
//! what happens to chunks that a source does not deliver, and what an agent
//! has to fetch for a version in the first place.
use vstd::prelude::*;

use crate::agent::config::NodeType;
use crate::agent::update;
use crate::agent::update::PieceSource;
use crate::common::chunk_set;
use crate::common::chunk_set::ChunkSet;
use crate::common::order;
use crate::common::text;
use crate::common::update_plan;
use crate::producer::delta;
use crate::producer::manifest;
use crate::producer::manifest::{GameIndex, ManifestError};
use crate::proto::{Peer, Task};

verus! {

broadcast use vstd::array::group_array_axioms;

/// Where chunks can be fetched from.
#[derive(Debug, Clone, PartialEq, Eq)]
pub struct Target {
    pub endpoint_id: String,
    /// The address for a direct connection.
    pub addr: Option<String>,
    pub direct_only: bool,
}

/// What a target says.
pub struct TargetView {
    pub endpoint_id: Seq<char>,
    pub addr: Option<Seq<char>>,
    pub direct_only: bool,
}

/// What an optional text says.
pub open spec fn option_view(t: Option<String>) -> Option<Seq<char>> {
    match t {
        Some(s) => Some(s@),
        None => None,
    }
}

impl View for Target {
    type V = TargetView;

    open spec fn view(&self) -> TargetView {
        TargetView {
            endpoint_id: self.endpoint_id@,
            addr: option_view(self.addr),
            direct_only: self.direct_only,
        }
    }
}

/// The chunks to fetch from one target.
#[derive(Debug, Clone, PartialEq, Eq)]
pub struct Group {
    pub target: Target,
    pub hashes: Vec<[u8; 32]>,
}

/// What a group says.
#[verifier::ext_equal]
pub struct GroupView {
    pub target: TargetView,
    pub hashes: Seq<[u8; 32]>,
}

impl View for Group {
    type V = GroupView;

    open spec fn view(&self) -> GroupView {
        GroupView { target: self.target@, hashes: self.hashes@ }
    }
}

/// What groups say.
pub open spec fn group_views(groups: Seq<Group>) -> Seq<GroupView> {
    groups.map_values(|g: Group| g@)
}

/// Why a download gave up.
#[derive(Debug, Clone, Copy, PartialEq, Eq, Structural)]
pub enum DownloadError {
    /// No source has the chunks and no origin is configured.
    NoSource { game_id: u64, count: usize },
    /// Other nodes have yet to fetch the chunks that were assigned to them.
    WaitForOthers { game_id: u64, count: usize },
    /// The origin did not deliver all chunks.
    StillMissing { count: usize },
    /// The source has no address for a direct connection.
    NoDirectAddr,
}

impl DownloadError {
    /// What to tell a user.
    pub open spec fn text(self) -> Seq<char> {
        match self {
            DownloadError::NoSource { game_id, count } => "块无候选源且未配置原始节点: 游戏 "@ + text::decimal(
                game_id as nat,
            ) + " 缺 "@ + text::decimal(count as nat) + " 块"@,
            DownloadError::WaitForOthers { game_id, count } => "等待其他节点完成责任分片后重试: 游戏 "@
                + text::decimal(game_id as nat) + " 缺 "@ + text::decimal(count as nat) + " 块"@,
            DownloadError::StillMissing { count } => "仍有 "@ + text::decimal(count as nat) + " 块下载失败"@,
            DownloadError::NoDirectAddr => "源无直连地址，无法传输数据（relay 只打洞不传数据）"@,
        }
    }

    /// What to tell a user.
    pub fn message(&self) -> (out: String)
        ensures
            out@ == self.text(),
            out@ == (match *self {
                DownloadError::NoSource { game_id, count } => "块无候选源且未配置原始节点: 游戏 "@ + text::decimal(
                    game_id as nat,
                ) + " 缺 "@ + text::decimal(count as nat) + " 块"@,
                DownloadError::WaitForOthers { game_id, count } => "等待其他节点完成责任分片后重试: 游戏 "@
                    + text::decimal(game_id as nat) + " 缺 "@ + text::decimal(count as nat) + " 块"@,
                DownloadError::StillMissing { count } => "仍有 "@ + text::decimal(count as nat) + " 块下载失败"@,
                DownloadError::NoDirectAddr => "源无直连地址，无法传输数据（relay 只打洞不传数据）"@,
            }),
    {
        match self {
            DownloadError::NoSource { game_id, count } => missing_text(
                "块无候选源且未配置原始节点: 游戏 ",
                *game_id,
                *count,
            ),
            DownloadError::WaitForOthers { game_id, count } => missing_text(
                "等待其他节点完成责任分片后重试: 游戏 ",
                *game_id,
                *count,
            ),
            DownloadError::StillMissing { count } => {
                let mut out = String::new();
                out.append("仍有 ");
                text::push_decimal(&mut out, *count as u64);
                out.append(" 块下载失败");
                assert(out@ =~= self.text());
                out
            },
            DownloadError::NoDirectAddr => "源无直连地址，无法传输数据（relay 只打洞不传数据）".to_owned(),
        }
    }
}

fn missing_text(start: &str, game_id: u64, count: usize) -> (out: String)
    ensures
        out@ == start@ + text::decimal(game_id as nat) + " 缺 "@ + text::decimal(count as nat) + " 块"@,
{
    let mut out = String::new();
    out.append(start);
    text::push_decimal(&mut out, game_id);
    out.append(" 缺 ");
    text::push_decimal(&mut out, count as u64);
    out.append(" 块");
    assert(out@ =~= start@ + text::decimal(game_id as nat) + " 缺 "@ + text::decimal(count as nat) + " 块"@);
    out
}

/// Whether two optional texts are equal.
fn same_option(a: &Option<String>, b: &Option<String>) -> (same: bool)
    ensures
        same == (option_view(*a) == option_view(*b)),
{
    match (a, b) {
        (Some(x), Some(y)) => text::same_text(x.as_str(), y.as_str()),
        (None, None) => true,
        _ => false,
    }
}

/// Two targets are the same source exactly where endpoint, address and kind of
/// connection are.
pub proof fn targets_are_told_apart(a: Target, b: Target)
    ensures
        a@ == b@ <==> a.endpoint_id@ == b.endpoint_id@ && a.direct_only == b.direct_only && match (a.addr, b.addr) {
            (Some(x), Some(y)) => x@ == y@,
            (None, None) => true,
            _ => false,
        },
{
}

/// What a group says: its target and its chunks, in their order.
pub proof fn groups_say_all(groups: Seq<Group>, i: int)
    requires
        0 <= i < groups.len(),
    ensures
        group_views(groups).len() == groups.len(),
        group_views(groups)[i].target == groups[i].target@,
        group_views(groups)[i].hashes == groups[i].hashes@,
{
}

/// Whether two targets are the same source.
fn same_target(a: &Target, b: &Target) -> (same: bool)
    ensures
        same == (a@ == b@),
{
    text::same_text(a.endpoint_id.as_str(), b.endpoint_id.as_str()) && same_option(&a.addr, &b.addr)
        && a.direct_only == b.direct_only
}

/// The source for a chunk: the first peer that has an address, and which of
/// its addresses. The addresses of a peer take turns by the chunk's hash.
pub fn choose_source(hash: &[u8; 32], peers: &Vec<Peer>) -> (choice: Option<(usize, usize)>)
    ensures
        match choice {
            Some((p, a)) => {
                &&& p < peers@.len()
                &&& peers@[p as int].addrs@.len() > 0
                &&& forall|q: int| 0 <= q < p ==> (#[trigger] peers@[q]).addrs@.len() == 0
                &&& a == hash@[0] as int % peers@[p as int].addrs@.len() as int
            },
            None => forall|q: int| 0 <= q < peers@.len() ==> (#[trigger] peers@[q]).addrs@.len() == 0,
        },
{
    let mut p: usize = 0;
    while p < peers.len()
        invariant
            p <= peers@.len(),
            forall|q: int| 0 <= q < p ==> (#[trigger] peers@[q]).addrs@.len() == 0,
        decreases peers.len() - p,
    {
        let n: usize = peers[p].addrs.len();
        if n > 0 {
            return Some((p, hash[0] as usize % n));
        }
        p = p + 1;
    }
    None
}

/// The position of the group for a target.
pub open spec fn group_of(groups: Seq<GroupView>, target: TargetView) -> Option<int>
    decreases groups.len(),
{
    if groups.len() == 0 {
        None
    } else {
        match group_of(groups.drop_last(), target) {
            Some(i) => Some(i),
            None => if groups.last().target == target {
                Some(groups.len() - 1)
            } else {
                None
            },
        }
    }
}

/// The groups after one more chunk was routed to a target: it joins the
/// target's group, or opens a new group at the end.
pub open spec fn with_hash(groups: Seq<GroupView>, target: TargetView, hash: [u8; 32]) -> Seq<GroupView> {
    match group_of(groups, target) {
        Some(i) => groups.update(i, GroupView { target, hashes: groups[i].hashes.push(hash) }),
        None => groups.push(GroupView { target, hashes: seq![hash] }),
    }
}

pub proof fn lemma_group_of(groups: Seq<GroupView>, target: TargetView)
    ensures
        match group_of(groups, target) {
            Some(i) => 0 <= i < groups.len() && groups[i].target == target && forall|k: int|
                0 <= k < i ==> (#[trigger] groups[k]).target != target,
            None => forall|k: int| 0 <= k < groups.len() ==> (#[trigger] groups[k]).target != target,
        },
    decreases groups.len(),
{
    if groups.len() > 0 {
        let init = groups.drop_last();
        lemma_group_of(init, target);
        assert forall|k: int| 0 <= k < init.len() implies init[k] == groups[k] by {}
    }
}

/// How the missing chunks are spread over sources.
#[derive(Debug, Clone, PartialEq, Eq)]
pub struct Routing {
    pub groups: Vec<Group>,
    /// Chunks without a source.
    pub fallback: Vec<[u8; 32]>,
}

/// What a routing says.
#[verifier::ext_equal]
pub struct RoutingView {
    pub groups: Seq<GroupView>,
    pub fallback: Seq<[u8; 32]>,
}

impl View for Routing {
    type V = RoutingView;

    open spec fn view(&self) -> RoutingView {
        RoutingView { groups: group_views(self.groups@), fallback: self.fallback@ }
    }
}

impl RoutingView {
    /// Whether no two groups have the same target.
    pub open spec fn distinct(self) -> bool {
        forall|i: int, j: int| 0 <= i < j < self.groups.len() ==> (#[trigger] self.groups[i]).target != (
        #[trigger] self.groups[j]).target
    }

    /// Whether the chunk is in a group or among those without a source.
    pub open spec fn holds(self, hash: [u8; 32]) -> bool {
        self.fallback.contains(hash) || in_groups(self.groups, 0, hash)
    }

    /// The routing after one more chunk.
    pub open spec fn route(self, hash: [u8; 32], target: Option<TargetView>) -> RoutingView {
        match target {
            Some(t) => RoutingView { groups: with_hash(self.groups, t, hash), fallback: self.fallback },
            None => RoutingView { groups: self.groups, fallback: self.fallback.push(hash) },
        }
    }
}

/// Whether a group at `from` or later has the chunk.
pub open spec fn in_groups(groups: Seq<GroupView>, from: int, hash: [u8; 32]) -> bool {
    exists|i: int| from <= i < groups.len() && (#[trigger] groups[i]).hashes.contains(hash)
}

/// What an optional target says.
pub open spec fn target_view(target: Option<Target>) -> Option<TargetView> {
    match target {
        Some(t) => Some(t@),
        None => None,
    }
}

impl Routing {
    /// Nothing routed yet.
    pub fn new() -> (r: Self)
        ensures
            r@.groups.len() == 0,
            r@.fallback.len() == 0,
            r@.distinct(),
    {
        Routing { groups: Vec::new(), fallback: Vec::new() }
    }

    /// Routes one chunk to its source, if it has one.
    pub fn route(&mut self, hash: [u8; 32], target: Option<Target>)
        requires
            old(self)@.distinct(),
        ensures
            final(self)@ == old(self)@.route(hash, target_view(target)),
            final(self)@.distinct(),
            target is None ==> final(self).groups@ == old(self).groups@ && final(self).fallback@ == old(self).fallback@.push(hash),
            target matches Some(t) ==> final(self).fallback@ == old(self).fallback@ && exists|i: int|
                0 <= i < final(self).groups@.len() && (#[trigger] final(self).groups@[i]).hashes@.contains(hash)
                    && final(self).groups@[i].target.endpoint_id@ == t.endpoint_id@ && final(self).groups@[i].target.direct_only == t.direct_only && (match (final(self).groups@[i].target.addr, t.addr) {
                    (Some(x), Some(y)) => x@ == y@,
                    (None, None) => true,
                    _ => false,
                }) && forall|k: int|
                    0 <= k < old(self).groups@.len() && k != i ==> #[trigger] final(self).groups@[k] == old(self).groups@[k],
    {
        let ghost before = self@;
        let ghost groups0 = self.groups@;
        match target {
            None => {
                self.fallback.push(hash);
            },
            Some(t) => {
                let ghost tv = t@;
                proof {
                    lemma_group_of(before.groups, tv);
                }
                let mut i: usize = 0;
                while i < self.groups.len() && !same_target(&self.groups[i].target, &t)
                    invariant
                        i <= self.groups@.len(),
                        self@ == before,
                        t@ == tv,
                        forall|k: int| 0 <= k < i ==> (#[trigger] before.groups[k]).target != tv,
                    decreases self.groups.len() - i,
                {
                    assert(before.groups[i as int] == self.groups@[i as int]@);
                    i = i + 1;
                }
                if i < self.groups.len() {
                    assert(before.groups[i as int] == self.groups@[i as int]@);
                    let Group { target: kept, hashes: list } = self.groups.remove(i);
                    let mut list = list;
                    let ghost list0 = list@;
                    list.push(hash);
                    let ghost g0 = before.groups[i as int];
                    self.groups.insert(i, Group { target: kept, hashes: list });
                    proof {
                        let want = before.groups.update(
                            i as int,
                            GroupView { target: tv, hashes: g0.hashes.push(hash) },
                        );
                        assert(group_of(before.groups, tv) == Some(i as int));
                        assert(self@.groups =~= want);
                        assert(self.groups@[i as int].hashes@ == list0.push(hash));
                        order::lemma_push_contains(list0, hash, hash);
                        assert(self@.groups[i as int] == self.groups@[i as int]@);
                        assert(self.groups@[i as int].target@ == tv);
                        assert forall|k: int| 0 <= k < groups0.len() && k != i implies #[trigger] self.groups@[k]
                            == groups0[k] by {}
                    }
                } else {
                    let mut list: Vec<[u8; 32]> = Vec::new();
                    list.push(hash);
                    self.groups.push(Group { target: t, hashes: list });
                    proof {
                        assert(group_of(before.groups, tv) is None);
                        assert(self@.groups =~= before.groups.push(GroupView { target: tv, hashes: seq![hash] }));
                        let last = self.groups@.len() - 1;
                        assert(self.groups@[last].hashes@[0] == hash);
                        assert(self.groups@[last].target@ == tv);
                    }
                }
            },
        }
        assert(self@ =~= before.route(hash, target_view(target)));
    }
}

/// A chunk is fetched from the source that was chosen for it: it is added, at
/// the end, to a group with that source, which is new where no group had it;
/// every other group keeps its source and its chunks, and no chunk is left
/// without a source by that. A chunk without a source changes no group.
pub proof fn chunk_goes_to_its_source(r: RoutingView, hash: [u8; 32], target: Option<TargetView>)
    ensures
        target matches Some(t) ==> r.route(hash, target).fallback == r.fallback && exists|i: int|
            0 <= i < r.route(hash, target).groups.len() && (#[trigger] r.route(hash, target).groups[i]).target == t
                && r.route(hash, target).groups[i].hashes.contains(hash) && (if i < r.groups.len() {
                r.groups[i].target == t && r.route(hash, target).groups.len() == r.groups.len() && r.route(
                    hash,
                    target,
                ).groups[i].hashes == r.groups[i].hashes.push(hash)
            } else {
                i == r.groups.len() && r.route(hash, target).groups.len() == r.groups.len() + 1 && r.route(
                    hash,
                    target,
                ).groups[i].hashes == seq![hash] && forall|k: int|
                    0 <= k < r.groups.len() ==> (#[trigger] r.groups[k]).target != t
            }) && forall|k: int|
                0 <= k < r.groups.len() && k != i ==> #[trigger] r.route(hash, target).groups[k] == r.groups[k],
        target is None ==> r.route(hash, target).groups == r.groups && r.route(hash, target).fallback
            == r.fallback.push(hash),
{
    if let Some(t) = target {
        lemma_group_of(r.groups, t);
        let after = r.route(hash, target);
        match group_of(r.groups, t) {
            Some(i) => {
                assert(r.groups[i].hashes.push(hash)[r.groups[i].hashes.len() as int] == hash);
                assert(after.groups[i].target == t);
            },
            None => {
                assert(seq![hash][0] == hash);
                assert(after.groups[r.groups.len() as int].target == t);
            },
        }
    }
}

/// Two chunks are fetched together exactly where the same source was chosen for
/// them; chunks of different sources stay apart, in the order of the routing.
pub proof fn sources_are_not_mixed(a: [u8; 32], s: TargetView, b: [u8; 32], t: TargetView)
    requires
        a != b,
    ensures
        ({
            let none = RoutingView { groups: Seq::empty(), fallback: Seq::empty() };
            let groups = none.route(a, Some(s)).route(b, Some(t)).groups;
            if s == t {
                groups.len() == 1 && groups[0].target == s && groups[0].hashes == seq![a, b]
            } else {
                groups.len() == 2 && groups[0].target == s && groups[0].hashes == seq![a] && groups[1].target == t
                    && groups[1].hashes == seq![b]
            }
        }),
{
    let none = RoutingView { groups: Seq::empty(), fallback: Seq::empty() };
    let one = none.route(a, Some(s));
    let two = one.route(b, Some(t));
    chunk_goes_to_its_source(none, a, Some(s));
    chunk_goes_to_its_source(one, b, Some(t));
    assert(one.groups.len() == 1 && one.groups[0].hashes == seq![a]);
    if s == t {
        assert(two.groups[0].hashes =~= seq![a, b]);
    }
}

/// Routing neither loses nor invents a chunk: afterwards exactly the chunks
/// from before and the new one are in a group or without a source.
pub proof fn routing_keeps_every_chunk(r: RoutingView, hash: [u8; 32], target: Option<TargetView>, h: [u8; 32])
    ensures
        r.route(hash, target).holds(h) <==> r.holds(h) || h == hash,
{
    let after = r.route(hash, target);
    match target {
        None => {
            order::lemma_push_contains(r.fallback, hash, h);
        },
        Some(t) => {
            lemma_group_of(r.groups, t);
            if in_groups(r.groups, 0, h) {
                let i = choose|i: int| 0 <= i < r.groups.len() && (#[trigger] r.groups[i]).hashes.contains(h);
                order::lemma_push_contains(r.groups[i].hashes, hash, h);
                assert(after.groups[i].hashes.contains(h));
            }
            let at = match group_of(r.groups, t) {
                Some(i) => i,
                None => r.groups.len() as int,
            };
            if h == hash {
                match group_of(r.groups, t) {
                    Some(i) => {
                        order::lemma_push_contains(r.groups[i].hashes, hash, h);
                    },
                    None => {
                        assert(seq![hash][0] == h);
                    },
                }
                assert(after.groups[at].hashes.contains(h));
            }
            if in_groups(after.groups, 0, h) && h != hash {
                let i = choose|i: int| 0 <= i < after.groups.len() && (#[trigger] after.groups[i]).hashes.contains(h);
                if i == at {
                    match group_of(r.groups, t) {
                        Some(k) => {
                            order::lemma_push_contains(r.groups[k].hashes, hash, h);
                            assert(r.groups[k].hashes.contains(h));
                        },
                        None => {
                            let m = choose|m: int| 0 <= m < seq![hash].len() && seq![hash][m] == h;
                            assert(m == 0);
                        },
                    }
                } else {
                    assert(r.groups[i].hashes.contains(h));
                }
            }
        },
    }
}

/// The chunks of `s` that are in `set` (`want`) or not in it (`!want`).
pub open spec fn select(s: Seq<[u8; 32]>, set: Seq<[u8; 32]>, want: bool) -> Seq<[u8; 32]>
    decreases s.len(),
{
    if s.len() == 0 {
        Seq::empty()
    } else {
        let before = select(s.drop_last(), set, want);
        if set.contains(s.last()) == want {
            before.push(s.last())
        } else {
            before
        }
    }
}

pub proof fn lemma_select(s: Seq<[u8; 32]>, set: Seq<[u8; 32]>, want: bool, h: [u8; 32])
    ensures
        select(s, set, want).contains(h) <==> s.contains(h) && set.contains(h) == want,
    decreases s.len(),
{
    if s.len() > 0 {
        lemma_select(s.drop_last(), set, want, h);
        assert(s =~= s.drop_last().push(s.last()));
        order::lemma_push_contains(s.drop_last(), s.last(), h);
        order::lemma_push_contains(select(s.drop_last(), set, want), s.last(), h);
    }
}

/// Selecting keeps exactly the chunks that are in the set, or exactly the
/// others, in their order and as often as they occur.
pub proof fn selecting_filters(s: Seq<[u8; 32]>, set: Seq<[u8; 32]>, want: bool)
    ensures
        select(s, set, want) == s.filter(|h: [u8; 32]| set.contains(h) == want),
    decreases s.len(),
{
    reveal(Seq::filter);
    if s.len() > 0 {
        selecting_filters(s.drop_last(), set, want);
    }
    assert(select(s, set, want) =~= s.filter(|h: [u8; 32]| set.contains(h) == want));
}

/// A download in progress. Groups before `next` have been tried.
#[derive(Debug)]
pub struct Download {
    pub game_id: u64,
    /// The chunks that may be fetched from the origin.
    pub assigned: ChunkSet,
    pub groups: Vec<Group>,
    pub next: usize,
    /// Chunks left for the origin.
    pub retry: Vec<[u8; 32]>,
    /// Chunks that other nodes have to fetch from the origin first.
    pub blocked: Vec<[u8; 32]>,
    pub downloaded: Vec<[u8; 32]>,
}

/// What a download in progress says.
#[verifier::ext_equal]
pub struct DownloadView {
    pub game_id: u64,
    pub assigned: Seq<[u8; 32]>,
    pub groups: Seq<GroupView>,
    pub next: int,
    pub retry: Seq<[u8; 32]>,
    pub blocked: Seq<[u8; 32]>,
    pub downloaded: Seq<[u8; 32]>,
}

impl View for Download {
    type V = DownloadView;

    open spec fn view(&self) -> DownloadView {
        DownloadView {
            game_id: self.game_id,
            assigned: self.assigned@,
            groups: group_views(self.groups@),
            next: self.next as int,
            retry: self.retry@,
            blocked: self.blocked@,
            downloaded: self.downloaded@,
        }
    }
}

/// What remains to be asked after all groups were tried.
#[derive(Debug, Clone, PartialEq, Eq)]
pub enum Settled {
    /// Everything is there.
    Done,
    /// The origin has to deliver these chunks.
    AskOrigin(Vec<[u8; 32]>),
}

impl DownloadView {
    /// A download whose groups are all untried.
    pub open spec fn start(game_id: u64, routing: RoutingView, assigned: Seq<[u8; 32]>) -> DownloadView {
        DownloadView {
            game_id,
            assigned,
            groups: routing.groups,
            next: 0,
            retry: select(routing.fallback, assigned, true),
            blocked: select(routing.fallback, assigned, false),
            downloaded: Seq::empty(),
        }
    }

    /// The download after the next group delivered `stored` and lost `lost`.
    pub open spec fn group_done(self, stored: Seq<[u8; 32]>, lost: Seq<[u8; 32]>) -> DownloadView {
        DownloadView {
            next: self.next + 1,
            retry: self.retry + select(lost, self.assigned, true),
            blocked: self.blocked + select(lost, self.assigned, false),
            downloaded: self.downloaded + stored,
            ..self
        }
    }

    /// The download after the origin delivered `stored`.
    pub open spec fn origin_done(self, stored: Seq<[u8; 32]>) -> DownloadView {
        DownloadView { downloaded: self.downloaded + stored, ..self }
    }

    /// Whether the chunk was delivered, is left for the origin, is blocked, or
    /// is in a group that was not tried yet.
    pub open spec fn accounts(self, h: [u8; 32]) -> bool {
        self.downloaded.contains(h) || self.retry.contains(h) || self.blocked.contains(h) || in_groups(
            self.groups,
            self.next,
            h,
        )
    }

    /// Whether only assigned chunks are left for the origin, and only others
    /// are blocked.
    pub open spec fn sorted_out(self) -> bool {
        &&& forall|h: [u8; 32]| #[trigger] self.retry.contains(h) ==> self.assigned.contains(h)
        &&& forall|h: [u8; 32]| #[trigger] self.blocked.contains(h) ==> !self.assigned.contains(h)
    }
}

impl Download {
    /// Starts on a routing.
    pub fn start(game_id: u64, routing: Routing, assigned: ChunkSet) -> (d: Self)
        ensures
            d@ == DownloadView::start(game_id, routing@, assigned@),
            d.game_id == game_id,
            d.assigned == assigned,
            d.groups == routing.groups,
            d.next == 0,
            d.downloaded@.len() == 0,
            forall|h: [u8; 32]| #[trigger]
                d.retry@.contains(h) <==> routing.fallback@.contains(h) && assigned@.contains(h),
            forall|h: [u8; 32]| #[trigger]
                d.blocked@.contains(h) <==> routing.fallback@.contains(h) && !assigned@.contains(h),
            d.retry@.len() + d.blocked@.len() == routing.fallback@.len(),
    {
        let Routing { groups, fallback } = routing;
        let mut d = Download {
            game_id,
            assigned,
            groups,
            next: 0,
            retry: Vec::new(),
            blocked: Vec::new(),
            downloaded: Vec::new(),
        };
        d.triage(&fallback);
        proof {
            lemma_select_splits(fallback@, d.assigned@);
        }
        assert(d@.retry =~= select(fallback@, d.assigned@, true));
        assert(d@.blocked =~= select(fallback@, d.assigned@, false));
        assert(d@ =~= DownloadView::start(game_id, routing@, assigned@));
        d
    }

    /// Sorts lost chunks into those for the origin and those that wait.
    fn triage(&mut self, lost: &Vec<[u8; 32]>)
        ensures
            final(self)@.retry == old(self)@.retry + select(lost@, old(self)@.assigned, true),
            final(self)@.blocked == old(self)@.blocked + select(lost@, old(self)@.assigned, false),
            final(self).game_id == old(self).game_id,
            final(self).assigned == old(self).assigned,
            final(self).groups == old(self).groups,
            final(self).next == old(self).next,
            final(self).downloaded == old(self).downloaded,
    {
        let ghost retry0 = self.retry@;
        let ghost blocked0 = self.blocked@;
        let ghost set = self.assigned@;
        let mut i: usize = 0;
        proof {
            assert(lost@.take(0) =~= Seq::empty());
            assert(retry0 + select(lost@.take(0), set, true) =~= retry0);
            assert(blocked0 + select(lost@.take(0), set, false) =~= blocked0);
        }
        while i < lost.len()
            invariant
                i <= lost@.len(),
                set == self.assigned@,
                self.retry@ == retry0 + select(lost@.take(i as int), set, true),
                self.blocked@ == blocked0 + select(lost@.take(i as int), set, false),
                self.game_id == old(self).game_id,
                self.assigned == old(self).assigned,
                self.groups == old(self).groups,
                self.next == old(self).next,
                self.downloaded == old(self).downloaded,
            decreases lost.len() - i,
        {
            let h = lost[i];
            assert(lost@.take(i + 1).drop_last() =~= lost@.take(i as int));
            if self.assigned.contains(&h) {
                self.retry.push(h);
            } else {
                self.blocked.push(h);
            }
            i = i + 1;
            proof {
                assert(self.retry@ =~= retry0 + select(lost@.take(i as int), set, true));
                assert(self.blocked@ =~= blocked0 + select(lost@.take(i as int), set, false));
            }
        }
        assert(lost@.take(i as int) =~= lost@);
    }

    /// Notes what became of the next group: the chunks that were stored, and
    /// the chunks that the source failed to deliver; `None` where the source
    /// could not be reached or broke off, so that the whole group is lost.
    pub fn group_done(&mut self, stored: &Vec<[u8; 32]>, failed: Option<&Vec<[u8; 32]>>)
        requires
            old(self).next < old(self).groups@.len(),
        ensures
            final(self)@ == old(self)@.group_done(
                stored@,
                match failed {
                    Some(f) => f@,
                    None => old(self)@.groups[old(self).next as int].hashes,
                },
            ),
            final(self).game_id == old(self).game_id,
            final(self).assigned == old(self).assigned,
            final(self).groups == old(self).groups,
            final(self).next == old(self).next + 1,
            final(self).downloaded@ == old(self).downloaded@ + stored@,
            failed matches Some(f) ==> {
                &&& forall|h: [u8; 32]| #[trigger]
                    final(self).retry@.contains(h) <==> old(self).retry@.contains(h) || (f@.contains(h) && old(
                        self).assigned@.contains(h))
                &&& forall|h: [u8; 32]| #[trigger]
                    final(self).blocked@.contains(h) <==> old(self).blocked@.contains(h) || (f@.contains(h) && !old(
                        self).assigned@.contains(h))
                &&& final(self).retry@.len() + final(self).blocked@.len() == old(self).retry@.len() + old(
                    self).blocked@.len() + f@.len()
            },
            failed is None ==> {
                let whole = old(self).groups@[old(self).next as int].hashes@;
                &&& forall|h: [u8; 32]| #[trigger]
                    final(self).retry@.contains(h) <==> old(self).retry@.contains(h) || (whole.contains(h) && old(
                        self).assigned@.contains(h))
                &&& forall|h: [u8; 32]| #[trigger]
                    final(self).blocked@.contains(h) <==> old(self).blocked@.contains(h) || (whole.contains(h) && !old(
                        self).assigned@.contains(h))
                &&& final(self).retry@.len() + final(self).blocked@.len() == old(self).retry@.len() + old(
                    self).blocked@.len() + whole.len()
            },
    {
        let ghost before = self@;
        let ghost lost = match failed {
            Some(f) => f@,
            None => self@.groups[self.next as int].hashes,
        };
        match failed {
            Some(f) => {
                self.triage(f);
            },
            None => {
                let list = copy_hashes(&self.groups[self.next].hashes);
                assert(self@.groups[self.next as int] == self.groups@[self.next as int]@);
                self.triage(&list);
            },
        }
        proof {
            let retry = select(lost, before.assigned, true);
            let blocked = select(lost, before.assigned, false);
            lemma_select_splits(lost, before.assigned);
            assert forall|h: [u8; 32]| #[trigger] self.retry@.contains(h) <==> before.retry.contains(h) || (lost.contains(
                h,
            ) && before.assigned.contains(h)) by {
                lemma_concat_contains(before.retry, retry, h);
            }
            assert forall|h: [u8; 32]| #[trigger] self.blocked@.contains(h) <==> before.blocked.contains(h) || (
            lost.contains(h) && !before.assigned.contains(h)) by {
                lemma_concat_contains(before.blocked, blocked, h);
            }
        }
        append_hashes(&mut self.downloaded, stored);
        assert(self.next < self.groups.len());
        self.next = self.next + 1;
        assert(self@ =~= before.group_done(stored@, lost));
    }

    /// What to do once every group was tried.
    pub fn settle(&self, origin_configured: bool) -> (r: Result<Settled, DownloadError>)
        ensures
            match r {
                Err(e) => {
                    ||| self.blocked@.len() > 0 && !origin_configured && e == (DownloadError::NoSource {
                        game_id: self.game_id,
                        count: self.blocked@.len() as usize,
                    })
                    ||| self.blocked@.len() > 0 && origin_configured && e == (DownloadError::WaitForOthers {
                        game_id: self.game_id,
                        count: self.blocked@.len() as usize,
                    })
                    ||| self.blocked@.len() == 0 && self.retry@.len() > 0 && !origin_configured && e == (
                    DownloadError::NoSource { game_id: self.game_id, count: self.retry@.len() as usize })
                },
                Ok(Settled::Done) => self.blocked@.len() == 0 && self.retry@.len() == 0,
                Ok(Settled::AskOrigin(list)) => {
                    &&& self.blocked@.len() == 0
                    &&& self.retry@.len() > 0
                    &&& origin_configured
                    &&& order::ascending(list@)
                    &&& list@.no_duplicates()
                    &&& forall|h: [u8; 32]| #[trigger] list@.contains(h) <==> self.retry@.contains(h)
                },
            },
    {
        if self.blocked.len() > 0 {
            if !origin_configured {
                return Err(DownloadError::NoSource { game_id: self.game_id, count: self.blocked.len() });
            }
            return Err(DownloadError::WaitForOthers { game_id: self.game_id, count: self.blocked.len() });
        }
        if self.retry.len() == 0 {
            return Ok(Settled::Done);
        }
        if !origin_configured {
            return Err(DownloadError::NoSource { game_id: self.game_id, count: self.retry.len() });
        }
        let sorted = order::sort(&self.retry);
        proof {
            order::lemma_same_multiset(sorted@, self.retry@);
        }
        let list = order::dedup(&sorted);
        proof {
            assert forall|h: [u8; 32]| #[trigger] list@.contains(h) <==> self.retry@.contains(h) by {
                assert(sorted@.contains(h) <==> self.retry@.contains(h));
            }
        }
        Ok(Settled::AskOrigin(list))
    }

    /// Notes what the origin delivered; fails where it failed on a chunk.
    pub fn origin_done(&mut self, stored: &Vec<[u8; 32]>, failed: &Vec<[u8; 32]>) -> (r: Result<(), DownloadError>)
        ensures
            final(self)@ == old(self)@.origin_done(stored@),
            final(self).downloaded@ == old(self).downloaded@ + stored@,
            final(self).game_id == old(self).game_id,
            final(self).assigned == old(self).assigned,
            final(self).groups == old(self).groups,
            final(self).next == old(self).next,
            final(self).retry == old(self).retry,
            final(self).blocked == old(self).blocked,
            r is Ok <==> failed@.len() == 0,
            r matches Err(e) ==> e == (DownloadError::StillMissing { count: failed@.len() as usize }),
    {
        let ghost before = self@;
        append_hashes(&mut self.downloaded, stored);
        assert(self@ =~= before.origin_done(stored@));
        if failed.len() > 0 {
            return Err(DownloadError::StillMissing { count: failed.len() });
        }
        Ok(())
    }
}

/// Chunks are only transferred over a direct connection.
pub fn choose_ep(target: &Target) -> (r: Result<(), DownloadError>)
    ensures
        r is Ok <==> target.addr is Some,
        r matches Err(e) ==> e == DownloadError::NoDirectAddr,
{
    if target.addr.is_some() {
        Ok(())
    } else {
        Err(DownloadError::NoDirectAddr)
    }
}

/// A copy of the list.
pub(crate) fn copy_hashes(list: &Vec<[u8; 32]>) -> (out: Vec<[u8; 32]>)
    ensures
        out@ == list@,
{
    let mut out: Vec<[u8; 32]> = Vec::new();
    append_hashes(&mut out, list);
    assert(out@ =~= list@);
    out
}

/// Appends the list.
pub(crate) fn append_hashes(out: &mut Vec<[u8; 32]>, list: &Vec<[u8; 32]>)
    ensures
        final(out)@ == old(out)@ + list@,
{
    let mut i: usize = 0;
    assert(out@ =~= old(out)@ + list@.take(0));
    while i < list.len()
        invariant
            i <= list@.len(),
            out@ == old(out)@ + list@.take(i as int),
        decreases list.len() - i,
    {
        out.push(list[i]);
        i = i + 1;
        assert(out@ =~= old(out)@ + list@.take(i as int));
    }
    assert(list@.take(i as int) =~= list@);
}

proof fn lemma_select_splits(s: Seq<[u8; 32]>, set: Seq<[u8; 32]>)
    ensures
        forall|h: [u8; 32]| #[trigger] select(s, set, true).contains(h) <==> s.contains(h) && set.contains(h),
        forall|h: [u8; 32]| #[trigger] select(s, set, false).contains(h) <==> s.contains(h) && !set.contains(h),
        select(s, set, true).len() + select(s, set, false).len() == s.len(),
    decreases s.len(),
{
    if s.len() > 0 {
        lemma_select_splits(s.drop_last(), set);
    }
    assert forall|h: [u8; 32]| #[trigger] select(s, set, true).contains(h) <==> s.contains(h) && set.contains(h) by {
        lemma_select(s, set, true, h);
    }
    assert forall|h: [u8; 32]| #[trigger] select(s, set, false).contains(h) <==> s.contains(h) && !set.contains(h) by {
        lemma_select(s, set, false, h);
    }
}

/// A fresh download accounts for every routed chunk, and only assigned chunks
/// without a source are left for the origin.
pub proof fn download_starts_with_all(game_id: u64, routing: RoutingView, assigned: Seq<[u8; 32]>, h: [u8; 32])
    ensures
        DownloadView::start(game_id, routing, assigned).accounts(h) <==> routing.holds(h),
        DownloadView::start(game_id, routing, assigned).sorted_out(),
{
    let d = DownloadView::start(game_id, routing, assigned);
    lemma_select(routing.fallback, assigned, true, h);
    lemma_select(routing.fallback, assigned, false, h);
    assert forall|x: [u8; 32]| #[trigger] d.retry.contains(x) implies assigned.contains(x) by {
        lemma_select(routing.fallback, assigned, true, x);
    }
    assert forall|x: [u8; 32]| #[trigger] d.blocked.contains(x) implies !assigned.contains(x) by {
        lemma_select(routing.fallback, assigned, false, x);
    }
}

proof fn lemma_concat_contains(a: Seq<[u8; 32]>, b: Seq<[u8; 32]>, h: [u8; 32])
    ensures
        (a + b).contains(h) <==> a.contains(h) || b.contains(h),
{
    if a.contains(h) {
        let i = choose|i: int| 0 <= i < a.len() && a[i] == h;
        assert((a + b)[i] == h);
    }
    if b.contains(h) {
        let i = choose|i: int| 0 <= i < b.len() && b[i] == h;
        assert((a + b)[a.len() + i] == h);
    }
}

/// Trying a group loses no chunk, provided that every chunk of the group was
/// stored or reported lost; and a chunk that is not assigned to this node is
/// never left for the origin.
pub proof fn group_done_loses_nothing(
    d: DownloadView,
    stored: Seq<[u8; 32]>,
    lost: Seq<[u8; 32]>,
    h: [u8; 32],
)
    requires
        0 <= d.next < d.groups.len(),
        forall|x: [u8; 32]| #[trigger] d.groups[d.next].hashes.contains(x) ==> stored.contains(x) || lost.contains(x),
        d.sorted_out(),
    ensures
        d.accounts(h) ==> d.group_done(stored, lost).accounts(h),
        d.group_done(stored, lost).sorted_out(),
{
    let after = d.group_done(stored, lost);
    lemma_select(lost, d.assigned, true, h);
    lemma_select(lost, d.assigned, false, h);
    lemma_concat_contains(d.downloaded, stored, h);
    lemma_concat_contains(d.retry, select(lost, d.assigned, true), h);
    lemma_concat_contains(d.blocked, select(lost, d.assigned, false), h);
    if in_groups(d.groups, d.next, h) {
        let i = choose|i: int| d.next <= i < d.groups.len() && (#[trigger] d.groups[i]).hashes.contains(h);
        if i > d.next {
            assert(after.groups[i].hashes.contains(h));
        }
    }
    assert forall|x: [u8; 32]| #[trigger] after.retry.contains(x) implies d.assigned.contains(x) by {
        lemma_select(lost, d.assigned, true, x);
        lemma_concat_contains(d.retry, select(lost, d.assigned, true), x);
    }
    assert forall|x: [u8; 32]| #[trigger] after.blocked.contains(x) implies !d.assigned.contains(x) by {
        lemma_select(lost, d.assigned, false, x);
        lemma_concat_contains(d.blocked, select(lost, d.assigned, false), x);
    }
}

/// A download that succeeds has every chunk: where all groups were tried,
/// nothing is blocked, and the origin delivered all that was left for it, each
/// accounted chunk was stored.
pub proof fn download_success_is_complete(d: DownloadView, from_origin: Seq<[u8; 32]>, h: [u8; 32])
    requires
        d.next >= d.groups.len(),
        d.blocked.len() == 0,
        forall|x: [u8; 32]| #[trigger] d.retry.contains(x) ==> from_origin.contains(x),
    ensures
        d.accounts(h) ==> d.origin_done(from_origin).downloaded.contains(h),
{
    lemma_concat_contains(d.downloaded, from_origin, h);
}

/// Whether one of the byte strings is the hash.
pub open spec fn lists_hash(chunks: Seq<Vec<u8>>, h: [u8; 32]) -> bool {
    exists|i: int| 0 <= i < chunks.len() && (#[trigger] chunks[i])@ == h@
}

/// The chunks of a task that are assigned to this node; byte strings that are
/// not hashes are ignored.
pub fn assigned_set(chunks: &Vec<Vec<u8>>) -> (set: ChunkSet)
    ensures
        set@.no_duplicates(),
        forall|h: [u8; 32]| #[trigger] set@.contains(h) <==> lists_hash(chunks@, h),
        forall|h: [u8; 32]| #[trigger]
            set@.contains(h) <==> exists|i: int| 0 <= i < chunks@.len() && (#[trigger] chunks@[i])@ == h@,
{
    let mut set = ChunkSet::new();
    let mut i: usize = 0;
    while i < chunks.len()
        invariant
            i <= chunks@.len(),
            set@.no_duplicates(),
            forall|h: [u8; 32]| #[trigger] set@.contains(h) <==> lists_hash(chunks@.take(i as int), h),
        decreases chunks.len() - i,
    {
        let ghost before = set@;
        let ghost part = chunks@.take(i as int);
        let ghost next = chunks@.take(i + 1);
        proof {
            assert forall|h: [u8; 32]| lists_hash(next, h) <==> lists_hash(part, h) || chunks@[i as int]@ == h@ by {
                if lists_hash(part, h) {
                    let k = choose|k: int| 0 <= k < part.len() && (#[trigger] part[k])@ == h@;
                    assert(next[k]@ == h@);
                }
                if chunks@[i as int]@ == h@ {
                    assert(next[i as int]@ == h@);
                }
                if lists_hash(next, h) && chunks@[i as int]@ != h@ {
                    let k = choose|k: int| 0 <= k < next.len() && (#[trigger] next[k])@ == h@;
                    assert(part[k]@ == h@);
                }
            }
        }
        if chunks[i].len() == 32 {
            let hash = chunk_set::hash_at(chunks[i].as_slice(), 0);
            assert(hash@ =~= chunks@[i as int]@);
            set.insert(hash);
            proof {
                assert forall|h: [u8; 32]| #[trigger] set@.contains(h) <==> lists_hash(next, h) by {
                    assert(before.contains(h) <==> lists_hash(part, h));
                    order::lemma_push_contains(before, hash, h);
                    assert(h@ == hash@ ==> h =~= hash);
                }
            }
        } else {
            assert forall|h: [u8; 32]| #[trigger] set@.contains(h) <==> lists_hash(next, h) by {
                assert(h@.len() == 32);
                assert(before.contains(h) <==> lists_hash(part, h));
            }
        }
        i = i + 1;
    }
    assert(chunks@.take(i as int) =~= chunks@);
    set
}

/// The chunks of a version that the node lacks, in ascending order. `held`
/// says of each hash of the set whether the node has it.
pub fn missing_chunks(set: &ChunkSet, held: &Vec<bool>) -> (missing: Vec<[u8; 32]>)
    requires
        held@.len() == set@.len(),
    ensures
        order::ascending(missing@),
        missing@.no_duplicates(),
        forall|h: [u8; 32]| #[trigger] missing@.contains(h) <==> exists|i: int|
            0 <= i < set@.len() && #[trigger] set@[i] == h && !held@[i],
{
    let hashes = set.hashes();
    let mut out: Vec<[u8; 32]> = Vec::new();
    let mut i: usize = 0;
    while i < hashes.len()
        invariant
            i <= hashes@.len(),
            hashes@ == set@,
            hashes@.no_duplicates(),
            held@.len() == hashes@.len(),
            out@.no_duplicates(),
            forall|h: [u8; 32]| #[trigger] out@.contains(h) <==> exists|k: int|
                0 <= k < i && #[trigger] set@[k] == h && !held@[k],
        decreases hashes.len() - i,
    {
        let ghost before = out@;
        if !held[i] {
            out.push(hashes[i]);
            proof {
                if before.contains(hashes@[i as int]) {
                    let k = choose|k: int| 0 <= k < i && #[trigger] set@[k] == hashes@[i as int] && !held@[k];
                }
                assert(out@.no_duplicates()) by {
                    assert forall|a: int, b: int| 0 <= a < b < out@.len() implies out@[a] != out@[b] by {
                        if b == before.len() {
                            assert(before.contains(before[a]));
                        }
                    }
                }
            }
        }
        proof {
            assert forall|h: [u8; 32]| #[trigger] out@.contains(h) <==> exists|k: int|
                0 <= k < i + 1 && #[trigger] set@[k] == h && !held@[k] by {
                order::lemma_push_contains(before, hashes@[i as int], h);
                assert(before.contains(h) <==> exists|k: int| 0 <= k < i && #[trigger] set@[k] == h && !held@[k]);
                if set@[i as int] == h && !held@[i as int] {
                    assert(out@.contains(h));
                }
            }
        }
        i = i + 1;
    }
    let sorted = order::sort(&out);
    proof {
        order::lemma_same_multiset(sorted@, out@);
        assert forall|h: [u8; 32]| #[trigger] sorted@.contains(h) <==> exists|k: int|
            0 <= k < set@.len() && #[trigger] set@[k] == h && !held@[k] by {
            assert(sorted@.contains(h) <==> out@.contains(h));
        }
    }
    sorted
}

/// All chunks of a version, in ascending order: what a node reports to hold
/// once it has the version.
pub fn held_hashes(index: &GameIndex) -> (held: Vec<[u8; 32]>)
    ensures
        order::ascending(held@),
        held@.no_duplicates(),
        forall|h: [u8; 32]| #[trigger] held@.contains(h) <==> manifest::hashes_of(
            manifest::all_chunks(index.files@),
        ).contains(h),
        forall|h: [u8; 32]| #[trigger]
            held@.contains(h) <==> exists|i: int, k: int|
                0 <= i < index.files@.len() && 0 <= k < index.files@[i].chunks@.len() && (
                #[trigger] index.files@[i].chunks@[k]).hash == h,
{
    let set = index.chunk_set();
    let sorted = order::sort(set.hashes());
    proof {
        let all = manifest::hashes_of(manifest::all_chunks(index.files@));
        chunk_set::lemma_first_occurrences(all);
        order::lemma_same_multiset(sorted@, set@);
        assert forall|h: [u8; 32]| #[trigger] sorted@.contains(h) <==> all.contains(h) by {
            assert(sorted@.contains(h) <==> set@.contains(h));
            assert(set@.contains(h) <==> all.contains(h));
        }
        manifest::all_chunks_are_those_of_the_files(index.files@);
    }
    sorted
}

/// How many chunks are written to the chunk store at once.
pub const IDC_BATCH_SIZE: usize = 64;

/// Verified chunks that are not written yet.
#[derive(Debug)]
pub struct PendingBatch {
    pub chunks: Vec<([u8; 32], Vec<u8>)>,
}

impl PendingBatch {
    pub fn new() -> (b: Self)
        ensures
            b.chunks@.len() == 0,
    {
        PendingBatch { chunks: Vec::new() }
    }

    /// Adds a chunk; hands out the whole batch once it is full.
    pub fn push(&mut self, hash: [u8; 32], data: Vec<u8>) -> (full: Option<Vec<([u8; 32], Vec<u8>)>>)
        ensures
            match full {
                Some(batch) => batch@ == old(self).chunks@.push((hash, data)) && batch@.len() >= IDC_BATCH_SIZE
                    && final(self).chunks@.len() == 0,
                None => final(self).chunks@ == old(self).chunks@.push((hash, data)) && final(self).chunks@.len()
                    < IDC_BATCH_SIZE,
            },
            full is Some <==> old(self).chunks@.len() + 1 >= 64,
    {
        self.chunks.push((hash, data));
        if self.chunks.len() >= IDC_BATCH_SIZE {
            return self.flush();
        }
        None
    }

    /// Hands out what is left; `None` where nothing is.
    pub fn flush(&mut self) -> (rest: Option<Vec<([u8; 32], Vec<u8>)>>)
        ensures
            final(self).chunks@.len() == 0,
            match rest {
                Some(batch) => batch@ == old(self).chunks@ && batch@.len() > 0,
                None => old(self).chunks@.len() == 0,
            },
    {
        if self.chunks.len() == 0 {
            return None;
        }
        let mut batch: Vec<([u8; 32], Vec<u8>)> = Vec::new();
        std::mem::swap(&mut batch, &mut self.chunks);
        Some(batch)
    }
}

/// Whether a file that is not on disk has the chunk.
pub open spec fn needs_repair(index: GameIndex, present: Seq<bool>, h: [u8; 32]) -> bool {
    exists|i: int, k: int|
        0 <= i < index.files@.len() && !present[i] && 0 <= k < index.files@[i].chunks@.len()
            && (#[trigger] index.files@[i].chunks@[k]).hash == h
}

/// The chunks of the files that are not on disk.
fn repair_chunks(index: &GameIndex, present: &Vec<bool>) -> (out: Vec<[u8; 32]>)
    requires
        present@.len() == index.files@.len(),
    ensures
        forall|h: [u8; 32]| #[trigger] out@.contains(h) <==> needs_repair(*index, present@, h),
{
    let mut out: Vec<[u8; 32]> = Vec::new();
    let mut i: usize = 0;
    while i < index.files.len()
        invariant
            i <= index.files@.len(),
            present@.len() == index.files@.len(),
            forall|h: [u8; 32]| #[trigger] out@.contains(h) <==> exists|a: int, k: int|
                0 <= a < i && !present@[a] && 0 <= k < index.files@[a].chunks@.len() && (
                #[trigger] index.files@[a].chunks@[k]).hash == h,
        decreases index.files.len() - i,
    {
        if !present[i] {
            let chunks = &index.files[i].chunks;
            let mut j: usize = 0;
            while j < chunks.len()
                invariant
                    i < index.files@.len(),
                    !present@[i as int],
                    j <= chunks@.len(),
                    chunks == index.files@[i as int].chunks,
                    forall|h: [u8; 32]| #[trigger] out@.contains(h) <==> exists|a: int, k: int|
                        0 <= a <= i && !present@[a] && 0 <= k < index.files@[a].chunks@.len() && (a < i || k < j) && (
                        #[trigger] index.files@[a].chunks@[k]).hash == h,
                decreases chunks.len() - j,
            {
                let ghost before = out@;
                out.push(chunks[j].hash);
                proof {
                    let fresh = chunks@[j as int].hash;
                    assert forall|h: [u8; 32]| #[trigger] out@.contains(h) <==> exists|a: int, k: int|
                        0 <= a <= i && !present@[a] && 0 <= k < index.files@[a].chunks@.len() && (a < i || k < j + 1)
                            && (#[trigger] index.files@[a].chunks@[k]).hash == h by {
                        order::lemma_push_contains(before, fresh, h);
                        assert(before.contains(h) <==> exists|a: int, k: int|
                            0 <= a <= i && !present@[a] && 0 <= k < index.files@[a].chunks@.len() && (a < i || k < j)
                                && (#[trigger] index.files@[a].chunks@[k]).hash == h);
                        if h == fresh {
                            assert(index.files@[i as int].chunks@[j as int].hash == h);
                        }
                    }
                }
                j = j + 1;
            }
        }
        i = i + 1;
    }
    out
}

/// What an internet cafe has to download for a version, in ascending order:
/// what the update plan says, and every chunk of a file that is not on disk.
/// `present` says of each file of the version whether it is there.
pub fn cafe_chunks(
    index: &GameIndex,
    old: Option<&GameIndex>,
    temp: &ChunkSet,
    present: &Vec<bool>,
) -> (chunks: Vec<[u8; 32]>)
    requires
        present@.len() == index.files@.len(),
        manifest::total_len(manifest::all_chunks(index.files@)) <= u64::MAX,
    ensures
        order::ascending(chunks@),
        chunks@.no_duplicates(),
        forall|h: [u8; 32]| #[trigger] chunks@.contains(h) <==> needs_repair(*index, present@, h) || (
        manifest::hashes_of(manifest::all_chunks(index.files@)).contains(h) && !delta::version_hashes(old).contains(h)
            && !temp@.contains(h)),
        forall|h: [u8; 32]| #[trigger]
            chunks@.contains(h) <==> (exists|i: int, k: int|
                0 <= i < index.files@.len() && !present@[i] && 0 <= k < index.files@[i].chunks@.len() && (
                #[trigger] index.files@[i].chunks@[k]).hash == h) || (!temp@.contains(h) && (exists|i: int, k: int|
                0 <= i < index.files@.len() && 0 <= k < index.files@[i].chunks@.len() && (
                #[trigger] index.files@[i].chunks@[k]).hash == h) && !(old matches Some(o) && exists|i: int, k: int|
                0 <= i < o.files@.len() && 0 <= k < o.files@[i].chunks@.len() && (
                #[trigger] o.files@[i].chunks@[k]).hash == h)),
{
    let plan = update_plan::compute(index, old, temp);
    let mut all = plan.chunks_to_download;
    let repair = repair_chunks(index, present);
    let ghost planned = all@;
    append_hashes(&mut all, &repair);
    let sorted = order::sort(&all);
    let out = order::dedup(&sorted);
    proof {
        order::lemma_same_multiset(sorted@, all@);
        let skip = update_plan::at_hand(delta::version_hashes(old), temp@);
        manifest::lemma_fresh_chunks(manifest::all_chunks(index.files@), skip);
        assert forall|h: [u8; 32]| #[trigger] out@.contains(h) <==> needs_repair(*index, present@, h) || (
        manifest::hashes_of(manifest::all_chunks(index.files@)).contains(h) && !delta::version_hashes(old).contains(h)
            && !temp@.contains(h)) by {
            assert(out@.contains(h) <==> sorted@.contains(h));
            assert(sorted@.contains(h) <==> all@.contains(h));
            lemma_concat_contains(planned, repair@, h);
            assert(repair@.contains(h) <==> needs_repair(*index, present@, h));
            assert(planned.contains(h) <==> manifest::hashes_of(manifest::all_chunks(index.files@)).contains(h) && !skip(
                h,
            ));
        }
        manifest::all_chunks_are_those_of_the_files(index.files@);
        delta::old_chunks_are_those_of_the_version(old);
    }
    out
}

/// Once the chunks to download are there, a merge finds what it needs: every
/// chunk of a file that does not come out of the file that is replaced has a
/// temporary block. (A chunk that the old version has in other files only is
/// neither downloaded nor found there, so a file on disk must not have such a
/// chunk.)
pub proof fn merge_finds_every_chunk(
    index: GameIndex,
    old: Option<&GameIndex>,
    temp: Seq<[u8; 32]>,
    present: Seq<bool>,
    fetched: Seq<[u8; 32]>,
    f: int,
    pieces: Seq<PieceSource>,
)
    requires
        0 <= f < index.files@.len(),
        present.len() == index.files@.len(),
        forall|h: [u8; 32]| #[trigger] fetched.contains(h) <==> needs_repair(index, present, h) || (manifest::hashes_of(
            manifest::all_chunks(index.files@),
        ).contains(h) && !delta::version_hashes(old).contains(h) && !temp.contains(h)),
        pieces.len() == index.files@[f].chunks@.len(),
        forall|i: int| 0 <= i < pieces.len() ==> update::comes_from(
            #[trigger] pieces[i],
            index.files@[f].chunks@[i].hash,
            update_plan::last_named(update_plan::version_files(old), index.files@[f].name@),
            present[f],
        ),
        present[f] ==> forall|i: int|
            0 <= i < pieces.len() && delta::version_hashes(old).contains(
                (#[trigger] index.files@[f].chunks@[i]).hash,
            ) ==> (update_plan::last_named(update_plan::version_files(old), index.files@[f].name@) matches Some(entry)
                && update::first_chunk(entry.chunks@, index.files@[f].chunks@[i].hash) is Some),
    ensures
        forall|i: int| 0 <= i < pieces.len() && (#[trigger] pieces[i]) is TempBlock ==> temp.contains(
            index.files@[f].chunks@[i].hash,
        ) || fetched.contains(index.files@[f].chunks@[i].hash),
{
    let chunks = index.files@[f].chunks@;
    assert forall|i: int| 0 <= i < pieces.len() && (#[trigger] pieces[i]) is TempBlock implies temp.contains(
        chunks[i].hash,
    ) || fetched.contains(chunks[i].hash) by {
        let h = chunks[i].hash;
        manifest::lemma_file_chunk(index.files@, f, i);
        if !present[f] {
            assert(index.files@[f].chunks@[i].hash == h);
            assert(needs_repair(index, present, h));
        }
        assert(fetched.contains(h) || temp.contains(h));
    }
}

/// The texts with `; ` between them.
pub open spec fn joined(parts: Seq<String>) -> Seq<char>
    decreases parts.len(),
{
    if parts.len() == 0 {
        Seq::empty()
    } else if parts.len() == 1 {
        parts[0]@
    } else {
        joined(parts.drop_last()) + "; "@ + parts.last()@
    }
}

/// Joining texts puts `; ` between those of two lists, and nothing else.
pub proof fn texts_are_joined_by_semicolons(a: Seq<String>, b: Seq<String>, t: String)
    ensures
        joined(seq![t]) == t@,
        a.len() > 0 && b.len() > 0 ==> joined(a + b) == joined(a) + "; "@ + joined(b),
    decreases b.len(),
{
    if a.len() > 0 && b.len() > 0 {
        assert((a + b).drop_last() =~= a + b.drop_last());
        if b.len() > 1 {
            texts_are_joined_by_semicolons(a, b.drop_last(), t);
            assert(joined(a + b) =~= joined(a) + "; "@ + joined(b));
        } else {
            assert(b.drop_last() =~= Seq::empty());
            assert(a + b.drop_last() =~= a);
        }
    }
}

/// What to tell a user whose files could not be merged; `None` where all were.
pub fn merge_failure(failed: &Vec<String>) -> (msg: Option<String>)
    ensures
        match msg {
            Some(m) => failed@.len() > 0 && m@ == "合并失败: "@ + joined(failed@),
            None => failed@.len() == 0,
        },
{
    if failed.len() == 0 {
        return None;
    }
    let mut list = String::new();
    let mut i: usize = 0;
    while i < failed.len()
        invariant
            i <= failed@.len(),
            list@ == joined(failed@.take(i as int)),
        decreases failed.len() - i,
    {
        if i > 0 {
            list.append("; ");
        }
        list.append(failed[i].as_str());
        i = i + 1;
        proof {
            assert(failed@.take(i as int).drop_last() =~= failed@.take(i - 1));
            assert(list@ =~= joined(failed@.take(i as int)));
        }
    }
    assert(failed@.take(i as int) =~= failed@);
    Some(text::join2("合并失败: ", list.as_str()))
}

/// Why a task could not be run.
#[derive(Debug, Clone, Copy, PartialEq, Eq, Structural)]
pub enum TaskError {
    /// The node does not know the scheduler.
    NoControlAddr,
    /// The scheduler does not know the version.
    VersionMissing { game_id: u64, version: u64 },
    /// The manifest of the version is damaged.
    BadManifest(ManifestError),
}

impl TaskError {
    /// What to tell a user.
    pub open spec fn text(self) -> Seq<char> {
        match self {
            TaskError::NoControlAddr => "未配置控制面地址，无法执行任务"@,
            TaskError::VersionMissing { game_id, version } => "版本清单不存在: 游戏 "@ + text::decimal(game_id as nat)
                + " 版本 "@ + text::decimal(version as nat),
            TaskError::BadManifest(e) => "解析版本清单失败: "@ + e.text(),
        }
    }

    /// What to tell a user.
    pub fn message(&self) -> (out: String)
        ensures
            out@ == self.text(),
            out@ == (match *self {
                TaskError::NoControlAddr => "未配置控制面地址，无法执行任务"@,
                TaskError::VersionMissing { game_id, version } => "版本清单不存在: 游戏 "@ + text::decimal(game_id as nat)
                    + " 版本 "@ + text::decimal(version as nat),
                TaskError::BadManifest(e) => "解析版本清单失败: "@ + e.text(),
            }),
    {
        match self {
            TaskError::NoControlAddr => "未配置控制面地址，无法执行任务".to_owned(),
            TaskError::VersionMissing { game_id, version } => {
                let mut out = String::new();
                out.append("版本清单不存在: 游戏 ");
                text::push_decimal(&mut out, *game_id);
                out.append(" 版本 ");
                text::push_decimal(&mut out, *version);
                assert(out@ =~= self.text());
                out
            },
            TaskError::BadManifest(e) => text::join2("解析版本清单失败: ", e.message().as_str()),
        }
    }
}

/// How a node carries out a task.
#[derive(Debug)]
pub enum TaskWork {
    /// Into the chunk store.
    Idc(GameIndex),
    /// Into real files.
    Cafe(GameIndex),
}

/// A node can only run tasks if it knows the scheduler.
pub fn task_control(control_addr: &Option<String>) -> (r: Result<String, TaskError>)
    ensures
        match r {
            Ok(a) => control_addr matches Some(c) && a@ == c@,
            Err(e) => control_addr is None && e == TaskError::NoControlAddr,
        },
{
    match control_addr {
        Some(a) => Ok(a.clone()),
        None => Err(TaskError::NoControlAddr),
    }
}

/// What a node has to do for a task, given what the scheduler answered to the
/// question for the manifest.
pub fn plan_task(task: &Task, node_type: NodeType, manifest: Option<&Vec<u8>>) -> (r: Result<TaskWork, TaskError>)
    ensures
        match r {
            Ok(TaskWork::Idc(index)) => node_type == NodeType::Idc && manifest is Some && manifest::decode_spec(
                manifest->0@,
            ) == Ok::<manifest::IndexView, ManifestError>(index@),
            Ok(TaskWork::Cafe(index)) => node_type == NodeType::Cafe && manifest is Some && manifest::decode_spec(
                manifest->0@,
            ) == Ok::<manifest::IndexView, ManifestError>(index@),
            Err(TaskError::NoControlAddr) => false,
            Err(TaskError::VersionMissing { game_id, version }) => manifest is None && game_id == task.game_id
                && version == task.version,
            Err(TaskError::BadManifest(e)) => manifest matches Some(m) && manifest::decode_spec(m@) == Err::<
                manifest::IndexView,
                ManifestError,
            >(e),
        },
{
    match manifest {
        None => Err(TaskError::VersionMissing { game_id: task.game_id, version: task.version }),
        Some(m) => match GameIndex::decode(m.as_slice()) {
            Err(e) => Err(TaskError::BadManifest(e)),
            Ok(index) => match node_type {
                NodeType::Idc => Ok(TaskWork::Idc(index)),
                NodeType::Cafe => Ok(TaskWork::Cafe(index)),
            },
        },
    }
}

/// The status and error text that a node reports after a task.
pub fn final_report(failure: Option<&String>) -> (report: (String, String))
    ensures
        match failure {
            None => report.0@ == "done"@ && report.1@ == ""@,
            Some(msg) => report.0@ == "failed"@ && report.1@ == msg@,
        },
{
    match failure {
        None => ("done".to_owned(), "".to_owned()),
        Some(msg) => ("failed".to_owned(), msg.clone()),
    }
}

} // verus!
