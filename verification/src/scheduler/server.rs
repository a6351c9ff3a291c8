//! What the scheduler answers to nodes.
use std::collections::HashMap;
use vstd::prelude::*;

use crate::common::lists;
use crate::common::tables;
use crate::common::tables::{CountTable, RecordTable, TextTable};
use crate::common::text;
use crate::scheduler::db;
use crate::scheduler::db::{AddrRecord, DbError, NodeRecord, RecordKind, TaskRecord};
use crate::proto::{
    Addr,
    ChunkDone,
    Code,
    Ev,
    HeartbeatReply,
    Peer,
    PeerQuery,
    RegisterReply,
    RegisterRequest,
    Status,
    Task,
    TaskReport,
    VersionInfo,
};

verus! {

broadcast use vstd::std_specs::hash::group_hash_axioms;

/// Whether a node can be of that type.
pub open spec fn is_node_type(node_type: Seq<char>) -> bool {
    node_type == "origin"@ || node_type == "idc"@ || node_type == "cafe"@
}

/// Whether a node can be of that type.
pub fn valid_node_type(node_type: &str) -> (valid: bool)
    ensures
        valid == is_node_type(node_type@),
        valid <==> node_type@ == "origin"@ || node_type@ == "idc"@ || node_type@ == "cafe"@,
{
    text::same_text(node_type, "origin") || text::same_text(node_type, "idc") || text::same_text(node_type, "cafe")
}

/// The number of a kind of task; what is not known counts as a download.
pub open spec fn task_kind_spec(kind: Seq<char>) -> i32 {
    if kind == "UPDATE"@ {
        1
    } else if kind == "ROLLBACK"@ {
        2
    } else {
        0
    }
}

/// The number of a kind of task.
pub fn task_kind(kind: &str) -> (n: i32)
    ensures
        n == task_kind_spec(kind@),
        n == 1 <==> kind@ == "UPDATE"@,
        n == 2 <==> kind@ == "ROLLBACK"@,
        n == 0 <==> kind@ != "UPDATE"@ && kind@ != "ROLLBACK"@,
{
    proof {
        reveal_strlit("UPDATE");
        reveal_strlit("ROLLBACK");
        assert("UPDATE"@.len() != "ROLLBACK"@.len());
    }
    if text::same_text(kind, "UPDATE") {
        1
    } else if text::same_text(kind, "ROLLBACK") {
        2
    } else {
        0
    }
}

/// Whether a message says what the record says.
pub open spec fn tells(message: Task, task: TaskRecord) -> bool {
    &&& message.id == task.id
    &&& message.game_id == task.game_id
    &&& message.version == task.version
    &&& message.kind == task_kind_spec(task.kind@)
    &&& text::byte_views(message.assigned_chunks@) == text::byte_views(task.assigned_chunks@)
}

/// A message about a task says what the record says: the same numbers, the kind
/// as a number, and the same chunks in the same order.
pub proof fn messages_say_what_is_recorded(message: Task, task: TaskRecord)
    requires
        tells(message, task),
    ensures
        message.id == task.id,
        message.game_id == task.game_id,
        message.version == task.version,
        message.kind == 1 <==> task.kind@ == "UPDATE"@,
        message.kind == 2 <==> task.kind@ == "ROLLBACK"@,
        message.kind == 0 <==> task.kind@ != "UPDATE"@ && task.kind@ != "ROLLBACK"@,
        message.assigned_chunks@.len() == task.assigned_chunks@.len(),
        forall|i: int|
            0 <= i < message.assigned_chunks@.len() ==> (#[trigger] message.assigned_chunks@[i])@
                == task.assigned_chunks@[i]@,
{
    reveal_strlit("UPDATE");
    reveal_strlit("ROLLBACK");
    assert("UPDATE"@.len() != "ROLLBACK"@.len());
    let a = text::byte_views(message.assigned_chunks@);
    let b = text::byte_views(task.assigned_chunks@);
    assert(a.len() == b.len());
    assert forall|i: int| 0 <= i < message.assigned_chunks@.len() implies (#[trigger] message.assigned_chunks@[i])@
        == task.assigned_chunks@[i]@ by {
        assert(a[i] == b[i]);
    }
}

/// Copies byte strings.
pub fn copy_all(list: &Vec<Vec<u8>>) -> (out: Vec<Vec<u8>>)
    ensures
        text::byte_views(out@) == text::byte_views(list@),
        out@.len() == list@.len(),
        forall|i: int| 0 <= i < out@.len() ==> (#[trigger] out@[i])@ == list@[i]@,
{
    let mut out: Vec<Vec<u8>> = Vec::new();
    let mut i: usize = 0;
    while i < list.len()
        invariant
            i <= list@.len(),
            out@.len() == i,
            forall|k: int| 0 <= k < i ==> (#[trigger] out@[k])@ == list@[k]@,
        decreases list.len() - i,
    {
        out.push(vstd::slice::slice_to_vec(list[i].as_slice()));
        i = i + 1;
    }
    assert(text::byte_views(out@) =~= text::byte_views(list@));
    out
}

/// The message about a task.
pub fn to_proto_task(task: &TaskRecord) -> (message: Task)
    ensures
        tells(message, *task),
        message.id == task.id,
        message.game_id == task.game_id,
        message.version == task.version,
        message.kind == 1 <==> task.kind@ == "UPDATE"@,
        message.kind == 2 <==> task.kind@ == "ROLLBACK"@,
        message.kind == 0 <==> task.kind@ != "UPDATE"@ && task.kind@ != "ROLLBACK"@,
        message.assigned_chunks@.len() == task.assigned_chunks@.len(),
        forall|i: int|
            0 <= i < message.assigned_chunks@.len() ==> (#[trigger] message.assigned_chunks@[i])@
                == task.assigned_chunks@[i]@,
{
    Task {
        id: task.id,
        game_id: task.game_id,
        version: task.version,
        kind: task_kind(task.kind.as_str()),
        assigned_chunks: copy_all(&task.assigned_chunks),
    }
}

pub fn bad_node_type() -> (s: Status)
    ensures
        s.says(Code::InvalidArgument, "node_type 必须为 origin/idc/cafe"@),
{
    Status::invalid_argument("node_type 必须为 origin/idc/cafe")
}

pub fn node_not_found() -> (s: Status)
    ensures
        s.says(Code::NotFound, "节点未注册"@),
{
    Status::not_found("节点未注册")
}

pub fn alloc_node_id_error(err: &str) -> (s: Status)
    ensures
        s.says(Code::Internal, "分配节点 ID 失败"@ + ": "@ + err@),
{
    Status::internal("分配节点 ID 失败", err)
}

pub fn write_node_error(err: &str) -> (s: Status)
    ensures
        s.says(Code::Internal, "写入节点失败"@ + ": "@ + err@),
{
    Status::internal("写入节点失败", err)
}

pub fn query_tasks_error(err: &str) -> (s: Status)
    ensures
        s.says(Code::Internal, "查询任务失败"@ + ": "@ + err@),
{
    Status::internal("查询任务失败", err)
}

pub fn query_node_error(err: &str) -> (s: Status)
    ensures
        s.says(Code::Internal, "查询节点失败"@ + ": "@ + err@),
{
    Status::internal("查询节点失败", err)
}

pub fn update_node_error(err: &str) -> (s: Status)
    ensures
        s.says(Code::Internal, "更新节点失败"@ + ": "@ + err@),
{
    Status::internal("更新节点失败", err)
}

pub fn update_task_error(err: &str) -> (s: Status)
    ensures
        s.says(Code::Internal, "更新任务失败"@ + ": "@ + err@),
{
    Status::internal("更新任务失败", err)
}

pub fn chunk_ledger_error(err: &str) -> (s: Status)
    ensures
        s.says(Code::Internal, "块账本操作失败"@ + ": "@ + err@),
{
    Status::internal("块账本操作失败", err)
}

pub fn write_task_error(err: &str) -> (s: Status)
    ensures
        s.says(Code::Internal, "写入任务失败"@ + ": "@ + err@),
{
    Status::internal("写入任务失败", err)
}

/// The address of a message, as it is recorded.
pub open spec fn recorded(a: Addr) -> AddrRecord {
    AddrRecord { addr: a.addr, kind: a.kind, link: a.link }
}

/// The address of a record, as it is told.
pub open spec fn told(a: AddrRecord) -> Addr {
    Addr { addr: a.addr, kind: a.kind, link: a.link }
}

fn record_addrs(addrs: Vec<Addr>) -> (out: Vec<AddrRecord>)
    ensures
        out@ == addrs@.map_values(|a: Addr| recorded(a)),
        out@.len() == addrs@.len(),
        forall|i: int|
            0 <= i < out@.len() ==> (#[trigger] out@[i]).addr == addrs@[i].addr && out@[i].kind == addrs@[i].kind
                && out@[i].link == addrs@[i].link,
{
    let ghost all = addrs@;
    let mut rest = lists::reversed(addrs);
    let mut out: Vec<AddrRecord> = Vec::new();
    assert(all.skip(0) =~= all);
    while rest.len() > 0
        invariant
            out@.len() + rest@.len() == all.len(),
            rest@ == all.skip(out@.len() as int).reverse(),
            forall|i: int| 0 <= i < out@.len() ==> #[trigger] out@[i] == recorded(all[i]),
        decreases rest@.len(),
    {
        proof {
            lists::lemma_rest_reversed(all, out@.len() as int);
        }
        let a = rest.pop().unwrap();
        out.push(AddrRecord { addr: a.addr, kind: a.kind, link: a.link });
    }
    assert(out@ =~= all.map_values(|a: Addr| recorded(a)));
    out
}

fn tell_addrs(addrs: Vec<AddrRecord>) -> (out: Vec<Addr>)
    ensures
        out@ == addrs@.map_values(|a: AddrRecord| told(a)),
        out@.len() == addrs@.len(),
        forall|i: int|
            0 <= i < out@.len() ==> (#[trigger] out@[i]).addr == addrs@[i].addr && out@[i].kind == addrs@[i].kind
                && out@[i].link == addrs@[i].link,
{
    let ghost all = addrs@;
    let mut rest = lists::reversed(addrs);
    let mut out: Vec<Addr> = Vec::new();
    assert(all.skip(0) =~= all);
    while rest.len() > 0
        invariant
            out@.len() + rest@.len() == all.len(),
            rest@ == all.skip(out@.len() as int).reverse(),
            forall|i: int| 0 <= i < out@.len() ==> #[trigger] out@[i] == told(all[i]),
        decreases rest@.len(),
    {
        proof {
            lists::lemma_rest_reversed(all, out@.len() as int);
        }
        let a = rest.pop().unwrap();
        out.push(Addr { addr: a.addr, kind: a.kind, link: a.link });
    }
    assert(out@ =~= all.map_values(|a: AddrRecord| told(a)));
    out
}

/// A node under the number that was given out, if one could be: it gets a token
/// made of the time and that number, and counts as online.
pub fn node_with(id: Result<u64, DbError>, request: RegisterRequest, now_ms: u64) -> (node: Result<NodeRecord, Status>)
    ensures
        node matches Ok(n) ==> n.addrs@.len() == request.addrs@.len() && forall|i: int|
            0 <= i < n.addrs@.len() ==> (#[trigger] n.addrs@[i]).addr == request.addrs@[i].addr && n.addrs@[i].kind
                == request.addrs@[i].kind && n.addrs@[i].link == request.addrs@[i].link,
        node is Ok ==> request.node_type@ == "origin"@ || request.node_type@ == "idc"@ || request.node_type@ == "cafe"@,
        node is Ok <==> id is Ok && (request.node_type@ == "origin"@ || request.node_type@ == "idc"@
            || request.node_type@ == "cafe"@),
        if !is_node_type(request.node_type@) {
            node matches Err(s) && s.says(Code::InvalidArgument, "node_type 必须为 origin/idc/cafe"@)
        } else {
            match id {
                Err(e) => node matches Err(s) && s.says(Code::Internal, "分配节点 ID 失败"@ + ": "@ + e.text()),
                Ok(id) => {
                    &&& node matches Ok(n)
                    &&& n.id == id
                    &&& n.token@ == text::decimal(now_ms as nat) + "-"@ + text::decimal(id as nat)
                    &&& n.node_type == request.node_type
                    &&& n.endpoint_id == request.endpoint_id
                    &&& n.addrs@ == request.addrs@.map_values(|a: Addr| recorded(a))
                    &&& n.status@ == "online"@
                    &&& n.last_heartbeat_ms == now_ms
                },
            }
        },
{
    if !valid_node_type(request.node_type.as_str()) {
        return Err(bad_node_type());
    }
    match id {
        Err(e) => Err(alloc_node_id_error(e.message())),
        Ok(id) => {
            let token = text::join3(text::decimal_text(now_ms).as_str(), "-", text::decimal_text(id).as_str());
            Ok(
                NodeRecord {
                    id,
                    node_type: request.node_type,
                    endpoint_id: request.endpoint_id,
                    token,
                    addrs: record_addrs(request.addrs),
                    status: "online".to_owned(),
                    last_heartbeat_ms: now_ms,
                },
            )
        },
    }
}

/// Registers a node: it gets the next number, a token made of the time and
/// that number, and counts as online.
pub fn register(counters: &mut CountTable, request: RegisterRequest, now_ms: u64) -> (node: Result<NodeRecord, Status>)
    ensures
        tables::count_opened(*final(counters)) == tables::count_opened(*old(counters)),
        node matches Ok(n) ==> n.addrs@.len() == request.addrs@.len() && forall|i: int|
            0 <= i < n.addrs@.len() ==> (#[trigger] n.addrs@[i]).addr == request.addrs@[i].addr && n.addrs@[i].kind
                == request.addrs@[i].kind && n.addrs@[i].link == request.addrs@[i].link,
        node is Ok ==> request.node_type@ == "origin"@ || request.node_type@ == "idc"@ || request.node_type@ == "cafe"@,
        node matches Ok(n) ==> {
            &&& tables::count_rows(*old(counters)).contains_key(RecordKind::Node.counter()) ==> n.id
                == tables::count_rows(*old(counters))[RecordKind::Node.counter()] + 1
            &&& !tables::count_rows(*old(counters)).contains_key(RecordKind::Node.counter()) ==> n.id == 1
        },
        match node {
            Ok(n) => {
                &&& is_node_type(request.node_type@)
                &&& n.id == db::next_number(tables::count_rows(*old(counters)), RecordKind::Node)
                &&& tables::count_rows(*final(counters)) == tables::count_rows(*old(counters)).insert(
                    RecordKind::Node.counter(),
                    n.id,
                )
                &&& n.token@ == text::decimal(now_ms as nat) + "-"@ + text::decimal(n.id as nat)
                &&& n.node_type == request.node_type
                &&& n.endpoint_id == request.endpoint_id
                &&& n.addrs@ == request.addrs@.map_values(|a: Addr| recorded(a))
                &&& n.status@ == "online"@
                &&& n.last_heartbeat_ms == now_ms
            },
            Err(s) => if !is_node_type(request.node_type@) {
                s.says(Code::InvalidArgument, "node_type 必须为 origin/idc/cafe"@) && *final(counters) == *old(counters)
            } else {
                exists|e: DbError|
                    s.says(Code::Internal, "分配节点 ID 失败"@ + ": "@ + #[trigger] e.text()) && db::gives_none(
                        tables::count_rows(*old(counters)),
                        RecordKind::Node,
                        e,
                    )
            },
        },
{
    if !valid_node_type(request.node_type.as_str()) {
        return Err(bad_node_type());
    }
    let id = db::next_id(counters, RecordKind::Node);
    node_with(id, request, now_ms)
}

/// The tasks that wait for a node, in order.
pub open spec fn waiting(tasks: Seq<TaskRecord>, node_id: u64) -> Seq<TaskRecord> {
    tasks.filter(|t: TaskRecord| t.node_id == node_id).filter(|t: TaskRecord| t.status@ == "queued"@)
}

/// The tasks that wait for a node are those of the node that are queued, each in
/// its turn; no other task is among them.
pub proof fn queued_tasks_wait(tasks: Seq<TaskRecord>, node_id: u64)
    ensures
        waiting(tasks, node_id) == tasks.filter(|t: TaskRecord| t.node_id == node_id && t.status@ == "queued"@),
        forall|t: TaskRecord| #[trigger]
            waiting(tasks, node_id).contains(t) <==> tasks.contains(t) && t.node_id == node_id && t.status@ == "queued"@,
{
    let both = |t: TaskRecord| t.node_id == node_id && t.status@ == "queued"@;
    lemma_filter_twice(tasks, |t: TaskRecord| t.node_id == node_id, |t: TaskRecord| t.status@ == "queued"@, both);
    assert forall|t: TaskRecord| #[trigger]
        waiting(tasks, node_id).contains(t) <==> tasks.contains(t) && t.node_id == node_id && t.status@ == "queued"@ by {
        lists::lemma_filter_members(tasks, both, t);
    }
}

proof fn lemma_filter_twice(
    tasks: Seq<TaskRecord>,
    p: spec_fn(TaskRecord) -> bool,
    q: spec_fn(TaskRecord) -> bool,
    both: spec_fn(TaskRecord) -> bool,
)
    requires
        forall|t: TaskRecord| #[trigger] both(t) <==> p(t) && q(t),
    ensures
        tasks.filter(p).filter(q) == tasks.filter(both),
    decreases tasks.len(),
{
    reveal(Seq::filter);
    if tasks.len() > 0 {
        let t = tasks.last();
        lemma_filter_twice(tasks.drop_last(), p, q, both);
        let rest = tasks.drop_last().filter(p);
        assert(both(t) <==> p(t) && q(t));
        if p(t) {
            assert(rest.push(t).drop_last() =~= rest);
            assert(rest.push(t).last() == t);
        }
    }
}

/// The tasks that wait for a node, in order.
pub fn queued_tasks(tasks: Vec<TaskRecord>, node_id: u64) -> (found: Vec<TaskRecord>)
    ensures
        found@ == waiting(tasks@, node_id),
        found@ == tasks@.filter(|t: TaskRecord| t.node_id == node_id && t.status@ == "queued"@),
{
    proof {
        queued_tasks_wait(tasks@, node_id);
    }
    let own = db::tasks_for_node(tasks, node_id);
    let ghost all = own@;
    let ghost pred = |t: TaskRecord| t.status@ == "queued"@;
    let mut rest = lists::reversed(own);
    let mut out: Vec<TaskRecord> = Vec::new();
    let ghost mut i: int = 0;
    proof {
        reveal(Seq::filter);
        assert(all.take(0).filter(pred) =~= Seq::empty());
        assert(all.skip(0) =~= all);
    }
    while rest.len() > 0
        invariant
            0 <= i,
            i + rest@.len() == all.len(),
            rest@ == all.skip(i).reverse(),
            pred == (|t: TaskRecord| t.status@ == "queued"@),
            out@ == all.take(i).filter(pred),
        decreases rest@.len(),
    {
        proof {
            lists::lemma_rest_reversed(all, i);
        }
        let task = rest.pop().unwrap();
        proof {
            reveal(Seq::filter);
            assert(all.take(i + 1).drop_last() =~= all.take(i));
            assert(all.take(i + 1).last() == task);
            i = i + 1;
        }
        if text::same_text(task.status.as_str(), "queued") {
            out.push(task);
        }
    }
    assert(all.take(i) =~= all);
    out
}

/// The answer to a node that was registered: its number, its token, and the
/// tasks that wait for it.
pub fn register_reply(node: &NodeRecord, tasks: Vec<TaskRecord>) -> (reply: RegisterReply)
    ensures
        reply.node_id == node.id,
        reply.token@ == node.token@,
        reply.initial_tasks@.len() == waiting(tasks@, node.id).len(),
        forall|i: int| 0 <= i < reply.initial_tasks@.len() ==> tells(
            #[trigger] reply.initial_tasks@[i],
            waiting(tasks@, node.id)[i],
        ),
        ({
            let own = tasks@.filter(|t: TaskRecord| t.node_id == node.id && t.status@ == "queued"@);
            &&& reply.initial_tasks@.len() == own.len()
            &&& forall|i: int|
                0 <= i < own.len() ==> (#[trigger] reply.initial_tasks@[i]).id == own[i].id
                    && reply.initial_tasks@[i].game_id == own[i].game_id && reply.initial_tasks@[i].version
                    == own[i].version
        }),
{
    let queued = queued_tasks(tasks, node.id);
    let mut initial_tasks: Vec<Task> = Vec::new();
    let mut i: usize = 0;
    while i < queued.len()
        invariant
            i <= queued@.len(),
            initial_tasks@.len() == i,
            forall|k: int| 0 <= k < i ==> tells(#[trigger] initial_tasks@[k], queued@[k]),
        decreases queued.len() - i,
    {
        initial_tasks.push(to_proto_task(&queued[i]));
        i = i + 1;
    }
    RegisterReply { node_id: node.id, token: node.token.as_str().to_owned(), initial_tasks }
}

/// A node reports that it is alive. `None` stands for a node that is not
/// registered.
pub fn heartbeat(node: Option<NodeRecord>, now_ms: u64) -> (updated: Result<NodeRecord, Status>)
    ensures
        match (node, updated) {
            (Some(n), Ok(u)) => u.status@ == "online"@ && u == (NodeRecord {
                status: u.status,
                last_heartbeat_ms: now_ms,
                ..n
            }),
            (None, Err(s)) => s.says(Code::NotFound, "节点未注册"@),
            _ => false,
        },
{
    match node {
        None => Err(node_not_found()),
        Some(n) => {
            let mut n = n;
            n.last_heartbeat_ms = now_ms;
            n.status = "online".to_owned();
            Ok(n)
        },
    }
}

/// The answer to a node that is alive: the time, and the tasks that wait for it.
pub fn heartbeat_reply(node_id: u64, tasks: Vec<TaskRecord>, now_ms: u64) -> (reply: HeartbeatReply)
    ensures
        reply.server_time == now_ms,
        reply.task_ids@ == waiting(tasks@, node_id).map_values(|t: TaskRecord| t.id),
        reply.task_ids@ == tasks@.filter(|t: TaskRecord| t.node_id == node_id && t.status@ == "queued"@).map_values(
            |t: TaskRecord| t.id,
        ),
{
    let queued = queued_tasks(tasks, node_id);
    let mut task_ids: Vec<u64> = Vec::new();
    let mut i: usize = 0;
    while i < queued.len()
        invariant
            i <= queued@.len(),
            task_ids@.len() == i,
            forall|k: int| 0 <= k < i ==> #[trigger] task_ids@[k] == queued@[k].id,
        decreases queued.len() - i,
    {
        task_ids.push(queued[i].id);
        i = i + 1;
    }
    assert(task_ids@ =~= queued@.map_values(|t: TaskRecord| t.id));
    HeartbeatReply { server_time: now_ms, task_ids }
}

/// The events that have not been sent, by node.
#[derive(Debug)]
pub struct Pending {
    queues: HashMap<u64, Vec<Ev>>,
}

impl Pending {
    /// The events for a node, in the order in which they came.
    pub closed spec fn events(&self, node_id: u64) -> Seq<Ev> {
        if self.queues@.contains_key(node_id) {
            self.queues@[node_id]@
        } else {
            Seq::empty()
        }
    }

    /// No events.
    pub fn new() -> (p: Self)
        ensures
            forall|n: u64| #[trigger] p.events(n) == Seq::<Ev>::empty(),
    {
        Pending { queues: HashMap::new() }
    }

    /// Adds an event for a node.
    pub fn push(&mut self, node_id: u64, ev: Ev)
        ensures
            final(self).events(node_id) == old(self).events(node_id).push(ev),
            forall|n: u64| n != node_id ==> #[trigger] final(self).events(n) == old(self).events(n),
    {
        let mut queue: Vec<Ev> = match self.queues.remove(&node_id) {
            Some(q) => q,
            None => Vec::new(),
        };
        assert(queue@ =~= old(self).events(node_id));
        queue.push(ev);
        self.queues.insert(node_id, queue);
    }

    /// Takes the events for a node, in the order in which they came.
    pub fn drain(&mut self, node_id: u64) -> (events: Vec<Ev>)
        ensures
            events@ == old(self).events(node_id),
            final(self).events(node_id) == Seq::<Ev>::empty(),
            forall|n: u64| n != node_id ==> #[trigger] final(self).events(n) == old(self).events(n),
    {
        match self.queues.remove(&node_id) {
            Some(q) => q,
            None => {
                let none: Vec<Ev> = Vec::new();
                assert(none@ =~= Seq::empty());
                none
            },
        }
    }
}

/// Whether the events of a node, and of no other, go on with the message about
/// a task.
pub open spec fn announces(before: Pending, after: Pending, task: TaskRecord) -> bool {
    let events = after.events(task.node_id);
    &&& events.len() == before.events(task.node_id).len() + 1
    &&& events.drop_last() == before.events(task.node_id)
    &&& events.last() is Task && tells(events.last()->Task_0, task)
    &&& forall|n: u64| n != task.node_id ==> #[trigger] after.events(n) == before.events(n)
}

/// What a node is told of a task comes after all it was told before; other nodes
/// are told nothing.
pub proof fn only_the_node_is_told(before: Pending, after: Pending, task: TaskRecord, other: u64)
    requires
        announces(before, after, task),
    ensures
        after.events(task.node_id).len() == before.events(task.node_id).len() + 1,
        forall|i: int|
            0 <= i < before.events(task.node_id).len() ==> #[trigger] after.events(task.node_id)[i] == before.events(
                task.node_id,
            )[i],
        after.events(task.node_id)[before.events(task.node_id).len() as int] matches Ev::Task(m) && m.id == task.id
            && m.game_id == task.game_id && m.version == task.version,
        other != task.node_id ==> after.events(other) == before.events(other),
{
    let now = after.events(task.node_id);
    assert forall|i: int| 0 <= i < before.events(task.node_id).len() implies #[trigger] now[i] == before.events(
        task.node_id,
    )[i] by {
        assert(now.drop_last()[i] == now[i]);
    }
}

/// Tells the node of a task of it, once the task was kept; nothing is told of a
/// task that could not be.
pub fn announce(pending: &mut Pending, task: &TaskRecord, kept: Result<(), DbError>) -> (done: Result<(), Status>)
    ensures
        match kept {
            Ok(_) => done is Ok && announces(*old(pending), *final(pending), *task),
            Err(e) => (done matches Err(s) && s.says(Code::Internal, "写入任务失败"@ + ": "@ + e.text()))
                && *final(pending) == *old(pending),
        },
{
    match kept {
        Err(e) => Err(write_task_error(e.message())),
        Ok(_) => {
            pending.push(task.node_id, Ev::Task(to_proto_task(task)));
            assert(pending.events(task.node_id).drop_last() =~= old(pending).events(task.node_id));
            Ok(())
        },
    }
}

/// Keeps a task and tells its node of it. `record` is the text to keep.
pub fn push_task(tasks: &mut RecordTable, pending: &mut Pending, task: &TaskRecord, record: &String) -> (done: Result<
    (),
    Status,
>)
    ensures
        tables::record_opened(*final(tasks)) == tables::record_opened(*old(tasks)),
        match done {
            Ok(_) => {
                &&& tables::record_rows(*final(tasks)) == tables::record_rows(*old(tasks)).insert(task.id, record@)
                &&& announces(*old(pending), *final(pending), *task)
            },
            Err(s) => {
                &&& s.says(Code::Internal, "写入任务失败"@ + ": "@ + "写入任务失败"@)
                &&& *final(pending) == *old(pending)
            },
        },
{
    announce(pending, task, db::insert_record(tasks, RecordKind::Task, task.id, record))
}

/// A node reports on a task. `None` stands for a task that is not known; then
/// there is nothing to keep.
pub fn report_task(task: Option<TaskRecord>, report: &TaskReport) -> (updated: Option<TaskRecord>)
    ensures
        match (task, updated) {
            (None, None) => true,
            (Some(t), Some(u)) => u.status@ == report.status@ && u.error@ == report.error@ && u == (TaskRecord {
                status: u.status,
                error: u.error,
                ..t
            }),
            _ => false,
        },
{
    db::update_task_status(task, report.status.as_str(), report.error.as_str())
}

/// The answer to a report of a chunk, given whether the ledger has it now.
pub fn chunk_reply(noted: Result<(), DbError>) -> (r: Result<(), Status>)
    ensures
        match noted {
            Ok(_) => r is Ok,
            Err(e) => r matches Err(s) && s.says(Code::Internal, "块账本操作失败"@ + ": "@ + e.text()),
        },
{
    match noted {
        Err(e) => Err(chunk_ledger_error(e.message())),
        Ok(_) => Ok(()),
    }
}

/// A node reports that it holds a chunk.
pub fn report_chunk(ledger: &mut TextTable, done: &ChunkDone) -> (r: Result<(), Status>)
    ensures
        tables::text_opened(*final(ledger)) == tables::text_opened(*old(ledger)),
        match r {
            Ok(_) => {
                &&& tables::text_rows(*final(ledger)) == db::with_holder(
                    tables::text_rows(*old(ledger)),
                    done.node_id,
                    done.game_id,
                    done.chunk_hash@,
                )
                &&& db::holders(tables::text_rows(*final(ledger)), done.game_id, done.chunk_hash@).contains(
                    done.node_id,
                )
            },
            Err(s) => exists|e: DbError|
                s.says(Code::Internal, "块账本操作失败"@ + ": "@ + #[trigger] e.text()) && (e == DbError::ReadLedger || e
                    == DbError::WriteLedger),
        },
{
    let ghost before = db::holders(tables::text_rows(*ledger), done.game_id, done.chunk_hash@);
    let noted = db::record_chunk_holder(ledger, done.node_id, done.game_id, done.chunk_hash.as_slice());
    assert(before.push(done.node_id)[before.len() as int] == done.node_id);
    chunk_reply(noted)
}

/// The first nodes of the list: as many as asked for, or all.
pub open spec fn limited(ids: Seq<u64>, limit: u32) -> Seq<u64> {
    if limit == 0 || limit >= ids.len() {
        ids
    } else {
        ids.take(limit as int)
    }
}

/// The first of the nodes that were found to hold a chunk, if that could be
/// told: as many as asked for, or all.
pub fn first_holders(found: Result<Vec<u64>, DbError>, limit: u32) -> (ids: Result<Vec<u64>, Status>)
    ensures
        match found {
            Ok(list) => {
                &&& ids matches Ok(out)
                &&& out@ == limited(list@, limit)
                &&& out@.len() == (if limit > 0 && limit < list@.len() {
                    limit as nat
                } else {
                    list@.len()
                })
                &&& forall|i: int| 0 <= i < out@.len() ==> #[trigger] out@[i] == list@[i]
            },
            Err(e) => ids matches Err(s) && s.says(Code::Internal, "块账本操作失败"@ + ": "@ + e.text()),
        },
{
    match found {
        Err(e) => Err(chunk_ledger_error(e.message())),
        Ok(list) => {
            if limit == 0 {
                return Ok(list);
            }
            let mut out: Vec<u64> = Vec::new();
            let mut i: usize = 0;
            while i < list.len() && (i as u64) < limit as u64
                invariant
                    i <= list@.len(),
                    i <= limit,
                    out@ =~= list@.take(i as int),
                decreases list.len() - i,
            {
                out.push(list[i]);
                i = i + 1;
            }
            assert(out@ =~= limited(list@, limit));
            Ok(out)
        },
    }
}

/// The nodes to look up for a question which nodes hold a chunk.
pub fn query_holders(ledger: &TextTable, query: &PeerQuery) -> (ids: Result<Vec<u64>, Status>)
    ensures
        match ids {
            Ok(list) => {
                let all = db::holders(tables::text_rows(*ledger), query.game_id, query.chunk_hash@);
                &&& list@ == limited(all, query.limit)
                &&& list@.len() == (if query.limit > 0 && query.limit < all.len() {
                    query.limit as nat
                } else {
                    all.len()
                })
                &&& forall|i: int| 0 <= i < list@.len() ==> #[trigger] list@[i] == all[i]
            },
            Err(s) => exists|e: DbError|
                s.says(Code::Internal, "块账本操作失败"@ + ": "@ + #[trigger] e.text()) && db::tells_none(
                    tables::text_rows(*ledger),
                    query.game_id,
                    query.chunk_hash@,
                    e,
                ),
        },
{
    first_holders(db::chunk_holders(ledger, query.game_id, query.chunk_hash.as_slice()), query.limit)
}

/// Whether a message says where the node of a record can be reached.
pub open spec fn presents(peer: Peer, node: NodeRecord) -> bool {
    &&& peer.node_id == node.id
    &&& peer.endpoint_id == node.endpoint_id
    &&& peer.addrs@ == node.addrs@.map_values(|a: AddrRecord| told(a))
    &&& peer.direct_only == (node.node_type@ == "cafe"@)
}

/// The records that were found, in order.
pub open spec fn known(found: Seq<Option<NodeRecord>>) -> Seq<NodeRecord>
    decreases found.len(),
{
    if found.len() == 0 {
        Seq::empty()
    } else {
        match found.last() {
            Some(n) => known(found.drop_last()).push(n),
            None => known(found.drop_last()),
        }
    }
}

/// Of what was found, the records are left, in their order.
pub proof fn found_records_are_known(found: Seq<Option<NodeRecord>>)
    ensures
        known(found) == found.filter(|f: Option<NodeRecord>| f is Some).map_values(|f: Option<NodeRecord>| f->0),
    decreases found.len(),
{
    reveal(Seq::filter);
    let there = |f: Option<NodeRecord>| f is Some;
    let record = |f: Option<NodeRecord>| f->0;
    if found.len() > 0 {
        found_records_are_known(found.drop_last());
        let rest = found.drop_last().filter(there);
        if found.last() is Some {
            assert(rest.push(found.last()).map_values(record) =~= rest.map_values(record).push(found.last()->0));
        }
    } else {
        assert(found.filter(there).map_values(record) =~= Seq::empty());
    }
}

/// The nodes that hold a chunk, from what was found of them: a node that is not
/// registered is passed over. Chunks of a cafe are only fetched directly.
pub fn query_peers(found: Vec<Option<NodeRecord>>) -> (peers: Vec<Peer>)
    ensures
        peers@.len() == known(found@).len(),
        forall|i: int| 0 <= i < peers@.len() ==> presents(#[trigger] peers@[i], known(found@)[i]),
        ({
            let there = found@.filter(|f: Option<NodeRecord>| f is Some);
            &&& peers@.len() == there.len()
            &&& forall|i: int|
                0 <= i < peers@.len() ==> {
                    &&& (#[trigger] peers@[i]).node_id == there[i]->0.id
                    &&& peers@[i].endpoint_id == there[i]->0.endpoint_id
                    &&& peers@[i].addrs@.len() == there[i]->0.addrs@.len()
                    &&& peers@[i].direct_only <==> there[i]->0.node_type@ == "cafe"@
                }
            &&& forall|i: int, k: int|
                0 <= i < peers@.len() && 0 <= k < peers@[i].addrs@.len() ==> (#[trigger] peers@[i].addrs@[k]).addr
                    == there[i]->0.addrs@[k].addr && peers@[i].addrs@[k].kind == there[i]->0.addrs@[k].kind
                    && peers@[i].addrs@[k].link == there[i]->0.addrs@[k].link
        }),
{
    let ghost all = found@;
    let mut rest = lists::reversed(found);
    let mut peers: Vec<Peer> = Vec::new();
    let ghost mut i: int = 0;
    assert(all.skip(0) =~= all);
    assert(all.take(0) =~= Seq::empty());
    while rest.len() > 0
        invariant
            0 <= i,
            i + rest@.len() == all.len(),
            rest@ == all.skip(i).reverse(),
            peers@.len() == known(all.take(i)).len(),
            forall|k: int| 0 <= k < peers@.len() ==> presents(#[trigger] peers@[k], known(all.take(i))[k]),
        decreases rest@.len(),
    {
        proof {
            lists::lemma_rest_reversed(all, i);
            assert(all.take(i + 1).drop_last() =~= all.take(i));
        }
        match rest.pop().unwrap() {
            None => {},
            Some(node) => {
                let direct_only = text::same_text(node.node_type.as_str(), "cafe");
                peers.push(
                    Peer {
                        node_id: node.id,
                        endpoint_id: node.endpoint_id,
                        addrs: tell_addrs(node.addrs),
                        direct_only,
                    },
                );
            },
        }
        proof {
            i = i + 1;
        }
    }
    assert(all.take(i) =~= all);
    proof {
        found_records_are_known(all);
        let there = all.filter(|f: Option<NodeRecord>| f is Some);
        assert(known(all).len() == there.len());
        assert forall|j: int| 0 <= j < peers@.len() implies {
            &&& (#[trigger] peers@[j]).node_id == there[j]->0.id
            &&& peers@[j].endpoint_id == there[j]->0.endpoint_id
            &&& peers@[j].addrs@.len() == there[j]->0.addrs@.len()
            &&& peers@[j].direct_only <==> there[j]->0.node_type@ == "cafe"@
        } by {
            assert(presents(peers@[j], known(all)[j]));
        }
        assert forall|j: int, k: int| 0 <= j < peers@.len() && 0 <= k < peers@[j].addrs@.len() implies (
        #[trigger] peers@[j].addrs@[k]).addr == there[j]->0.addrs@[k].addr && peers@[j].addrs@[k].kind
            == there[j]->0.addrs@[k].kind && peers@[j].addrs@[k].link == there[j]->0.addrs@[k].link by {
            assert(presents(peers@[j], known(all)[j]));
        }
    }
    peers
}

/// Versions are not looked up here: none is ever found.
pub fn get_version() -> (info: VersionInfo)
    ensures
        !info.found,
        info.version == 0,
        info.manifest@.len() == 0,
{
    VersionInfo { found: false, version: 0, manifest: Vec::new() }
}

} // verus!
