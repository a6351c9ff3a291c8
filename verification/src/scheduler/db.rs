//! The scheduler's data: nodes, tasks, accounts, games, the chunk ledger and
//! the numbers given out.
//!
//! A record is kept under its number as a JSON text; turning records into
//! texts and back is the caller's.
use vstd::prelude::*;
use vstd::utf8::*;

use crate::common::digest;
use crate::common::hex;
use crate::common::json;
use crate::common::lists;
use crate::common::order;
use crate::common::stable;
use crate::common::tables;
use crate::common::tables::{CountTable, RecordTable, TextTable};
use crate::common::text;

verus! {

/// An address under which a node can be reached.
#[derive(Debug, Clone, PartialEq, Eq)]
pub struct AddrRecord {
    pub addr: String,
    pub kind: String,
    pub link: String,
}

/// A registered node.
#[derive(Debug, Clone, PartialEq, Eq)]
pub struct NodeRecord {
    pub id: u64,
    pub node_type: String,
    pub endpoint_id: String,
    pub token: String,
    pub addrs: Vec<AddrRecord>,
    pub status: String,
    pub last_heartbeat_ms: u64,
}

/// A task of a node.
#[derive(Debug, Clone, PartialEq, Eq)]
pub struct TaskRecord {
    pub id: u64,
    pub node_id: u64,
    pub game_id: u64,
    pub version: u64,
    pub kind: String,
    pub assigned_chunks: Vec<Vec<u8>>,
    pub status: String,
    pub error: String,
}

/// An account.
#[derive(Debug, Clone, PartialEq, Eq)]
pub struct UserRecord {
    pub id: u64,
    pub username: String,
    pub password_hash: String,
    pub salt: String,
}

/// An internet cafe.
#[derive(Debug, Clone, PartialEq, Eq)]
pub struct PlaceRecord {
    pub id: u64,
    pub name: String,
    pub region: String,
}

/// A group of internet cafes.
#[derive(Debug, Clone, PartialEq, Eq)]
pub struct GroupRecord {
    pub id: u64,
    pub name: String,
}

/// A game.
#[derive(Debug, Clone, PartialEq, Eq)]
pub struct GameRecord {
    pub id: u64,
    pub name: String,
    pub status: String,
    pub current_version: u64,
    pub latest_version: u64,
}

/// The kinds of records.
#[derive(Debug, Clone, Copy, PartialEq, Eq, Structural)]
pub enum RecordKind {
    Node,
    Task,
    User,
    Place,
    Group,
    Game,
}

impl RecordKind {
    /// The table that holds the records.
    pub open spec fn table(self) -> Seq<char> {
        match self {
            RecordKind::Node => "nodes"@,
            RecordKind::Task => "tasks"@,
            RecordKind::User => "users"@,
            RecordKind::Place => "places"@,
            RecordKind::Group => "groups"@,
            RecordKind::Game => "games"@,
        }
    }

    /// The table that holds the records.
    pub fn table_name(&self) -> (name: &'static str)
        ensures
            name@ == self.table(),
            name@ == (match *self {
                RecordKind::Node => "nodes"@,
                RecordKind::Task => "tasks"@,
                RecordKind::User => "users"@,
                RecordKind::Place => "places"@,
                RecordKind::Group => "groups"@,
                RecordKind::Game => "games"@,
            }),
    {
        match self {
            RecordKind::Node => "nodes",
            RecordKind::Task => "tasks",
            RecordKind::User => "users",
            RecordKind::Place => "places",
            RecordKind::Group => "groups",
            RecordKind::Game => "games",
        }
    }

    /// The counter that numbers the records.
    pub open spec fn counter(self) -> Seq<char> {
        match self {
            RecordKind::Node => "next_node_id"@,
            RecordKind::Task => "next_task_id"@,
            RecordKind::User => "next_user_id"@,
            RecordKind::Place => "next_place_id"@,
            RecordKind::Group => "next_group_id"@,
            RecordKind::Game => "next_game_id"@,
        }
    }

    /// The counter that numbers the records.
    pub fn counter_name(&self) -> (name: &'static str)
        ensures
            name@ == self.counter(),
            name@ == (match *self {
                RecordKind::Node => "next_node_id"@,
                RecordKind::Task => "next_task_id"@,
                RecordKind::User => "next_user_id"@,
                RecordKind::Place => "next_place_id"@,
                RecordKind::Group => "next_group_id"@,
                RecordKind::Game => "next_game_id"@,
            }),
    {
        match self {
            RecordKind::Node => "next_node_id",
            RecordKind::Task => "next_task_id",
            RecordKind::User => "next_user_id",
            RecordKind::Place => "next_place_id",
            RecordKind::Group => "next_group_id",
            RecordKind::Game => "next_game_id",
        }
    }
}

/// What failed.
#[derive(Debug, Clone, Copy, PartialEq, Eq, Structural)]
pub enum DbError {
    ReadCounter,
    WriteCounter,
    /// A counter has reached the largest number.
    CounterFull,
    WriteRecord(RecordKind),
    ReadRecord(RecordKind),
    ListRecords(RecordKind),
    DeleteRecord(RecordKind),
    ReadLedger,
    WriteLedger,
    BadLedger,
    ReadHeat,
    WriteHeat,
    ListHeat,
    /// A key of the launch counts is not a number.
    BadGameId,
    Decode,
    WriteVersion,
    ReadVersion,
    WriteBinding,
    ListBindings,
}

impl DbError {
    /// What to tell a user.
    pub open spec fn text(self) -> Seq<char> {
        match self {
            DbError::ReadCounter => "读取计数失败"@,
            DbError::WriteCounter => "写入计数失败"@,
            DbError::CounterFull => "计数已达上限"@,
            DbError::WriteRecord(RecordKind::Node) => "写入节点失败"@,
            DbError::WriteRecord(RecordKind::Task) => "写入任务失败"@,
            DbError::WriteRecord(_) => "写入记录失败"@,
            DbError::ReadRecord(RecordKind::Node) => "查询节点失败"@,
            DbError::ReadRecord(RecordKind::Task) => "查询任务失败"@,
            DbError::ReadRecord(_) => "查询记录失败"@,
            DbError::ListRecords(RecordKind::Node) => "遍历节点失败"@,
            DbError::ListRecords(RecordKind::Task) => "遍历任务失败"@,
            DbError::ListRecords(_) => "遍历记录失败"@,
            DbError::DeleteRecord(_) => "删除记录失败"@,
            DbError::ReadLedger => "查询块账本失败"@,
            DbError::WriteLedger => "写入块账本失败"@,
            DbError::BadLedger => "解析块账本失败"@,
            DbError::ReadHeat => "读取热度失败"@,
            DbError::WriteHeat => "写入热度失败"@,
            DbError::ListHeat => "遍历热度失败"@,
            DbError::BadGameId => "解析游戏 ID 失败"@,
            DbError::Decode => "反序列化记录失败"@,
            DbError::WriteVersion => "写入版本清单失败"@,
            DbError::ReadVersion => "查询版本清单失败"@,
            DbError::WriteBinding => "写入绑定失败"@,
            DbError::ListBindings => "遍历绑定失败"@,
        }
    }

    /// What to tell a user.
    pub fn message(&self) -> (out: &'static str)
        ensures
            out@ == self.text(),
            out@ == (match *self {
                DbError::ReadCounter => "读取计数失败"@,
                DbError::WriteCounter => "写入计数失败"@,
                DbError::CounterFull => "计数已达上限"@,
                DbError::WriteRecord(RecordKind::Node) => "写入节点失败"@,
                DbError::WriteRecord(RecordKind::Task) => "写入任务失败"@,
                DbError::WriteRecord(_) => "写入记录失败"@,
                DbError::ReadRecord(RecordKind::Node) => "查询节点失败"@,
                DbError::ReadRecord(RecordKind::Task) => "查询任务失败"@,
                DbError::ReadRecord(_) => "查询记录失败"@,
                DbError::ListRecords(RecordKind::Node) => "遍历节点失败"@,
                DbError::ListRecords(RecordKind::Task) => "遍历任务失败"@,
                DbError::ListRecords(_) => "遍历记录失败"@,
                DbError::DeleteRecord(_) => "删除记录失败"@,
                DbError::ReadLedger => "查询块账本失败"@,
                DbError::WriteLedger => "写入块账本失败"@,
                DbError::BadLedger => "解析块账本失败"@,
                DbError::ReadHeat => "读取热度失败"@,
                DbError::WriteHeat => "写入热度失败"@,
                DbError::ListHeat => "遍历热度失败"@,
                DbError::BadGameId => "解析游戏 ID 失败"@,
                DbError::Decode => "反序列化记录失败"@,
                DbError::WriteVersion => "写入版本清单失败"@,
                DbError::ReadVersion => "查询版本清单失败"@,
                DbError::WriteBinding => "写入绑定失败"@,
                DbError::ListBindings => "遍历绑定失败"@,
            }),
    {
        match self {
            DbError::ReadCounter => "读取计数失败",
            DbError::WriteCounter => "写入计数失败",
            DbError::CounterFull => "计数已达上限",
            DbError::WriteRecord(RecordKind::Node) => "写入节点失败",
            DbError::WriteRecord(RecordKind::Task) => "写入任务失败",
            DbError::WriteRecord(_) => "写入记录失败",
            DbError::ReadRecord(RecordKind::Node) => "查询节点失败",
            DbError::ReadRecord(RecordKind::Task) => "查询任务失败",
            DbError::ReadRecord(_) => "查询记录失败",
            DbError::ListRecords(RecordKind::Node) => "遍历节点失败",
            DbError::ListRecords(RecordKind::Task) => "遍历任务失败",
            DbError::ListRecords(_) => "遍历记录失败",
            DbError::DeleteRecord(_) => "删除记录失败",
            DbError::ReadLedger => "查询块账本失败",
            DbError::WriteLedger => "写入块账本失败",
            DbError::BadLedger => "解析块账本失败",
            DbError::ReadHeat => "读取热度失败",
            DbError::WriteHeat => "写入热度失败",
            DbError::ListHeat => "遍历热度失败",
            DbError::BadGameId => "解析游戏 ID 失败",
            DbError::Decode => "反序列化记录失败",
            DbError::WriteVersion => "写入版本清单失败",
            DbError::ReadVersion => "查询版本清单失败",
            DbError::WriteBinding => "写入绑定失败",
            DbError::ListBindings => "遍历绑定失败",
        }
    }
}

/// BLAKE3 of the salt, a colon and the password, in hexadecimal.
pub open spec fn password_hash_spec(password: Seq<char>, salt: Seq<char>) -> Seq<char> {
    hex::hex_spec(digest::blake3_digest(encode_utf8(salt + ":"@ + password)))
}

/// The hash under which a password is kept.
pub fn hash_password(password: &str, salt: &str) -> (hash: String)
    ensures
        hash@ == password_hash_spec(password@, salt@),
        hash@ == hex::hex_spec(digest::blake3_digest(encode_utf8(salt@ + ":"@ + password@))),
{
    let salted = text::join3(salt, ":", password);
    let hash = digest::blake3_hash(salted.as_str().as_bytes());
    hex::hex(hash.as_slice())
}

/// The table of a kind of records in a transaction.
pub fn open_records<'t>(txn: &'t redb::WriteTransaction, kind: RecordKind) -> (table: Result<
    RecordTable<'t>,
    redb::TableError,
>)
    ensures
        table matches Ok(t) ==> tables::record_opened(t) == (*txn, kind.table()),
{
    proof {
        reveal_strlit("nodes");
        reveal_strlit("tasks");
        reveal_strlit("users");
        reveal_strlit("places");
        reveal_strlit("groups");
        reveal_strlit("games");
    }
    RecordTable::open_in(txn, kind.table_name())
}

/// The table of counters.
pub fn open_counters<'t>(txn: &'t redb::WriteTransaction) -> (table: Result<CountTable<'t>, redb::TableError>)
    ensures
        table matches Ok(t) ==> tables::count_opened(t) == (*txn, "counters"@),
{
    proof {
        reveal_strlit("counters");
    }
    CountTable::open_in(txn, "counters")
}

/// The table of launch counts.
pub fn open_heat<'t>(txn: &'t redb::WriteTransaction) -> (table: Result<CountTable<'t>, redb::TableError>)
    ensures
        table matches Ok(t) ==> tables::count_opened(t) == (*txn, "heat"@),
{
    proof {
        reveal_strlit("heat");
    }
    CountTable::open_in(txn, "heat")
}

/// The table of bindings.
pub fn open_bindings<'t>(txn: &'t redb::WriteTransaction) -> (table: Result<CountTable<'t>, redb::TableError>)
    ensures
        table matches Ok(t) ==> tables::count_opened(t) == (*txn, "bindings"@),
{
    proof {
        reveal_strlit("bindings");
    }
    CountTable::open_in(txn, "bindings")
}

/// The chunk ledger: which nodes hold which chunks.
pub fn open_ledger<'t>(txn: &'t redb::WriteTransaction) -> (table: Result<TextTable<'t>, redb::TableError>)
    ensures
        table matches Ok(t) ==> tables::text_opened(t) == (*txn, "chunks"@),
{
    proof {
        reveal_strlit("chunks");
    }
    TextTable::open_in(txn, "chunks")
}

/// The table of version manifests.
pub fn open_versions<'t>(txn: &'t redb::WriteTransaction) -> (table: Result<TextTable<'t>, redb::TableError>)
    ensures
        table matches Ok(t) ==> tables::text_opened(t) == (*txn, "versions"@),
{
    proof {
        reveal_strlit("versions");
    }
    TextTable::open_in(txn, "versions")
}

/// The number after the one last given out; the first is one.
pub open spec fn next_number(counters: Map<Seq<char>, u64>, kind: RecordKind) -> int {
    match tables::row(counters, kind.counter()) {
        Some(v) => v + 1,
        None => 1,
    }
}

/// Whether this can be why no number was given out.
pub open spec fn gives_none(counters: Map<Seq<char>, u64>, kind: RecordKind, e: DbError) -> bool {
    e == DbError::ReadCounter || e == DbError::WriteCounter || (e == DbError::CounterFull && next_number(counters, kind)
        > u64::MAX)
}

/// The number after the one last given out, if any was; the first is one.
pub fn number_after(last: Option<u64>) -> (id: Result<u64, DbError>)
    ensures
        id == (match last {
            None => Ok::<u64, DbError>(1),
            Some(n) => if n < u64::MAX {
                Ok((n + 1) as u64)
            } else {
                Err(DbError::CounterFull)
            },
        }),
{
    match last {
        None => Ok(1),
        Some(n) => if n < u64::MAX {
            Ok(n + 1)
        } else {
            Err(DbError::CounterFull)
        },
    }
}

/// Gives out the next number for a kind of records.
pub fn next_id(counters: &mut CountTable, kind: RecordKind) -> (id: Result<u64, DbError>)
    ensures
        tables::count_opened(*final(counters)) == tables::count_opened(*old(counters)),
        match id {
            Ok(n) => {
                &&& n == next_number(tables::count_rows(*old(counters)), kind)
                &&& tables::count_rows(*final(counters)) == tables::count_rows(*old(counters)).insert(
                    kind.counter(),
                    n,
                )
                &&& tables::count_rows(*old(counters)).contains_key(kind.counter()) ==> n == tables::count_rows(
                    *old(counters),
                )[kind.counter()] + 1
                &&& !tables::count_rows(*old(counters)).contains_key(kind.counter()) ==> n == 1
            },
            Err(e) => gives_none(tables::count_rows(*old(counters)), kind, e),
        },
{
    let key = kind.counter_name().to_owned();
    let last = match counters.get(&key) {
        Err(_) => {
            return Err(DbError::ReadCounter);
        },
        Ok(v) => v,
    };
    let next: u64 = match number_after(last) {
        Err(e) => {
            return Err(e);
        },
        Ok(n) => n,
    };
    match counters.insert(&key, next) {
        Err(_) => Err(DbError::WriteCounter),
        Ok(_) => Ok(next),
    }
}

/// A number that was given out is never given out again for the same kind, and
/// giving one out does not change what the other kinds get next.
pub proof fn numbers_are_new(counters: Map<Seq<char>, u64>, kind: RecordKind, other: RecordKind)
    requires
        next_number(counters, kind) <= u64::MAX,
    ensures
        ({
            let n = next_number(counters, kind);
            let after = counters.insert(kind.counter(), n as u64);
            &&& n > 0
            &&& next_number(after, kind) == n + 1
            &&& other != kind ==> next_number(after, other) == next_number(counters, other)
        }),
{
    reveal_strlit("next_node_id");
    reveal_strlit("next_task_id");
    reveal_strlit("next_user_id");
    reveal_strlit("next_place_id");
    reveal_strlit("next_group_id");
    reveal_strlit("next_game_id");
    if other != kind {
        let a = kind.counter();
        let b = other.counter();
        assert(a.len() != b.len() || a[5] != b[5] || a[6] != b[6]);
        assert(a != b);
    }
}

/// Every kind of records has a table of its own.
pub proof fn kinds_are_kept_apart(kind: RecordKind, other: RecordKind)
    ensures
        kind.table() == other.table() ==> kind == other,
        kind.counter() == other.counter() ==> kind == other,
{
    reveal_strlit("nodes");
    reveal_strlit("tasks");
    reveal_strlit("users");
    reveal_strlit("places");
    reveal_strlit("groups");
    reveal_strlit("games");
    if kind != other {
        let a = kind.table();
        let b = other.table();
        assert(a.len() != b.len() || a[0] != b[0] || a[1] != b[1]);
        numbers_are_new(Map::empty(), kind, other);
        let one = Map::<Seq<char>, u64>::empty().insert(kind.counter(), 1);
        assert(next_number(one, kind) == 2 && next_number(one, other) == 1);
    }
}

/// Puts a record under its number.
pub fn insert_record(table: &mut RecordTable, kind: RecordKind, id: u64, record: &String) -> (done: Result<(), DbError>)
    ensures
        tables::record_opened(*final(table)) == tables::record_opened(*old(table)),
        match done {
            Ok(_) => tables::record_rows(*final(table)) == tables::record_rows(*old(table)).insert(id, record@),
            Err(e) => e == DbError::WriteRecord(kind),
        },
{
    match table.insert(id, record) {
        Err(_) => Err(DbError::WriteRecord(kind)),
        Ok(_) => Ok(()),
    }
}

/// The record under a number.
pub fn get_record(table: &RecordTable, kind: RecordKind, id: u64) -> (record: Result<Option<String>, DbError>)
    ensures
        match record {
            Ok(r) => tables::text_of(r) == tables::row(tables::record_rows(*table), id),
            Err(e) => e == DbError::ReadRecord(kind),
        },
{
    match table.get(id) {
        Err(_) => Err(DbError::ReadRecord(kind)),
        Ok(r) => Ok(r),
    }
}

/// Whether the texts are those of the rows, in ascending order of the numbers.
pub open spec fn lists_texts(texts: Seq<String>, rows: Map<u64, Seq<char>>) -> bool {
    exists|ids: Seq<u64>| #[trigger] in_rows(texts, ids, rows)
}

/// Whether `ids` are the numbers of all rows, ascending, and `texts` what the
/// rows hold.
pub open spec fn in_rows(texts: Seq<String>, ids: Seq<u64>, rows: Map<u64, Seq<char>>) -> bool {
    &&& ids.len() == texts.len()
    &&& forall|i: int, j: int| 0 <= i < j < ids.len() ==> (#[trigger] ids[i]) < (#[trigger] ids[j])
    &&& forall|i: int| 0 <= i < ids.len() ==> rows.contains_key(#[trigger] ids[i]) && rows[ids[i]] == texts[i]@
    &&& forall|k: u64| #[trigger] rows.contains_key(k) ==> ids.contains(k)
}

/// The records of the rows, in their order.
pub fn record_texts(rows: Vec<(u64, String)>) -> (texts: Vec<String>)
    ensures
        texts@ == rows@.map_values(|r: (u64, String)| r.1),
{
    let ghost all = rows@;
    let mut rest = lists::reversed(rows);
    let mut out: Vec<String> = Vec::new();
    assert(all.skip(0) =~= all);
    while rest.len() > 0
        invariant
            out@.len() + rest@.len() == all.len(),
            rest@ == all.skip(out@.len() as int).reverse(),
            forall|i: int| 0 <= i < out@.len() ==> #[trigger] out@[i] == all[i].1,
        decreases rest@.len(),
    {
        proof {
            lists::lemma_rest_reversed(all, out@.len() as int);
        }
        let row = rest.pop().unwrap();
        out.push(row.1);
    }
    assert(out@ =~= all.map_values(|r: (u64, String)| r.1));
    out
}

/// All records, in the order of their numbers.
pub fn list_records(table: &RecordTable, kind: RecordKind) -> (records: Result<Vec<String>, DbError>)
    ensures
        match records {
            Ok(list) => lists_texts(list@, tables::record_rows(*table)),
            Err(e) => e == DbError::ListRecords(kind),
        },
        records matches Ok(list) ==> exists|ids: Seq<u64>|
            ids.len() == list@.len() && #[trigger] ids.no_duplicates() && (forall|i: int, j: int|
                0 <= i < j < ids.len() ==> (#[trigger] ids[i]) < (#[trigger] ids[j])) && (forall|i: int|
                0 <= i < ids.len() ==> tables::record_rows(*table).contains_key(#[trigger] ids[i])
                    && tables::record_rows(*table)[ids[i]] == list@[i]@) && forall|k: u64| #[trigger]
                tables::record_rows(*table).contains_key(k) ==> ids.contains(k),
{
    let rows = match table.rows() {
        Err(_) => {
            return Err(DbError::ListRecords(kind));
        },
        Ok(r) => r,
    };
    let ghost all = rows@;
    let out = record_texts(rows);
    proof {
        let map = tables::record_rows(*table);
        let ids = all.map_values(|r: (u64, String)| r.0);
        assert forall|k: u64| #[trigger] map.contains_key(k) implies ids.contains(k) by {
            let i = choose|i: int| 0 <= i < all.len() && (#[trigger] all[i]).0 == k;
            assert(ids[i] == k);
        }
        assert(in_rows(out@, ids, map));
        assert(ids.no_duplicates());
    }
    Ok(out)
}

/// Takes the record under a number away; the result says whether there was one.
pub fn delete_record(table: &mut RecordTable, kind: RecordKind, id: u64) -> (found: Result<bool, DbError>)
    ensures
        tables::record_opened(*final(table)) == tables::record_opened(*old(table)),
        match found {
            Ok(f) => {
                &&& f == tables::record_rows(*old(table)).contains_key(id)
                &&& tables::record_rows(*final(table)) == tables::record_rows(*old(table)).remove(id)
            },
            Err(e) => e == DbError::DeleteRecord(kind),
        },
{
    match table.remove(id) {
        Err(_) => Err(DbError::DeleteRecord(kind)),
        Ok(f) => Ok(f),
    }
}

/// Records are kept apart: a record that was kept is read back until it is
/// replaced or taken away, whatever is done to records with other numbers.
pub proof fn records_are_kept_apart(rows: Map<u64, Seq<char>>, id: u64, record: Seq<char>, other: u64)
    ensures
        tables::row(rows.insert(id, record), id) == Some(record),
        tables::row(rows.remove(id), id) is None,
        other != id ==> tables::row(rows.insert(id, record), other) == tables::row(rows, other),
        other != id ==> tables::row(rows.remove(id), other) == tables::row(rows, other),
        rows.insert(id, record).remove(id) == rows.remove(id),
{
    assert(rows.insert(id, record).remove(id) =~= rows.remove(id));
}

/// A task with another status; `None` where there is no task.
pub fn update_task_status(task: Option<TaskRecord>, status: &str, error: &str) -> (updated: Option<TaskRecord>)
    ensures
        match (task, updated) {
            (None, None) => true,
            (Some(t), Some(u)) => {
                &&& u.status@ == status@
                &&& u.error@ == error@
                &&& u == (TaskRecord { status: u.status, error: u.error, ..t })
            },
            _ => false,
        },
{
    match task {
        None => None,
        Some(t) => {
            let mut t = t;
            t.status = status.to_owned();
            t.error = error.to_owned();
            Some(t)
        },
    }
}

/// The tasks of a node, in order.
pub fn tasks_for_node(tasks: Vec<TaskRecord>, node_id: u64) -> (found: Vec<TaskRecord>)
    ensures
        found@ == tasks@.filter(|t: TaskRecord| t.node_id == node_id),
{
    let ghost all = tasks@;
    let ghost pred = |t: TaskRecord| t.node_id == node_id;
    let mut rest = lists::reversed(tasks);
    let mut out: Vec<TaskRecord> = Vec::new();
    let ghost mut i: int = 0;
    proof {
        reveal(Seq::filter);
        assert(all.take(0).filter(pred) =~= Seq::empty());
        assert(all.skip(0) =~= all);
    }
    while rest.len() > 0
        invariant
            i + rest@.len() == all.len(),
            0 <= i,
            rest@ == all.skip(i).reverse(),
            pred == (|t: TaskRecord| t.node_id == node_id),
            out@ == all.take(i).filter(pred),
        decreases rest@.len(),
    {
        proof {
            lists::lemma_rest_reversed(all, i);
        }
        let task = rest.pop().unwrap();
        proof {
            reveal(Seq::filter);
            assert(all.take(i + 1).drop_last() =~= all.take(i));
            assert(all.take(i + 1).last() == task);
            i = i + 1;
        }
        if task.node_id == node_id {
            out.push(task);
        }
    }
    assert(all.take(i) =~= all);
    out
}

/// Whether a node was last heard of too long ago.
pub open spec fn is_silent(node: NodeRecord, now_ms: u64, timeout_ms: u64) -> bool {
    now_ms - node.last_heartbeat_ms > timeout_ms
}

/// The numbers of the nodes that were last heard of too long ago, in order.
pub fn offline_nodes(nodes: &Vec<NodeRecord>, now_ms: u64, timeout_ms: u64) -> (ids: Vec<u64>)
    ensures
        ids@ == nodes@.filter(|n: NodeRecord| is_silent(n, now_ms, timeout_ms)).map_values(|n: NodeRecord| n.id),
        ids@ == nodes@.filter(|n: NodeRecord| now_ms - n.last_heartbeat_ms > timeout_ms).map_values(
            |n: NodeRecord| n.id,
        ),
{
    let ghost pred = |n: NodeRecord| is_silent(n, now_ms, timeout_ms);
    let ghost id = |n: NodeRecord| n.id;
    let mut ids: Vec<u64> = Vec::new();
    let mut i: usize = 0;
    proof {
        reveal(Seq::filter);
        assert(nodes@.take(0).filter(pred).map_values(id) =~= Seq::empty());
    }
    while i < nodes.len()
        invariant
            i <= nodes@.len(),
            pred == (|n: NodeRecord| is_silent(n, now_ms, timeout_ms)),
            id == (|n: NodeRecord| n.id),
            ids@ == nodes@.take(i as int).filter(pred).map_values(id),
        decreases nodes.len() - i,
    {
        let node = &nodes[i];
        let ghost before = nodes@.take(i as int).filter(pred);
        let silent = now_ms > node.last_heartbeat_ms && now_ms - node.last_heartbeat_ms > timeout_ms;
        proof {
            reveal(Seq::filter);
            assert(nodes@.take(i + 1).drop_last() =~= nodes@.take(i as int));
            assert(nodes@.take(i + 1).last() == *node);
            assert(silent == pred(*node));
            if silent {
                assert(before.push(*node).map_values(id) =~= before.map_values(id).push(node.id));
            }
        }
        if silent {
            ids.push(node.id);
        }
        i = i + 1;
    }
    assert(nodes@.take(i as int) =~= nodes@);
    assert(pred =~= (|n: NodeRecord| now_ms - n.last_heartbeat_ms > timeout_ms));
    ids
}

/// The nodes that a ledger entry lists; one that is not there or cannot be read
/// lists none.
pub open spec fn listed(entry: Option<Seq<char>>) -> Seq<u64> {
    match entry {
        Some(e) => match json::json_ids(e) {
            Some(ids) => ids,
            None => Seq::empty(),
        },
        None => Seq::empty(),
    }
}

/// The nodes that the ledger lists for a chunk; an unreadable entry lists none.
pub open spec fn holders(ledger: Map<Seq<char>, Seq<char>>, game_id: u64, hash: Seq<u8>) -> Seq<u64> {
    listed(tables::row(ledger, hex::chunk_key_spec(game_id, hash)))
}

/// The ledger once a node is listed for a chunk.
pub open spec fn with_holder(
    ledger: Map<Seq<char>, Seq<char>>,
    node_id: u64,
    game_id: u64,
    hash: Seq<u8>,
) -> Map<Seq<char>, Seq<char>> {
    let before = holders(ledger, game_id, hash);
    if before.contains(node_id) {
        ledger
    } else {
        ledger.insert(hex::chunk_key_spec(game_id, hash), json::ids_json(before.push(node_id)))
    }
}

/// Whether the list holds the number.
fn lists_id(list: &Vec<u64>, id: u64) -> (found: bool)
    ensures
        found == list@.contains(id),
{
    let mut i: usize = 0;
    while i < list.len()
        invariant
            i <= list@.len(),
            forall|k: int| 0 <= k < i ==> list@[k] != id,
        decreases list.len() - i,
    {
        if list[i] == id {
            assert(list@[i as int] == id);
            return true;
        }
        i = i + 1;
    }
    false
}

/// What an optional text says.
pub open spec fn entry_text(entry: Option<&String>) -> Option<Seq<char>> {
    match entry {
        Some(e) => Some(e@),
        None => None,
    }
}

/// The nodes that a ledger entry lists: none where there is no entry, and an
/// error where the entry cannot be read.
pub fn holders_in(entry: Option<&String>) -> (ids: Result<Vec<u64>, DbError>)
    ensures
        match ids {
            Ok(list) => list@ == listed(entry_text(entry)) && (entry matches Some(e) ==> json::json_ids(e@) is Some),
            Err(e) => e == DbError::BadLedger && entry is Some && json::json_ids(entry->0@) is None,
        },
        match entry {
            None => ids is Ok && ids->Ok_0@.len() == 0,
            Some(e) => match json::json_ids(e@) {
                Some(list) => ids is Ok && ids->Ok_0@ == list,
                None => ids is Err,
            },
        },
{
    match entry {
        None => {
            let none: Vec<u64> = Vec::new();
            assert(none@ =~= Seq::empty());
            Ok(none)
        },
        Some(e) => match json::ids_from_json(e) {
            Ok(list) => Ok(list),
            Err(_) => Err(DbError::BadLedger),
        },
    }
}

/// The nodes that a ledger entry is to list once a node is noted in it; `None`
/// where the entry lists the node already. An unreadable entry starts anew.
pub fn entry_with_holder(entry: Option<&String>, node_id: u64) -> (ids: Option<Vec<u64>>)
    ensures
        match ids {
            None => listed(entry_text(entry)).contains(node_id),
            Some(list) => !listed(entry_text(entry)).contains(node_id) && list@ == listed(entry_text(entry)).push(
                node_id,
            ),
        },
        entry is None ==> ids is Some && ids->0@ == seq![node_id],
        entry matches Some(e) ==> match json::json_ids(e@) {
            Some(list) => if list.contains(node_id) {
                ids is None
            } else {
                ids is Some && ids->0@ == list.push(node_id)
            },
            None => ids is Some && ids->0@ == seq![node_id],
        },
{
    let mut ids: Vec<u64> = match holders_in(entry) {
        Ok(list) => list,
        Err(_) => Vec::new(),
    };
    assert(ids@ =~= listed(entry_text(entry)));
    if lists_id(&ids, node_id) {
        return None;
    }
    ids.push(node_id);
    Some(ids)
}

/// Notes that a node holds a chunk. A node that is listed is not listed again.
pub fn record_chunk_holder(ledger: &mut TextTable, node_id: u64, game_id: u64, hash: &[u8]) -> (done: Result<
    (),
    DbError,
>)
    ensures
        tables::text_opened(*final(ledger)) == tables::text_opened(*old(ledger)),
        match done {
            Ok(_) => {
                let before = holders(tables::text_rows(*old(ledger)), game_id, hash@);
                let after = holders(tables::text_rows(*final(ledger)), game_id, hash@);
                &&& tables::text_rows(*final(ledger)) == with_holder(
                    tables::text_rows(*old(ledger)),
                    node_id,
                    game_id,
                    hash@,
                )
                &&& after == (if before.contains(node_id) {
                    before
                } else {
                    before.push(node_id)
                })
            },
            Err(e) => e == DbError::ReadLedger || e == DbError::WriteLedger,
        },
        done is Ok ==> {
            let key = hex::chunk_key_spec(game_id, hash@);
            let rows = tables::text_rows(*final(ledger));
            &&& rows.contains_key(key)
            &&& json::json_ids(rows[key]) is Some
            &&& json::json_ids(rows[key])->0.contains(node_id)
            &&& forall|k: Seq<char>|
                k != key ==> tables::row(rows, k) == #[trigger] tables::row(tables::text_rows(*old(ledger)), k)
            &&& forall|n: u64| #[trigger]
                json::json_ids(rows[key])->0.contains(n) <==> n == node_id || (tables::text_rows(
                    *old(ledger),
                ).contains_key(key) && (json::json_ids(tables::text_rows(*old(ledger))[key]) matches Some(ids)
                    && ids.contains(n)))
        },
{
    let done = note_holder(ledger, node_id, game_id, hash);
    proof {
        if done is Ok {
            let key = hex::chunk_key_spec(game_id, hash@);
            let before = holders(tables::text_rows(*old(ledger)), game_id, hash@);
            let now = tables::text_rows(*ledger);
            assert(json::json_ids(now[key])->0 == holders(now, game_id, hash@));
            assert forall|n: u64| #[trigger]
                json::json_ids(now[key])->0.contains(n) <==> n == node_id || (tables::text_rows(
                    *old(ledger),
                ).contains_key(key) && (json::json_ids(tables::text_rows(*old(ledger))[key]) matches Some(ids)
                    && ids.contains(n))) by {
                order::lemma_push_contains(before, node_id, n);
            }
        }
    }
    done
}

/// Adds a node to the entry of a chunk, unless it is there.
fn note_holder(ledger: &mut TextTable, node_id: u64, game_id: u64, hash: &[u8]) -> (done: Result<(), DbError>)
    ensures
        tables::text_opened(*final(ledger)) == tables::text_opened(*old(ledger)),
        match done {
            Ok(_) => {
                let before = holders(tables::text_rows(*old(ledger)), game_id, hash@);
                let after = holders(tables::text_rows(*final(ledger)), game_id, hash@);
                &&& tables::text_rows(*final(ledger)) == with_holder(
                    tables::text_rows(*old(ledger)),
                    node_id,
                    game_id,
                    hash@,
                )
                &&& after == (if before.contains(node_id) {
                    before
                } else {
                    before.push(node_id)
                })
            },
            Err(e) => e == DbError::ReadLedger || e == DbError::WriteLedger,
        },
        done is Ok ==> {
            let key = hex::chunk_key_spec(game_id, hash@);
            let rows = tables::text_rows(*final(ledger));
            &&& rows.contains_key(key)
            &&& json::json_ids(rows[key]) is Some
            &&& json::json_ids(rows[key])->0.contains(node_id)
            &&& forall|k: Seq<char>|
                k != key ==> tables::row(rows, k) == #[trigger] tables::row(tables::text_rows(*old(ledger)), k)
        },
{
    let key = hex::chunk_key(game_id, hash);
    let before = match ledger.get(&key) {
        Err(_) => {
            return Err(DbError::ReadLedger);
        },
        Ok(entry) => entry,
    };
    let ids = match entry_with_holder(before.as_ref(), node_id) {
        None => {
            return Ok(());
        },
        Some(ids) => ids,
    };
    let entry = json::ids_to_json(&ids).unwrap();
    assert(ids@[ids@.len() - 1] == node_id);
    match ledger.insert(&key, &entry) {
        Err(_) => Err(DbError::WriteLedger),
        Ok(_) => Ok(()),
    }
}

/// Whether this can be why the holders of a chunk cannot be told.
pub open spec fn tells_none(ledger: Map<Seq<char>, Seq<char>>, game_id: u64, hash: Seq<u8>, e: DbError) -> bool {
    let entry = tables::row(ledger, hex::chunk_key_spec(game_id, hash));
    e == DbError::ReadLedger || (e == DbError::BadLedger && entry is Some && json::json_ids(entry->0) is None)
}

/// The nodes that hold a chunk.
pub fn chunk_holders(ledger: &TextTable, game_id: u64, hash: &[u8]) -> (ids: Result<Vec<u64>, DbError>)
    ensures
        ({
            let entry = tables::row(tables::text_rows(*ledger), hex::chunk_key_spec(game_id, hash@));
            match ids {
                Ok(list) => list@ == holders(tables::text_rows(*ledger), game_id, hash@) && (entry is Some
                    ==> json::json_ids(entry->0) is Some),
                Err(e) => tells_none(tables::text_rows(*ledger), game_id, hash@, e),
            }
        }),
        ids matches Ok(list) ==> {
            let key = hex::chunk_key_spec(game_id, hash@);
            let rows = tables::text_rows(*ledger);
            if rows.contains_key(key) {
                json::json_ids(rows[key]) == Some(list@)
            } else {
                list@.len() == 0
            }
        },
{
    let key = hex::chunk_key(game_id, hash);
    match ledger.get(&key) {
        Err(_) => Err(DbError::ReadLedger),
        Ok(entry) => holders_in(entry.as_ref()),
    }
}

/// Noting a holder does not change who holds other chunks, and noting one that
/// is listed changes nothing.
pub proof fn ledger_keeps_other_chunks(
    ledger: Map<Seq<char>, Seq<char>>,
    node_id: u64,
    game_id: u64,
    hash: Seq<u8>,
    other_game: u64,
    other_hash: Seq<u8>,
)
    ensures
        other_game != game_id || other_hash != hash ==> holders(
            with_holder(ledger, node_id, game_id, hash),
            other_game,
            other_hash,
        ) == holders(ledger, other_game, other_hash),
        holders(ledger, game_id, hash).contains(node_id) ==> with_holder(ledger, node_id, game_id, hash) == ledger,
{
    hex::chunk_keys_are_distinct(game_id, hash, other_game, other_hash);
}

/// How often a game was launched.
pub open spec fn launches(heat: Map<Seq<char>, u64>, game_id: u64) -> nat {
    match tables::row(heat, text::decimal(game_id as nat)) {
        Some(n) => n as nat,
        None => 0,
    }
}

/// A launch count, if there is one, and what is added to it.
pub fn launches_after(count: Option<u64>, add: u64) -> (total: Result<u64, DbError>)
    ensures
        ({
            let sum = add + (match count {
                Some(n) => n as int,
                None => 0,
            });
            match total {
                Ok(n) => n == sum,
                Err(e) => e == DbError::CounterFull && sum > u64::MAX,
            }
        }),
{
    match count {
        None => Ok(add),
        Some(n) => if n > u64::MAX - add {
            Err(DbError::CounterFull)
        } else {
            Ok(n + add)
        },
    }
}

/// Adds to the launch count of a game; the result is the new count.
pub fn add_launch(heat: &mut CountTable, game_id: u64, count: u64) -> (total: Result<u64, DbError>)
    ensures
        tables::count_opened(*final(heat)) == tables::count_opened(*old(heat)),
        match total {
            Ok(n) => {
                &&& n == launches(tables::count_rows(*old(heat)), game_id) + count
                &&& tables::count_rows(*final(heat)) == tables::count_rows(*old(heat)).insert(
                    text::decimal(game_id as nat),
                    n,
                )
            },
            Err(DbError::CounterFull) => {
                &&& launches(tables::count_rows(*old(heat)), game_id) + count > u64::MAX
                &&& tables::count_rows(*final(heat)) == tables::count_rows(*old(heat))
            },
            Err(e) => e == DbError::ReadHeat || e == DbError::WriteHeat,
        },
        total matches Ok(n) ==> n == count + (if tables::count_rows(*old(heat)).contains_key(
            text::decimal(game_id as nat),
        ) {
            tables::count_rows(*old(heat))[text::decimal(game_id as nat)]
        } else {
            0
        }),
{
    let key = text::decimal_text(game_id);
    let before = match heat.get(&key) {
        Err(_) => {
            return Err(DbError::ReadHeat);
        },
        Ok(v) => v,
    };
    let next: u64 = match launches_after(before, count) {
        Err(e) => {
            return Err(e);
        },
        Ok(n) => n,
    };
    match heat.insert(&key, next) {
        Err(_) => Err(DbError::WriteHeat),
        Ok(_) => Ok(next),
    }
}

/// Whether every key is the number of a game.
pub open spec fn keys_are_games(heat: Map<Seq<char>, u64>) -> bool {
    forall|k: Seq<char>| #[trigger] heat.contains_key(k) ==> text::u64_spec(encode_utf8(k)) is Some
}

/// Whether `ids` are the first games of `list` by launch count, the largest
/// first; `perm` says where in the list each game is, and games with equal
/// counts keep the order of the list.
pub open spec fn ranked(list: Seq<(String, u64)>, perm: Seq<int>, ids: Seq<u64>, limit: nat) -> bool {
    &&& stable::is_permutation(perm, list.len())
    &&& forall|i: int, j: int| 0 <= i < j < perm.len() ==> list[#[trigger] perm[i]].1 > list[#[trigger] perm[j]].1
        || list[perm[i]].1 == list[perm[j]].1 && perm[i] < perm[j]
    &&& ids.len() == (if limit < list.len() {
        limit
    } else {
        list.len()
    })
    &&& forall|i: int| 0 <= i < ids.len() ==> text::u64_spec(encode_utf8(list[perm[i]].0@)) == Some(#[trigger] ids[i])
}

/// Whether `ids` are the `limit` most launched games.
pub open spec fn are_top_games(heat: Map<Seq<char>, u64>, ids: Seq<u64>, limit: nat) -> bool {
    exists|list: Seq<(String, u64)>, perm: Seq<int>|
        tables::lists_counts(list, heat) && #[trigger] ranked(list, perm, ids, limit)
}

/// Whether the key of every row is the number of a game.
pub open spec fn rows_are_games(list: Seq<(String, u64)>) -> bool {
    forall|i: int| 0 <= i < list.len() ==> text::u64_spec(encode_utf8((#[trigger] list[i]).0@)) is Some
}

/// Whether `ids` are the first `limit` games of the rows by launch count.
pub open spec fn ranks(list: Seq<(String, u64)>, ids: Seq<u64>, limit: nat) -> bool {
    exists|perm: Seq<int>| #[trigger] ranked(list, perm, ids, limit)
}

/// The games of the rows (game, launches), the most launched first and equally
/// often launched ones in the order of the rows; at most `limit` of them. Every
/// key must be the number of a game.
pub fn rank_games(list: &Vec<(String, u64)>, limit: usize) -> (ids: Result<Vec<u64>, DbError>)
    ensures
        match ids {
            Ok(games) => rows_are_games(list@) && ranks(list@, games@, limit as nat),
            Err(e) => e == DbError::BadGameId && !rows_are_games(list@),
        },
        ids is Ok <==> forall|i: int|
            0 <= i < list@.len() ==> text::u64_spec(encode_utf8((#[trigger] list@[i]).0@)) is Some,
        ids matches Ok(games) ==> {
            &&& games@.len() == (if limit < list@.len() {
                limit as nat
            } else {
                list@.len()
            })
            &&& exists|perm: Seq<int>|
                #[trigger] perm.no_duplicates() && perm.len() == list@.len() && (forall|i: int|
                    0 <= i < perm.len() ==> 0 <= #[trigger] perm[i] < list@.len()) && (forall|i: int, j: int|
                    0 <= i < j < perm.len() ==> list@[#[trigger] perm[i]].1 > list@[#[trigger] perm[j]].1 || (list@[perm[i]].1
                        == list@[perm[j]].1 && perm[i] < perm[j])) && forall|i: int|
                    0 <= i < games@.len() ==> text::u64_spec(encode_utf8(list@[perm[i]].0@)) == Some(#[trigger] games@[i])
        },
{
    let mut games: Vec<(u64, u128)> = Vec::new();
    let mut i: usize = 0;
    while i < list.len()
        invariant
            i <= list@.len(),
            games@.len() == i,
            forall|k: int| 0 <= k < i ==> text::u64_spec(encode_utf8((#[trigger] list@[k]).0@)) == Some(games@[k].0)
                && games@[k].1 == u64::MAX - list@[k].1,
        decreases list.len() - i,
    {
        match text::parse_u64_bytes(list[i].0.as_str().as_bytes()) {
            None => {
                assert(text::u64_spec(encode_utf8(list@[i as int].0@)) is None);
                return Err(DbError::BadGameId);
            },
            Some(id) => {
                games.push((id, (u64::MAX - list[i].1) as u128));
            },
        }
        i = i + 1;
    }
    let ghost before = games@;
    stable::stable_sort(&mut games);
    let ghost perm = choose|perm: Seq<int>| stable::stably_sorted(before, games@, perm);
    let mut ids: Vec<u64> = Vec::new();
    let mut j: usize = 0;
    while j < games.len() && j < limit
        invariant
            j <= games@.len(),
            j <= limit,
            ids@.len() == j,
            forall|k: int| 0 <= k < j ==> #[trigger] ids@[k] == games@[k].0,
        decreases games.len() - j,
    {
        ids.push(games[j].0);
        j = j + 1;
    }
    proof {
        assert(stable::stably_sorted(before, games@, perm));
        assert forall|a: int, b: int| 0 <= a < b < perm.len() implies list@[#[trigger] perm[a]].1
            > list@[#[trigger] perm[b]].1 || list@[perm[a]].1 == list@[perm[b]].1 && perm[a] < perm[b] by {
            assert(games@[a] == before[perm[a]]);
            assert(games@[b] == before[perm[b]]);
            assert(text::u64_spec(encode_utf8(list@[perm[a]].0@)) is Some);
            assert(text::u64_spec(encode_utf8(list@[perm[b]].0@)) is Some);
        }
        assert forall|k: int| 0 <= k < ids@.len() implies text::u64_spec(encode_utf8(list@[perm[k]].0@)) == Some(
            #[trigger] ids@[k],
        ) by {
            assert(games@[k] == before[perm[k]]);
        }
        assert(ranked(list@, perm, ids@, limit as nat));
        assert(perm.no_duplicates());
        assert forall|k: int| 0 <= k < list@.len() implies text::u64_spec(
            encode_utf8((#[trigger] list@[k]).0@),
        ) is Some by {
            assert(text::u64_spec(encode_utf8(list@[k].0@)) == Some(before[k].0));
        }
        assert(rows_are_games(list@));
        assert(ranks(list@, ids@, limit as nat));
    }
    Ok(ids)
}

/// The most launched games, the most launched first.
pub fn top_games(heat: &CountTable, limit: usize) -> (ids: Result<Vec<u64>, DbError>)
    ensures
        match ids {
            Ok(list) => are_top_games(tables::count_rows(*heat), list@, limit as nat) && keys_are_games(
                tables::count_rows(*heat),
            ),
            Err(DbError::BadGameId) => !keys_are_games(tables::count_rows(*heat)),
            Err(e) => e == DbError::ListHeat,
        },
        ids matches Ok(games) ==> exists|list: Seq<(String, u64)>|
            #[trigger] tables::lists_counts(list, tables::count_rows(*heat)) && games@.len() == (if limit < list.len() {
                limit as nat
            } else {
                list.len()
            }) && exists|perm: Seq<int>|
                #[trigger] perm.no_duplicates() && perm.len() == list.len() && (forall|i: int|
                    0 <= i < perm.len() ==> 0 <= #[trigger] perm[i] < list.len()) && (forall|i: int, j: int|
                    0 <= i < j < perm.len() ==> list[#[trigger] perm[i]].1 > list[#[trigger] perm[j]].1 || (list[perm[i]].1
                        == list[perm[j]].1 && perm[i] < perm[j])) && forall|i: int|
                    0 <= i < games@.len() ==> text::u64_spec(encode_utf8(list[perm[i]].0@)) == Some(#[trigger] games@[i]),
{
    let list = match heat.rows() {
        Err(_) => {
            return Err(DbError::ListHeat);
        },
        Ok(l) => l,
    };
    let ghost rows = tables::count_rows(*heat);
    let ids = rank_games(&list, limit);
    proof {
        if ids is Ok {
            let perm = choose|perm: Seq<int>| #[trigger] ranked(list@, perm, ids->Ok_0@, limit as nat);
            assert(tables::lists_counts(list@, rows) && ranked(list@, perm, ids->Ok_0@, limit as nat));
            assert forall|k: Seq<char>| #[trigger] rows.contains_key(k) implies text::u64_spec(
                encode_utf8(k),
            ) is Some by {
                let m = choose|m: int| 0 <= m < list@.len() && (#[trigger] list@[m]).0@ == k;
                assert(text::u64_spec(encode_utf8(list@[m].0@)) is Some);
            }
        } else {
            let m = choose|m: int|
                0 <= m < list@.len() && !(text::u64_spec(encode_utf8((#[trigger] list@[m]).0@)) is Some);
            assert(rows.contains_key(list@[m].0@));
        }
    }
    ids
}

/// Launch counts are kept by game: adding to one leaves the others as they are.
pub proof fn launches_are_kept_apart(heat: Map<Seq<char>, u64>, game_id: u64, other: u64, total: u64)
    ensures
        launches(heat.insert(text::decimal(game_id as nat), total), game_id) == total,
        other != game_id ==> launches(heat.insert(text::decimal(game_id as nat), total), other) == launches(
            heat,
            other,
        ),
{
    text::decimal_reads_back(game_id);
    text::decimal_reads_back(other);
}

/// The key of a version: the game, a colon and the version.
pub open spec fn version_key_spec(game_id: u64, version: u64) -> Seq<char> {
    text::decimal(game_id as nat) + ":"@ + text::decimal(version as nat)
}

/// The key of a version.
fn version_key(game_id: u64, version: u64) -> (key: String)
    ensures
        key@ == version_key_spec(game_id, version),
        key@ == text::decimal(game_id as nat) + ":"@ + text::decimal(version as nat),
{
    text::join3(text::decimal_text(game_id).as_str(), ":", text::decimal_text(version).as_str())
}

/// The manifest of a version.
pub open spec fn manifest_of(versions: Map<Seq<char>, Seq<char>>, game_id: u64, version: u64) -> Option<Seq<u8>> {
    match tables::row(versions, version_key_spec(game_id, version)) {
        Some(entry) => json::json_bytes(entry),
        None => None,
    }
}

/// The manifests once that of a version is kept.
pub open spec fn with_version(
    versions: Map<Seq<char>, Seq<char>>,
    game_id: u64,
    version: u64,
    manifest: Seq<u8>,
) -> Map<Seq<char>, Seq<char>> {
    versions.insert(version_key_spec(game_id, version), json::bytes_json(manifest))
}

/// Keeps the manifest of a version, in place of one that was kept before.
pub fn save_version(versions: &mut TextTable, game_id: u64, version: u64, manifest: &[u8]) -> (done: Result<
    (),
    DbError,
>)
    ensures
        tables::text_opened(*final(versions)) == tables::text_opened(*old(versions)),
        match done {
            Ok(_) => {
                &&& tables::text_rows(*final(versions)) == with_version(
                    tables::text_rows(*old(versions)),
                    game_id,
                    version,
                    manifest@,
                )
                &&& manifest_of(tables::text_rows(*final(versions)), game_id, version) == Some(manifest@)
            },
            Err(e) => e == DbError::WriteVersion,
        },
{
    let key = version_key(game_id, version);
    let entry = json::bytes_to_json(&vstd::slice::slice_to_vec(manifest)).unwrap();
    match versions.insert(&key, &entry) {
        Err(_) => Err(DbError::WriteVersion),
        Ok(_) => Ok(()),
    }
}

/// Whether this is the manifest of a version, or why it cannot be told.
pub open spec fn reads_version(
    versions: Map<Seq<char>, Seq<char>>,
    game_id: u64,
    version: u64,
    manifest: Result<Option<Vec<u8>>, DbError>,
) -> bool {
    let entry = tables::row(versions, version_key_spec(game_id, version));
    match manifest {
        Ok(None) => entry is None,
        Ok(Some(m)) => entry is Some && manifest_of(versions, game_id, version) == Some(m@),
        Err(DbError::Decode) => entry is Some && json::json_bytes(entry->0) is None,
        Err(e) => e == DbError::ReadVersion,
    }
}

/// The manifest in an entry; `None` where there is no entry, and an error where
/// the entry cannot be read.
pub fn manifest_in(entry: Option<&String>) -> (manifest: Result<Option<Vec<u8>>, DbError>)
    ensures
        match manifest {
            Ok(None) => entry is None,
            Ok(Some(m)) => entry matches Some(e) && json::json_bytes(e@) == Some(m@),
            Err(e) => e == DbError::Decode && entry is Some && json::json_bytes(entry->0@) is None,
        },
{
    match entry {
        None => Ok(None),
        Some(e) => match json::bytes_from_json(e) {
            Err(_) => Err(DbError::Decode),
            Ok(data) => Ok(Some(data)),
        },
    }
}

/// The manifest of a version; `None` where none is kept.
pub fn get_version(versions: &TextTable, game_id: u64, version: u64) -> (manifest: Result<Option<Vec<u8>>, DbError>)
    ensures
        reads_version(tables::text_rows(*versions), game_id, version, manifest),
        manifest matches Ok(m) ==> {
            let key = text::decimal(game_id as nat) + ":"@ + text::decimal(version as nat);
            let rows = tables::text_rows(*versions);
            match m {
                Some(bytes) => rows.contains_key(key) && json::json_bytes(rows[key]) == Some(bytes@),
                None => !rows.contains_key(key),
            }
        },
{
    match versions.get(&version_key(game_id, version)) {
        Err(_) => Err(DbError::ReadVersion),
        Ok(entry) => manifest_in(entry.as_ref()),
    }
}

/// Texts that lack a character, followed by it, are told apart by where it is.
proof fn lemma_split_once(a: Seq<char>, x: Seq<char>, b: Seq<char>, y: Seq<char>, c: char)
    requires
        !a.contains(c),
        !b.contains(c),
        a.push(c) + x == b.push(c) + y,
    ensures
        a == b,
        x == y,
{
    let s = a.push(c) + x;
    let t = b.push(c) + y;
    assert(s[a.len() as int] == c);
    assert(t[b.len() as int] == c);
    if a.len() < b.len() {
        assert(b[a.len() as int] == c);
    }
    if b.len() < a.len() {
        assert(a[b.len() as int] == c);
    }
    assert forall|i: int| 0 <= i < a.len() implies a[i] == b[i] by {
        assert(s[i] == a[i]);
        assert(t[i] == b[i]);
    }
    assert(a =~= b);
    assert(x.len() == s.len() - a.len() - 1);
    assert(y.len() == t.len() - b.len() - 1);
    assert forall|i: int| 0 <= i < x.len() implies x[i] == y[i] by {
        assert(s[a.len() + 1 + i] == x[i]);
        assert(t[b.len() + 1 + i] == y[i]);
    }
    assert(x =~= y);
}

/// A decimal has neither of the characters that stand between the parts of a key.
proof fn lemma_decimal_lacks(n: u64)
    ensures
        !text::decimal(n as nat).contains(':'),
        !text::decimal(n as nat).contains('/'),
{
    text::lemma_decimal_digits(n as nat);
}

/// Different versions have different keys: keeping one leaves the others as
/// they are.
pub proof fn versions_are_kept_apart(
    versions: Map<Seq<char>, Seq<char>>,
    game_id: u64,
    version: u64,
    entry: Seq<char>,
    other_game: u64,
    other_version: u64,
)
    requires
        other_game != game_id || other_version != version,
    ensures
        manifest_of(versions.insert(version_key_spec(game_id, version), entry), other_game, other_version)
            == manifest_of(versions, other_game, other_version),
{
    let a = version_key_spec(game_id, version);
    let b = version_key_spec(other_game, other_version);
    if a == b {
        reveal_strlit(":");
        lemma_decimal_lacks(game_id);
        lemma_decimal_lacks(other_game);
        let g = text::decimal(game_id as nat);
        let h = text::decimal(other_game as nat);
        assert(a =~= g.push(':') + text::decimal(version as nat));
        assert(b =~= h.push(':') + text::decimal(other_version as nat));
        lemma_split_once(g, text::decimal(version as nat), h, text::decimal(other_version as nat), ':');
        text::decimal_reads_back(game_id);
        text::decimal_reads_back(other_game);
        text::decimal_reads_back(version);
        text::decimal_reads_back(other_version);
    }
}

/// What can be bound to what.
#[derive(Debug, Clone, Copy, PartialEq, Eq, Structural)]
pub enum Binding {
    UserPlace,
    UserGroup,
    GroupPlace,
}

impl Binding {
    /// How a binding is named in a key.
    pub open spec fn text(self) -> Seq<char> {
        match self {
            Binding::UserPlace => "user_place"@,
            Binding::UserGroup => "user_group"@,
            Binding::GroupPlace => "group_place"@,
        }
    }

    /// How a binding is named in a key.
    pub fn name(&self) -> (out: &'static str)
        ensures
            out@ == self.text(),
            out@ == (match *self {
                Binding::UserPlace => "user_place"@,
                Binding::UserGroup => "user_group"@,
                Binding::GroupPlace => "group_place"@,
            }),
    {
        match self {
            Binding::UserPlace => "user_place",
            Binding::UserGroup => "user_group",
            Binding::GroupPlace => "group_place",
        }
    }

    /// The binding of that name.
    pub fn from_name(name: &str) -> (kind: Option<Self>)
        ensures
            match kind {
                Some(k) => k.text() == name@,
                None => forall|k: Binding| #[trigger] k.text() != name@,
            },
    {
        proof {
            reveal_strlit("user_place");
            reveal_strlit("user_group");
            reveal_strlit("group_place");
        }
        if text::same_text(name, "user_place") {
            return Some(Binding::UserPlace);
        }
        if text::same_text(name, "user_group") {
            return Some(Binding::UserGroup);
        }
        if text::same_text(name, "group_place") {
            return Some(Binding::GroupPlace);
        }
        None
    }
}

/// What the keys of all bindings of `a` start with: `{kind}/{a}/`
pub open spec fn binding_prefix(kind: Binding, a: u64) -> Seq<char> {
    kind.text() + "/"@ + text::decimal(a as nat) + "/"@
}

/// `{kind}/{a}/{b}`
pub open spec fn binding_key(kind: Binding, a: u64, b: u64) -> Seq<char> {
    binding_prefix(kind, a) + text::decimal(b as nat)
}

fn prefix_text(kind: Binding, a: u64) -> (prefix: String)
    ensures
        prefix@ == binding_prefix(kind, a),
{
    let mut out = text::join3(kind.name(), "/", text::decimal_text(a).as_str());
    out.append("/");
    out
}

/// Binds `b` to `a`.
pub fn bind(bindings: &mut CountTable, kind: Binding, a: u64, b: u64) -> (done: Result<(), DbError>)
    ensures
        tables::count_opened(*final(bindings)) == tables::count_opened(*old(bindings)),
        match done {
            Ok(_) => tables::count_rows(*final(bindings)) == tables::count_rows(*old(bindings)).insert(
                binding_key(kind, a, b),
                1,
            ),
            Err(e) => e == DbError::WriteBinding,
        },
{
    let mut key = prefix_text(kind, a);
    text::push_decimal(&mut key, b);
    match bindings.insert(&key, 1) {
        Err(_) => Err(DbError::WriteBinding),
        Ok(_) => Ok(()),
    }
}

/// Whether a key binds `b` to `a`: the prefix, and then a number.
pub open spec fn key_binds(key: Seq<char>, kind: Binding, a: u64, b: u64) -> bool {
    let bytes = encode_utf8(key);
    let prefix = encode_utf8(binding_prefix(kind, a));
    text::begins(bytes, prefix) && text::u64_spec(bytes.skip(prefix.len() as int)) == Some(b)
}

/// Whether `b` is bound to `a`.
pub open spec fn bound(bindings: Map<Seq<char>, u64>, kind: Binding, a: u64, b: u64) -> bool {
    exists|key: Seq<char>| bindings.contains_key(key) && #[trigger] key_binds(key, kind, a, b)
}

/// Whether one of the rows binds `b` to `a`.
pub open spec fn rows_bind(rows: Seq<(String, u64)>, kind: Binding, a: u64, b: u64) -> bool {
    exists|k: int| 0 <= k < rows.len() && key_binds((#[trigger] rows[k]).0@, kind, a, b)
}

/// What is bound to `a`.
fn binding_ids(list: &Vec<(String, u64)>, kind: Binding, a: u64) -> (ids: Vec<u64>)
    ensures
        forall|b: u64| #[trigger] ids@.contains(b) <==> rows_bind(list@, kind, a, b),
{
    let prefix = prefix_text(kind, a);
    let start = prefix.as_str().as_bytes();
    let mut ids: Vec<u64> = Vec::new();
    let mut i: usize = 0;
    while i < list.len()
        invariant
            i <= list@.len(),
            start@ == encode_utf8(binding_prefix(kind, a)),
            forall|b: u64| #[trigger]
                ids@.contains(b) <==> exists|k: int| 0 <= k < i && key_binds((#[trigger] list@[k]).0@, kind, a, b),
        decreases list.len() - i,
    {
        let key = list[i].0.as_str().as_bytes();
        let ghost before = ids@;
        let ghost mut found: Option<u64> = None;
        if text::bytes_begin(key, start) {
            let rest = vstd::slice::slice_subrange(key, start.len(), key.len());
            assert(rest@ =~= key@.skip(start@.len() as int));
            match text::parse_u64_bytes(rest) {
                Some(id) => {
                    ids.push(id);
                    proof {
                        found = Some(id);
                    }
                },
                None => {},
            }
        }
        proof {
            assert forall|b: u64| #[trigger]
                ids@.contains(b) <==> exists|k: int|
                    0 <= k < i + 1 && key_binds((#[trigger] list@[k]).0@, kind, a, b) by {
                assert(key_binds(list@[i as int].0@, kind, a, b) <==> found == Some(b));
                if found is Some {
                    order::lemma_push_contains(before, found->0, b);
                }
                if before.contains(b) {
                    let k = choose|k: int| 0 <= k < i && key_binds((#[trigger] list@[k]).0@, kind, a, b);
                    assert(key_binds(list@[k].0@, kind, a, b));
                }
            }
        }
        i = i + 1;
    }
    ids
}

/// Whether a user sees a place: it is bound to the user, or to a group that is.
pub open spec fn visible(bindings: Map<Seq<char>, u64>, user_id: u64, place: u64) -> bool {
    ||| bound(bindings, Binding::UserPlace, user_id, place)
    ||| exists|group: u64| #[trigger]
        bound(bindings, Binding::UserGroup, user_id, group) && bound(bindings, Binding::GroupPlace, group, place)
}

/// Whether the rows let a user see a place.
pub open spec fn rows_show(rows: Seq<(String, u64)>, user_id: u64, place: u64) -> bool {
    ||| rows_bind(rows, Binding::UserPlace, user_id, place)
    ||| exists|group: u64| #[trigger]
        rows_bind(rows, Binding::UserGroup, user_id, group) && rows_bind(rows, Binding::GroupPlace, group, place)
}

/// The places that a user sees by the rows of all bindings, each once,
/// ascending.
pub fn visible_places(rows: &Vec<(String, u64)>, user_id: u64) -> (list: Vec<u64>)
    ensures
        forall|i: int, j: int| 0 <= i < j < list@.len() ==> (#[trigger] list@[i]) < (#[trigger] list@[j]),
        forall|p: u64| #[trigger] list@.contains(p) <==> rows_show(rows@, user_id, p),
        forall|p: u64| #[trigger]
            list@.contains(p) <==> rows_bind(rows@, Binding::UserPlace, user_id, p) || exists|group: u64| #[trigger]
                rows_bind(rows@, Binding::UserGroup, user_id, group) && rows_bind(rows@, Binding::GroupPlace, group, p),
{
    let mut places = binding_ids(rows, Binding::UserPlace, user_id);
    let ghost direct = places@;
    let groups = binding_ids(rows, Binding::UserGroup, user_id);
    let mut i: usize = 0;
    while i < groups.len()
        invariant
            i <= groups@.len(),
            forall|p: u64| #[trigger]
                places@.contains(p) <==> direct.contains(p) || exists|k: int|
                    0 <= k < i && rows_bind(rows@, Binding::GroupPlace, #[trigger] groups@[k], p),
        decreases groups.len() - i,
    {
        let mut more = binding_ids(rows, Binding::GroupPlace, groups[i]);
        let ghost before = places@;
        let ghost added = more@;
        places.append(&mut more);
        proof {
            assert(places@ =~= before + added);
            assert forall|p: u64| #[trigger]
                places@.contains(p) <==> direct.contains(p) || exists|k: int|
                    0 <= k < i + 1 && rows_bind(rows@, Binding::GroupPlace, #[trigger] groups@[k], p) by {
                assert(places@.contains(p) <==> before.contains(p) || added.contains(p)) by {
                    if before.contains(p) {
                        let k = choose|k: int| 0 <= k < before.len() && before[k] == p;
                        assert(places@[k] == p);
                    }
                    if added.contains(p) {
                        let k = choose|k: int| 0 <= k < added.len() && added[k] == p;
                        assert(places@[before.len() + k] == p);
                    }
                }
                assert(added.contains(p) <==> rows_bind(rows@, Binding::GroupPlace, groups@[i as int], p));
            }
        }
        i = i + 1;
    }
    let sorted = order::sort(&places);
    let list = order::dedup(&sorted);
    proof {
        assert forall|p: u64| #[trigger] list@.contains(p) <==> rows_show(rows@, user_id, p) by {
            order::lemma_same_multiset(places@, sorted@);
            assert(list@.contains(p) <==> places@.contains(p));
            assert(direct.contains(p) <==> rows_bind(rows@, Binding::UserPlace, user_id, p));
            if exists|k: int|
                0 <= k < groups@.len() && rows_bind(rows@, Binding::GroupPlace, #[trigger] groups@[k], p) {
                let k = choose|k: int|
                    0 <= k < groups@.len() && rows_bind(rows@, Binding::GroupPlace, #[trigger] groups@[k], p);
                assert(groups@.contains(groups@[k]));
                assert(rows_bind(rows@, Binding::UserGroup, user_id, groups@[k]));
            }
            if exists|group: u64| #[trigger]
                rows_bind(rows@, Binding::UserGroup, user_id, group) && rows_bind(
                    rows@,
                    Binding::GroupPlace,
                    group,
                    p,
                ) {
                let group = choose|group: u64| #[trigger]
                    rows_bind(rows@, Binding::UserGroup, user_id, group) && rows_bind(
                        rows@,
                        Binding::GroupPlace,
                        group,
                        p,
                    );
                assert(groups@.contains(group));
                let k = choose|k: int| 0 <= k < groups@.len() && groups@[k] == group;
                assert(rows_bind(rows@, Binding::GroupPlace, groups@[k], p));
            }
        }
    }
    list
}

/// The rows of a table bind what the table binds.
proof fn lemma_rows_bind(list: Seq<(String, u64)>, bindings: Map<Seq<char>, u64>, kind: Binding, a: u64, b: u64)
    requires
        tables::lists_counts(list, bindings),
    ensures
        rows_bind(list, kind, a, b) <==> bound(bindings, kind, a, b),
{
    if rows_bind(list, kind, a, b) {
        let k = choose|k: int| 0 <= k < list.len() && key_binds((#[trigger] list[k]).0@, kind, a, b);
        assert(bindings.contains_key(list[k].0@));
    }
    if bound(bindings, kind, a, b) {
        let key = choose|key: Seq<char>| bindings.contains_key(key) && #[trigger] key_binds(key, kind, a, b);
        let k = choose|k: int| 0 <= k < list.len() && (#[trigger] list[k]).0@ == key;
        assert(key_binds(list[k].0@, kind, a, b));
    }
}

/// The places that a user sees, each once, ascending.
pub fn places_of_user(bindings: &CountTable, user_id: u64) -> (places: Result<Vec<u64>, DbError>)
    ensures
        match places {
            Ok(list) => {
                &&& forall|i: int, j: int| 0 <= i < j < list@.len() ==> (#[trigger] list@[i]) < (#[trigger] list@[j])
                &&& forall|p: u64| #[trigger]
                    list@.contains(p) <==> visible(tables::count_rows(*bindings), user_id, p)
                &&& forall|p: u64| #[trigger]
                    list@.contains(p) <==> bound(tables::count_rows(*bindings), Binding::UserPlace, user_id, p)
                        || exists|group: u64| #[trigger]
                        bound(tables::count_rows(*bindings), Binding::UserGroup, user_id, group) && bound(
                            tables::count_rows(*bindings),
                            Binding::GroupPlace,
                            group,
                            p,
                        )
            },
            Err(e) => e == DbError::ListBindings,
        },
{
    let rows = match bindings.rows() {
        Err(_) => {
            return Err(DbError::ListBindings);
        },
        Ok(l) => l,
    };
    let list = visible_places(&rows, user_id);
    proof {
        let map = tables::count_rows(*bindings);
        assert forall|p: u64| #[trigger] list@.contains(p) <==> visible(map, user_id, p) by {
            lemma_rows_bind(rows@, map, Binding::UserPlace, user_id, p);
            assert forall|group: u64|
                #[trigger] bound(map, Binding::UserGroup, user_id, group) <==> rows_bind(
                    rows@,
                    Binding::UserGroup,
                    user_id,
                    group,
                ) by {
                lemma_rows_bind(rows@, map, Binding::UserGroup, user_id, group);
            }
            if visible(map, user_id, p) && !bound(map, Binding::UserPlace, user_id, p) {
                let group = choose|group: u64| #[trigger]
                    bound(map, Binding::UserGroup, user_id, group) && bound(map, Binding::GroupPlace, group, p);
                lemma_rows_bind(rows@, map, Binding::GroupPlace, group, p);
                assert(rows_bind(rows@, Binding::UserGroup, user_id, group));
            }
            if rows_show(rows@, user_id, p) && !rows_bind(rows@, Binding::UserPlace, user_id, p) {
                let group = choose|group: u64| #[trigger]
                    rows_bind(rows@, Binding::UserGroup, user_id, group) && rows_bind(
                        rows@,
                        Binding::GroupPlace,
                        group,
                        p,
                    );
                lemma_rows_bind(rows@, map, Binding::GroupPlace, group, p);
                assert(bound(map, Binding::UserGroup, user_id, group));
            }
        }
    }
    Ok(list)
}

/// The names of bindings are ASCII and lack the character between the parts of
/// a key.
proof fn lemma_binding_names(kind: Binding, other: Binding)
    ensures
        is_ascii_chars(kind.text()),
        !kind.text().contains('/'),
        kind.text() == other.text() ==> kind == other,
{
    reveal_strlit("user_place");
    reveal_strlit("user_group");
    reveal_strlit("group_place");
    if kind != other && kind.text().len() == other.text().len() {
        assert(kind.text()[5] != other.text()[5]);
    }
}

/// The prefix of a key in parts.
proof fn lemma_prefix_parts(kind: Binding, a: u64, rest: Seq<char>)
    ensures
        binding_prefix(kind, a) + rest == kind.text().push('/') + (text::decimal(a as nat).push('/') + rest),
        is_ascii_chars(binding_prefix(kind, a)),
{
    reveal_strlit("/");
    text::lemma_decimal_digits(a as nat);
    lemma_binding_names(kind, kind);
    assert(binding_prefix(kind, a) + rest =~= kind.text().push('/') + (text::decimal(a as nat).push('/') + rest));
    let p = binding_prefix(kind, a);
    let d = text::decimal(a as nat);
    let k = kind.text();
    assert forall|i: int| 0 <= i < p.len() implies '\0' <= #[trigger] p[i] <= '\u{7f}' by {
        if i < k.len() {
            assert(p[i] == k[i]);
        } else if k.len() < i <= k.len() + d.len() {
            assert(p[i] == d[i - k.len() - 1]);
        }
    }
}

/// The key of a binding binds what it is made of.
proof fn lemma_key_binds_own(kind: Binding, a: u64, b: u64)
    ensures
        key_binds(binding_key(kind, a, b), kind, a, b),
{
    let number = text::decimal(b as nat);
    let p = binding_prefix(kind, a);
    let bytes = encode_utf8(binding_key(kind, a, b));
    let head = encode_utf8(p);
    text::lemma_encode_joined(p, number);
    text::decimal_reads_back(b);
    assert(bytes.skip(head.len() as int) =~= encode_utf8(number));
    assert(bytes.take(head.len() as int) =~= head);
}

/// The key of a binding binds nothing else.
proof fn lemma_key_binds_only(kind: Binding, a: u64, b: u64, other: Binding, c: u64, d: u64)
    requires
        key_binds(binding_key(kind, a, b), other, c, d),
    ensures
        kind == other,
        a == c,
        b == d,
{
    let number = text::decimal(b as nat);
    let key = binding_key(kind, a, b);
    let q = binding_prefix(other, c);
    let rest = key.skip(q.len() as int);
    let bytes = encode_utf8(key);
    let head = encode_utf8(q);
    lemma_prefix_parts(kind, a, number);
    lemma_prefix_parts(other, c, rest);
    text::lemma_decimal_digits(b as nat);
    assert forall|i: int| 0 <= i < key.len() implies '\0' <= #[trigger] key[i] <= '\u{7f}' by {
        let p = binding_prefix(kind, a);
        if i < p.len() {
            assert(key[i] == p[i]);
        } else {
            assert(key[i] == number[i - p.len()]);
        }
    }
    is_ascii_chars_encode_utf8(key);
    is_ascii_chars_encode_utf8(q);
    assert forall|i: int| 0 <= i < q.len() implies key[i] == q[i] by {
        assert(bytes.take(head.len() as int)[i] == head[i]);
        assert(key[i] as u8 == bytes[i]);
        assert(q[i] as u8 == head[i]);
    }
    assert(key =~= q + rest);
    lemma_decimal_lacks(a);
    lemma_decimal_lacks(c);
    lemma_binding_names(kind, other);
    lemma_binding_names(other, kind);
    let da = text::decimal(a as nat);
    let dc = text::decimal(c as nat);
    lemma_split_once(kind.text(), da.push('/') + number, other.text(), dc.push('/') + rest, '/');
    lemma_split_once(da, number, dc, rest, '/');
    text::decimal_reads_back(a);
    text::decimal_reads_back(c);
    lemma_key_binds_own(kind, a, b);
}

/// Nothing is bound where there is no row; and what is bound is so by a row
/// whose key starts with the kind and `a` and ends in the number `b`.
pub proof fn rows_make_bindings(bindings: Map<Seq<char>, u64>, kind: Binding, a: u64, b: u64)
    ensures
        !bound(Map::empty(), kind, a, b),
        bindings.contains_key(kind.text() + "/"@ + text::decimal(a as nat) + "/"@ + text::decimal(b as nat)) ==> bound(
            bindings,
            kind,
            a,
            b,
        ),
{
    lemma_key_binds_own(kind, a, b);
    assert(binding_key(kind, a, b) =~= kind.text() + "/"@ + text::decimal(a as nat) + "/"@ + text::decimal(b as nat));
}

/// Binding `b` to `a` binds it, changes no other binding, and binding it again
/// changes nothing.
pub proof fn binding_adds_one(
    bindings: Map<Seq<char>, u64>,
    kind: Binding,
    a: u64,
    b: u64,
    other: Binding,
    c: u64,
    d: u64,
)
    ensures
        ({
            let after = bindings.insert(binding_key(kind, a, b), 1);
            &&& bound(after, other, c, d) <==> bound(bindings, other, c, d) || (kind == other && a == c && b == d)
            &&& after.insert(binding_key(kind, a, b), 1) == after
        }),
{
    let key = binding_key(kind, a, b);
    let after = bindings.insert(key, 1);
    lemma_key_binds_own(kind, a, b);
    assert(after.insert(key, 1) =~= after);
    if bound(bindings, other, c, d) {
        let k = choose|k: Seq<char>| bindings.contains_key(k) && #[trigger] key_binds(k, other, c, d);
        assert(after.contains_key(k));
    }
    if kind == other && a == c && b == d {
        assert(after.contains_key(key));
    }
    if bound(after, other, c, d) && !(kind == other && a == c && b == d) {
        let k = choose|k: Seq<char>| after.contains_key(k) && #[trigger] key_binds(k, other, c, d);
        if k == key {
            lemma_key_binds_only(kind, a, b, other, c, d);
        }
        assert(bindings.contains_key(k));
    }
}

} // verus!
