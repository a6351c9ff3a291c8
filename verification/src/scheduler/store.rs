//! The scheduler's data as one whole: all its tables inside one transaction.
//!
//! An operation changes the table that it is about and no other. Where it
//! fails, nothing is known of that table, and the transaction is to be given
//! up.
use vstd::prelude::*;

use crate::common::tables;
use crate::common::tables::{CountTable, RecordTable, TextTable};
use crate::common::text;
use crate::scheduler::db;
use crate::scheduler::db::{Binding, DbError, RecordKind};

verus! {

/// The tables of the scheduler.
pub struct Store<'t> {
    pub nodes: RecordTable<'t>,
    pub tasks: RecordTable<'t>,
    pub users: RecordTable<'t>,
    pub places: RecordTable<'t>,
    pub groups: RecordTable<'t>,
    pub games: RecordTable<'t>,
    /// The numbers last given out.
    pub counters: CountTable<'t>,
    /// Which nodes hold which chunks.
    pub ledger: TextTable<'t>,
    /// Launch counts.
    pub heat: CountTable<'t>,
    pub bindings: CountTable<'t>,
    /// Manifests.
    pub versions: TextTable<'t>,
}

/// What the tables hold.
pub struct StoreView {
    pub nodes: Map<u64, Seq<char>>,
    pub tasks: Map<u64, Seq<char>>,
    pub users: Map<u64, Seq<char>>,
    pub places: Map<u64, Seq<char>>,
    pub groups: Map<u64, Seq<char>>,
    pub games: Map<u64, Seq<char>>,
    pub counters: Map<Seq<char>, u64>,
    pub ledger: Map<Seq<char>, Seq<char>>,
    pub heat: Map<Seq<char>, u64>,
    pub bindings: Map<Seq<char>, u64>,
    pub versions: Map<Seq<char>, Seq<char>>,
}

impl<'t> View for Store<'t> {
    type V = StoreView;

    open spec fn view(&self) -> StoreView {
        StoreView {
            nodes: tables::record_rows(self.nodes),
            tasks: tables::record_rows(self.tasks),
            users: tables::record_rows(self.users),
            places: tables::record_rows(self.places),
            groups: tables::record_rows(self.groups),
            games: tables::record_rows(self.games),
            counters: tables::count_rows(self.counters),
            ledger: tables::text_rows(self.ledger),
            heat: tables::count_rows(self.heat),
            bindings: tables::count_rows(self.bindings),
            versions: tables::text_rows(self.versions),
        }
    }
}

impl StoreView {
    /// Whether a number was given out, or none could be.
    pub open spec fn numbered(self, after: StoreView, kind: RecordKind, id: Result<u64, DbError>) -> bool {
        &&& after == (StoreView { counters: after.counters, ..self })
        &&& match id {
            Ok(n) => n == db::next_number(self.counters, kind) && after.counters == self.counters.insert(
                kind.counter(),
                n,
            ),
            Err(e) => db::gives_none(self.counters, kind, e),
        }
    }
}

/// A number that is given out is one more than the last of its kind, or the
/// first; it is noted as the last, and nothing else changes.
pub proof fn numbers_count_up(before: StoreView, after: StoreView, kind: RecordKind, n: u64)
    requires
        before.numbered(after, kind, Ok(n)),
    ensures
        n == if before.counters.contains_key(kind.counter()) {
            before.counters[kind.counter()] + 1
        } else {
            1
        },
        after.counters == before.counters.insert(kind.counter(), n),
        after.nodes == before.nodes,
        after.tasks == before.tasks,
        after.users == before.users,
        after.places == before.places,
        after.groups == before.groups,
        after.games == before.games,
        after.ledger == before.ledger,
        after.heat == before.heat,
        after.bindings == before.bindings,
        after.versions == before.versions,
{
}

impl<'t> Store<'t> {
    /// Whether every table is the one of its name, all in the transaction.
    pub open spec fn opened_in(self, txn: redb::WriteTransaction) -> bool {
        &&& tables::record_opened(self.nodes) == (txn, RecordKind::Node.table())
        &&& tables::record_opened(self.tasks) == (txn, RecordKind::Task.table())
        &&& tables::record_opened(self.users) == (txn, RecordKind::User.table())
        &&& tables::record_opened(self.places) == (txn, RecordKind::Place.table())
        &&& tables::record_opened(self.groups) == (txn, RecordKind::Group.table())
        &&& tables::record_opened(self.games) == (txn, RecordKind::Game.table())
        &&& tables::count_opened(self.counters) == (txn, "counters"@)
        &&& tables::text_opened(self.ledger) == (txn, "chunks"@)
        &&& tables::count_opened(self.heat) == (txn, "heat"@)
        &&& tables::count_opened(self.bindings) == (txn, "bindings"@)
        &&& tables::text_opened(self.versions) == (txn, "versions"@)
    }

    /// Whether every handle is the one of the same table as in `other`.
    pub open spec fn same_tables(self, other: Store) -> bool {
        &&& tables::record_opened(self.nodes) == tables::record_opened(other.nodes)
        &&& tables::record_opened(self.tasks) == tables::record_opened(other.tasks)
        &&& tables::record_opened(self.users) == tables::record_opened(other.users)
        &&& tables::record_opened(self.places) == tables::record_opened(other.places)
        &&& tables::record_opened(self.groups) == tables::record_opened(other.groups)
        &&& tables::record_opened(self.games) == tables::record_opened(other.games)
        &&& tables::count_opened(self.counters) == tables::count_opened(other.counters)
        &&& tables::text_opened(self.ledger) == tables::text_opened(other.ledger)
        &&& tables::count_opened(self.heat) == tables::count_opened(other.heat)
        &&& tables::count_opened(self.bindings) == tables::count_opened(other.bindings)
        &&& tables::text_opened(self.versions) == tables::text_opened(other.versions)
    }

    /// Opens all tables; those that did not exist are created.
    pub fn open(txn: &'t redb::WriteTransaction) -> (store: Result<Store<'t>, redb::TableError>)
        ensures
            store matches Ok(s) ==> s.opened_in(*txn),
            store matches Ok(s) ==> {
                &&& tables::record_opened(s.nodes) == (*txn, "nodes"@)
                &&& tables::record_opened(s.tasks) == (*txn, "tasks"@)
                &&& tables::record_opened(s.users) == (*txn, "users"@)
                &&& tables::record_opened(s.places) == (*txn, "places"@)
                &&& tables::record_opened(s.groups) == (*txn, "groups"@)
                &&& tables::record_opened(s.games) == (*txn, "games"@)
                &&& tables::count_opened(s.counters) == (*txn, "counters"@)
                &&& tables::text_opened(s.ledger) == (*txn, "chunks"@)
                &&& tables::count_opened(s.heat) == (*txn, "heat"@)
                &&& tables::count_opened(s.bindings) == (*txn, "bindings"@)
                &&& tables::text_opened(s.versions) == (*txn, "versions"@)
            },
    {
        Ok(
            Store {
                nodes: db::open_records(txn, RecordKind::Node)?,
                tasks: db::open_records(txn, RecordKind::Task)?,
                users: db::open_records(txn, RecordKind::User)?,
                places: db::open_records(txn, RecordKind::Place)?,
                groups: db::open_records(txn, RecordKind::Group)?,
                games: db::open_records(txn, RecordKind::Game)?,
                counters: db::open_counters(txn)?,
                ledger: db::open_ledger(txn)?,
                heat: db::open_heat(txn)?,
                bindings: db::open_bindings(txn)?,
                versions: db::open_versions(txn)?,
            },
        )
    }

    /// Gives out the next number of a node.
    pub fn next_node_id(&mut self) -> (id: Result<u64, DbError>)
        ensures
            final(self).same_tables(*old(self)),
            old(self)@.numbered(final(self)@, RecordKind::Node, id),
    {
        db::next_id(&mut self.counters, RecordKind::Node)
    }

    /// Keeps a node under its number, in place of one that was kept before.
    pub fn insert_node(&mut self, id: u64, record: &String) -> (done: Result<(), DbError>)
        ensures
            final(self).same_tables(*old(self)),
            final(self)@ == (StoreView { nodes: final(self)@.nodes, ..old(self)@ }),
            match done {
                Ok(_) => final(self)@.nodes == old(self)@.nodes.insert(id, record@),
                Err(e) => e == DbError::WriteRecord(RecordKind::Node),
            },
    {
        db::insert_record(&mut self.nodes, RecordKind::Node, id, record)
    }

    /// The node with that number.
    pub fn get_node(&self, id: u64) -> (record: Result<Option<String>, DbError>)
        ensures
            match record {
                Ok(r) => tables::text_of(r) == tables::row(self@.nodes, id),
                Err(e) => e == DbError::ReadRecord(RecordKind::Node),
            },
    {
        db::get_record(&self.nodes, RecordKind::Node, id)
    }

    /// All nodes, in the order of their numbers.
    pub fn list_nodes(&self) -> (records: Result<Vec<String>, DbError>)
        ensures
            match records {
                Ok(list) => db::lists_texts(list@, self@.nodes),
                Err(e) => e == DbError::ListRecords(RecordKind::Node),
            },
    {
        db::list_records(&self.nodes, RecordKind::Node)
    }

    /// Gives out the next number of a task.
    pub fn next_task_id(&mut self) -> (id: Result<u64, DbError>)
        ensures
            final(self).same_tables(*old(self)),
            old(self)@.numbered(final(self)@, RecordKind::Task, id),
    {
        db::next_id(&mut self.counters, RecordKind::Task)
    }

    /// Keeps a task under its number, in place of one that was kept before.
    pub fn insert_task(&mut self, id: u64, record: &String) -> (done: Result<(), DbError>)
        ensures
            final(self).same_tables(*old(self)),
            final(self)@ == (StoreView { tasks: final(self)@.tasks, ..old(self)@ }),
            match done {
                Ok(_) => final(self)@.tasks == old(self)@.tasks.insert(id, record@),
                Err(e) => e == DbError::WriteRecord(RecordKind::Task),
            },
    {
        db::insert_record(&mut self.tasks, RecordKind::Task, id, record)
    }

    /// The task with that number.
    pub fn get_task(&self, id: u64) -> (record: Result<Option<String>, DbError>)
        ensures
            match record {
                Ok(r) => tables::text_of(r) == tables::row(self@.tasks, id),
                Err(e) => e == DbError::ReadRecord(RecordKind::Task),
            },
    {
        db::get_record(&self.tasks, RecordKind::Task, id)
    }

    /// All tasks, in the order of their numbers.
    pub fn list_tasks(&self) -> (records: Result<Vec<String>, DbError>)
        ensures
            match records {
                Ok(list) => db::lists_texts(list@, self@.tasks),
                Err(e) => e == DbError::ListRecords(RecordKind::Task),
            },
    {
        db::list_records(&self.tasks, RecordKind::Task)
    }

    /// Gives out the next number of a user.
    pub fn next_user_id(&mut self) -> (id: Result<u64, DbError>)
        ensures
            final(self).same_tables(*old(self)),
            old(self)@.numbered(final(self)@, RecordKind::User, id),
    {
        db::next_id(&mut self.counters, RecordKind::User)
    }

    /// Keeps a user under its number, in place of one that was kept before.
    pub fn insert_user(&mut self, id: u64, record: &String) -> (done: Result<(), DbError>)
        ensures
            final(self).same_tables(*old(self)),
            final(self)@ == (StoreView { users: final(self)@.users, ..old(self)@ }),
            match done {
                Ok(_) => final(self)@.users == old(self)@.users.insert(id, record@),
                Err(e) => e == DbError::WriteRecord(RecordKind::User),
            },
    {
        db::insert_record(&mut self.users, RecordKind::User, id, record)
    }

    /// The user with that number.
    pub fn get_user(&self, id: u64) -> (record: Result<Option<String>, DbError>)
        ensures
            match record {
                Ok(r) => tables::text_of(r) == tables::row(self@.users, id),
                Err(e) => e == DbError::ReadRecord(RecordKind::User),
            },
    {
        db::get_record(&self.users, RecordKind::User, id)
    }

    /// All accounts, in the order of their numbers.
    pub fn list_users(&self) -> (records: Result<Vec<String>, DbError>)
        ensures
            match records {
                Ok(list) => db::lists_texts(list@, self@.users),
                Err(e) => e == DbError::ListRecords(RecordKind::User),
            },
    {
        db::list_records(&self.users, RecordKind::User)
    }

    /// Takes a user away; the result says whether there was one.
    pub fn delete_user(&mut self, id: u64) -> (found: Result<bool, DbError>)
        ensures
            final(self).same_tables(*old(self)),
            final(self)@ == (StoreView { users: final(self)@.users, ..old(self)@ }),
            match found {
                Ok(f) => f == old(self)@.users.contains_key(id) && final(self)@.users == old(self)@.users.remove(id),
                Err(e) => e == DbError::DeleteRecord(RecordKind::User),
            },
    {
        db::delete_record(&mut self.users, RecordKind::User, id)
    }

    /// Gives out the next number of a place.
    pub fn next_place_id(&mut self) -> (id: Result<u64, DbError>)
        ensures
            final(self).same_tables(*old(self)),
            old(self)@.numbered(final(self)@, RecordKind::Place, id),
    {
        db::next_id(&mut self.counters, RecordKind::Place)
    }

    /// Keeps a place under its number, in place of one that was kept before.
    pub fn insert_place(&mut self, id: u64, record: &String) -> (done: Result<(), DbError>)
        ensures
            final(self).same_tables(*old(self)),
            final(self)@ == (StoreView { places: final(self)@.places, ..old(self)@ }),
            match done {
                Ok(_) => final(self)@.places == old(self)@.places.insert(id, record@),
                Err(e) => e == DbError::WriteRecord(RecordKind::Place),
            },
    {
        db::insert_record(&mut self.places, RecordKind::Place, id, record)
    }

    /// The place with that number.
    pub fn get_place(&self, id: u64) -> (record: Result<Option<String>, DbError>)
        ensures
            match record {
                Ok(r) => tables::text_of(r) == tables::row(self@.places, id),
                Err(e) => e == DbError::ReadRecord(RecordKind::Place),
            },
    {
        db::get_record(&self.places, RecordKind::Place, id)
    }

    /// All internet cafes, in the order of their numbers.
    pub fn list_places(&self) -> (records: Result<Vec<String>, DbError>)
        ensures
            match records {
                Ok(list) => db::lists_texts(list@, self@.places),
                Err(e) => e == DbError::ListRecords(RecordKind::Place),
            },
    {
        db::list_records(&self.places, RecordKind::Place)
    }

    /// Takes a place away; the result says whether there was one.
    pub fn delete_place(&mut self, id: u64) -> (found: Result<bool, DbError>)
        ensures
            final(self).same_tables(*old(self)),
            final(self)@ == (StoreView { places: final(self)@.places, ..old(self)@ }),
            match found {
                Ok(f) => f == old(self)@.places.contains_key(id) && final(self)@.places == old(self)@.places.remove(id),
                Err(e) => e == DbError::DeleteRecord(RecordKind::Place),
            },
    {
        db::delete_record(&mut self.places, RecordKind::Place, id)
    }

    /// Gives out the next number of a group.
    pub fn next_group_id(&mut self) -> (id: Result<u64, DbError>)
        ensures
            final(self).same_tables(*old(self)),
            old(self)@.numbered(final(self)@, RecordKind::Group, id),
    {
        db::next_id(&mut self.counters, RecordKind::Group)
    }

    /// Keeps a group under its number, in place of one that was kept before.
    pub fn insert_group(&mut self, id: u64, record: &String) -> (done: Result<(), DbError>)
        ensures
            final(self).same_tables(*old(self)),
            final(self)@ == (StoreView { groups: final(self)@.groups, ..old(self)@ }),
            match done {
                Ok(_) => final(self)@.groups == old(self)@.groups.insert(id, record@),
                Err(e) => e == DbError::WriteRecord(RecordKind::Group),
            },
    {
        db::insert_record(&mut self.groups, RecordKind::Group, id, record)
    }

    /// The group with that number.
    pub fn get_group(&self, id: u64) -> (record: Result<Option<String>, DbError>)
        ensures
            match record {
                Ok(r) => tables::text_of(r) == tables::row(self@.groups, id),
                Err(e) => e == DbError::ReadRecord(RecordKind::Group),
            },
    {
        db::get_record(&self.groups, RecordKind::Group, id)
    }

    /// All groups, in the order of their numbers.
    pub fn list_groups(&self) -> (records: Result<Vec<String>, DbError>)
        ensures
            match records {
                Ok(list) => db::lists_texts(list@, self@.groups),
                Err(e) => e == DbError::ListRecords(RecordKind::Group),
            },
    {
        db::list_records(&self.groups, RecordKind::Group)
    }

    /// Takes a group away; the result says whether there was one.
    pub fn delete_group(&mut self, id: u64) -> (found: Result<bool, DbError>)
        ensures
            final(self).same_tables(*old(self)),
            final(self)@ == (StoreView { groups: final(self)@.groups, ..old(self)@ }),
            match found {
                Ok(f) => f == old(self)@.groups.contains_key(id) && final(self)@.groups == old(self)@.groups.remove(id),
                Err(e) => e == DbError::DeleteRecord(RecordKind::Group),
            },
    {
        db::delete_record(&mut self.groups, RecordKind::Group, id)
    }

    /// Gives out the next number of a game.
    pub fn next_game_id(&mut self) -> (id: Result<u64, DbError>)
        ensures
            final(self).same_tables(*old(self)),
            old(self)@.numbered(final(self)@, RecordKind::Game, id),
    {
        db::next_id(&mut self.counters, RecordKind::Game)
    }

    /// Keeps a game under its number, in place of one that was kept before.
    pub fn insert_game(&mut self, id: u64, record: &String) -> (done: Result<(), DbError>)
        ensures
            final(self).same_tables(*old(self)),
            final(self)@ == (StoreView { games: final(self)@.games, ..old(self)@ }),
            match done {
                Ok(_) => final(self)@.games == old(self)@.games.insert(id, record@),
                Err(e) => e == DbError::WriteRecord(RecordKind::Game),
            },
    {
        db::insert_record(&mut self.games, RecordKind::Game, id, record)
    }

    /// The game with that number.
    pub fn get_game(&self, id: u64) -> (record: Result<Option<String>, DbError>)
        ensures
            match record {
                Ok(r) => tables::text_of(r) == tables::row(self@.games, id),
                Err(e) => e == DbError::ReadRecord(RecordKind::Game),
            },
    {
        db::get_record(&self.games, RecordKind::Game, id)
    }

    /// All games, in the order of their numbers.
    pub fn list_games(&self) -> (records: Result<Vec<String>, DbError>)
        ensures
            match records {
                Ok(list) => db::lists_texts(list@, self@.games),
                Err(e) => e == DbError::ListRecords(RecordKind::Game),
            },
    {
        db::list_records(&self.games, RecordKind::Game)
    }

    /// Takes a game away; the result says whether there was one.
    pub fn delete_game(&mut self, id: u64) -> (found: Result<bool, DbError>)
        ensures
            final(self).same_tables(*old(self)),
            final(self)@ == (StoreView { games: final(self)@.games, ..old(self)@ }),
            match found {
                Ok(f) => f == old(self)@.games.contains_key(id) && final(self)@.games == old(self)@.games.remove(id),
                Err(e) => e == DbError::DeleteRecord(RecordKind::Game),
            },
    {
        db::delete_record(&mut self.games, RecordKind::Game, id)
    }

    /// Notes that a node holds a chunk.
    pub fn record_chunk_holder(&mut self, node_id: u64, game_id: u64, hash: &[u8]) -> (done: Result<(), DbError>)
        ensures
            final(self).same_tables(*old(self)),
            final(self)@ == (StoreView { ledger: final(self)@.ledger, ..old(self)@ }),
            match done {
                Ok(_) => final(self)@.ledger == db::with_holder(old(self)@.ledger, node_id, game_id, hash@),
                Err(e) => e == DbError::ReadLedger || e == DbError::WriteLedger,
            },
    {
        db::record_chunk_holder(&mut self.ledger, node_id, game_id, hash)
    }

    /// The nodes that hold a chunk.
    pub fn chunk_holders(&self, game_id: u64, hash: &[u8]) -> (ids: Result<Vec<u64>, DbError>)
        ensures
            match ids {
                Ok(list) => list@ == db::holders(self@.ledger, game_id, hash@),
                Err(e) => db::tells_none(self@.ledger, game_id, hash@, e),
            },
    {
        db::chunk_holders(&self.ledger, game_id, hash)
    }

    /// Adds to the launch count of a game; the result is the new count.
    pub fn add_launch(&mut self, game_id: u64, count: u64) -> (total: Result<u64, DbError>)
        ensures
            final(self).same_tables(*old(self)),
            final(self)@ == (StoreView { heat: final(self)@.heat, ..old(self)@ }),
            match total {
                Ok(n) => n == db::launches(old(self)@.heat, game_id) + count && final(self)@.heat
                    == old(self)@.heat.insert(text::decimal(game_id as nat), n),
                Err(DbError::CounterFull) => db::launches(old(self)@.heat, game_id) + count > u64::MAX
                    && final(self)@.heat == old(self)@.heat,
                Err(e) => e == DbError::ReadHeat || e == DbError::WriteHeat,
            },
    {
        db::add_launch(&mut self.heat, game_id, count)
    }

    /// The most launched games, the most launched first.
    pub fn top_games(&self, limit: usize) -> (ids: Result<Vec<u64>, DbError>)
        ensures
            match ids {
                Ok(list) => db::are_top_games(self@.heat, list@, limit as nat) && db::keys_are_games(self@.heat),
                Err(DbError::BadGameId) => !db::keys_are_games(self@.heat),
                Err(e) => e == DbError::ListHeat,
            },
    {
        db::top_games(&self.heat, limit)
    }

    /// Keeps the manifest of a version, in place of one that was kept before.
    pub fn save_version(&mut self, game_id: u64, version: u64, manifest: &[u8]) -> (done: Result<(), DbError>)
        ensures
            final(self).same_tables(*old(self)),
            final(self)@ == (StoreView { versions: final(self)@.versions, ..old(self)@ }),
            match done {
                Ok(_) => final(self)@.versions == db::with_version(old(self)@.versions, game_id, version, manifest@)
                    && db::manifest_of(final(self)@.versions, game_id, version) == Some(manifest@),
                Err(e) => e == DbError::WriteVersion,
            },
    {
        db::save_version(&mut self.versions, game_id, version, manifest)
    }

    /// The manifest of a version; `None` where none is kept.
    pub fn get_version(&self, game_id: u64, version: u64) -> (manifest: Result<Option<Vec<u8>>, DbError>)
        ensures
            db::reads_version(self@.versions, game_id, version, manifest),
    {
        db::get_version(&self.versions, game_id, version)
    }

    /// Binds `b` to `a`.
    pub fn bind(&mut self, kind: Binding, a: u64, b: u64) -> (done: Result<(), DbError>)
        ensures
            final(self).same_tables(*old(self)),
            final(self)@ == (StoreView { bindings: final(self)@.bindings, ..old(self)@ }),
            match done {
                Ok(_) => final(self)@.bindings == old(self)@.bindings.insert(db::binding_key(kind, a, b), 1),
                Err(e) => e == DbError::WriteBinding,
            },
    {
        db::bind(&mut self.bindings, kind, a, b)
    }

    /// The places that a user sees, each once, ascending.
    pub fn places_of_user(&self, user_id: u64) -> (places: Result<Vec<u64>, DbError>)
        ensures
            match places {
                Ok(list) => {
                    &&& forall|i: int, j: int|
                        0 <= i < j < list@.len() ==> (#[trigger] list@[i]) < (#[trigger] list@[j])
                    &&& forall|p: u64| #[trigger] list@.contains(p) <==> db::visible(self@.bindings, user_id, p)
                },
                Err(e) => e == DbError::ListBindings,
            },
    {
        db::places_of_user(&self.bindings, user_id)
    }
}

} // verus!
