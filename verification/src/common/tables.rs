//! redb tables as maps.
//!
//! A handle stands for one table inside one write transaction. Where it was
//! opened and what the table holds are named by spec functions; the operations
//! say how the rows change. An operation can fail at any time, for instance on
//! a disk error; then nothing is known of the table.
use redb::ReadableTable;
use vstd::prelude::*;
use vstd::utf8::*;

use crate::common::order;

verus! {

/// A write transaction of redb.
#[verifier::external_type_specification]
#[verifier::external_body]
pub struct ExWriteTransaction(redb::WriteTransaction);

/// The error of a redb table operation.
#[verifier::external_type_specification]
#[verifier::external_body]
pub struct ExStorageError(redb::StorageError);

/// The error of opening a redb table.
#[verifier::external_type_specification]
#[verifier::external_body]
pub struct ExTableError(redb::TableError);

/// The value in the row of a key.
pub open spec fn row<K, V>(rows: Map<K, V>, key: K) -> Option<V> {
    if rows.contains_key(key) {
        Some(rows[key])
    } else {
        None
    }
}

/// What an optional text says.
pub open spec fn text_of(t: Option<String>) -> Option<Seq<char>> {
    match t {
        Some(s) => Some(s@),
        None => None,
    }
}

/// A row is found exactly where the table has its key.
pub proof fn rows_are_found<K, V>(rows: Map<K, V>, k: K, t: String)
    ensures
        row(rows, k) is Some <==> rows.contains_key(k),
        row(rows, k) matches Some(v) ==> v == rows[k],
        text_of(Some(t)) == Some(t@),
        text_of(None) is None,
{
}

/// Whether the list holds exactly the rows, in ascending byte order of the keys.
pub open spec fn lists_counts(list: Seq<(String, u64)>, rows: Map<Seq<char>, u64>) -> bool {
    &&& forall|i: int, j: int| 0 <= i < j < list.len() ==> (#[trigger] list[i]).0@ != (#[trigger] list[j]).0@
        && order::bytes_le(encode_utf8(list[i].0@), encode_utf8(list[j].0@))
    &&& forall|i: int| 0 <= i < list.len() ==> rows.contains_key((#[trigger] list[i]).0@) && rows[list[i].0@]
        == list[i].1
    &&& forall|k: Seq<char>| #[trigger]
        rows.contains_key(k) ==> exists|i: int| 0 <= i < list.len() && (#[trigger] list[i]).0@ == k
}

/// Whether the list holds exactly the rows, in ascending order of the keys.
pub open spec fn lists_records(list: Seq<(u64, String)>, rows: Map<u64, Seq<char>>) -> bool {
    &&& forall|i: int, j: int| 0 <= i < j < list.len() ==> (#[trigger] list[i]).0 < (#[trigger] list[j]).0
    &&& forall|i: int| 0 <= i < list.len() ==> rows.contains_key((#[trigger] list[i]).0) && rows[list[i].0]
        == list[i].1@
    &&& forall|k: u64| #[trigger]
        rows.contains_key(k) ==> exists|i: int| 0 <= i < list.len() && (#[trigger] list[i]).0 == k
}

/// A table from texts to numbers.
#[verifier::external_body]
pub struct CountTable<'t> {
    table: redb::Table<'t, String, u64>,
}

/// The transaction in which a table from texts to numbers was opened, and the name of
/// the table.
pub uninterp spec fn count_opened(table: CountTable) -> (redb::WriteTransaction, Seq<char>);

/// The rows of a table from texts to numbers.
pub uninterp spec fn count_rows(table: CountTable) -> Map<Seq<char>, u64>;

impl<'t> CountTable<'t> {
    /// `WriteTransaction::open_table`: where it succeeds, the table of that
    /// name in that transaction, created where it did not exist; the handle
    /// keeps both. Nothing is stated of the rows it starts with, nor of when
    /// it fails: that rests on the database.
    #[verifier::external_body]
    pub(crate) fn open_in(txn: &'t redb::WriteTransaction, name: &str) -> (table: Result<
        CountTable<'t>,
        redb::TableError,
    >)
        requires
            name@.len() > 0,
        ensures
            table matches Ok(t) ==> count_opened(t) == (*txn, name@),
    {
        let definition: redb::TableDefinition<String, u64> = redb::TableDefinition::new(name);
        Ok(CountTable { table: txn.open_table(definition)? })
    }

    /// `Table::get`: where it succeeds, the value in the row of that key.
    #[verifier::external_body]
    pub(crate) fn get(&self, key: &String) -> (value: Result<Option<u64>, redb::StorageError>)
        ensures
            value matches Ok(v) ==> v == row(count_rows(*self), key@),
    {
        Ok(self.table.get(key)?.map(|v| v.value()))
    }

    /// `Table::insert`: where it succeeds, the row of that key has that value
    /// and no other row changed. The handle stays the one of its table.
    #[verifier::external_body]
    pub(crate) fn insert(&mut self, key: &String, value: u64) -> (done: Result<(), redb::StorageError>)
        ensures
            count_opened(*final(self)) == count_opened(*old(self)),
            done is Ok ==> count_rows(*final(self)) == count_rows(*old(self)).insert(key@, value),
    {
        self.table.insert(key, value)?;
        Ok(())
    }

    /// `Table::remove`: where it succeeds, there is no row of that key and no
    /// other row changed; the result says whether there was one. The handle
    /// stays the one of its table.
    #[verifier::external_body]
    pub(crate) fn remove(&mut self, key: &String) -> (found: Result<bool, redb::StorageError>)
        ensures
            count_opened(*final(self)) == count_opened(*old(self)),
            found matches Ok(f) ==> f == count_rows(*old(self)).contains_key(key@) && count_rows(*final(self))
                == count_rows(*old(self)).remove(key@),
    {
        Ok(self.table.remove(key)?.is_some())
    }

    /// `ReadableTable::iter`: where it succeeds, all rows in ascending order
    /// of the keys; redb orders `String` keys as `str` does, by bytes.
    #[verifier::external_body]
    pub(crate) fn rows(&self) -> (list: Result<Vec<(String, u64)>, redb::StorageError>)
        ensures
            list matches Ok(l) ==> lists_counts(l@, count_rows(*self)),
    {
        self.table.iter()?.map(|item| item.map(|(k, v)| (k.value(), v.value()))).collect()
    }
}

/// A table from texts to texts.
#[verifier::external_body]
pub struct TextTable<'t> {
    table: redb::Table<'t, String, String>,
}

/// The transaction in which a table from texts to texts was opened, and the name of
/// the table.
pub uninterp spec fn text_opened(table: TextTable) -> (redb::WriteTransaction, Seq<char>);

/// The rows of a table from texts to texts.
pub uninterp spec fn text_rows(table: TextTable) -> Map<Seq<char>, Seq<char>>;

impl<'t> TextTable<'t> {
    /// `WriteTransaction::open_table`: where it succeeds, the table of that
    /// name in that transaction, created where it did not exist; the handle
    /// keeps both. Nothing is stated of the rows it starts with, nor of when
    /// it fails: that rests on the database.
    #[verifier::external_body]
    pub(crate) fn open_in(txn: &'t redb::WriteTransaction, name: &str) -> (table: Result<
        TextTable<'t>,
        redb::TableError,
    >)
        requires
            name@.len() > 0,
        ensures
            table matches Ok(t) ==> text_opened(t) == (*txn, name@),
    {
        let definition: redb::TableDefinition<String, String> = redb::TableDefinition::new(name);
        Ok(TextTable { table: txn.open_table(definition)? })
    }

    /// `Table::get`: where it succeeds, the value in the row of that key.
    #[verifier::external_body]
    pub(crate) fn get(&self, key: &String) -> (value: Result<Option<String>, redb::StorageError>)
        ensures
            value matches Ok(v) ==> text_of(v) == row(text_rows(*self), key@),
    {
        Ok(self.table.get(key)?.map(|v| v.value()))
    }

    /// `Table::insert`: where it succeeds, the row of that key has that value
    /// and no other row changed. The handle stays the one of its table.
    #[verifier::external_body]
    pub(crate) fn insert(&mut self, key: &String, value: &String) -> (done: Result<(), redb::StorageError>)
        ensures
            text_opened(*final(self)) == text_opened(*old(self)),
            done is Ok ==> text_rows(*final(self)) == text_rows(*old(self)).insert(key@, value@),
    {
        self.table.insert(key, value)?;
        Ok(())
    }
}

/// A table from numbers to texts.
#[verifier::external_body]
pub struct RecordTable<'t> {
    table: redb::Table<'t, u64, String>,
}

/// The transaction in which a table from numbers to texts was opened, and the name of
/// the table.
pub uninterp spec fn record_opened(table: RecordTable) -> (redb::WriteTransaction, Seq<char>);

/// The rows of a table from numbers to texts.
pub uninterp spec fn record_rows(table: RecordTable) -> Map<u64, Seq<char>>;

impl<'t> RecordTable<'t> {
    /// `WriteTransaction::open_table`: where it succeeds, the table of that
    /// name in that transaction, created where it did not exist; the handle
    /// keeps both. Nothing is stated of the rows it starts with, nor of when
    /// it fails: that rests on the database.
    #[verifier::external_body]
    pub(crate) fn open_in(txn: &'t redb::WriteTransaction, name: &str) -> (table: Result<
        RecordTable<'t>,
        redb::TableError,
    >)
        requires
            name@.len() > 0,
        ensures
            table matches Ok(t) ==> record_opened(t) == (*txn, name@),
    {
        let definition: redb::TableDefinition<u64, String> = redb::TableDefinition::new(name);
        Ok(RecordTable { table: txn.open_table(definition)? })
    }

    /// `Table::get`: where it succeeds, the value in the row of that key.
    #[verifier::external_body]
    pub(crate) fn get(&self, key: u64) -> (value: Result<Option<String>, redb::StorageError>)
        ensures
            value matches Ok(v) ==> text_of(v) == row(record_rows(*self), key),
    {
        Ok(self.table.get(key)?.map(|v| v.value()))
    }

    /// `Table::insert`: where it succeeds, the row of that key has that value
    /// and no other row changed. The handle stays the one of its table.
    #[verifier::external_body]
    pub(crate) fn insert(&mut self, key: u64, value: &String) -> (done: Result<(), redb::StorageError>)
        ensures
            record_opened(*final(self)) == record_opened(*old(self)),
            done is Ok ==> record_rows(*final(self)) == record_rows(*old(self)).insert(key, value@),
    {
        self.table.insert(key, value)?;
        Ok(())
    }

    /// `Table::remove`: where it succeeds, there is no row of that key and no
    /// other row changed; the result says whether there was one. The handle
    /// stays the one of its table.
    #[verifier::external_body]
    pub(crate) fn remove(&mut self, key: u64) -> (found: Result<bool, redb::StorageError>)
        ensures
            record_opened(*final(self)) == record_opened(*old(self)),
            found matches Ok(f) ==> f == record_rows(*old(self)).contains_key(key) && record_rows(*final(self))
                == record_rows(*old(self)).remove(key),
    {
        Ok(self.table.remove(key)?.is_some())
    }

    /// `ReadableTable::iter`: where it succeeds, all rows in ascending order
    /// of the keys.
    #[verifier::external_body]
    pub(crate) fn rows(&self) -> (list: Result<Vec<(u64, String)>, redb::StorageError>)
        ensures
            list matches Ok(l) ==> lists_records(l@, record_rows(*self)),
    {
        self.table.iter()?.map(|item| item.map(|(k, v)| (k.value(), v.value()))).collect()
    }
}

} // verus!
