//! The chunk store of a game: an append-only pack file and an index of where
//! each chunk lies in it.
//!
//! The pack file is read and written by the caller. A store says where bytes
//! belong and keeps the index, a redb table.
use vstd::prelude::*;
use vstd::utf8::*;

use crate::common::chunk_set::ChunkSet;
use crate::common::copy;
use crate::common::hex;
use crate::common::order;
use crate::common::tables;
use crate::common::tables::CountTable;
use crate::common::text;

verus! {

broadcast use vstd::array::group_array_axioms;

/// Why a chunk store operation failed.
#[derive(Debug)]
pub enum StoreError {
    /// The index could not be read or written.
    Index(redb::StorageError),
    /// The chunks do not add up to a 64-bit number of bytes.
    TooLarge,
    /// A rewritten pack file has the wrong length.
    CopySize { expected: u64, copied: u64 },
    /// The pack file could not be read.
    Read(ReadError),
}

/// The low 32 bits of a number.
pub open spec fn low32(n: nat) -> u32 {
    (n % 0x1_0000_0000) as u32
}

/// An index value: the low 32 bits of the offset, then the length.
pub open spec fn pack_spec(offset: u64, len: u32) -> u64 {
    ((offset as nat % 0x1_0000_0000) * 0x1_0000_0000 + len as nat) as u64
}

/// The offset and length in an index value.
pub open spec fn unpack_spec(value: u64) -> (u64, u32) {
    ((value as nat / 0x1_0000_0000) as u64, low32(value as nat))
}

/// Joins offset and length to an index value.
pub fn pack(offset: u64, len: u32) -> (value: u64)
    ensures
        value == pack_spec(offset, len),
        value as int / 0x1_0000_0000 == offset as int % 0x1_0000_0000,
        value as int % 0x1_0000_0000 == len,
{
    let wide: u64 = len as u64;
    assert((offset << 32u64) | wide == (offset % 0x1_0000_0000u64) * 0x1_0000_0000u64 + wide) by (bit_vector)
        requires
            wide <= 0xffff_ffffu64,
    ;
    (offset << 32) | wide
}

/// Splits an index value into offset and length.
pub fn unpack(value: u64) -> (place: (u64, u32))
    ensures
        place == unpack_spec(value),
        place.0 == value as int / 0x1_0000_0000,
        place.1 == value as int % 0x1_0000_0000,
{
    assert(value >> 32u64 == value / 0x1_0000_0000u64) by (bit_vector);
    assert(value & 0xffff_ffffu64 == value % 0x1_0000_0000u64) by (bit_vector);
    (value >> 32, (value & 0xffff_ffff) as u32)
}

/// Offsets below 4 GiB survive the index.
pub proof fn unpack_of_pack(offset: u64, len: u32)
    requires
        offset < 0x1_0000_0000,
    ensures
        unpack_spec(pack_spec(offset, len)) == (offset, len),
{
}

/// The length of some bytes as the index keeps it.
pub fn length32(n: usize) -> (len: u32)
    ensures
        len == low32(n as nat),
{
    let wide: u64 = n as u64;
    (wide % 0x1_0000_0000) as u32
}

/// Where the index says that a chunk lies.
pub open spec fn location(rows: Map<Seq<char>, u64>, game_id: u64, hash: Seq<u8>) -> Option<(u64, u32)> {
    match tables::row(rows, hex::chunk_key_spec(game_id, hash)) {
        Some(v) => Some(unpack_spec(v)),
        None => None,
    }
}

/// The chunk store of one game.
#[derive(Debug)]
pub struct GameStore {
    pub game_id: u64,
    /// The length of the pack file.
    pub size: u64,
}

/// Where an appended chunk goes.
#[derive(Debug, Clone, Copy, PartialEq, Eq, Structural)]
pub enum Placement {
    /// It is there already.
    Known { offset: u64, len: u32 },
    /// Its bytes have to be written at this offset.
    New { offset: u64, len: u32 },
}

/// Opens the index of a chunk store.
pub fn open_index<'t>(txn: &'t redb::WriteTransaction) -> (index: Result<CountTable<'t>, redb::TableError>)
    ensures
        index matches Ok(t) ==> tables::count_opened(t) == (*txn, "chunks"@),
{
    proof {
        reveal_strlit("chunks");
    }
    CountTable::open_in(txn, "chunks")
}

impl GameStore {
    /// The store of a game whose pack file has the given length.
    pub fn new(game_id: u64, size: u64) -> (s: Self)
        ensures
            s.game_id == game_id,
            s.size == size,
    {
        GameStore { game_id, size }
    }

    /// The length of the pack file.
    pub fn size(&self) -> (n: u64)
        ensures
            n == self.size,
    {
        self.size
    }

    /// Where a chunk lies in the pack file.
    pub fn locate(&self, index: &CountTable, hash: &[u8; 32]) -> (place: Result<Option<(u64, u32)>, StoreError>)
        ensures
            match place {
                Ok(p) => p == location(tables::count_rows(*index), self.game_id, hash@),
                Err(e) => e is Index,
            },
            place matches Ok(p) ==> (p is Some <==> tables::count_rows(*index).contains_key(
                hex::chunk_key_spec(self.game_id, hash@),
            )),
            place matches Ok(Some((offset, len))) ==> tables::count_rows(*index)[hex::chunk_key_spec(
                self.game_id,
                hash@,
            )] == offset * 0x1_0000_0000 + len,
    {
        let key = hex::chunk_key(self.game_id, hash.as_slice());
        match index.get(&key) {
            Err(e) => Err(StoreError::Index(e)),
            Ok(None) => Ok(None),
            Ok(Some(v)) => Ok(Some(unpack(v))),
        }
    }

    /// Whether the store has a chunk.
    pub fn contains(&self, index: &CountTable, hash: &[u8; 32]) -> (found: Result<bool, StoreError>)
        ensures
            match found {
                Ok(f) => f == (location(tables::count_rows(*index), self.game_id, hash@) is Some),
                Err(e) => e is Index,
            },
            found matches Ok(f) ==> f == tables::count_rows(*index).contains_key(
                hex::chunk_key_spec(self.game_id, hash@),
            ),
    {
        match self.locate(index, hash) {
            Err(e) => Err(e),
            Ok(p) => Ok(p.is_some()),
        }
    }

    /// Where a chunk of `data_len` bytes goes: where it lies already, or to
    /// the end of the pack file.
    pub fn append_chunk(&self, index: &CountTable, hash: &[u8; 32], data_len: usize) -> (place: Result<
        Placement,
        StoreError,
    >)
        ensures
            match place {
                Ok(Placement::Known { offset, len }) => location(
                    tables::count_rows(*index),
                    self.game_id,
                    hash@,
                ) == Some((offset, len)),
                Ok(Placement::New { offset, len }) => location(tables::count_rows(*index), self.game_id, hash@) is None
                    && offset == self.size && len == low32(data_len as nat),
                Err(e) => e is Index,
            },
            place matches Ok(p) ==> (p is Known <==> tables::count_rows(*index).contains_key(
                hex::chunk_key_spec(self.game_id, hash@),
            )),
            place matches Ok(Placement::New { offset, len }) ==> len == data_len as int % 0x1_0000_0000,
    {
        match self.locate(index, hash) {
            Err(e) => Err(e),
            Ok(Some((offset, len))) => Ok(Placement::Known { offset, len }),
            Ok(None) => Ok(Placement::New { offset: self.size, len: length32(data_len) }),
        }
    }

    /// Enters a chunk whose bytes were written to the end of the pack file.
    pub fn commit_chunk(&mut self, index: &mut CountTable, hash: &[u8; 32], data_len: usize) -> (place: Result<
        (u64, u32),
        StoreError,
    >)
        requires
            old(self).size + data_len <= u64::MAX,
        ensures
            tables::count_opened(*final(index)) == tables::count_opened(*old(index)),
            final(self).game_id == old(self).game_id,
            final(self).size == old(self).size + data_len,
            match place {
                Ok((offset, len)) => {
                    &&& offset == old(self).size
                    &&& len == low32(data_len as nat)
                    &&& tables::count_rows(*final(index)) == tables::count_rows(*old(index)).insert(
                        hex::chunk_key_spec(old(self).game_id, hash@),
                        pack_spec(offset, len),
                    )
                },
                Err(e) => e is Index,
            },
    {
        let offset: u64 = self.size;
        let len: u32 = length32(data_len);
        self.size = self.size + data_len as u64;
        let key = hex::chunk_key(self.game_id, hash.as_slice());
        match index.insert(&key, pack(offset, len)) {
            Err(e) => Err(StoreError::Index(e)),
            Ok(_) => Ok((offset, len)),
        }
    }
}

/// Chunks to append: hashes and bytes.
pub type Batch = Vec<([u8; 32], Vec<u8>)>;

/// The position of the first chunk with the hash.
pub open spec fn first_at(chunks: Seq<([u8; 32], Vec<u8>)>, hash: [u8; 32]) -> Option<int>
    decreases chunks.len(),
{
    if chunks.len() == 0 {
        None
    } else {
        match first_at(chunks.drop_last(), hash) {
            Some(i) => Some(i),
            None => if chunks.last().0 == hash {
                Some(chunks.len() - 1)
            } else {
                None
            },
        }
    }
}

/// Whether the chunk at `i` has to be written: neither the index nor an
/// earlier chunk of the batch has it.
pub open spec fn is_new(rows: Map<Seq<char>, u64>, game_id: u64, chunks: Seq<([u8; 32], Vec<u8>)>, i: int) -> bool {
    location(rows, game_id, chunks[i].0@) is None && first_at(chunks.take(i), chunks[i].0) is None
}

/// The number of bytes that the first `n` chunks of a batch add.
pub open spec fn bytes_before(
    rows: Map<Seq<char>, u64>,
    game_id: u64,
    chunks: Seq<([u8; 32], Vec<u8>)>,
    n: int,
) -> nat
    decreases n,
{
    if n <= 0 {
        0
    } else {
        bytes_before(rows, game_id, chunks, n - 1) + (if is_new(rows, game_id, chunks, n - 1) {
            low32(chunks[n - 1].1@.len()) as nat
        } else {
            0
        })
    }
}

/// Which of the first `n` chunks of a batch have to be written.
pub open spec fn new_indices(
    rows: Map<Seq<char>, u64>,
    game_id: u64,
    chunks: Seq<([u8; 32], Vec<u8>)>,
    n: int,
) -> Seq<usize>
    decreases n,
{
    if n <= 0 {
        Seq::empty()
    } else {
        let before = new_indices(rows, game_id, chunks, n - 1);
        if is_new(rows, game_id, chunks, n - 1) {
            before.push((n - 1) as usize)
        } else {
            before
        }
    }
}

/// Where the chunk at `i` of a batch lies afterwards: where the index says, or
/// where the first chunk of the batch with its hash is written.
pub open spec fn place(
    rows: Map<Seq<char>, u64>,
    game_id: u64,
    size: u64,
    chunks: Seq<([u8; 32], Vec<u8>)>,
    i: int,
) -> (u64, u32) {
    match location(rows, game_id, chunks[i].0@) {
        Some(p) => p,
        None => {
            let f = first_at(chunks, chunks[i].0)->0;
            ((size + bytes_before(rows, game_id, chunks, f)) as u64, low32(chunks[f].1@.len()))
        },
    }
}

/// The index after the chunks at the given positions were entered.
pub open spec fn insert_places(
    rows: Map<Seq<char>, u64>,
    game_id: u64,
    chunks: Seq<([u8; 32], Vec<u8>)>,
    places: Seq<(u64, u32)>,
    new: Seq<usize>,
) -> Map<Seq<char>, u64>
    decreases new.len(),
{
    if new.len() == 0 {
        rows
    } else {
        let i = new.last() as int;
        insert_places(rows, game_id, chunks, places, new.drop_last()).insert(
            hex::chunk_key_spec(game_id, chunks[i].0@),
            pack_spec(places[i].0, places[i].1),
        )
    }
}

/// Where the chunks of a batch go.
#[derive(Debug, Clone, PartialEq, Eq)]
pub struct BatchPlan {
    /// Offset and length of each chunk.
    pub places: Vec<(u64, u32)>,
    /// The positions of the chunks whose bytes have to be written.
    pub new: Vec<usize>,
    /// The length of the pack file afterwards.
    pub end: u64,
}

proof fn lemma_first_at(chunks: Seq<([u8; 32], Vec<u8>)>, hash: [u8; 32])
    ensures
        match first_at(chunks, hash) {
            Some(i) => 0 <= i < chunks.len() && chunks[i].0 == hash && forall|k: int|
                0 <= k < i ==> (#[trigger] chunks[k]).0 != hash,
            None => forall|k: int| 0 <= k < chunks.len() ==> (#[trigger] chunks[k]).0 != hash,
        },
    decreases chunks.len(),
{
    if chunks.len() > 0 {
        lemma_first_at(chunks.drop_last(), hash);
        assert forall|k: int| 0 <= k < chunks.len() - 1 implies chunks.drop_last()[k] == chunks[k] by {}
    }
}

proof fn lemma_first_at_take(chunks: Seq<([u8; 32], Vec<u8>)>, hash: [u8; 32], n: int)
    requires
        0 <= n <= chunks.len(),
    ensures
        first_at(chunks.take(n), hash) matches Some(i) ==> first_at(chunks, hash) == Some(i),
        n < chunks.len() && chunks[n].0 == hash && first_at(chunks.take(n), hash) is None ==> first_at(chunks, hash)
            == Some(n),
{
    lemma_first_at(chunks.take(n), hash);
    lemma_first_at(chunks, hash);
    assert forall|k: int| 0 <= k < n implies chunks.take(n)[k] == chunks[k] by {}
}

proof fn lemma_batch_chain(
    rows: Map<Seq<char>, u64>,
    game_id: u64,
    size: u64,
    chunks: Seq<([u8; 32], Vec<u8>)>,
    places: Seq<(u64, u32)>,
    new: Seq<usize>,
    end: u64,
)
    requires
        chunks.len() <= usize::MAX,
        places.len() == chunks.len(),
        forall|k: int| 0 <= k < chunks.len() ==> #[trigger] places[k] == place(rows, game_id, size, chunks, k),
        new == new_indices(rows, game_id, chunks, chunks.len() as int),
        end == size + bytes_before(rows, game_id, chunks, chunks.len() as int),
    ensures
        forall|m: int| 0 <= m < new.len() ==> (#[trigger] new[m]) < chunks.len(),
        forall|m: int, k: int| 0 <= m < k < new.len() ==> #[trigger] new[m] < #[trigger] new[k],
        forall|i: usize|
            i < chunks.len() ==> (#[trigger] new.contains(i) <==> !rows.contains_key(
                hex::chunk_key_spec(game_id, chunks[i as int].0@),
            ) && forall|k: int| 0 <= k < i ==> (#[trigger] chunks[k]).0 != chunks[i as int].0),
        forall|i: int, j: int|
            0 <= i < chunks.len() && 0 <= j < chunks.len() && chunks[i].0 == chunks[j].0 ==> #[trigger] places[i]
                == #[trigger] places[j],
        forall|m: int|
            0 <= m < new.len() ==> places[#[trigger] new[m] as int].1 == low32(chunks[new[m] as int].1@.len()),
        new.len() > 0 ==> places[new[0] as int].0 == size,
        forall|m: int, k: int|
            0 <= m && k == m + 1 && k < new.len() ==> places[#[trigger] new[k] as int].0 == places[
                #[trigger] new[m] as int].0 + places[new[m] as int].1,
        end == (if new.len() == 0 {
            size as int
        } else {
            places[new.last() as int].0 + places[new.last() as int].1
        }),
{
    let n = chunks.len() as int;
    new_chunks_follow_each_other(rows, game_id, chunks, n);
    assert forall|m: int| 0 <= m < new.len() implies places[#[trigger] new[m] as int].0 == size + bytes_before(
        rows,
        game_id,
        chunks,
        new[m] as int,
    ) && places[new[m] as int].1 == low32(chunks[new[m] as int].1@.len()) by {
        let i = new[m];
        assert(new.contains(i));
        let h = chunks[i as int].0;
        lemma_first_at(chunks, h);
        let f = first_at(chunks, h)->0;
        assert(f == i);
        lemma_bytes_before_monotone(rows, game_id, chunks, i as int, n);
        assert(places[i as int] == place(rows, game_id, size, chunks, i as int));
    }
    assert forall|m: int, k: int| 0 <= m && k == m + 1 && k < new.len() implies places[#[trigger] new[k] as int].0
        == places[#[trigger] new[m] as int].0 + places[new[m] as int].1 by {
        assert(places[new[m] as int].0 == size + bytes_before(rows, game_id, chunks, new[m] as int));
        assert(places[new[k] as int].0 == size + bytes_before(rows, game_id, chunks, new[k] as int));
    }
    if new.len() > 0 {
        assert(places[new[0] as int].0 == size + bytes_before(rows, game_id, chunks, new[0] as int));
    }
    if new.len() > 0 {
        assert(places[new[new.len() - 1] as int].0 == size + bytes_before(
            rows,
            game_id,
            chunks,
            new[new.len() - 1] as int,
        ));
    }
}

proof fn lemma_bytes_before_monotone(
    rows: Map<Seq<char>, u64>,
    game_id: u64,
    chunks: Seq<([u8; 32], Vec<u8>)>,
    a: int,
    b: int,
)
    requires
        a <= b,
    ensures
        bytes_before(rows, game_id, chunks, a) <= bytes_before(rows, game_id, chunks, b),
    decreases b - a,
{
    if a < b {
        lemma_bytes_before_monotone(rows, game_id, chunks, a, b - 1);
    }
}

/// Exactly the chunks that neither the index nor an earlier chunk of the batch
/// has are written, in their order, and each follows on the one before it.
pub proof fn new_chunks_follow_each_other(
    rows: Map<Seq<char>, u64>,
    game_id: u64,
    chunks: Seq<([u8; 32], Vec<u8>)>,
    n: int,
)
    requires
        0 <= n <= chunks.len() <= usize::MAX,
    ensures
        forall|m: int| 0 <= m < new_indices(rows, game_id, chunks, n).len() ==> (#[trigger] new_indices(
            rows,
            game_id,
            chunks,
            n,
        )[m]) < n,
        forall|m: int, k: int|
            0 <= m < k < new_indices(rows, game_id, chunks, n).len() ==> #[trigger] new_indices(
                rows,
                game_id,
                chunks,
                n,
            )[m] < #[trigger] new_indices(rows, game_id, chunks, n)[k],
        forall|i: usize|
            i < n ==> (#[trigger] new_indices(rows, game_id, chunks, n).contains(i) <==> !rows.contains_key(
                hex::chunk_key_spec(game_id, chunks[i as int].0@),
            ) && forall|k: int| 0 <= k < i ==> (#[trigger] chunks[k]).0 != chunks[i as int].0),
        new_indices(rows, game_id, chunks, n).len() > 0 ==> bytes_before(
            rows,
            game_id,
            chunks,
            new_indices(rows, game_id, chunks, n)[0] as int,
        ) == 0,
        forall|m: int, k: int|
            0 <= m && k == m + 1 && k < new_indices(rows, game_id, chunks, n).len() ==> bytes_before(
                rows,
                game_id,
                chunks,
                #[trigger] new_indices(rows, game_id, chunks, n)[k] as int,
            ) == bytes_before(rows, game_id, chunks, #[trigger] new_indices(rows, game_id, chunks, n)[m] as int) + low32(
                chunks[new_indices(rows, game_id, chunks, n)[m] as int].1@.len(),
            ) as nat,
        bytes_before(rows, game_id, chunks, n) == (if new_indices(rows, game_id, chunks, n).len() == 0 {
            0
        } else {
            bytes_before(rows, game_id, chunks, new_indices(rows, game_id, chunks, n).last() as int) + low32(
                chunks[new_indices(rows, game_id, chunks, n).last() as int].1@.len(),
            ) as nat
        }),
    decreases n,
{
    if n > 0 {
        new_chunks_follow_each_other(rows, game_id, chunks, n - 1);
        let before = new_indices(rows, game_id, chunks, n - 1);
        let now = new_indices(rows, game_id, chunks, n);
        let fresh = is_new(rows, game_id, chunks, n - 1);
        lemma_first_at(chunks.take(n - 1), chunks[n - 1].0);
        assert forall|k: int| 0 <= k < n - 1 implies chunks.take(n - 1)[k] == chunks[k] by {}
        assert forall|i: usize| i < n implies (#[trigger] now.contains(i) <==> !rows.contains_key(
            hex::chunk_key_spec(game_id, chunks[i as int].0@),
        ) && forall|k: int| 0 <= k < i ==> (#[trigger] chunks[k]).0 != chunks[i as int].0) by {
            order::lemma_push_contains(before, (n - 1) as usize, i);
            if i == n - 1 {
                if before.contains(i) {
                    let m = choose|m: int| 0 <= m < before.len() && before[m] == i;
                    assert(before[m] < n - 1);
                }
                if forall|k: int| 0 <= k < i ==> (#[trigger] chunks[k]).0 != chunks[i as int].0 {
                    if let Some(k) = first_at(chunks.take(n - 1), chunks[n - 1].0) {
                        assert(chunks[k].0 == chunks[n - 1].0);
                    }
                } else {
                    let k = choose|k: int| 0 <= k < i && (#[trigger] chunks[k]).0 == chunks[i as int].0;
                    assert(chunks.take(n - 1)[k].0 == chunks[n - 1].0);
                }
            } else {
                assert(before.contains(i) <==> !rows.contains_key(hex::chunk_key_spec(game_id, chunks[i as int].0@))
                    && forall|k: int| 0 <= k < i ==> (#[trigger] chunks[k]).0 != chunks[i as int].0);
            }
        }
        if fresh {
            assert(now == before.push((n - 1) as usize));
            assert forall|m: int, k: int| 0 <= m && k == m + 1 && k < now.len() implies bytes_before(
                rows,
                game_id,
                chunks,
                #[trigger] now[k] as int,
            ) == bytes_before(rows, game_id, chunks, #[trigger] now[m] as int) + low32(
                chunks[now[m] as int].1@.len(),
            ) as nat by {
                assert(now[m] == before[m]);
                if k < before.len() {
                    assert(now[k] == before[k]);
                }
            }
        }
    }
}

/// What entering chunks changes: where no two of them have the same hash, the
/// place of each stands under its key; all other rows are as before.
pub proof fn entered_chunks_are_in_the_index(
    rows: Map<Seq<char>, u64>,
    game_id: u64,
    chunks: Seq<([u8; 32], Vec<u8>)>,
    places: Seq<(u64, u32)>,
    new: Seq<usize>,
)
    ensures
        forall|k: Seq<char>|
            (forall|m: int|
                0 <= m < new.len() ==> hex::chunk_key_spec(game_id, chunks[#[trigger] new[m] as int].0@) != k)
                ==> tables::row(insert_places(rows, game_id, chunks, places, new), k) == #[trigger] tables::row(rows, k),
        (forall|m: int, j: int|
            0 <= m < j < new.len() ==> chunks[#[trigger] new[j] as int].0 != chunks[#[trigger] new[m] as int].0)
            ==> forall|m: int|
            0 <= m < new.len() ==> tables::row(
                insert_places(rows, game_id, chunks, places, new),
                hex::chunk_key_spec(game_id, chunks[#[trigger] new[m] as int].0@),
            ) == Some(pack_spec(places[new[m] as int].0, places[new[m] as int].1)),
    decreases new.len(),
{
    if new.len() > 0 {
        let init = new.drop_last();
        let last = new.last() as int;
        let before = insert_places(rows, game_id, chunks, places, init);
        let after = insert_places(rows, game_id, chunks, places, new);
        let key = hex::chunk_key_spec(game_id, chunks[last].0@);
        entered_chunks_are_in_the_index(rows, game_id, chunks, places, init);
        assert forall|k: Seq<char>|
            (forall|m: int|
                0 <= m < new.len() ==> hex::chunk_key_spec(game_id, chunks[#[trigger] new[m] as int].0@)
                    != k) implies tables::row(after, k) == #[trigger] tables::row(rows, k) by {
            assert(hex::chunk_key_spec(game_id, chunks[new[new.len() - 1] as int].0@) != k);
            assert forall|m: int| 0 <= m < init.len() implies hex::chunk_key_spec(
                game_id,
                chunks[#[trigger] init[m] as int].0@,
            ) != k by {
                assert(new[m] == init[m]);
            }
            assert(tables::row(before, k) == tables::row(rows, k));
        }
        if forall|m: int, j: int|
            0 <= m < j < new.len() ==> chunks[#[trigger] new[j] as int].0 != chunks[#[trigger] new[m] as int].0 {
            assert forall|m: int, j: int| 0 <= m < j < init.len() implies chunks[#[trigger] init[j] as int].0 != chunks[
                #[trigger] init[m] as int].0 by {
                assert(new[m] == init[m] && new[j] == init[j]);
            }
            assert forall|m: int| 0 <= m < new.len() implies tables::row(
                after,
                hex::chunk_key_spec(game_id, chunks[#[trigger] new[m] as int].0@),
            ) == Some(pack_spec(places[new[m] as int].0, places[new[m] as int].1)) by {
                if m < init.len() {
                    assert(new[m] == init[m]);
                    assert(chunks[new[new.len() - 1] as int].0 != chunks[new[m] as int].0);
                    let h = chunks[new[m] as int].0;
                    if h@ == chunks[last].0@ {
                        assert(h =~= chunks[last].0);
                    }
                    hex::chunk_keys_are_distinct(game_id, h@, game_id, chunks[last].0@);
                }
            }
        }
    }
}

impl GameStore {
    /// Where the chunks of a batch go. Chunks that are there keep their place,
    /// new ones follow each other from the end of the pack file, and a chunk
    /// that occurs twice is written once.
    pub fn append_chunks_batch(&self, index: &CountTable, chunks: &Batch) -> (plan: Result<BatchPlan, StoreError>)
        ensures
            ({
                let rows = tables::count_rows(*index);
                let n = chunks@.len() as int;
                match plan {
                    Ok(p) => {
                        &&& p.places@.len() == n
                        &&& forall|i: int| 0 <= i < n ==> #[trigger] p.places@[i] == place(
                            rows,
                            self.game_id,
                            self.size,
                            chunks@,
                            i,
                        )
                        &&& p.new@ == new_indices(rows, self.game_id, chunks@, n)
                        &&& p.end == self.size + bytes_before(rows, self.game_id, chunks@, n)
                    },
                    Err(StoreError::TooLarge) => self.size + bytes_before(rows, self.game_id, chunks@, n) > u64::MAX,
                    Err(e) => e is Index,
                }
            }),
            chunks@.len() == 0 ==> plan is Ok,
            plan matches Ok(p) ==> {
                let rows = tables::count_rows(*index);
                &&& forall|m: int| 0 <= m < p.new@.len() ==> (#[trigger] p.new@[m]) < chunks@.len()
                &&& forall|m: int, k: int| 0 <= m < k < p.new@.len() ==> #[trigger] p.new@[m] < #[trigger] p.new@[k]
                &&& forall|i: usize|
                    i < chunks@.len() ==> (#[trigger] p.new@.contains(i) <==> !rows.contains_key(
                        hex::chunk_key_spec(self.game_id, chunks@[i as int].0@),
                    ) && forall|k: int| 0 <= k < i ==> (#[trigger] chunks@[k]).0 != chunks@[i as int].0)
                &&& forall|i: int|
                    0 <= i < chunks@.len() && rows.contains_key(
                        hex::chunk_key_spec(self.game_id, chunks@[i].0@),
                    ) ==> #[trigger] p.places@[i] == unpack_spec(
                        rows[hex::chunk_key_spec(self.game_id, chunks@[i].0@)],
                    )
                &&& forall|i: int, j: int|
                    0 <= i < chunks@.len() && 0 <= j < chunks@.len() && chunks@[i].0 == chunks@[j].0
                        ==> #[trigger] p.places@[i] == #[trigger] p.places@[j]
                &&& forall|m: int|
                    0 <= m < p.new@.len() ==> p.places@[#[trigger] p.new@[m] as int].1 == low32(
                        chunks@[p.new@[m] as int].1@.len(),
                    )
                &&& p.new@.len() > 0 ==> p.places@[p.new@[0] as int].0 == self.size
                &&& forall|m: int, k: int|
                    0 <= m && k == m + 1 && k < p.new@.len() ==> p.places@[#[trigger] p.new@[k] as int].0 == p.places@[
                        #[trigger] p.new@[m] as int].0 + p.places@[p.new@[m] as int].1
                &&& p.end == (if p.new@.len() == 0 {
                    self.size as int
                } else {
                    p.places@[p.new@.last() as int].0 + p.places@[p.new@.last() as int].1
                })
            },
    {
        let ghost rows = tables::count_rows(*index);
        let mut places: Vec<(u64, u32)> = Vec::new();
        let mut new: Vec<usize> = Vec::new();
        let mut seen = ChunkSet::new();
        let mut offset: u64 = self.size;
        let mut i: usize = 0;
        while i < chunks.len()
            invariant
                i <= chunks@.len(),
                rows == tables::count_rows(*index),
                places@.len() == i,
                forall|k: int| 0 <= k < i ==> #[trigger] places@[k] == place(
                    rows,
                    self.game_id,
                    self.size,
                    chunks@,
                    k,
                ),
                new@ == new_indices(rows, self.game_id, chunks@, i as int),
                offset == self.size + bytes_before(rows, self.game_id, chunks@, i as int),
                seen@.len() == new@.len(),
                seen@.no_duplicates(),
                forall|m: int| 0 <= m < new@.len() ==> (#[trigger] new@[m]) < i && chunks@[new@[m] as int].0 == seen@[m]
                    && location(rows, self.game_id, seen@[m]@) is None,
                forall|k: int| 0 <= k < i && location(rows, self.game_id, (#[trigger] chunks@[k]).0@) is None
                    ==> seen@.contains(chunks@[k].0),
            decreases chunks.len() - i,
        {
            let hash = &chunks[i].0;
            let ghost seen0 = seen@;
            let ghost new0 = new@;
            proof {
                lemma_first_at(chunks@.take(i as int), *hash);
                lemma_first_at_take(chunks@, *hash, i as int);
                lemma_bytes_before_monotone(rows, self.game_id, chunks@, i + 1, chunks@.len() as int);
            }
            match seen.position(hash) {
                Some(m) => {
                    let first: usize = new[m];
                    let known = places[first];
                    proof {
                        assert(chunks@[first as int].0 == *hash);
                        assert(chunks@.take(i as int)[first as int].0 == *hash);
                        assert(places@[first as int] == place(rows, self.game_id, self.size, chunks@, first as int));
                    }
                    places.push(known);
                },
                None => match self.locate(index, hash) {
                    Err(e) => {
                        return Err(e);
                    },
                    Ok(Some(p)) => {
                        places.push(p);
                    },
                    Ok(None) => {
                        proof {
                            if first_at(chunks@.take(i as int), *hash) is Some {
                                let k = first_at(chunks@.take(i as int), *hash)->0;
                                assert(chunks@[k].0 == *hash);
                                assert(seen@.contains(chunks@[k].0));
                            }
                            assert(is_new(rows, self.game_id, chunks@, i as int));
                        }
                        let len: u32 = length32(chunks[i].1.len());
                        if len as u64 > u64::MAX - offset {
                            return Err(StoreError::TooLarge);
                        }
                        places.push((offset, len));
                        new.push(i);
                        seen.insert(*hash);
                        offset = offset + len as u64;
                        proof {
                            assert(seen@ == seen0.push(*hash));
                        }
                    },
                },
            }
            proof {
                assert forall|k: int| 0 <= k < i + 1 && location(
                    rows,
                    self.game_id,
                    (#[trigger] chunks@[k]).0@,
                ) is None implies seen@.contains(chunks@[k].0) by {
                    if k < i {
                        assert(seen0.contains(chunks@[k].0));
                        let m = choose|m: int| 0 <= m < seen0.len() && seen0[m] == chunks@[k].0;
                        assert(seen@[m] == chunks@[k].0);
                    } else if seen@ != seen0 {
                        assert(seen@[seen0.len() as int] == chunks@[k].0);
                    } else {
                        assert(seen0.contains(chunks@[k].0));
                    }
                }
                assert forall|m: int| 0 <= m < new@.len() implies (#[trigger] new@[m]) < i + 1 && chunks@[new@[m] as int].0
                    == seen@[m] && location(rows, self.game_id, seen@[m]@) is None by {
                    if m < new0.len() {
                        assert(new@[m] == new0[m]);
                    }
                }
            }
            i = i + 1;
        }
        proof {
            lemma_batch_chain(rows, self.game_id, self.size, chunks@, places@, new@, offset);
        }
        Ok(BatchPlan { places, new, end: offset })
    }

    /// Enters the new chunks of a batch after their bytes were written.
    pub fn commit_batch(&mut self, index: &mut CountTable, chunks: &Batch, plan: &BatchPlan) -> (done: Result<
        (),
        StoreError,
    >)
        requires
            plan.places@.len() == chunks@.len(),
            forall|m: int| 0 <= m < plan.new@.len() ==> (#[trigger] plan.new@[m]) < chunks@.len(),
        ensures
            tables::count_opened(*final(index)) == tables::count_opened(*old(index)),
            final(self).game_id == old(self).game_id,
            final(self).size == plan.end,
            match done {
                Ok(_) => tables::count_rows(*final(index)) == insert_places(
                    tables::count_rows(*old(index)),
                    old(self).game_id,
                    chunks@,
                    plan.places@,
                    plan.new@,
                ),
                Err(e) => e is Index,
            },
            plan.new@.len() == 0 ==> done is Ok,
            done is Ok ==> {
                let before = tables::count_rows(*old(index));
                let after = tables::count_rows(*final(index));
                &&& forall|k: Seq<char>|
                    (forall|m: int|
                        0 <= m < plan.new@.len() ==> hex::chunk_key_spec(
                            old(self).game_id,
                            chunks@[#[trigger] plan.new@[m] as int].0@,
                        ) != k) ==> tables::row(after, k) == #[trigger] tables::row(before, k)
                &&& (forall|m: int, j: int|
                    0 <= m < j < plan.new@.len() ==> chunks@[#[trigger] plan.new@[j] as int].0 != chunks@[
                        #[trigger] plan.new@[m] as int].0) ==> forall|m: int|
                    0 <= m < plan.new@.len() ==> tables::row(
                        after,
                        hex::chunk_key_spec(old(self).game_id, chunks@[#[trigger] plan.new@[m] as int].0@),
                    ) == Some(
                        pack_spec(plan.places@[plan.new@[m] as int].0, plan.places@[plan.new@[m] as int].1),
                    )
            },
    {
        self.size = plan.end;
        let ghost rows0 = tables::count_rows(*index);
        let mut m: usize = 0;
        assert(plan.new@.take(0) =~= Seq::empty());
        while m < plan.new.len()
            invariant
                m <= plan.new@.len(),
                tables::count_opened(*index) == tables::count_opened(*old(index)),
                self.size == plan.end,
                self.game_id == old(self).game_id,
                plan.places@.len() == chunks@.len(),
                forall|k: int| 0 <= k < plan.new@.len() ==> (#[trigger] plan.new@[k]) < chunks@.len(),
                tables::count_rows(*index) == insert_places(
                    rows0,
                    self.game_id,
                    chunks@,
                    plan.places@,
                    plan.new@.take(m as int),
                ),
            decreases plan.new.len() - m,
        {
            let i: usize = plan.new[m];
            let (offset, len) = plan.places[i];
            let key = hex::chunk_key(self.game_id, chunks[i].0.as_slice());
            assert(plan.new@.take(m + 1).drop_last() =~= plan.new@.take(m as int));
            match index.insert(&key, pack(offset, len)) {
                Err(e) => {
                    return Err(StoreError::Index(e));
                },
                Ok(_) => {},
            }
            m = m + 1;
        }
        assert(plan.new@.take(m as int) =~= plan.new@);
        proof {
            entered_chunks_are_in_the_index(rows0, self.game_id, chunks@, plan.places@, plan.new@);
        }
        Ok(())
    }
}

/// The bytes of a chunk, given the pack file and the index; `None` where the
/// index lacks the chunk or points past the end of the file.
pub open spec fn stored(
    pack_file: Seq<u8>,
    rows: Map<Seq<char>, u64>,
    game_id: u64,
    hash: Seq<u8>,
) -> Option<Seq<u8>> {
    match location(rows, game_id, hash) {
        Some((offset, len)) => if offset + len <= pack_file.len() {
            Some(pack_file.subrange(offset as int, offset + len))
        } else {
            None
        },
        None => None,
    }
}

/// What was appended is read back, and no other chunk changes: after the
/// bytes of a new chunk were written at the end of a pack file of less than
/// 4 GiB and the chunk was entered, reading it gives the bytes, and every
/// other chunk reads as before.
pub proof fn append_then_read(
    pack_file: Seq<u8>,
    rows: Map<Seq<char>, u64>,
    game_id: u64,
    hash: Seq<u8>,
    data: Seq<u8>,
    other: Seq<u8>,
)
    requires
        pack_file.len() < 0x1_0000_0000,
        data.len() < 0x1_0000_0000,
    ensures
        ({
            let key = hex::chunk_key_spec(game_id, hash);
            let after = rows.insert(key, pack_spec(pack_file.len() as u64, low32(data.len())));
            &&& stored(pack_file + data, after, game_id, hash) == Some(data)
            &&& other != hash && stored(pack_file, rows, game_id, other) is Some ==> stored(
                pack_file + data,
                after,
                game_id,
                other,
            ) == stored(pack_file, rows, game_id, other)
            &&& other != hash && location(rows, game_id, other) is None ==> stored(
                pack_file + data,
                after,
                game_id,
                other,
            ) is None
        }),
{
    let offset = pack_file.len() as u64;
    let key = hex::chunk_key_spec(game_id, hash);
    let after = rows.insert(key, pack_spec(offset, low32(data.len())));
    unpack_of_pack(offset, low32(data.len()));
    assert((pack_file + data).subrange(offset as int, offset + data.len()) =~= data);
    hex::chunk_keys_are_distinct(game_id, hash, game_id, other);
    if other != hash {
        assert(location(after, game_id, other) == location(rows, game_id, other));
        if let Some((o, l)) = location(rows, game_id, other) {
            if o + l <= pack_file.len() {
                assert((pack_file + data).subrange(o as int, o + l) =~= pack_file.subrange(o as int, o + l));
            }
        }
    }
}

/// The bytes that the first `n` chunks of a batch add to the pack file.
pub open spec fn batch_data(
    rows: Map<Seq<char>, u64>,
    game_id: u64,
    chunks: Seq<([u8; 32], Vec<u8>)>,
    n: int,
) -> Seq<u8>
    decreases n,
{
    if n <= 0 {
        Seq::empty()
    } else {
        let before = batch_data(rows, game_id, chunks, n - 1);
        if is_new(rows, game_id, chunks, n - 1) {
            before + chunks[n - 1].1@
        } else {
            before
        }
    }
}

/// Whether every chunk of a batch that has to be written has less than 4 GiB.
pub open spec fn batch_fits(rows: Map<Seq<char>, u64>, game_id: u64, chunks: Seq<([u8; 32], Vec<u8>)>) -> bool {
    forall|i: int|
        0 <= i < chunks.len() && #[trigger] is_new(rows, game_id, chunks, i) ==> chunks[i].1@.len() < 0x1_0000_0000
}

proof fn lemma_batch_len(rows: Map<Seq<char>, u64>, game_id: u64, chunks: Seq<([u8; 32], Vec<u8>)>, n: int)
    requires
        0 <= n <= chunks.len(),
        batch_fits(rows, game_id, chunks),
    ensures
        batch_data(rows, game_id, chunks, n).len() == bytes_before(rows, game_id, chunks, n),
    decreases n,
{
    if n > 0 {
        lemma_batch_len(rows, game_id, chunks, n - 1);
        assert(is_new(rows, game_id, chunks, n - 1) ==> chunks[n - 1].1@.len() < 0x1_0000_0000);
    }
}

/// Entering a chunk leaves the places of all others.
proof fn lemma_insert_elsewhere(
    rows: Map<Seq<char>, u64>,
    game_id: u64,
    entered: [u8; 32],
    value: u64,
    h: [u8; 32],
)
    requires
        h != entered,
    ensures
        location(rows.insert(hex::chunk_key_spec(game_id, entered@), value), game_id, h@) == location(
            rows,
            game_id,
            h@,
        ),
{
    if h@ == entered@ {
        assert(h =~= entered);
    }
    hex::chunk_keys_are_distinct(game_id, h@, game_id, entered@);
}

/// Entering a batch leaves the places of chunks that were there.
proof fn lemma_batch_keeps(
    rows: Map<Seq<char>, u64>,
    game_id: u64,
    chunks: Seq<([u8; 32], Vec<u8>)>,
    places: Seq<(u64, u32)>,
    n: int,
    h: [u8; 32],
)
    requires
        0 <= n <= chunks.len() <= usize::MAX,
        location(rows, game_id, h@) is Some,
    ensures
        location(
            insert_places(rows, game_id, chunks, places, new_indices(rows, game_id, chunks, n)),
            game_id,
            h@,
        ) == location(rows, game_id, h@),
    decreases n,
{
    if n > 0 {
        lemma_batch_keeps(rows, game_id, chunks, places, n - 1, h);
        let new0 = new_indices(rows, game_id, chunks, n - 1);
        if is_new(rows, game_id, chunks, n - 1) {
            let new = new_indices(rows, game_id, chunks, n);
            assert(new.drop_last() =~= new0);
            let rows0 = insert_places(rows, game_id, chunks, places, new0);
            let c = chunks[n - 1].0;
            lemma_insert_elsewhere(rows0, game_id, c, pack_spec(places[n - 1].0, places[n - 1].1), h);
        }
    }
}

/// Entering a batch enters its new chunks where they are written.
proof fn lemma_batch_enters(
    rows: Map<Seq<char>, u64>,
    game_id: u64,
    chunks: Seq<([u8; 32], Vec<u8>)>,
    places: Seq<(u64, u32)>,
    n: int,
    i: int,
)
    requires
        0 <= i < n <= chunks.len() <= usize::MAX,
        is_new(rows, game_id, chunks, i),
    ensures
        location(
            insert_places(rows, game_id, chunks, places, new_indices(rows, game_id, chunks, n)),
            game_id,
            chunks[i].0@,
        ) == Some(unpack_spec(pack_spec(places[i].0, places[i].1))),
    decreases n,
{
    let new0 = new_indices(rows, game_id, chunks, n - 1);
    let new = new_indices(rows, game_id, chunks, n);
    if i < n - 1 {
        lemma_batch_enters(rows, game_id, chunks, places, n - 1, i);
    }
    if is_new(rows, game_id, chunks, n - 1) {
        assert(new.drop_last() =~= new0);
        let rows0 = insert_places(rows, game_id, chunks, places, new0);
        let c = chunks[n - 1].0;
        if i < n - 1 {
            lemma_first_at(chunks.take(n - 1), c);
            assert(chunks.take(n - 1)[i] == chunks[i]);
            lemma_insert_elsewhere(rows0, game_id, c, pack_spec(places[n - 1].0, places[n - 1].1), chunks[i].0);
        }
    }
}

/// The bytes of a new chunk lie in the batch where they are counted to.
proof fn lemma_batch_data_at(
    rows: Map<Seq<char>, u64>,
    game_id: u64,
    chunks: Seq<([u8; 32], Vec<u8>)>,
    n: int,
    i: int,
)
    requires
        0 <= i < n <= chunks.len(),
        batch_fits(rows, game_id, chunks),
        is_new(rows, game_id, chunks, i),
    ensures
        ({
            let at = bytes_before(rows, game_id, chunks, i) as int;
            let data = batch_data(rows, game_id, chunks, n);
            &&& at + chunks[i].1@.len() <= data.len()
            &&& data.subrange(at, at + chunks[i].1@.len()) == chunks[i].1@
        }),
    decreases n,
{
    let at = bytes_before(rows, game_id, chunks, i) as int;
    let data = batch_data(rows, game_id, chunks, n);
    lemma_batch_len(rows, game_id, chunks, n - 1);
    if i == n - 1 {
        assert(data.subrange(at, at + chunks[i].1@.len()) =~= chunks[i].1@);
    } else {
        lemma_batch_data_at(rows, game_id, chunks, n - 1, i);
        let data0 = batch_data(rows, game_id, chunks, n - 1);
        assert(data.subrange(at, at + chunks[i].1@.len()) =~= data0.subrange(at, at + chunks[i].1@.len()));
    }
}

/// What a batch appends is read back, and chunks that were there read as
/// before: after the new bytes of a batch were written at the end of the pack
/// file and the batch was entered, every chunk that was new reads as the bytes
/// of its first occurrence, provided that the pack file stays within 4 GiB.
pub proof fn batch_then_read(
    pack_file: Seq<u8>,
    rows: Map<Seq<char>, u64>,
    game_id: u64,
    chunks: Seq<([u8; 32], Vec<u8>)>,
    places: Seq<(u64, u32)>,
    i: int,
)
    requires
        0 <= i < chunks.len() <= usize::MAX,
        batch_fits(rows, game_id, chunks),
        pack_file.len() + bytes_before(rows, game_id, chunks, chunks.len() as int) <= 0x1_0000_0000,
        places.len() == chunks.len(),
        forall|k: int| 0 <= k < chunks.len() ==> #[trigger] places[k] == place(
            rows,
            game_id,
            pack_file.len() as u64,
            chunks,
            k,
        ),
    ensures
        ({
            let n = chunks.len() as int;
            let after = insert_places(rows, game_id, chunks, places, new_indices(rows, game_id, chunks, n));
            let bytes = pack_file + batch_data(rows, game_id, chunks, n);
            let h = chunks[i].0;
            &&& location(rows, game_id, h@) is None ==> stored(bytes, after, game_id, h@) == Some(
                chunks[first_at(chunks, h)->0].1@,
            )
            &&& stored(pack_file, rows, game_id, h@) is Some ==> stored(bytes, after, game_id, h@) == stored(
                pack_file,
                rows,
                game_id,
                h@,
            )
        }),
{
    let n = chunks.len() as int;
    let h = chunks[i].0;
    let size = pack_file.len() as u64;
    let data = batch_data(rows, game_id, chunks, n);
    let bytes = pack_file + data;
    lemma_first_at(chunks, h);
    let f = first_at(chunks, h)->0;
    if location(rows, game_id, h@) is None {
        lemma_first_at(chunks.take(f), h);
        assert forall|k: int| 0 <= k < f implies chunks.take(f)[k] == chunks[k] by {}
        assert(is_new(rows, game_id, chunks, f));
        lemma_batch_enters(rows, game_id, chunks, places, n, f);
        lemma_batch_data_at(rows, game_id, chunks, n, f);
        lemma_batch_len(rows, game_id, chunks, n);
        let at = bytes_before(rows, game_id, chunks, f) as int;
        let c = chunks[f].1@;
        assert(c.len() < 0x1_0000_0000);
        assert(places[f] == ((size + at) as u64, low32(c.len())));
        assert(bytes.subrange(size + at, size + at + c.len()) =~= data.subrange(at, at + c.len()));
        if size + at < 0x1_0000_0000 {
            unpack_of_pack((size + at) as u64, low32(c.len()));
        } else {
            assert(c.len() == 0);
            assert(pack_spec((size + at) as u64, 0) == 0);
            assert(bytes.subrange(0, 0) =~= c);
        }
    } else {
        lemma_batch_keeps(rows, game_id, chunks, places, n, h);
        let (o, l) = location(rows, game_id, h@)->0;
        if o + l <= pack_file.len() {
            assert(bytes.subrange(o as int, o + l) =~= pack_file.subrange(o as int, o + l));
        }
    }
}

/// Entering a batch enters nothing under a hash that is not in it.
proof fn lemma_batch_lacks(
    rows: Map<Seq<char>, u64>,
    game_id: u64,
    chunks: Seq<([u8; 32], Vec<u8>)>,
    places: Seq<(u64, u32)>,
    n: int,
    h: [u8; 32],
)
    requires
        0 <= n <= chunks.len() <= usize::MAX,
        forall|k: int| 0 <= k < n ==> (#[trigger] chunks[k]).0 != h,
    ensures
        location(
            insert_places(rows, game_id, chunks, places, new_indices(rows, game_id, chunks, n)),
            game_id,
            h@,
        ) == location(rows, game_id, h@),
    decreases n,
{
    if n > 0 {
        lemma_batch_lacks(rows, game_id, chunks, places, n - 1, h);
        let new0 = new_indices(rows, game_id, chunks, n - 1);
        if is_new(rows, game_id, chunks, n - 1) {
            let new = new_indices(rows, game_id, chunks, n);
            assert(new.drop_last() =~= new0);
            let rows0 = insert_places(rows, game_id, chunks, places, new0);
            let c = chunks[n - 1].0;
            lemma_insert_elsewhere(rows0, game_id, c, pack_spec(places[n - 1].0, places[n - 1].1), h);
        }
    }
}

/// A pack file, its index, and where each chunk that was appended lies.
pub struct Appended {
    pub file: Seq<u8>,
    pub rows: Map<Seq<char>, u64>,
    pub places: Seq<(u64, u32)>,
}

/// What there is once the first `n` chunks were appended one by one: a chunk
/// that the index has keeps its place, another is written to the end.
pub open spec fn appended_in_turn(
    file: Seq<u8>,
    rows: Map<Seq<char>, u64>,
    game_id: u64,
    chunks: Seq<([u8; 32], Vec<u8>)>,
    n: int,
) -> Appended
    decreases n,
{
    if n <= 0 {
        Appended { file, rows, places: Seq::empty() }
    } else {
        let before = appended_in_turn(file, rows, game_id, chunks, n - 1);
        let (hash, data) = chunks[n - 1];
        match location(before.rows, game_id, hash@) {
            Some(p) => Appended { file: before.file, rows: before.rows, places: before.places.push(p) },
            None => {
                let p = (before.file.len() as u64, low32(data@.len()));
                Appended {
                    file: before.file + data@,
                    rows: before.rows.insert(hex::chunk_key_spec(game_id, hash@), pack_spec(p.0, p.1)),
                    places: before.places.push(p),
                }
            },
        }
    }
}

proof fn lemma_batch_in_turn(
    file: Seq<u8>,
    rows: Map<Seq<char>, u64>,
    game_id: u64,
    chunks: Seq<([u8; 32], Vec<u8>)>,
    places: Seq<(u64, u32)>,
    n: int,
)
    requires
        0 <= n <= chunks.len() <= usize::MAX,
        batch_fits(rows, game_id, chunks),
        file.len() + bytes_before(rows, game_id, chunks, chunks.len() as int) < 0x1_0000_0000,
        places.len() == chunks.len(),
        forall|k: int| 0 <= k < chunks.len() ==> #[trigger] places[k] == place(
            rows,
            game_id,
            file.len() as u64,
            chunks,
            k,
        ),
    ensures
        appended_in_turn(file, rows, game_id, chunks, n) == (Appended {
            file: file + batch_data(rows, game_id, chunks, n),
            rows: insert_places(rows, game_id, chunks, places, new_indices(rows, game_id, chunks, n)),
            places: places.take(n),
        }),
    decreases n,
{
    let a = appended_in_turn(file, rows, game_id, chunks, n);
    if n <= 0 {
        assert(file + Seq::<u8>::empty() =~= file);
        assert(places.take(0) =~= Seq::empty());
    } else {
        lemma_batch_in_turn(file, rows, game_id, chunks, places, n - 1);
        let (h, data) = chunks[n - 1];
        let new0 = new_indices(rows, game_id, chunks, n - 1);
        let rows0 = insert_places(rows, game_id, chunks, places, new0);
        assert(places.take(n) =~= places.take(n - 1).push(places[n - 1]));
        lemma_first_at(chunks.take(n - 1), h);
        lemma_first_at_take(chunks, h, n - 1);
        assert forall|k: int| 0 <= k < n - 1 implies chunks.take(n - 1)[k] == chunks[k] by {}
        if location(rows, game_id, h@) is Some {
            lemma_batch_keeps(rows, game_id, chunks, places, n - 1, h);
        } else {
            match first_at(chunks.take(n - 1), h) {
                Some(f) => {
                    lemma_first_at(chunks.take(f), h);
                    assert forall|k: int| 0 <= k < f implies chunks.take(f)[k] == chunks[k] by {}
                    assert(is_new(rows, game_id, chunks, f));
                    lemma_batch_enters(rows, game_id, chunks, places, n - 1, f);
                    lemma_bytes_before_monotone(rows, game_id, chunks, f, chunks.len() as int);
                    assert(places[f] == places[n - 1]);
                    unpack_of_pack(places[f].0, places[f].1);
                },
                None => {
                    assert(is_new(rows, game_id, chunks, n - 1));
                    assert forall|k: int| 0 <= k < n - 1 implies (#[trigger] chunks[k]).0 != h by {
                        assert(chunks.take(n - 1)[k].0 != h);
                    }
                    lemma_batch_lacks(rows, game_id, chunks, places, n - 1, h);
                    lemma_batch_len(rows, game_id, chunks, n - 1);
                    lemma_bytes_before_monotone(rows, game_id, chunks, n - 1, chunks.len() as int);
                    let new = new_indices(rows, game_id, chunks, n);
                    assert(new.drop_last() =~= new0);
                    assert(new.last() == (n - 1) as usize);
                    assert(file + batch_data(rows, game_id, chunks, n) =~= (file + batch_data(
                        rows,
                        game_id,
                        chunks,
                        n - 1,
                    )) + data@);
                },
            }
        }
    }
}

/// A batch leaves what single appends in turn would leave: the same pack file,
/// the same index and the same place for each chunk, provided that the pack
/// file stays below 4 GiB. A chunk that was there or that occurs again takes
/// the place of the first and adds no bytes.
pub proof fn batch_is_appends_in_turn(
    file: Seq<u8>,
    rows: Map<Seq<char>, u64>,
    game_id: u64,
    chunks: Seq<([u8; 32], Vec<u8>)>,
    places: Seq<(u64, u32)>,
)
    requires
        chunks.len() <= usize::MAX,
        batch_fits(rows, game_id, chunks),
        file.len() + bytes_before(rows, game_id, chunks, chunks.len() as int) < 0x1_0000_0000,
        places.len() == chunks.len(),
        forall|k: int| 0 <= k < chunks.len() ==> #[trigger] places[k] == place(
            rows,
            game_id,
            file.len() as u64,
            chunks,
            k,
        ),
    ensures
        ({
            let n = chunks.len() as int;
            let turn = appended_in_turn(file, rows, game_id, chunks, n);
            &&& turn.places == places
            &&& turn.rows == insert_places(rows, game_id, chunks, places, new_indices(rows, game_id, chunks, n))
            &&& turn.file == file + batch_data(rows, game_id, chunks, n)
            &&& turn.file.len() == file.len() + bytes_before(rows, game_id, chunks, n)
        }),
{
    let n = chunks.len() as int;
    lemma_batch_in_turn(file, rows, game_id, chunks, places, n);
    lemma_batch_len(rows, game_id, chunks, n);
    assert(places.take(n) =~= places);
}

/// A live chunk and where it lies.
#[derive(Debug, Clone, Copy, PartialEq, Eq)]
pub struct Move {
    pub hash: [u8; 32],
    pub offset: u64,
    pub len: u32,
}

/// How to rewrite a pack file with its live chunks only.
#[derive(Debug, Clone, PartialEq, Eq)]
pub struct CompactPlan {
    /// The index keys of the game.
    pub keys: Vec<String>,
    /// The live chunks, in ascending order of their hashes. They are copied in
    /// this order.
    pub moves: Vec<Move>,
    /// The number of bytes in the live chunks.
    pub live_bytes: u64,
}

/// The number of bytes in the first `n` live chunks, which is where the next
/// one is copied to.
pub open spec fn moved_bytes(moves: Seq<Move>, n: int) -> nat
    decreases n,
{
    if n <= 0 {
        0
    } else {
        moved_bytes(moves, n - 1) + moves[n - 1].len as nat
    }
}

/// Whether one of the texts is `k`.
pub open spec fn lists_text(keys: Seq<String>, k: Seq<char>) -> bool {
    exists|i: int| 0 <= i < keys.len() && (#[trigger] keys[i])@ == k
}

/// Whether a key belongs to a game.
pub open spec fn key_of_game(game_id: u64, k: Seq<char>) -> bool {
    text::begins(encode_utf8(k), encode_utf8(hex::game_prefix(game_id)))
}

/// Whether the moves are the live chunks that the index has, each once, in
/// ascending order of their hashes.
pub open spec fn moves_live(moves: Seq<Move>, rows: Map<Seq<char>, u64>, game_id: u64, live: Seq<[u8; 32]>) -> bool {
    &&& forall|i: int| 0 <= i < moves.len() ==> live.contains((#[trigger] moves[i]).hash) && location(
        rows,
        game_id,
        moves[i].hash@,
    ) == Some((moves[i].offset, moves[i].len))
    &&& forall|i: int, j: int| 0 <= i < j < moves.len() ==> (#[trigger] moves[i]).hash != (#[trigger] moves[j]).hash
        && order::bytes_le(moves[i].hash@, moves[j].hash@)
    &&& forall|h: [u8; 32]| #[trigger] live.contains(h) && location(rows, game_id, h@) is Some ==> exists|i: int|
        0 <= i < moves.len() && (#[trigger] moves[i]).hash == h
}

/// Moves are the live chunks that the index has, ascending by their hashes, each
/// from where it lies.
pub proof fn live_chunks_are_moved(
    moves: Seq<Move>,
    rows: Map<Seq<char>, u64>,
    game_id: u64,
    live: Seq<[u8; 32]>,
    h: [u8; 32],
    i: int,
    j: int,
)
    requires
        moves_live(moves, rows, game_id, live),
    ensures
        moves.map_values(|m: Move| m.hash).contains(h) <==> live.contains(h) && rows.contains_key(
            hex::chunk_key_spec(game_id, h@),
        ),
        0 <= i < moves.len() ==> rows[hex::chunk_key_spec(game_id, moves[i].hash@)] == moves[i].offset * 0x1_0000_0000
            + moves[i].len,
        0 <= i < j < moves.len() ==> moves[i].hash != moves[j].hash && order::bytes_le(moves[i].hash@, moves[j].hash@),
        moved_bytes(moves, 0) == 0,
        0 <= i < moves.len() ==> moved_bytes(moves, i + 1) == moved_bytes(moves, i) + moves[i].len,
{
    let hashes = moves.map_values(|m: Move| m.hash);
    if hashes.contains(h) {
        let k = choose|k: int| 0 <= k < hashes.len() && hashes[k] == h;
        assert(live.contains(moves[k].hash));
    }
    if live.contains(h) && rows.contains_key(hex::chunk_key_spec(game_id, h@)) {
        assert(location(rows, game_id, h@) is Some);
        let k = choose|k: int| 0 <= k < moves.len() && (#[trigger] moves[k]).hash == h;
        assert(hashes[k] == h);
    }
    if 0 <= i < moves.len() {
        assert(live.contains(moves[i].hash));
    }
    if 0 <= i < j < moves.len() {
        assert(moves[i].hash != moves[j].hash);
    }
}

/// The index without the keys.
pub open spec fn remove_keys(rows: Map<Seq<char>, u64>, keys: Seq<String>) -> Map<Seq<char>, u64>
    decreases keys.len(),
{
    if keys.len() == 0 {
        rows
    } else {
        remove_keys(rows, keys.drop_last()).remove(keys.last()@)
    }
}

/// The index after the first `n` live chunks were entered at their new places.
pub open spec fn enter_moves(rows: Map<Seq<char>, u64>, game_id: u64, moves: Seq<Move>, n: int) -> Map<Seq<char>, u64>
    decreases n,
{
    if n <= 0 {
        rows
    } else {
        enter_moves(rows, game_id, moves, n - 1).insert(
            hex::chunk_key_spec(game_id, moves[n - 1].hash@),
            pack_spec(moved_bytes(moves, n - 1) as u64, moves[n - 1].len),
        )
    }
}

impl GameStore {
    /// What a rewrite of the pack file would keep. The bytes in the live chunks
    /// must be a 64-bit number.
    pub fn plan_compact(&self, index: &CountTable, live: &ChunkSet) -> (plan: Result<CompactPlan, StoreError>)
        ensures
            match plan {
                Ok(p) => {
                    let rows = tables::count_rows(*index);
                    &&& moves_live(p.moves@, rows, self.game_id, live@)
                    &&& p.live_bytes == moved_bytes(p.moves@, p.moves@.len() as int)
                    &&& forall|k: Seq<char>| #[trigger] lists_text(p.keys@, k) <==> rows.contains_key(k) && key_of_game(
                        self.game_id,
                        k,
                    )
                },
                Err(StoreError::TooLarge) => exists|moves: Seq<Move>| #[trigger]
                    moves_live(moves, tables::count_rows(*index), self.game_id, live@) && moved_bytes(
                        moves,
                        moves.len() as int,
                    ) > u64::MAX,
                Err(e) => e is Index,
            },
    {
        let ghost rows = tables::count_rows(*index);
        let prefix = hex::game_prefix_text(self.game_id);
        let list = match index.rows() {
            Err(e) => {
                return Err(StoreError::Index(e));
            },
            Ok(l) => l,
        };
        let keys = keys_with_prefix(&list, &prefix);
        proof {
            assert forall|k: Seq<char>| #[trigger] lists_text(keys@, k) <==> rows.contains_key(k) && key_of_game(
                self.game_id,
                k,
            ) by {
                if rows.contains_key(k) && key_of_game(self.game_id, k) {
                    let i = choose|i: int| 0 <= i < list@.len() && (#[trigger] list@[i]).0@ == k;
                    assert(list@[i].0@ == k);
                }
                if lists_text(keys@, k) {
                    let i = choose|i: int| 0 <= i < list@.len() && (#[trigger] list@[i]).0@ == k;
                    assert(list@[i].0@ == k);
                }
            }
        }
        let sorted = order::sort(live.hashes());
        proof {
            order::lemma_same_multiset(sorted@, live@);
        }
        let mut moves: Vec<Move> = Vec::new();
        let mut live_bytes: u128 = 0;
        let mut i: usize = 0;
        while i < sorted.len()
            invariant
                i <= sorted@.len(),
                rows == tables::count_rows(*index),
                order::ascending(sorted@),
                sorted@.no_duplicates(),
                moves@.len() <= i,
                live_bytes <= i * 0xffff_ffff,
                forall|h: [u8; 32]| #[trigger] sorted@.contains(h) <==> live@.contains(h),
                live_bytes == moved_bytes(moves@, moves@.len() as int),
                forall|k: int| 0 <= k < moves@.len() ==> sorted@.take(i as int).contains((#[trigger] moves@[k]).hash)
                    && location(rows, self.game_id, moves@[k].hash@) == Some((moves@[k].offset, moves@[k].len)),
                forall|a: int, b: int| 0 <= a < b < moves@.len() ==> (#[trigger] moves@[a]).hash != (
                #[trigger] moves@[b]).hash && order::bytes_le(moves@[a].hash@, moves@[b].hash@),
                forall|k: int| 0 <= k < i && location(rows, self.game_id, (#[trigger] sorted@[k])@) is Some
                    ==> exists|m: int| 0 <= m < moves@.len() && (#[trigger] moves@[m]).hash == sorted@[k],
            decreases sorted.len() - i,
        {
            let hash = sorted[i];
            let ghost moves0 = moves@;
            match self.locate(index, &hash) {
                Err(e) => {
                    return Err(e);
                },
                Ok(None) => {},
                Ok(Some((offset, len))) => {
                    proof {
                        lemma_moved_bytes_same(moves0, moves0.push(Move { hash, offset, len }), moves0.len() as int);
                        assert(i < 0x1_0000_0000_0000_0000);
                    }
                    live_bytes = live_bytes + len as u128;
                    moves.push(Move { hash, offset, len });
                },
            }
            proof {
                let t0 = sorted@.take(i as int);
                let t1 = sorted@.take(i + 1);
                assert(t1 =~= t0.push(hash));
                assert forall|k: int| 0 <= k < moves@.len() implies t1.contains((#[trigger] moves@[k]).hash) && location(
                    rows,
                    self.game_id,
                    moves@[k].hash@,
                ) == Some((moves@[k].offset, moves@[k].len)) by {
                    if k < moves0.len() {
                        assert(moves@[k] == moves0[k]);
                        let q = choose|q: int| 0 <= q < t0.len() && t0[q] == moves0[k].hash;
                        assert(t1[q] == moves0[k].hash);
                    } else {
                        assert(t1[i as int] == hash);
                    }
                }
                assert forall|a: int, b: int| 0 <= a < b < moves@.len() implies (#[trigger] moves@[a]).hash != (
                #[trigger] moves@[b]).hash && order::bytes_le(moves@[a].hash@, moves@[b].hash@) by {
                    if b == moves0.len() {
                        assert(moves@[a] == moves0[a]);
                        let q = choose|q: int| 0 <= q < t0.len() && t0[q] == moves0[a].hash;
                        assert(sorted@[q] == moves0[a].hash);
                        assert(order::Ranked::le(sorted@[q], sorted@[i as int]));
                    } else {
                        assert(moves@[a] == moves0[a] && moves@[b] == moves0[b]);
                    }
                }
                assert forall|k: int| 0 <= k < i + 1 && location(
                    rows,
                    self.game_id,
                    (#[trigger] sorted@[k])@,
                ) is Some implies exists|m: int| 0 <= m < moves@.len() && (#[trigger] moves@[m]).hash == sorted@[k] by {
                    if k < i {
                        let m = choose|m: int| 0 <= m < moves0.len() && (#[trigger] moves0[m]).hash == sorted@[k];
                        assert(moves@[m].hash == sorted@[k]);
                    } else {
                        assert(moves@[moves0.len() as int].hash == sorted@[k]);
                    }
                }
            }
            i = i + 1;
        }
        proof {
            assert(sorted@.take(i as int) =~= sorted@);
            assert forall|h: [u8; 32]| #[trigger] live@.contains(h) && location(
                rows,
                self.game_id,
                h@,
            ) is Some implies exists|m: int| 0 <= m < moves@.len() && (#[trigger] moves@[m]).hash == h by {
                assert(sorted@.contains(h));
                let k = choose|k: int| 0 <= k < sorted@.len() && sorted@[k] == h;
                assert(location(rows, self.game_id, sorted@[k]@) is Some);
            }
        }
        if live_bytes > u64::MAX as u128 {
            assert(moves_live(moves@, rows, self.game_id, live@));
            return Err(StoreError::TooLarge);
        }
        Ok(CompactPlan { keys, moves, live_bytes: live_bytes as u64 })
    }

    /// Whether the pack file is to be rewritten: it is not empty, enough of it
    /// is garbage, and the live chunks fit the free space. `below_threshold`
    /// says that the share of garbage is below the configured one.
    pub fn should_compact(&self, live_bytes: u64, below_threshold: bool, available_space: u64) -> (yes: bool)
        ensures
            yes == (self.size > 0 && !below_threshold && available_space >= live_bytes),
    {
        if self.size == 0 {
            return false;
        }
        if below_threshold {
            return false;
        }
        if available_space < live_bytes {
            return false;
        }
        true
    }

    /// Enters the live chunks at their new places, after the pack file was
    /// replaced.
    pub fn commit_compact(&mut self, index: &mut CountTable, plan: &CompactPlan) -> (done: Result<(), StoreError>)
        requires
            plan.live_bytes == moved_bytes(plan.moves@, plan.moves@.len() as int),
        ensures
            tables::count_opened(*final(index)) == tables::count_opened(*old(index)),
            final(self).game_id == old(self).game_id,
            final(self).size == plan.live_bytes,
            match done {
                Ok(_) => tables::count_rows(*final(index)) == enter_moves(
                    remove_keys(tables::count_rows(*old(index)), plan.keys@),
                    old(self).game_id,
                    plan.moves@,
                    plan.moves@.len() as int,
                ),
                Err(e) => e is Index,
            },
            plan.keys@.len() == 0 && plan.moves@.len() == 0 ==> done is Ok,
    {
        self.size = plan.live_bytes;
        let ghost rows0 = tables::count_rows(*index);
        let mut k: usize = 0;
        assert(plan.keys@.take(0) =~= Seq::empty());
        while k < plan.keys.len()
            invariant
                k <= plan.keys@.len(),
                tables::count_opened(*index) == tables::count_opened(*old(index)),
                tables::count_rows(*index) == remove_keys(rows0, plan.keys@.take(k as int)),
                self.size == plan.live_bytes,
                self.game_id == old(self).game_id,
            decreases plan.keys.len() - k,
        {
            assert(plan.keys@.take(k + 1).drop_last() =~= plan.keys@.take(k as int));
            match index.remove(&plan.keys[k]) {
                Err(e) => {
                    return Err(StoreError::Index(e));
                },
                Ok(_) => {},
            }
            k = k + 1;
        }
        assert(plan.keys@.take(k as int) =~= plan.keys@);
        let ghost rows1 = tables::count_rows(*index);
        let mut offset: u64 = 0;
        let mut i: usize = 0;
        while i < plan.moves.len()
            invariant
                i <= plan.moves@.len(),
                tables::count_opened(*index) == tables::count_opened(*old(index)),
                plan.live_bytes == moved_bytes(plan.moves@, plan.moves@.len() as int),
                offset == moved_bytes(plan.moves@, i as int),
                tables::count_rows(*index) == enter_moves(rows1, self.game_id, plan.moves@, i as int),
                self.size == plan.live_bytes,
                self.game_id == old(self).game_id,
            decreases plan.moves.len() - i,
        {
            let m = plan.moves[i];
            proof {
                lemma_moved_bytes_monotone(plan.moves@, i + 1, plan.moves@.len() as int);
            }
            let key = hex::chunk_key(self.game_id, m.hash.as_slice());
            match index.insert(&key, pack(offset, m.len)) {
                Err(e) => {
                    return Err(StoreError::Index(e));
                },
                Ok(_) => {},
            }
            offset = offset + m.len as u64;
            i = i + 1;
        }
        Ok(())
    }

    /// A rewritten pack file must have as many bytes as the live chunks.
    pub fn ensure_copy_size(copied: u64, expected: u64) -> (r: Result<(), StoreError>)
        ensures
            match r {
                Ok(_) => copied == expected,
                Err(e) => copied != expected && e == (StoreError::CopySize { expected, copied }),
            },
    {
        if copied != expected {
            return Err(StoreError::CopySize { expected, copied });
        }
        Ok(())
    }

    /// All index entries: key, offset and length, in ascending order of the
    /// keys.
    pub fn entries(&self, index: &CountTable) -> (list: Result<Vec<(String, u64, u32)>, StoreError>)
        ensures
            match list {
                Ok(l) => exists|rows: Seq<(String, u64)>| #[trigger]
                    tables::lists_counts(rows, tables::count_rows(*index)) && l@.len() == rows.len() && forall|i: int|
                        0 <= i < rows.len() ==> (#[trigger] l@[i]).0@ == rows[i].0@ && (l@[i].1, l@[i].2)
                            == unpack_spec(rows[i].1) && rows[i].1 == l@[i].1 * 0x1_0000_0000 + l@[i].2,
                Err(e) => e is Index,
            },
    {
        let rows = match index.rows() {
            Err(e) => {
                return Err(StoreError::Index(e));
            },
            Ok(l) => l,
        };
        let mut out: Vec<(String, u64, u32)> = Vec::new();
        let mut i: usize = 0;
        while i < rows.len()
            invariant
                i <= rows@.len(),
                out@.len() == i,
                forall|k: int| 0 <= k < i ==> (#[trigger] out@[k]).0@ == rows@[k].0@ && (out@[k].1, out@[k].2)
                    == unpack_spec(rows@[k].1),
            decreases rows.len() - i,
        {
            let (offset, len) = unpack(rows[i].1);
            out.push((rows[i].0.clone(), offset, len));
            i = i + 1;
        }
        Ok(out)
    }
}

/// The keys that start with the prefix.
fn keys_with_prefix(list: &Vec<(String, u64)>, prefix: &String) -> (keys: Vec<String>)
    ensures
        forall|k: Seq<char>| #[trigger] lists_text(keys@, k) <==> text::begins(encode_utf8(k), encode_utf8(prefix@))
            && exists|i: int| 0 <= i < list@.len() && (#[trigger] list@[i]).0@ == k,
{
    let mut keys: Vec<String> = Vec::new();
    let mut i: usize = 0;
    while i < list.len()
        invariant
            i <= list@.len(),
            forall|k: Seq<char>| #[trigger] lists_text(keys@, k) <==> text::begins(
                encode_utf8(k),
                encode_utf8(prefix@),
            ) && exists|m: int| 0 <= m < i && (#[trigger] list@[m]).0@ == k,
        decreases list.len() - i,
    {
        let ghost keys0 = keys@;
        let key = &list[i].0;
        let hit = text::bytes_begin(key.as_str().as_bytes(), prefix.as_str().as_bytes());
        if hit {
            keys.push(key.clone());
        }
        proof {
            assert forall|k: Seq<char>| #[trigger] lists_text(keys@, k) <==> text::begins(
                encode_utf8(k),
                encode_utf8(prefix@),
            ) && exists|m: int| 0 <= m < i + 1 && (#[trigger] list@[m]).0@ == k by {
                assert(lists_text(keys0, k) <==> text::begins(encode_utf8(k), encode_utf8(prefix@)) && exists|m: int|
                    0 <= m < i && (#[trigger] list@[m]).0@ == k);
                if lists_text(keys0, k) {
                    let q = choose|q: int| 0 <= q < keys0.len() && (#[trigger] keys0[q])@ == k;
                    assert(keys@[q]@ == k);
                }
                if k == key@ {
                    assert(list@[i as int].0@ == k);
                    if hit {
                        assert(keys@[keys0.len() as int]@ == k);
                    }
                }
                if lists_text(keys@, k) && !lists_text(keys0, k) {
                    let q = choose|q: int| 0 <= q < keys@.len() && (#[trigger] keys@[q])@ == k;
                    if q < keys0.len() {
                        assert(keys0[q]@ == k);
                    }
                }
            }
        }
        i = i + 1;
    }
    keys
}

proof fn lemma_moved_bytes_monotone(moves: Seq<Move>, a: int, b: int)
    requires
        a <= b,
    ensures
        moved_bytes(moves, a) <= moved_bytes(moves, b),
    decreases b - a,
{
    if a < b {
        lemma_moved_bytes_monotone(moves, a, b - 1);
    }
}

proof fn lemma_moved_bytes_same(a: Seq<Move>, b: Seq<Move>, n: int)
    requires
        n <= a.len(),
        n <= b.len(),
        forall|i: int| 0 <= i < n ==> a[i] == b[i],
    ensures
        moved_bytes(a, n) == moved_bytes(b, n),
    decreases n,
{
    if n > 0 {
        lemma_moved_bytes_same(a, b, n - 1);
    }
}

impl StoreError {
    /// What to tell a user; the text of an index error is redb's.
    pub open spec fn text(self) -> Option<Seq<char>> {
        match self {
            StoreError::Index(_) => None,
            StoreError::TooLarge => Some("块总长度超出 64 位范围"@),
            StoreError::CopySize { expected, copied } => Some(
                "压缩重写字节数不一致: 预期 "@ + text::decimal(expected as nat) + "，实际 "@ + text::decimal(
                    copied as nat,
                ),
            ),
            StoreError::Read(_) => Some("读取块数据失败"@),
        }
    }

    /// What to tell a user; `None` for an index error, whose text is redb's.
    pub fn message(&self) -> (out: Option<String>)
        ensures
            tables::text_of(out) == self.text(),
            tables::text_of(out) == (match *self {
                StoreError::Index(_) => None,
                StoreError::TooLarge => Some("块总长度超出 64 位范围"@),
                StoreError::CopySize { expected, copied } => Some(
                    "压缩重写字节数不一致: 预期 "@ + text::decimal(expected as nat) + "，实际 "@ + text::decimal(
                        copied as nat,
                    ),
                ),
                StoreError::Read(_) => Some("读取块数据失败"@),
            }),
    {
        match self {
            StoreError::Index(_) => None,
            StoreError::TooLarge => Some("块总长度超出 64 位范围".to_owned()),
            StoreError::CopySize { expected, copied } => {
                let mut out = String::new();
                out.append("压缩重写字节数不一致: 预期 ");
                text::push_decimal(&mut out, *expected);
                out.append("，实际 ");
                text::push_decimal(&mut out, *copied);
                assert(out@ =~= "压缩重写字节数不一致: 预期 "@ + text::decimal(*expected as nat) + "，实际 "@
                    + text::decimal(*copied as nat));
                Some(out)
            },
            StoreError::Read(_) => Some("读取块数据失败".to_owned()),
        }
    }
}

/// Where the live chunks lie: offset and length.
pub open spec fn move_ranges(moves: Seq<Move>) -> Seq<(u64, u32)> {
    moves.map_values(|m: Move| (m.offset, m.len))
}

/// What is copied of a live chunk is its bytes, where they lie.
pub proof fn moves_copy_their_chunk(moves: Seq<Move>, i: int)
    requires
        0 <= i < moves.len(),
    ensures
        move_ranges(moves).len() == moves.len(),
        move_ranges(moves)[i] == (moves[i].offset, moves[i].len),
{
}

impl CompactPlan {
    /// The ranges of the pack file to copy, in order.
    pub fn ranges(&self) -> (ranges: Vec<(u64, u32)>)
        ensures
            ranges@ == move_ranges(self.moves@),
    {
        let mut out: Vec<(u64, u32)> = Vec::new();
        let mut i: usize = 0;
        while i < self.moves.len()
            invariant
                i <= self.moves@.len(),
                out@.len() == i,
                forall|k: int| 0 <= k < i ==> #[trigger] out@[k] == (self.moves@[k].offset, self.moves@[k].len),
            decreases self.moves.len() - i,
        {
            out.push((self.moves[i].offset, self.moves[i].len));
            i = i + 1;
        }
        assert(out@ =~= move_ranges(self.moves@));
        out
    }
}

proof fn lemma_remove_keys(rows: Map<Seq<char>, u64>, keys: Seq<String>, k: Seq<char>)
    ensures
        tables::row(remove_keys(rows, keys), k) == (if lists_text(keys, k) {
            None
        } else {
            tables::row(rows, k)
        }),
    decreases keys.len(),
{
    if keys.len() > 0 {
        let init = keys.drop_last();
        lemma_remove_keys(rows, init, k);
        if lists_text(init, k) {
            let i = choose|i: int| 0 <= i < init.len() && (#[trigger] init[i])@ == k;
            assert(keys[i]@ == k);
        }
        if keys.last()@ == k {
            assert(keys[keys.len() - 1]@ == k);
        }
        if lists_text(keys, k) && keys.last()@ != k {
            let i = choose|i: int| 0 <= i < keys.len() && (#[trigger] keys[i])@ == k;
            assert(init[i]@ == k);
        }
    }
}

proof fn lemma_enter_moves(rows: Map<Seq<char>, u64>, game_id: u64, moves: Seq<Move>, n: int, k: Seq<char>)
    requires
        0 <= n <= moves.len(),
        forall|i: int| 0 <= i < n ==> k != hex::chunk_key_spec(game_id, (#[trigger] moves[i]).hash@),
    ensures
        tables::row(enter_moves(rows, game_id, moves, n), k) == tables::row(rows, k),
    decreases n,
{
    if n > 0 {
        lemma_enter_moves(rows, game_id, moves, n - 1, k);
        assert(k != hex::chunk_key_spec(game_id, moves[n - 1].hash@));
    }
}

proof fn lemma_entered_move(rows: Map<Seq<char>, u64>, game_id: u64, moves: Seq<Move>, n: int, i: int)
    requires
        0 <= i < n <= moves.len(),
        forall|a: int, b: int| 0 <= a < b < moves.len() ==> (#[trigger] moves[a]).hash != (#[trigger] moves[b]).hash,
    ensures
        location(enter_moves(rows, game_id, moves, n), game_id, moves[i].hash@) == Some(
            unpack_spec(pack_spec(moved_bytes(moves, i) as u64, moves[i].len)),
        ),
    decreases n,
{
    if i < n - 1 {
        lemma_entered_move(rows, game_id, moves, n - 1, i);
        lemma_insert_elsewhere(
            enter_moves(rows, game_id, moves, n - 1),
            game_id,
            moves[n - 1].hash,
            pack_spec(moved_bytes(moves, n - 1) as u64, moves[n - 1].len),
            moves[i].hash,
        );
    }
}

proof fn lemma_moves_copied(pack_file: Seq<u8>, moves: Seq<Move>, n: int, i: int)
    requires
        0 <= i < n <= moves.len(),
        copy::ranges_inside(move_ranges(moves), pack_file.len() as int),
    ensures
        copy::copied(pack_file, move_ranges(moves.take(n))).len() == moved_bytes(moves, n),
        moved_bytes(moves, i) + moves[i].len <= moved_bytes(moves, n),
        copy::copied(pack_file, move_ranges(moves.take(n))).subrange(
            moved_bytes(moves, i) as int,
            moved_bytes(moves, i) + moves[i].len,
        ) == pack_file.subrange(moves[i].offset as int, moves[i].offset + moves[i].len),
    decreases n,
{
    let all = copy::copied(pack_file, move_ranges(moves.take(n)));
    let init = copy::copied(pack_file, move_ranges(moves.take(n - 1)));
    let m = moves[n - 1];
    assert(move_ranges(moves.take(n)).drop_last() =~= move_ranges(moves.take(n - 1)));
    assert(move_ranges(moves.take(n)).last() == (m.offset, m.len));
    assert(move_ranges(moves)[n - 1] == (m.offset, m.len));
    assert(m.offset + m.len <= pack_file.len());
    lemma_moves_len(pack_file, moves, n - 1);
    if i == n - 1 {
        assert(all.subrange(init.len() as int, init.len() + m.len) =~= pack_file.subrange(
            m.offset as int,
            m.offset + m.len,
        ));
    } else {
        lemma_moves_copied(pack_file, moves, n - 1, i);
        let at = moved_bytes(moves, i) as int;
        assert(all.subrange(at, at + moves[i].len) =~= init.subrange(at, at + moves[i].len));
    }
}

proof fn lemma_moves_len(pack_file: Seq<u8>, moves: Seq<Move>, n: int)
    requires
        0 <= n <= moves.len(),
        copy::ranges_inside(move_ranges(moves), pack_file.len() as int),
    ensures
        copy::copied(pack_file, move_ranges(moves.take(n))).len() == moved_bytes(moves, n),
    decreases n,
{
    if n > 0 {
        lemma_moves_len(pack_file, moves, n - 1);
        assert(move_ranges(moves.take(n)).drop_last() =~= move_ranges(moves.take(n - 1)));
        assert(move_ranges(moves)[n - 1] == (moves[n - 1].offset, moves[n - 1].len));
    } else {
        assert(move_ranges(moves.take(0)) =~= Seq::empty());
    }
}

proof fn lemma_key_has_prefix(game_id: u64, other_game: u64, hash: Seq<u8>)
    ensures
        key_of_game(game_id, hex::chunk_key_spec(other_game, hash)) <==> other_game == game_id,
{
    let k = hex::chunk_key_spec(other_game, hash);
    let p = hex::game_prefix(game_id);
    let q = hex::game_prefix(other_game);
    assert(is_ascii_chars(k) && is_ascii_chars(p) && is_ascii_chars(q));
    is_ascii_chars_encode_utf8(k);
    is_ascii_chars_encode_utf8(p);
    crate::common::bytes::lemma_le_bytes_len(game_id as nat, 8);
    crate::common::bytes::lemma_le_bytes_len(other_game as nat, 8);
    assert(p.len() == 16 && q.len() == 16);
    let kb = encode_utf8(k);
    let pb = encode_utf8(p);
    if other_game == game_id {
        assert(kb.take(16) =~= pb);
    }
    if kb.take(16) == pb {
        assert forall|i: int| 0 <= i < 16 implies p[i] == q[i] by {
            assert(kb.take(16)[i] == kb[i]);
            assert(kb[i] == k[i] as u8);
            assert(pb[i] == p[i] as u8);
            assert(k[i] == q[i]);
        }
        assert(p =~= q);
        hex::chunk_keys_are_distinct(game_id, Seq::empty(), other_game, Seq::empty());
        assert(hex::chunk_key_spec(game_id, Seq::empty()) =~= hex::chunk_key_spec(other_game, Seq::empty()));
    }
}

/// Compaction keeps exactly the live chunks: after the pack file was replaced
/// by the copied ranges and the plan was committed, a live chunk reads as
/// before, a chunk that is not live is gone, and the chunks of other games are
/// where they were. (The live chunks must stay within 4 GiB, and the index
/// must not point past the end of the pack file.)
pub proof fn compact_keeps_live_chunks(
    pack_file: Seq<u8>,
    rows: Map<Seq<char>, u64>,
    game_id: u64,
    live: Seq<[u8; 32]>,
    plan: CompactPlan,
    h: [u8; 32],
    other_game: u64,
)
    requires
        moves_live(plan.moves@, rows, game_id, live),
        forall|k: Seq<char>| #[trigger] lists_text(plan.keys@, k) <==> rows.contains_key(k) && key_of_game(game_id, k),
        copy::ranges_inside(move_ranges(plan.moves@), pack_file.len() as int),
        moved_bytes(plan.moves@, plan.moves@.len() as int) <= 0x1_0000_0000,
    ensures
        ({
            let n = plan.moves@.len() as int;
            let file = copy::copied(pack_file, move_ranges(plan.moves@));
            let after = enter_moves(remove_keys(rows, plan.keys@), game_id, plan.moves@, n);
            &&& file.len() == moved_bytes(plan.moves@, n)
            &&& live.contains(h) ==> stored(file, after, game_id, h@) == stored(pack_file, rows, game_id, h@)
            &&& !live.contains(h) ==> location(after, game_id, h@) is None && stored(file, after, game_id, h@) is None
            &&& other_game != game_id ==> location(after, other_game, h@) == location(rows, other_game, h@)
        }),
{
    let moves = plan.moves@;
    let n = moves.len() as int;
    let file = copy::copied(pack_file, move_ranges(moves));
    let removed = remove_keys(rows, plan.keys@);
    let after = enter_moves(removed, game_id, moves, n);
    assert(moves.take(n) =~= moves);
    lemma_moves_len(pack_file, moves, n);
    let key = hex::chunk_key_spec(game_id, h@);
    lemma_key_has_prefix(game_id, game_id, h@);
    lemma_remove_keys(rows, plan.keys@, key);
    if exists|i: int| 0 <= i < n && (#[trigger] moves[i]).hash == h {
        let i = choose|i: int| 0 <= i < n && (#[trigger] moves[i]).hash == h;
        let m = moves[i];
        assert(live.contains(h));
        lemma_entered_move(removed, game_id, moves, n, i);
        lemma_moves_copied(pack_file, moves, n, i);
        assert(move_ranges(moves)[i] == (m.offset, m.len));
        assert(m.offset + m.len <= pack_file.len());
        let at = moved_bytes(moves, i);
        if at < 0x1_0000_0000 {
            unpack_of_pack(at as u64, m.len);
        } else {
            assert(m.len == 0);
            assert(pack_spec(at as u64, 0) == 0);
            assert(file.subrange(0, 0) =~= pack_file.subrange(m.offset as int, m.offset + m.len));
        }
    } else {
        assert forall|i: int| 0 <= i < n implies key != hex::chunk_key_spec(game_id, (#[trigger] moves[i]).hash@) by {
            hex::chunk_keys_are_distinct(game_id, h@, game_id, moves[i].hash@);
            if h@ == moves[i].hash@ {
                assert(h =~= moves[i].hash);
            }
        }
        lemma_enter_moves(removed, game_id, moves, n, key);
    }
    if other_game != game_id {
        let k2 = hex::chunk_key_spec(other_game, h@);
        lemma_key_has_prefix(game_id, other_game, h@);
        lemma_remove_keys(rows, plan.keys@, k2);
        assert forall|i: int| 0 <= i < n implies k2 != hex::chunk_key_spec(game_id, (#[trigger] moves[i]).hash@) by {
            hex::chunk_keys_are_distinct(other_game, h@, game_id, moves[i].hash@);
        }
        lemma_enter_moves(removed, game_id, moves, n, k2);
    }
}

/// Whether a write call can be answered as `std::io::Write` demands: it can be
/// made on any bytes at any offset, and says at most as many bytes as it got.
pub open spec fn writes_well<F: Fn(&[u8], u64) -> Result<usize, WriteError>>(write: F) -> bool {
    &&& forall|buf: &[u8], at: u64| #[trigger] call_requires(write, (buf, at))
    &&& forall|buf: &[u8], at: u64, r: Result<usize, WriteError>| #[trigger]
        call_ensures(write, (buf, at), r) ==> (r matches Ok(n) ==> n <= buf@.len())
}

/// Why bytes could not be written.
#[derive(Debug, Clone, Copy, PartialEq, Eq, Structural)]
pub enum WriteError {
    /// A write call wrote nothing.
    WriteZero,
    /// A write call failed.
    Failed,
}

/// Whether the call was made on the bytes of `buf` from `done` on, for their
/// offset, and answered with `r`.
pub open spec fn wrote<F: Fn(&[u8], u64) -> Result<usize, WriteError>>(
    write: F,
    buf: Seq<u8>,
    offset: u64,
    done: int,
    r: Result<usize, WriteError>,
) -> bool {
    exists|rest: &[u8]| rest@ == buf.skip(done) && #[trigger] call_ensures(write, (rest, (offset + done) as u64), r)
}

/// The number of bytes that the calls wrote.
pub open spec fn sum_of(counts: Seq<usize>) -> nat
    decreases counts.len(),
{
    if counts.len() == 0 {
        0
    } else {
        sum_of(counts.drop_last()) + counts.last() as nat
    }
}

/// Whether each call wrote some bytes, following on what the calls before it
/// wrote.
pub open spec fn wrote_all<F: Fn(&[u8], u64) -> Result<usize, WriteError>>(
    write: F,
    buf: Seq<u8>,
    offset: u64,
    counts: Seq<usize>,
) -> bool {
    forall|i: int| 0 <= i < counts.len() ==> (#[trigger] counts[i]) > 0 && wrote(
        write,
        buf,
        offset,
        sum_of(counts.take(i)) as int,
        Ok(counts[i]),
    )
}

/// Writes all bytes, however few each call of `write` takes. It ends well
/// where the calls, each following on the one before, wrote the whole buffer;
/// it fails where a call wrote nothing or failed.
pub fn write_exact_at_impl<F: Fn(&[u8], u64) -> Result<usize, WriteError>>(write: F, buf: &[u8], offset: u64) -> (r:
    Result<(), WriteError>)
    requires
        writes_well(write),
        offset + buf@.len() <= u64::MAX,
    ensures
        match r {
            Ok(_) => exists|counts: Seq<usize>| #[trigger]
                wrote_all(write, buf@, offset, counts) && sum_of(counts) == buf@.len(),
            Err(e) => exists|counts: Seq<usize>| #[trigger]
                wrote_all(write, buf@, offset, counts) && sum_of(counts) < buf@.len() && (wrote(
                    write,
                    buf@,
                    offset,
                    sum_of(counts) as int,
                    Err(e),
                ) || (e == WriteError::WriteZero && wrote(write, buf@, offset, sum_of(counts) as int, Ok(0)))),
        },
{
    let ghost mut counts: Seq<usize> = Seq::empty();
    let mut done: usize = 0;
    while done < buf.len()
        invariant
            done <= buf@.len(),
            offset + buf@.len() <= u64::MAX,
            writes_well(write),
            wrote_all(write, buf@, offset, counts),
            sum_of(counts) == done,
        decreases buf.len() - done,
    {
        let rest = vstd::slice::slice_subrange(buf, done, buf.len());
        assert(rest@ =~= buf@.skip(done as int));
        let answer = write(rest, offset + done as u64);
        assert(wrote(write, buf@, offset, done as int, answer));
        match answer {
            Err(e) => {
                return Err(e);
            },
            Ok(n) => {
                if n == 0 {
                    return Err(WriteError::WriteZero);
                }
                proof {
                    let more = counts.push(n);
                    assert(more.drop_last() =~= counts);
                    assert forall|i: int| 0 <= i < more.len() implies (#[trigger] more[i]) > 0 && wrote(
                        write,
                        buf@,
                        offset,
                        sum_of(more.take(i)) as int,
                        Ok(more[i]),
                    ) by {
                        if i < counts.len() {
                            assert(more[i] == counts[i]);
                            assert(more.take(i) =~= counts.take(i));
                        } else {
                            assert(more.take(i) =~= counts);
                        }
                    }
                    counts = more;
                }
                done = done + n;
            },
        }
    }
    Ok(())
}

/// The numbers of bytes add up.
pub proof fn counts_add_up(one: Seq<usize>, two: Seq<usize>, n: usize)
    ensures
        sum_of(Seq::empty()) == 0,
        sum_of(seq![n]) == n,
        sum_of(one + two) == sum_of(one) + sum_of(two),
    decreases two.len(),
{
    reveal_with_fuel(sum_of, 2);
    assert(seq![n].drop_last() =~= Seq::empty());
    if two.len() == 0 {
        assert(one + two =~= one);
    } else {
        counts_add_up(one, two.drop_last(), n);
        assert((one + two).drop_last() =~= one + two.drop_last());
        assert((one + two).last() == two.last());
    }
}

/// What was written is there: where each call that took bytes left them in the
/// file at its offset, the file has every byte of the buffer, from the offset
/// on.
pub proof fn written_bytes_are_there<F: Fn(&[u8], u64) -> Result<usize, WriteError>>(
    write: F,
    buf: Seq<u8>,
    offset: u64,
    counts: Seq<usize>,
    file: Seq<u8>,
)
    requires
        offset + buf.len() <= u64::MAX,
        wrote_all(write, buf, offset, counts),
        sum_of(counts) == buf.len(),
        forall|rest: &[u8], at: u64, n: usize| #[trigger]
            call_ensures(write, (rest, at), Ok(n)) ==> n <= rest@.len() && at + n <= file.len() && rest@.take(n as int)
                == file.subrange(at as int, at + n),
    ensures
        forall|k: int| 0 <= k < buf.len() ==> #[trigger] buf[k] == file[offset + k],
{
    assert(counts.take(counts.len() as int) =~= counts);
    assert forall|k: int| 0 <= k < buf.len() implies #[trigger] buf[k] == file[offset + k] by {
        lemma_written(write, buf, offset, counts, file, counts.len() as int, k);
    }
}

proof fn lemma_sum_take(counts: Seq<usize>, m: int)
    requires
        0 <= m <= counts.len(),
    ensures
        sum_of(counts.take(m)) <= sum_of(counts),
    decreases counts.len(),
{
    if m < counts.len() {
        assert(counts.drop_last().take(m) =~= counts.take(m));
        lemma_sum_take(counts.drop_last(), m);
    } else {
        assert(counts.take(m) =~= counts);
    }
}

/// The bytes of one call are there.
proof fn lemma_written_once<F: Fn(&[u8], u64) -> Result<usize, WriteError>>(
    write: F,
    buf: Seq<u8>,
    offset: u64,
    done: int,
    n: usize,
    file: Seq<u8>,
    k: int,
)
    requires
        0 <= done <= k < done + n,
        done <= buf.len(),
        offset + buf.len() <= u64::MAX,
        wrote(write, buf, offset, done, Ok(n)),
        forall|rest: &[u8], at: u64, n: usize| #[trigger]
            call_ensures(write, (rest, at), Ok(n)) ==> n <= rest@.len() && at + n <= file.len() && rest@.take(n as int)
                == file.subrange(at as int, at + n),
    ensures
        k < buf.len(),
        buf[k] == file[offset + k],
{
    let at = (offset + done) as u64;
    let rest = choose|rest: &[u8]| rest@ == buf.skip(done) && #[trigger] call_ensures(write, (rest, at), Ok(n));
    let there = file.subrange(at as int, at + n);
    assert(rest@.take(n as int) == there);
    assert(rest@.take(n as int)[k - done] == rest@[k - done]);
    assert(rest@[k - done] == buf[k]);
    assert(there[k - done] == file[at + (k - done)]);
}

proof fn lemma_written<F: Fn(&[u8], u64) -> Result<usize, WriteError>>(
    write: F,
    buf: Seq<u8>,
    offset: u64,
    counts: Seq<usize>,
    file: Seq<u8>,
    m: int,
    k: int,
)
    requires
        0 <= m <= counts.len(),
        0 <= k < sum_of(counts.take(m)),
        offset + buf.len() <= u64::MAX,
        wrote_all(write, buf, offset, counts),
        sum_of(counts) == buf.len(),
        forall|rest: &[u8], at: u64, n: usize| #[trigger]
            call_ensures(write, (rest, at), Ok(n)) ==> n <= rest@.len() && at + n <= file.len() && rest@.take(n as int)
                == file.subrange(at as int, at + n),
    ensures
        k < buf.len(),
        buf[k] == file[offset + k],
    decreases m,
{
    if m == 0 {
        assert(counts.take(0) =~= Seq::empty());
    } else {
        let done = sum_of(counts.take(m - 1)) as int;
        let n = counts[m - 1];
        assert(counts.take(m).drop_last() =~= counts.take(m - 1));
        lemma_sum_take(counts, m - 1);
        if k < done {
            lemma_written(write, buf, offset, counts, file, m - 1, k);
        } else {
            assert(wrote(write, buf, offset, done, Ok(n)));
            lemma_written_once(write, buf, offset, done, n, file, k);
        }
    }
}

/// Why bytes could not be read.
#[derive(Debug, Clone, Copy, PartialEq, Eq, Structural)]
pub enum ReadError {
    /// The file ended before.
    UnexpectedEof,
    /// A read call failed.
    Failed,
}

impl ReadError {
    /// What to tell a user.
    pub open spec fn text(self) -> Seq<char> {
        match self {
            ReadError::UnexpectedEof => "读取块数据遇到文件末尾"@,
            ReadError::Failed => "读取块数据失败"@,
        }
    }

    /// What to tell a user.
    pub fn message(&self) -> (out: &'static str)
        ensures
            out@ == self.text(),
            out@ == (match *self {
                ReadError::UnexpectedEof => "读取块数据遇到文件末尾"@,
                ReadError::Failed => "读取块数据失败"@,
            }),
    {
        match self {
            ReadError::UnexpectedEof => "读取块数据遇到文件末尾",
            ReadError::Failed => "读取块数据失败",
        }
    }
}

/// Whether a read call can be made for any number of bytes at any offset and
/// gives at most as many.
pub open spec fn reads_well<F: Fn(usize, u64) -> Result<Vec<u8>, ReadError>>(read: F) -> bool {
    &&& forall|max: usize, at: u64| #[trigger] call_requires(read, (max, at))
    &&& forall|max: usize, at: u64, r: Result<Vec<u8>, ReadError>| #[trigger]
        call_ensures(read, (max, at), r) ==> (r matches Ok(d) ==> d@.len() <= max)
}

/// Whether whatever a read call gives is what the file has at its offset.
pub open spec fn reads_file<F: Fn(usize, u64) -> Result<Vec<u8>, ReadError>>(read: F, file: Seq<u8>) -> bool {
    forall|max: usize, at: u64, d: Vec<u8>| #[trigger]
        call_ensures(read, (max, at), Ok(d)) ==> at + d@.len() <= file.len() && d@ == file.subrange(
            at as int,
            at + d@.len(),
        )
}

/// Reads `len` bytes from an offset, however few each call of `read` gives. It
/// fails where a call fails, or gives nothing although bytes are left to read.
pub fn read_exact_at<F: Fn(usize, u64) -> Result<Vec<u8>, ReadError>>(read: F, len: usize, offset: u64) -> (r: Result<
    Vec<u8>,
    ReadError,
>)
    requires
        reads_well(read),
        offset + len <= u64::MAX,
    ensures
        match r {
            Ok(data) => data@.len() == len && forall|file: Seq<u8>| #[trigger]
                reads_file(read, file) && offset <= file.len() ==> offset + len <= file.len() && data@ == file.subrange(
                    offset as int,
                    offset + len,
                ),
            Err(e) => exists|max: usize, at: u64|
                0 < max <= len && at + max == offset + len && #[trigger] stopped(read, max, at, e),
        },
{
    let mut data: Vec<u8> = Vec::new();
    while data.len() < len
        invariant
            data@.len() <= len,
            reads_well(read),
            offset + len <= u64::MAX,
            forall|file: Seq<u8>| #[trigger]
                reads_file(read, file) && offset <= file.len() ==> offset + data@.len() <= file.len() && data@
                    == file.subrange(offset as int, offset + data@.len()),
        decreases len - data.len(),
    {
        let max: usize = len - data.len();
        let at: u64 = offset + data.len() as u64;
        let answer = read(max, at);
        match answer {
            Err(e) => {
                assert(stopped(read, max, at, e));
                return Err(e);
            },
            Ok(piece) => {
                assert(call_ensures(read, (max, at), Ok(piece)));
                if piece.len() == 0 {
                    assert(stopped(read, max, at, ReadError::UnexpectedEof));
                    return Err(ReadError::UnexpectedEof);
                }
                let ghost before = data@;
                let mut piece = piece;
                let ghost more = piece@;
                data.append(&mut piece);
                proof {
                    assert forall|file: Seq<u8>| #[trigger]
                        reads_file(read, file) && offset <= file.len() implies offset + data@.len() <= file.len()
                        && data@ == file.subrange(offset as int, offset + data@.len()) by {
                        assert(data@ =~= file.subrange(offset as int, offset + data@.len()));
                    }
                }
            },
        }
    }
    proof {
        assert forall|file: Seq<u8>| #[trigger] reads_file(read, file) && offset <= file.len() implies offset + len
            <= file.len() && data@ == file.subrange(offset as int, offset + len) by {}
    }
    Ok(data)
}

impl GameStore {
    /// The bytes of a chunk, read from the pack file at the place that the
    /// index gives; `None` where the index lacks the chunk.
    pub fn read_chunk<F: Fn(usize, u64) -> Result<Vec<u8>, ReadError>>(
        &self,
        index: &CountTable,
        hash: &[u8; 32],
        read: F,
    ) -> (data: Result<Option<Vec<u8>>, StoreError>)
        requires
            reads_well(read),
        ensures
            ({
                let rows = tables::count_rows(*index);
                match data {
                    Ok(None) => location(rows, self.game_id, hash@) is None,
                    Ok(Some(d)) => location(rows, self.game_id, hash@) matches Some((offset, len)) && d@.len() == len
                        && forall|file: Seq<u8>| #[trigger]
                        reads_file(read, file) && offset <= file.len() ==> stored(file, rows, self.game_id, hash@)
                            == Some(d@),
                    Err(StoreError::Read(e)) => location(rows, self.game_id, hash@) matches Some((offset, len))
                        && exists|max: usize, at: u64|
                        0 < max <= len && at + max == offset + len && #[trigger] stopped(read, max, at, e),
                    Err(e) => e is Index,
                }
            }),
    {
        match self.locate(index, hash) {
            Err(e) => Err(e),
            Ok(None) => Ok(None),
            Ok(Some((offset, len))) => match read_exact_at(read, len as usize, offset) {
                Ok(d) => Ok(Some(d)),
                Err(e) => Err(StoreError::Read(e)),
            },
        }
    }
}

/// Whether a call failed, or gave no bytes.
pub open spec fn stopped<F: Fn(usize, u64) -> Result<Vec<u8>, ReadError>>(
    read: F,
    max: usize,
    at: u64,
    e: ReadError,
) -> bool {
    ||| call_ensures(read, (max, at), Err(e))
    ||| e == ReadError::UnexpectedEof && exists|d: Vec<u8>|
        d@.len() == 0 && #[trigger] call_ensures(read, (max, at), Ok(d))
}

/// What it means that reads tell the file: a call that gives bytes gives those
/// that lie at its offset.
pub proof fn reads_tell_the_file<F: Fn(usize, u64) -> Result<Vec<u8>, ReadError>>(
    read: F,
    file: Seq<u8>,
    max: usize,
    at: u64,
    d: Vec<u8>,
)
    requires
        forall|max: usize, at: u64, d: Vec<u8>| #[trigger]
            call_ensures(read, (max, at), Ok(d)) ==> at + d@.len() <= file.len() && forall|k: int|
                0 <= k < d@.len() ==> #[trigger] d@[k] == file[at + k],
        call_ensures(read, (max, at), Ok(d)),
    ensures
        reads_file(read, file),
        d@ == file.subrange(at as int, at + d@.len()),
{
    assert forall|max: usize, at: u64, d: Vec<u8>| #[trigger] call_ensures(read, (max, at), Ok(d)) implies at + d@.len()
        <= file.len() && d@ == file.subrange(at as int, at + d@.len()) by {
        assert(d@ =~= file.subrange(at as int, at + d@.len()));
    }
}

/// A read stops early only where a call failed, or gave no bytes.
pub proof fn reads_stop_for_a_reason<F: Fn(usize, u64) -> Result<Vec<u8>, ReadError>>(
    read: F,
    max: usize,
    at: u64,
    e: ReadError,
)
    requires
        stopped(read, max, at, e),
    ensures
        call_ensures(read, (max, at), Err(e)) || (e == ReadError::UnexpectedEof && exists|d: Vec<u8>|
            d@.len() == 0 && #[trigger] call_ensures(read, (max, at), Ok(d))),
{
}

/// The low 32 bits are the remainder: numbers below 2^32 keep their value.
pub proof fn low_bits_are_the_remainder(n: nat)
    ensures
        low32(n) as nat == n % 0x1_0000_0000,
        n < 0x1_0000_0000 ==> low32(n) == n,
{
}

} // verus!
