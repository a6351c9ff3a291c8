//! Trying out the storage and the transfer of chunks: a pack file in which
//! chunks are kept once and which is rewritten when too much of it is garbage.
use rand::{RngExt, SeedableRng};
use vstd::prelude::*;

use crate::common::chunk_set;
use crate::common::chunk_set::ChunkSet;
use crate::common::text;
use crate::origin::storage;
use crate::producer::chunker;
use crate::producer::chunker::{ChunkMeta, Chunked};
use crate::producer::config::ChunkParams;

verus! {

broadcast use vstd::array::group_array_axioms;

/// 64 KiB.
pub const MIN: usize = 65536;

/// 4 MiB.
pub const MAX: usize = 4194304;

/// A ChaCha generator of 20 rounds.
#[verifier::external_type_specification]
#[verifier::external_body]
pub struct ExChaCha20Rng(rand_chacha::ChaCha20Rng);

/// The seed of a generator, and how many bytes were drawn from it.
pub uninterp spec fn drawn(rng: rand_chacha::ChaCha20Rng) -> (u64, nat);

/// The byte that a generator with the seed gives after `n` others.
pub uninterp spec fn chacha_byte(seed: u64, n: nat) -> u8;

/// `ChaCha20Rng::seed_from_u64`: a generator with that seed, from which nothing
/// was drawn.
#[verifier::external_body]
fn chacha_new(seed: u64) -> (rng: rand_chacha::ChaCha20Rng)
    ensures
        drawn(rng) == (seed, 0nat),
{
    rand_chacha::ChaCha20Rng::seed_from_u64(seed)
}

/// `RngExt::random` for a byte: the next byte of the generator. The generator is
/// deterministic and portable, so that the byte is told by the seed and by how
/// many were drawn before; which it is, is not stated.
#[verifier::external_body]
fn chacha_next(rng: &mut rand_chacha::ChaCha20Rng) -> (byte: u8)
    ensures
        byte == chacha_byte(drawn(*old(rng)).0, drawn(*old(rng)).1),
        drawn(*final(rng)) == (drawn(*old(rng)).0, drawn(*old(rng)).1 + 1),
{
    rng.random()
}

/// The first `len` bytes of the generator with the seed.
pub fn rand_bytes(seed: u64, len: usize) -> (data: Vec<u8>)
    ensures
        data@ == Seq::new(len as nat, |i: int| chacha_byte(seed, i as nat)),
{
    let mut rng = chacha_new(seed);
    let mut data: Vec<u8> = Vec::new();
    while data.len() < len
        invariant
            data@.len() <= len,
            drawn(rng) == (seed, data@.len()),
            forall|i: int| 0 <= i < data@.len() ==> #[trigger] data@[i] == chacha_byte(seed, i as nat),
        decreases len - data.len(),
    {
        let byte: u8 = chacha_next(&mut rng);
        data.push(byte);
    }
    assert(data@ =~= Seq::new(len as nat, |i: int| chacha_byte(seed, i as nat)));
    data
}

/// Cuts data into chunks of about `avg` bytes.
pub fn chunk(data: &[u8], avg: usize) -> (metas: Vec<ChunkMeta>)
    requires
        MIN <= avg <= MAX,
        avg % 2 == 0,
    ensures
        ({
            let pieces = chunker::cdc_chunks(data@, MIN, avg, MAX);
            &&& metas@.len() == pieces.len()
            &&& forall|i: int| 0 <= i < pieces.len() ==> chunker::describes(#[trigger] metas@[i], pieces[i])
        }),
{
    let mut seen = ChunkSet::new();
    let out: Chunked = chunker::chunk_file(
        data,
        &ChunkParams { min_size: MIN, avg_size: avg, max_size: MAX },
        false,
        &mut seen,
    );
    out.metas
}

/// The number of bytes in the chunks that are not among the old ones.
pub open spec fn delta_spec(new: Seq<ChunkMeta>, old: Seq<[u8; 32]>) -> nat
    decreases new.len(),
{
    if new.len() == 0 {
        0
    } else {
        delta_spec(new.drop_last(), old) + (if old.contains(new.last().hash) {
            0nat
        } else {
            new.last().len as nat
        })
    }
}

/// The bytes count chunk by chunk: the length of one that is not among the old
/// ones, nothing for one that is.
pub proof fn new_chunks_count_their_bytes(one: Seq<ChunkMeta>, two: Seq<ChunkMeta>, c: ChunkMeta, old: Seq<[u8; 32]>)
    ensures
        delta_spec(Seq::empty(), old) == 0,
        delta_spec(seq![c], old) == if old.contains(c.hash) { 0nat } else { c.len as nat },
        delta_spec(one + two, old) == delta_spec(one, old) + delta_spec(two, old),
    decreases two.len(),
{
    reveal_with_fuel(delta_spec, 2);
    assert(seq![c].drop_last() =~= Seq::empty());
    if two.len() == 0 {
        assert(one + two =~= one);
    } else {
        new_chunks_count_their_bytes(one, two.drop_last(), c, old);
        assert((one + two).drop_last() =~= one + two.drop_last());
        assert((one + two).last() == two.last());
    }
}

/// The number of bytes in the new chunks that are not among the old ones.
pub fn delta_bytes(new: &Vec<ChunkMeta>, old: &ChunkSet) -> (n: u128)
    ensures
        n == delta_spec(new@, old@),
{
    let mut n: u128 = 0;
    let mut i: usize = 0;
    assert(new@.take(0) =~= Seq::empty());
    while i < new.len()
        invariant
            i <= new@.len(),
            n <= i * 0x1_0000_0000,
            n == delta_spec(new@.take(i as int), old@),
        decreases new.len() - i,
    {
        assert(new@.take(i + 1).drop_last() =~= new@.take(i as int));
        assert(i < 0x1_0000_0000_0000_0000);
        if !old.contains(&new[i].hash) {
            n = n + new[i].len as u128;
        }
        i = i + 1;
    }
    assert(new@.take(i as int) =~= new@);
    n
}

/// Where a chunk lies in a pack file.
#[derive(Debug, Clone, Copy, PartialEq, Eq)]
pub struct Place {
    pub hash: [u8; 32],
    pub offset: u64,
    pub len: u32,
}

/// Where a chunk lies.
pub open spec fn place_of(index: Seq<Place>, hash: [u8; 32]) -> Option<(u64, u32)>
    decreases index.len(),
{
    if index.len() == 0 {
        None
    } else {
        match place_of(index.drop_last(), hash) {
            Some(p) => Some(p),
            None => if index.last().hash == hash {
                Some((index.last().offset, index.last().len))
            } else {
                None
            },
        }
    }
}

/// The pack file of a game: its length, and where each chunk lies in it.
#[derive(Debug)]
pub struct Pack {
    pub index: Vec<Place>,
    pub size: u64,
}

/// The index and the length once the chunks are appended that it lacks.
pub open spec fn appended(index: Seq<Place>, size: int, chunks: Seq<([u8; 32], Vec<u8>)>) -> (Seq<Place>, int)
    decreases chunks.len(),
{
    if chunks.len() == 0 {
        (index, size)
    } else {
        let before = appended(index, size, chunks.drop_last());
        let (hash, data) = chunks.last();
        if place_of(before.0, hash) is Some {
            before
        } else {
            (
                before.0.push(
                    Place { hash, offset: before.1 as u64, len: storage::low32(data@.len()) },
                ),
                before.1 + data@.len(),
            )
        }
    }
}

/// What has to be written behind the end of the pack file.
pub open spec fn to_write(index: Seq<Place>, size: int, chunks: Seq<([u8; 32], Vec<u8>)>) -> Seq<Seq<u8>>
    decreases chunks.len(),
{
    if chunks.len() == 0 {
        Seq::empty()
    } else {
        let before = to_write(index, size, chunks.drop_last());
        if place_of(appended(index, size, chunks.drop_last()).0, chunks.last().0) is Some {
            before
        } else {
            before.push(chunks.last().1@)
        }
    }
}

/// Appending only lengthens a pack file.
proof fn lemma_appended_size(index: Seq<Place>, size: int, chunks: Seq<([u8; 32], Vec<u8>)>, n: int)
    requires
        0 <= n <= chunks.len(),
    ensures
        size <= appended(index, size, chunks.take(n)).1 <= appended(index, size, chunks).1,
    decreases chunks.len(),
{
    if n < chunks.len() {
        assert(chunks.drop_last().take(n) =~= chunks.take(n));
        lemma_appended_size(index, size, chunks.drop_last(), n);
    } else {
        assert(chunks.take(n) =~= chunks);
        if chunks.len() > 0 {
            lemma_appended_size(index, size, chunks.drop_last(), n - 1);
        }
    }
}

/// The sum of the lengths of live chunks.
pub open spec fn live_bytes(index: Seq<Place>, live: Seq<[u8; 32]>) -> nat
    decreases live.len(),
{
    if live.len() == 0 {
        0
    } else {
        live_bytes(index, live.drop_last()) + (match place_of(index, live.last()) {
            Some(p) => p.1 as nat,
            None => 0,
        })
    }
}

/// The index of a pack file that holds the live chunks one after the other.
pub open spec fn packed(index: Seq<Place>, live: Seq<[u8; 32]>) -> Seq<Place>
    decreases live.len(),
{
    if live.len() == 0 {
        Seq::empty()
    } else {
        let len = match place_of(index, live.last()) {
            Some(p) => p.1,
            None => 0,
        };
        packed(index, live.drop_last()).push(
            Place { hash: live.last(), offset: live_bytes(index, live.drop_last()) as u64, len },
        )
    }
}

/// What to do with a pack file.
#[derive(Debug)]
pub enum Compaction {
    /// Too little of it is garbage.
    NotNeeded,
    /// The disk has no room for a copy.
    Postponed,
    /// Copy these ranges, one after the other, then take this pack.
    Run { ranges: Vec<(u64, u32)>, pack: Pack },
}

impl Pack {
    /// An empty pack file.
    pub fn new() -> (p: Self)
        ensures
            p.index@.len() == 0,
            p.size == 0,
    {
        Pack { index: Vec::new(), size: 0 }
    }

    /// Where a chunk lies.
    pub fn locate(&self, hash: &[u8; 32]) -> (place: Option<(u64, u32)>)
        ensures
            place == place_of(self.index@, *hash),
            place is None <==> forall|i: int| 0 <= i < self.index@.len() ==> (#[trigger] self.index@[i]).hash != *hash,
            place matches Some(p) ==> exists|i: int|
                0 <= i < self.index@.len() && (#[trigger] self.index@[i]).hash == *hash && p == (
                    self.index@[i].offset,
                    self.index@[i].len,
                ) && forall|k: int| 0 <= k < i ==> (#[trigger] self.index@[k]).hash != *hash,
    {
        proof {
            lemma_place_first(self.index@, *hash);
        }
        self.look_up(hash)
    }

    /// The first place that the index gives for a chunk.
    fn look_up(&self, hash: &[u8; 32]) -> (place: Option<(u64, u32)>)
        ensures
            place == place_of(self.index@, *hash),
    {
        let ghost all = self.index@;
        let mut i: usize = 0;
        assert(all.take(0) =~= Seq::empty());
        while i < self.index.len()
            invariant
                i <= self.index@.len(),
                all == self.index@,
                place_of(all.take(i as int), *hash) is None,
            decreases self.index.len() - i,
        {
            assert(all.take(i + 1).drop_last() =~= all.take(i as int));
            if chunk_set::same_hash(&self.index[i].hash, hash) {
                proof {
                    lemma_place_of(all, i + 1, *hash);
                }
                return Some((self.index[i].offset, self.index[i].len));
            }
            i = i + 1;
        }
        assert(all.take(i as int) =~= all);
        None
    }

    /// Appends the chunks that the pack file lacks; the result is what has to be
    /// written behind its end, in order.
    pub fn append(&mut self, chunks: &Vec<([u8; 32], Vec<u8>)>) -> (data: Vec<Vec<u8>>)
        requires
            appended(old(self).index@, old(self).size as int, chunks@).1 <= u64::MAX,
        ensures
            (final(self).index@, final(self).size as int) == appended(
                old(self).index@,
                old(self).size as int,
                chunks@,
            ),
            text::byte_views(data@) == to_write(old(self).index@, old(self).size as int, chunks@),
    {
        let ghost index = self.index@;
        let ghost size = self.size as int;
        let mut data: Vec<Vec<u8>> = Vec::new();
        let mut i: usize = 0;
        assert(chunks@.take(0) =~= Seq::empty());
        assert(text::byte_views(data@) =~= Seq::empty());
        while i < chunks.len()
            invariant
                i <= chunks@.len(),
                appended(index, size, chunks@).1 <= u64::MAX,
                (self.index@, self.size as int) == appended(index, size, chunks@.take(i as int)),
                text::byte_views(data@) == to_write(index, size, chunks@.take(i as int)),
            decreases chunks.len() - i,
        {
            let c = &chunks[i];
            let ghost before = text::byte_views(data@);
            proof {
                assert(chunks@.take(i + 1).drop_last() =~= chunks@.take(i as int));
                lemma_appended_size(index, size, chunks@, i + 1);
            }
            if self.locate(&c.0).is_none() {
                self.index.push(Place { hash: c.0, offset: self.size, len: storage::length32(c.1.len()) });
                self.size = self.size + c.1.len() as u64;
                data.push(vstd::slice::slice_to_vec(c.1.as_slice()));
                assert(text::byte_views(data@) =~= before.push(c.1@));
            }
            i = i + 1;
        }
        assert(chunks@.take(i as int) =~= chunks@);
        data
    }

    /// The number of bytes in live chunks, which must be a 64-bit number.
    pub fn live_size(&self, live: &Vec<[u8; 32]>) -> (n: u64)
        requires
            live_bytes(self.index@, live@) <= u64::MAX,
        ensures
            n == live_bytes(self.index@, live@),
    {
        let mut n: u64 = 0;
        let mut i: usize = 0;
        assert(live@.take(0) =~= Seq::empty());
        while i < live.len()
            invariant
                i <= live@.len(),
                live_bytes(self.index@, live@) <= u64::MAX,
                n == live_bytes(self.index@, live@.take(i as int)),
            decreases live.len() - i,
        {
            proof {
                assert(live@.take(i + 1).drop_last() =~= live@.take(i as int));
                lemma_live_bytes(self.index@, live@, i + 1);
            }
            match self.locate(&live[i]) {
                Some(p) => {
                    n = n + p.1 as u64;
                },
                None => {},
            }
            i = i + 1;
        }
        assert(live@.take(i as int) =~= live@);
        n
    }

    /// Decides whether to rewrite the pack file with the live chunks alone:
    /// only if enough of it is garbage and there is room for the copy.
    /// `below_threshold` says that too little is garbage.
    pub fn compact_if_needed(&self, live: &Vec<[u8; 32]>, below_threshold: bool, free_space: u64) -> (c: Compaction)
        requires
            live_bytes(self.index@, live@) <= u64::MAX,
            forall|i: int| 0 <= i < live@.len() ==> place_of(self.index@, #[trigger] live@[i]) is Some,
        ensures
            match c {
                Compaction::NotNeeded => below_threshold,
                Compaction::Postponed => !below_threshold && free_space < live_bytes(self.index@, live@),
                Compaction::Run { ranges, pack } => {
                    &&& !below_threshold && free_space >= live_bytes(self.index@, live@)
                    &&& ranges@.len() == live@.len()
                    &&& forall|i: int| 0 <= i < ranges@.len() ==> Some(#[trigger] ranges@[i]) == place_of(
                        self.index@,
                        live@[i],
                    )
                    &&& pack.index@ == packed(self.index@, live@)
                    &&& pack.size == live_bytes(self.index@, live@)
                },
            },
    {
        let total: u64 = self.live_size(live);
        if below_threshold {
            return Compaction::NotNeeded;
        }
        if free_space < total {
            return Compaction::Postponed;
        }
        let mut ranges: Vec<(u64, u32)> = Vec::new();
        let mut pack = Pack::new();
        let mut i: usize = 0;
        assert(live@.take(0) =~= Seq::empty());
        assert(pack.index@ =~= Seq::empty());
        while i < live.len()
            invariant
                i <= live@.len(),
                total == live_bytes(self.index@, live@),
                ranges@.len() == i,
                forall|k: int| 0 <= k < live@.len() ==> place_of(self.index@, #[trigger] live@[k]) is Some,
                forall|k: int| 0 <= k < i ==> Some(#[trigger] ranges@[k]) == place_of(self.index@, live@[k]),
                pack.index@ == packed(self.index@, live@.take(i as int)),
                pack.size == live_bytes(self.index@, live@.take(i as int)),
            decreases live.len() - i,
        {
            proof {
                assert(live@.take(i + 1).drop_last() =~= live@.take(i as int));
                assert(live@.take(i + 1).last() == live@[i as int]);
                lemma_live_bytes(self.index@, live@, i + 1);
                assert(place_of(self.index@, live@[i as int]) is Some);
            }
            let p = self.locate(&live[i]).unwrap();
            ranges.push(p);
            pack.index.push(Place { hash: live[i], offset: pack.size, len: p.1 });
            pack.size = pack.size + p.1 as u64;
            i = i + 1;
        }
        assert(live@.take(i as int) =~= live@);
        Compaction::Run { ranges, pack }
    }
}

/// A place found among the first is the one found among all.
proof fn lemma_place_of(index: Seq<Place>, n: int, hash: [u8; 32])
    requires
        0 <= n <= index.len(),
        place_of(index.take(n), hash) is Some,
    ensures
        place_of(index, hash) == place_of(index.take(n), hash),
    decreases index.len(),
{
    if n < index.len() {
        assert(index.drop_last().take(n) =~= index.take(n));
        lemma_place_of(index.drop_last(), n, hash);
    } else {
        assert(index.take(n) =~= index);
    }
}

/// What is found is the first of the chunk.
proof fn lemma_place_first(index: Seq<Place>, hash: [u8; 32])
    ensures
        match place_of(index, hash) {
            Some(p) => exists|i: int|
                0 <= i < index.len() && (#[trigger] index[i]).hash == hash && p == (index[i].offset, index[i].len)
                    && forall|k: int| 0 <= k < i ==> (#[trigger] index[k]).hash != hash,
            None => forall|i: int| 0 <= i < index.len() ==> (#[trigger] index[i]).hash != hash,
        },
    decreases index.len(),
{
    if index.len() > 0 {
        let init = index.drop_last();
        lemma_place_first(init, hash);
        match place_of(init, hash) {
            Some(p) => {
                let i = choose|i: int|
                    0 <= i < init.len() && (#[trigger] init[i]).hash == hash && p == (init[i].offset, init[i].len)
                        && forall|k: int| 0 <= k < i ==> (#[trigger] init[k]).hash != hash;
                assert(index[i].hash == hash);
                assert forall|k: int| 0 <= k < i implies (#[trigger] index[k]).hash != hash by {
                    assert(init[k].hash != hash);
                }
            },
            None => {
                assert forall|k: int| 0 <= k < init.len() implies (#[trigger] index[k]).hash != hash by {
                    assert(init[k].hash != hash);
                }
                assert(index[init.len() as int] == index.last());
            },
        }
    }
}

/// Every chunk that is appended can be found, no place that was there changes,
/// and only chunks that were not there get a place.
pub proof fn appended_chunks_are_found(
    index: Seq<Place>,
    size: int,
    chunks: Seq<([u8; 32], Vec<u8>)>,
    hash: [u8; 32],
    i: int,
)
    ensures
        0 <= i < chunks.len() ==> place_of(appended(index, size, chunks).0, chunks[i].0) is Some,
        place_of(index, hash) is Some ==> place_of(appended(index, size, chunks).0, hash) == place_of(index, hash),
        place_of(appended(index, size, chunks).0, hash) is Some && place_of(index, hash) is None ==> chunks.map_values(
            |c: ([u8; 32], Vec<u8>)| c.0,
        ).contains(hash),
        appended(index, size, chunks).0.take(index.len() as int) == index,
    decreases chunks.len(),
{
    let now = appended(index, size, chunks);
    if chunks.len() == 0 {
        assert(now.0.take(index.len() as int) =~= index);
    } else {
        let init = chunks.drop_last();
        let before = appended(index, size, init);
        let names = chunks.map_values(|c: ([u8; 32], Vec<u8>)| c.0);
        let names0 = init.map_values(|c: ([u8; 32], Vec<u8>)| c.0);
        appended_chunks_are_found(index, size, init, hash, i);
        lemma_appended_keeps(index, size, init);
        if place_of(before.0, chunks.last().0) is None {
            assert(now.0.drop_last() =~= before.0);
        }
        if 0 <= i < init.len() {
            assert(init[i] == chunks[i]);
        }
        if place_of(now.0, hash) is Some && place_of(index, hash) is None {
            if place_of(before.0, hash) is Some {
                let k = choose|k: int| 0 <= k < names0.len() && names0[k] == hash;
                assert(names[k] == hash);
            } else {
                assert(names[chunks.len() - 1] == hash);
            }
        }
        assert(now.0.take(index.len() as int) =~= before.0.take(index.len() as int));
    }
}

proof fn lemma_appended_keeps(index: Seq<Place>, size: int, chunks: Seq<([u8; 32], Vec<u8>)>)
    ensures
        appended(index, size, chunks).0.len() >= index.len(),
    decreases chunks.len(),
{
    if chunks.len() > 0 {
        lemma_appended_keeps(index, size, chunks.drop_last());
    }
}

/// What is written lies where the index says: a chunk that the pack file lacked
/// is appended behind its end, with its length, and the end moves on by it; of
/// one that it had, nothing is written.
pub proof fn appended_chunks_lie_at_the_end(
    index: Seq<Place>,
    size: int,
    chunks: Seq<([u8; 32], Vec<u8>)>,
    c: ([u8; 32], Vec<u8>),
)
    ensures
        appended(index, size, Seq::empty()) == (index, size),
        to_write(index, size, Seq::empty()) == Seq::<Seq<u8>>::empty(),
        ({
            let before = appended(index, size, chunks);
            let after = appended(index, size, chunks.push(c));
            if exists|i: int| 0 <= i < before.0.len() && (#[trigger] before.0[i]).hash == c.0 {
                after == before && to_write(index, size, chunks.push(c)) == to_write(index, size, chunks)
            } else {
                &&& after.0 == before.0.push(
                    Place { hash: c.0, offset: before.1 as u64, len: (c.1@.len() % 0x1_0000_0000) as u32 },
                )
                &&& after.1 == before.1 + c.1@.len()
                &&& to_write(index, size, chunks.push(c)) == to_write(index, size, chunks).push(c.1@)
            }
        }),
{
    assert(chunks.push(c).drop_last() =~= chunks);
    lemma_place_first(appended(index, size, chunks).0, c.0);
}

/// The file grows by what is written.
pub proof fn file_grows_by_what_is_written(index: Seq<Place>, size: int, chunks: Seq<([u8; 32], Vec<u8>)>)
    ensures
        appended(index, size, chunks).1 == size + to_write(index, size, chunks).flatten().len(),
    decreases chunks.len(),
{
    let parts = to_write(index, size, chunks);
    if chunks.len() == 0 {
        assert(parts.flatten() =~= Seq::empty());
    } else {
        file_grows_by_what_is_written(index, size, chunks.drop_last());
        if place_of(appended(index, size, chunks.drop_last()).0, chunks.last().0) is None {
            let before = to_write(index, size, chunks.drop_last());
            assert(parts.drop_last() =~= before);
            parts.lemma_flatten_and_flatten_alt_are_equivalent();
            before.lemma_flatten_and_flatten_alt_are_equivalent();
            assert(parts.flatten_alt() == before.flatten_alt() + parts.last());
        }
    }
}

/// The bytes of live chunks count chunk by chunk, each with its length in the
/// index.
pub proof fn live_chunks_count_their_bytes(
    index: Seq<Place>,
    one: Seq<[u8; 32]>,
    two: Seq<[u8; 32]>,
    hash: [u8; 32],
    i: int,
)
    ensures
        live_bytes(index, Seq::empty()) == 0,
        live_bytes(index, one + two) == live_bytes(index, one) + live_bytes(index, two),
        0 <= i < index.len() && index[i].hash == hash && (forall|k: int| 0 <= k < i ==> (#[trigger] index[k]).hash != hash)
            ==> live_bytes(index, seq![hash]) == index[i].len,
        (forall|k: int| 0 <= k < index.len() ==> (#[trigger] index[k]).hash != hash) ==> live_bytes(index, seq![hash])
            == 0,
    decreases two.len(),
{
    reveal_with_fuel(live_bytes, 2);
    assert(seq![hash].drop_last() =~= Seq::empty());
    assert(seq![hash].last() == hash);
    lemma_place_first(index, hash);
    if 0 <= i < index.len() && index[i].hash == hash && (forall|k: int|
        0 <= k < i ==> (#[trigger] index[k]).hash != hash) {
        let p = place_of(index, hash)->0;
        let j = choose|j: int|
            0 <= j < index.len() && (#[trigger] index[j]).hash == hash && p == (index[j].offset, index[j].len) && forall|
                k: int,
            |
                0 <= k < j ==> (#[trigger] index[k]).hash != hash;
        if j < i {
            assert(index[j].hash != hash);
        }
        if i < j {
            assert(index[i].hash != hash);
        }
    }
    if two.len() == 0 {
        assert(one + two =~= one);
    } else {
        live_chunks_count_their_bytes(index, one, two.drop_last(), hash, i);
        assert((one + two).drop_last() =~= one + two.drop_last());
        assert((one + two).last() == two.last());
    }
}

/// In a pack file that is rewritten the live chunks lie one after the other, in
/// their order, from the start.
pub proof fn rewritten_chunks_follow_each_other(index: Seq<Place>, live: Seq<[u8; 32]>, i: int)
    requires
        0 <= i < live.len(),
        live_bytes(index, live) <= u64::MAX,
    ensures
        packed(index, live).len() == live.len(),
        packed(index, live)[i].hash == live[i],
        packed(index, live)[0].offset == 0,
        i + 1 < live.len() ==> packed(index, live)[i + 1].offset == packed(index, live)[i].offset + packed(
            index,
            live,
        )[i].len,
        packed(index, live).last().offset + packed(index, live).last().len == live_bytes(index, live),
    decreases live.len(),
{
    lemma_packed_place(index, live, i);
    lemma_packed_place(index, live, 0);
    lemma_packed_place(index, live, live.len() - 1);
    assert(live.take(0) =~= Seq::empty());
    assert(live.take(live.len() - 1) =~= live.drop_last());
    lemma_live_bytes(index, live, i);
    lemma_live_bytes(index, live, live.len() - 1);
    if i + 1 < live.len() {
        lemma_packed_place(index, live, i + 1);
        lemma_live_bytes(index, live, i + 1);
        assert(live.take(i + 1).drop_last() =~= live.take(i));
    }
}

proof fn lemma_packed_place(index: Seq<Place>, live: Seq<[u8; 32]>, i: int)
    requires
        0 <= i < live.len(),
    ensures
        packed(index, live).len() == live.len(),
        packed(index, live)[i].hash == live[i],
        packed(index, live)[i].offset == live_bytes(index, live.take(i)) as u64,
        packed(index, live)[i].len == (match place_of(index, live[i]) {
            Some(p) => p.1,
            None => 0,
        }),
    decreases live.len(),
{
    let init = live.drop_last();
    if init.len() > 0 {
        lemma_packed_place(index, init, if i < init.len() { i } else { 0 });
    } else {
        assert(packed(index, init) =~= Seq::empty());
    }
    if i < init.len() {
        assert(init.take(i) =~= live.take(i));
    } else {
        assert(init =~= live.take(i));
    }
}

/// Fewer live chunks have no more bytes.
proof fn lemma_live_bytes(index: Seq<Place>, live: Seq<[u8; 32]>, n: int)
    requires
        0 <= n <= live.len(),
    ensures
        live_bytes(index, live.take(n)) <= live_bytes(index, live),
    decreases live.len(),
{
    if n < live.len() {
        assert(live.drop_last().take(n) =~= live.take(n));
        lemma_live_bytes(index, live.drop_last(), n);
    } else {
        assert(live.take(n) =~= live);
    }
}

/// A pack file that was rewritten has exactly the live chunks, each with its
/// length.
pub proof fn rewritten_pack_has_live_chunks(index: Seq<Place>, live: Seq<[u8; 32]>, hash: [u8; 32])
    requires
        forall|i: int| 0 <= i < live.len() ==> place_of(index, #[trigger] live[i]) is Some,
    ensures
        place_of(packed(index, live), hash) is Some <==> live.contains(hash),
        live.contains(hash) ==> (place_of(packed(index, live), hash)->0).1 == (place_of(index, hash)->0).1,
    decreases live.len(),
{
    if live.len() > 0 {
        let init = live.drop_last();
        assert forall|i: int| 0 <= i < init.len() implies place_of(index, #[trigger] init[i]) is Some by {
            assert(init[i] == live[i]);
        }
        rewritten_pack_has_live_chunks(index, init, hash);
        assert(packed(index, live).drop_last() =~= packed(index, init));
        assert(live =~= init.push(live.last()));
        crate::common::order::lemma_push_contains(init, live.last(), hash);
        assert(place_of(index, live[live.len() - 1]) is Some);
    }
}

/// Ports that a gateway lets through.
pub fn check_port(port: u16) -> (r: Result<(), String>)
    ensures
        match r {
            Ok(_) => port == 0 || port >= 10001,
            Err(e) => 0 < port < 10001 && e@ == "打洞端口必须在 10001-65535 之间（NAT 网关限制），当前 "@ + text::decimal(
                port as nat,
            ),
        },
{
    if port != 0 && port < 10001 {
        return Err(
            text::join2(
                "打洞端口必须在 10001-65535 之间（NAT 网关限制），当前 ",
                text::decimal_text(port as u64).as_str(),
            ),
        );
    }
    Ok(())
}

/// What can be done over a connection.
#[derive(Debug, Clone, Copy, PartialEq, Eq, Structural)]
pub enum Verdict {
    /// Transfer chunks.
    Transfer,
    /// Only a relay is in reach: no chunks.
    RelayOnly,
    /// Nothing is in reach.
    NoPath,
}

/// What can be done over a connection with these paths. A relay only helps to
/// open a direct path; no chunks go over it.
pub fn path_verdict(has_direct: bool, has_relay: bool) -> (v: Verdict)
    ensures
        v == (if has_direct {
            Verdict::Transfer
        } else if has_relay {
            Verdict::RelayOnly
        } else {
            Verdict::NoPath
        }),
{
    if has_direct {
        Verdict::Transfer
    } else if has_relay {
        Verdict::RelayOnly
    } else {
        Verdict::NoPath
    }
}

} // verus!
