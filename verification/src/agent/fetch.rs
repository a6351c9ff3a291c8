//! Fetching chunks from another node.
use vstd::prelude::*;

use crate::common::bytes;
use crate::common::chunk_set;
use crate::common::digest;
use crate::origin::storage;

verus! {

broadcast use vstd::array::group_array_axioms;

/// What came of a request for chunks.
#[derive(Debug, PartialEq, Eq)]
pub struct FetchStats {
    /// How many chunks arrived intact.
    pub downloaded: usize,
    /// How many bytes they have.
    pub bytes: u64,
    /// The chunks that did not arrive or arrived damaged.
    pub failed: Vec<[u8; 32]>,
}

impl Default for FetchStats {
    fn default() -> (s: Self)
        ensures
            s.downloaded == 0,
            s.bytes == 0,
            s.failed@.len() == 0,
    {
        FetchStats { downloaded: 0, bytes: 0, failed: Vec::new() }
    }
}

/// The hashes one after the other.
pub open spec fn hashes_bytes(hashes: Seq<[u8; 32]>) -> Seq<u8>
    decreases hashes.len(),
{
    if hashes.len() == 0 {
        Seq::empty()
    } else {
        hashes_bytes(hashes.drop_last()) + hashes.last()@
    }
}

/// A request for chunks: game and number of hashes, most significant byte
/// first, then the hashes.
pub open spec fn request_spec(game_id: u64, hashes: Seq<[u8; 32]>) -> Seq<u8> {
    bytes::be_bytes(game_id as nat, 8) + bytes::be_bytes(storage::low32(hashes.len()) as nat, 4) + hashes_bytes(hashes)
}

/// The bytes of a request for chunks.
pub fn request_bytes(game_id: u64, hashes: &Vec<[u8; 32]>) -> (out: Vec<u8>)
    ensures
        out@ == request_spec(game_id, hashes@),
{
    let mut out: Vec<u8> = Vec::new();
    bytes::push_u64_be(&mut out, game_id);
    bytes::push_u32_be(&mut out, storage::length32(hashes.len()));
    let ghost head = bytes::be_bytes(game_id as nat, 8) + bytes::be_bytes(
        storage::low32(hashes@.len()) as nat,
        4,
    );
    assert(out@ =~= head);
    let mut i: usize = 0;
    assert(hashes@.take(0) =~= Seq::empty());
    assert(out@ =~= head + hashes_bytes(hashes@.take(0)));
    while i < hashes.len()
        invariant
            i <= hashes@.len(),
            out@ == head + hashes_bytes(hashes@.take(i as int)),
        decreases hashes.len() - i,
    {
        bytes::push_bytes(&mut out, hashes[i].as_slice());
        i = i + 1;
        proof {
            assert(hashes@.take(i as int).drop_last() =~= hashes@.take(i - 1));
            assert(out@ =~= head + hashes_bytes(hashes@.take(i as int)));
        }
    }
    assert(hashes@.take(i as int) =~= hashes@);
    out
}

/// Hands a chunk to the sink if its bytes have the expected hash; says whether
/// they have.
pub fn store_chunk(hash: &[u8; 32], data: Vec<u8>, sink: &mut Vec<([u8; 32], Vec<u8>)>) -> (stored: bool)
    ensures
        stored == (digest::blake3_digest(data@) == hash@),
        final(sink)@ == (if stored {
            old(sink)@.push((*hash, data))
        } else {
            old(sink)@
        }),
{
    let actual = digest::blake3_hash(data.as_slice());
    if !chunk_set::same_hash(&actual, hash) {
        assert(actual@ == hash@ ==> actual =~= *hash);
        return false;
    }
    sink.push((*hash, data));
    true
}

impl FetchStats {
    /// Notes the answer for one requested chunk: its bytes, or `None` where
    /// the source sent none. Intact chunks go to the sink.
    pub fn receive(&mut self, hash: &[u8; 32], answer: Option<Vec<u8>>, sink: &mut Vec<([u8; 32], Vec<u8>)>)
        requires
            old(self).downloaded < usize::MAX,
            answer matches Some(data) ==> old(self).bytes + data@.len() <= u64::MAX,
        ensures
            ({
                let intact = answer is Some && digest::blake3_digest(answer->0@) == hash@;
                &&& intact ==> final(self).downloaded == old(self).downloaded + 1 && final(self).bytes
                    == old(self).bytes + answer->0@.len() && final(self).failed@ == old(self).failed@ && final(sink)@
                    == old(sink)@.push((*hash, answer->0))
                &&& !intact ==> final(self).downloaded == old(self).downloaded && final(self).bytes == old(self).bytes
                    && final(self).failed@ == old(self).failed@.push(*hash) && final(sink)@ == old(sink)@
            }),
    {
        match answer {
            None => {
                self.failed.push(*hash);
            },
            Some(data) => {
                let len: u64 = data.len() as u64;
                if !store_chunk(hash, data, sink) {
                    self.failed.push(*hash);
                } else {
                    self.downloaded = self.downloaded + 1;
                    self.bytes = self.bytes + len;
                }
            },
        }
    }
}

/// The hashes of the chunks in a sink.
pub open spec fn sunk(sink: Seq<([u8; 32], Vec<u8>)>) -> Seq<[u8; 32]> {
    sink.map_values(|c: ([u8; 32], Vec<u8>)| c.0)
}

/// Every answer is accounted for, and nothing damaged is kept: after a chunk
/// was received it is in the sink or among the failed, and if all chunks in
/// the sink had their hashes before, all have them afterwards.
pub proof fn received_or_failed(
    hash: [u8; 32],
    answer: Option<Vec<u8>>,
    failed: Seq<[u8; 32]>,
    sink: Seq<([u8; 32], Vec<u8>)>,
)
    requires
        forall|i: int| 0 <= i < sink.len() ==> digest::blake3_digest((#[trigger] sink[i]).1@) == sink[i].0@,
    ensures
        ({
            let intact = answer is Some && digest::blake3_digest(answer->0@) == hash@;
            let sink2 = if intact {
                sink.push((hash, answer->0))
            } else {
                sink
            };
            let failed2 = if intact {
                failed
            } else {
                failed.push(hash)
            };
            &&& sunk(sink2).contains(hash) || failed2.contains(hash)
            &&& forall|i: int| 0 <= i < sink2.len() ==> digest::blake3_digest((#[trigger] sink2[i]).1@) == sink2[i].0@
        }),
{
    let intact = answer is Some && digest::blake3_digest(answer->0@) == hash@;
    if intact {
        let sink2 = sink.push((hash, answer->0));
        assert(sunk(sink2)[sink.len() as int] == hash);
    } else {
        assert(failed.push(hash)[failed.len() as int] == hash);
    }
}

/// How to reach a source.
#[derive(Debug, Clone, Copy, PartialEq, Eq, Structural)]
pub enum Route {
    Direct,
    Relay,
}

/// The ways to try, in order: directly where the address is known, then over
/// the relay unless the source only takes direct connections. None of them
/// means that the source has no usable address.
pub fn routes(has_addr: bool, has_relay: bool, direct_only: bool) -> (routes: Vec<Route>)
    ensures
        routes@ == (if has_addr {
            seq![Route::Direct]
        } else {
            Seq::empty()
        }) + (if has_relay && !direct_only {
            seq![Route::Relay]
        } else {
            Seq::empty()
        }),
{
    let mut out: Vec<Route> = Vec::new();
    if has_addr {
        out.push(Route::Direct);
    }
    if !direct_only && has_relay {
        out.push(Route::Relay);
    }
    assert(out@ =~= (if has_addr {
        seq![Route::Direct]
    } else {
        Seq::empty()
    }) + (if has_relay && !direct_only {
        seq![Route::Relay]
    } else {
        Seq::empty()
    }));
    out
}

/// A request can be read: the game and the number of hashes stand in its first
/// twelve bytes, and hash `i` in the 32 bytes from `12 + 32 * i`.
pub proof fn requests_read_back(game_id: u64, hashes: Seq<[u8; 32]>, i: int)
    requires
        0 <= i < hashes.len() < 0x1_0000_0000,
    ensures
        request_spec(game_id, hashes).len() == 12 + 32 * hashes.len(),
        bytes::be_value(request_spec(game_id, hashes).subrange(0, 8)) == game_id,
        bytes::be_value(request_spec(game_id, hashes).subrange(8, 12)) == hashes.len(),
        request_spec(game_id, hashes).subrange(12 + 32 * i, 12 + 32 * i + 32) == hashes[i]@,
{
    assert(bytes::width_bound(4) == 0x1_0000_0000 && bytes::width_bound(8) == 0x1_0000_0000_0000_0000) by {
        reveal_with_fuel(bytes::width_bound, 9);
    }
    bytes::lemma_be_roundtrip(game_id as nat, 8);
    bytes::lemma_be_roundtrip(hashes.len(), 4);
    lemma_hashes_bytes(hashes, i);
    let all = request_spec(game_id, hashes);
    assert(all.subrange(0, 8) =~= bytes::be_bytes(game_id as nat, 8));
    assert(all.subrange(8, 12) =~= bytes::be_bytes(hashes.len(), 4));
    assert(all.subrange(12 + 32 * i, 12 + 32 * i + 32) =~= hashes_bytes(hashes).subrange(32 * i, 32 * i + 32));
}

proof fn lemma_hashes_bytes(hashes: Seq<[u8; 32]>, i: int)
    requires
        0 <= i < hashes.len(),
    ensures
        hashes_bytes(hashes).len() == 32 * hashes.len(),
        hashes_bytes(hashes).subrange(32 * i, 32 * i + 32) == hashes[i]@,
    decreases hashes.len(),
{
    let init = hashes.drop_last();
    if init.len() == 0 {
        assert(hashes_bytes(init) =~= Seq::empty());
    } else {
        lemma_hashes_bytes(init, if i < init.len() {
            i
        } else {
            0
        });
    }
    assert(hashes_bytes(hashes).subrange(32 * i, 32 * i + 32) =~= hashes[i]@);
}

} // verus!
