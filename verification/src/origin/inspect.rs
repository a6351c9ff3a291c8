//! Checking a chunk store.
use vstd::prelude::*;
use vstd::utf8::*;

use crate::common::chunk_set;
use crate::common::chunk_set::ChunkSet;
use crate::common::digest;
use crate::common::hex;
use crate::common::text;

verus! {

broadcast use vstd::array::group_array_axioms;

/// Why a text is not a hash.
#[derive(Debug, PartialEq, Eq)]
pub enum HashTextError {
    /// It does not have 64 bytes.
    Length(String),
    /// It has other characters than hexadecimal digits.
    Digits(String),
}

impl HashTextError {
    /// What to tell a user.
    pub open spec fn text(self) -> Seq<char> {
        match self {
            HashTextError::Length(t) => "哈希长度非法: "@ + t@,
            HashTextError::Digits(t) => "哈希含非十六进制字符: "@ + t@,
        }
    }

    /// What to tell a user.
    pub fn message(&self) -> (out: String)
        ensures
            out@ == self.text(),
            out@ == (match *self {
                HashTextError::Length(t) => "哈希长度非法: "@ + t@,
                HashTextError::Digits(t) => "哈希含非十六进制字符: "@ + t@,
            }),
    {
        match self {
            HashTextError::Length(t) => text::join2("哈希长度非法: ", t.as_str()),
            HashTextError::Digits(t) => text::join2("哈希含非十六进制字符: ", t.as_str()),
        }
    }
}

/// The hash that a text spells.
pub fn parse_hash(t: &str) -> (hash: Result<[u8; 32], HashTextError>)
    ensures
        match hash {
            Ok(h) => hex::spells(encode_utf8(t@), h@),
            Err(HashTextError::Length(w)) => encode_utf8(t@).len() != 64 && w@ == t@,
            Err(HashTextError::Digits(w)) => encode_utf8(t@).len() == 64 && !hex::spells_hash(encode_utf8(t@)) && w@
                == t@,
        },
{
    if t.as_bytes().len() != 64 {
        return Err(HashTextError::Length(t.to_owned()));
    }
    match hex::parse_hex(t) {
        Some(h) => Ok(h),
        None => Err(HashTextError::Digits(t.to_owned())),
    }
}

/// How many chunks passed and failed a check.
#[derive(Debug, Clone, Copy, PartialEq, Eq)]
pub struct Tally {
    pub ok: u64,
    pub bad: u64,
}

/// Whether an index key ends in the hash of the bytes that were read for it.
pub open spec fn entry_is_sound(key: Seq<u8>, data: Option<Seq<u8>>) -> bool {
    key.len() >= 16 && data is Some && hex::spells(key.skip(16), digest::blake3_digest(data->0))
}

impl Tally {
    /// Counts one index entry: it is sound if its key ends in a hash and the
    /// bytes that the store gives for it have that hash. `None` stands for
    /// bytes that could not be read.
    pub fn count(&mut self, key: &str, data: Option<&Vec<u8>>)
        requires
            old(self).ok < u64::MAX,
            old(self).bad < u64::MAX,
        ensures
            ({
                let bytes = match data {
                    Some(d) => Some(d@),
                    None => None,
                };
                let sound = entry_is_sound(encode_utf8(key@), bytes);
                &&& final(self).ok == old(self).ok + (if sound {
                    1int
                } else {
                    0
                })
                &&& final(self).bad == old(self).bad + (if sound {
                    0int
                } else {
                    1
                })
            }),
    {
        if key_matches(key, data) {
            self.ok = self.ok + 1;
        } else {
            self.bad = self.bad + 1;
        }
    }
}

/// The hash that an index key ends in.
pub fn key_hash(key: &str) -> (hash: Option<[u8; 32]>)
    ensures
        ({
            let b = encode_utf8(key@);
            match hash {
                Some(h) => b.len() >= 16 && hex::spells(b.skip(16), h@),
                None => b.len() < 16 || !hex::spells_hash(b.skip(16)),
            }
        }),
{
    let b = key.as_bytes();
    if b.len() < 16 {
        return None;
    }
    assert(b@.subrange(16, b@.len() as int) =~= b@.skip(16));
    hex::parse_hex_bytes(vstd::slice::slice_subrange(b, 16, b.len()))
}

proof fn lemma_spells_is_hash(b: Seq<u8>, h: Seq<u8>)
    requires
        hex::spells(b, h),
    ensures
        hex::spells_hash(b),
{
    assert forall|i: int| 0 <= i < 32 implies (#[trigger] hex::hex_pair_value(b[2 * i], b[2 * i + 1])) is Some by {
        assert(hex::hex_pair_value(b[2 * i], b[2 * i + 1]) == Some(h[i]));
    }
}

fn key_matches(key: &str, data: Option<&Vec<u8>>) -> (sound: bool)
    ensures
        sound == entry_is_sound(
            encode_utf8(key@),
            match data {
                Some(d) => Some(d@),
                None => None,
            },
        ),
{
    let ghost rest = encode_utf8(key@).skip(16);
    match (key_hash(key), data) {
        (Some(h), Some(d)) => {
            let actual = digest::blake3_hash(d.as_slice());
            let same = chunk_set::same_hash(&actual, &h);
            proof {
                if hex::spells(rest, actual@) {
                    assert forall|i: int| 0 <= i < 32 implies actual@[i] == h@[i] by {
                        assert(hex::hex_pair_value(rest[2 * i], rest[2 * i + 1]) == Some(h@[i]));
                        assert(hex::hex_pair_value(rest[2 * i], rest[2 * i + 1]) == Some(actual@[i]));
                    }
                    assert(actual =~= h);
                }
            }
            same
        },
        (None, Some(d)) => {
            proof {
                if hex::spells(rest, digest::blake3_digest(d@)) {
                    lemma_spells_is_hash(rest, digest::blake3_digest(d@));
                }
            }
            false
        },
        _ => false,
    }
}

/// How many hashes of `a` are in `b`.
pub open spec fn shared_count(a: Seq<[u8; 32]>, b: Seq<[u8; 32]>) -> nat
    decreases a.len(),
{
    if a.len() == 0 {
        0
    } else {
        shared_count(a.drop_last(), b) + (if b.contains(a.last()) {
            1nat
        } else {
            0
        })
    }
}

/// How many chunks two versions share, and how many only the first has.
pub fn compare_sets(a: &ChunkSet, b: &ChunkSet) -> (counts: (usize, usize))
    ensures
        counts.0 == shared_count(a@, b@),
        counts.0 + counts.1 == a@.len(),
        counts.0 == a@.filter(|h: [u8; 32]| b@.contains(h)).len(),
{
    let hashes = a.hashes();
    let mut shared: usize = 0;
    let mut i: usize = 0;
    assert(hashes@.take(0) =~= Seq::empty());
    while i < hashes.len()
        invariant
            i <= hashes@.len(),
            hashes@ == a@,
            shared <= i,
            shared == shared_count(hashes@.take(i as int), b@),
        decreases hashes.len() - i,
    {
        assert(hashes@.take(i + 1).drop_last() =~= hashes@.take(i as int));
        if b.contains(&hashes[i]) {
            shared = shared + 1;
        }
        i = i + 1;
    }
    assert(hashes@.take(i as int) =~= hashes@);
    proof {
        shared_hashes_are_in_both(a@, b@);
    }
    (shared, hashes.len() - shared)
}

/// Shared are exactly the hashes that the other set has too.
pub proof fn shared_hashes_are_in_both(a: Seq<[u8; 32]>, b: Seq<[u8; 32]>)
    ensures
        shared_count(a, b) == a.filter(|h: [u8; 32]| b.contains(h)).len(),
    decreases a.len(),
{
    reveal(Seq::filter);
    if a.len() > 0 {
        shared_hashes_are_in_both(a.drop_last(), b);
    }
}

/// An entry whose key is that of a chunk is sound exactly where the bytes read
/// for it have the hash of that chunk.
pub proof fn sound_entries_hold_their_chunk(game_id: u64, hash: [u8; 32], data: Option<Seq<u8>>)
    ensures
        entry_is_sound(encode_utf8(hex::chunk_key_spec(game_id, hash@)), data) <==> (data matches Some(d)
            && digest::blake3_digest(d) == hash@),
{
    let prefix = hex::game_prefix(game_id);
    let digits = hex::hex_spec(hash@);
    let b = encode_utf8(hex::chunk_key_spec(game_id, hash@));
    assert(crate::common::bytes::be_bytes(game_id as nat, 8).len() == 8) by {
        crate::common::bytes::lemma_le_bytes_len(game_id as nat, 8);
    }
    text::lemma_encode_joined(prefix, digits);
    assert(is_ascii_chars(prefix));
    is_ascii_chars_encode_utf8(prefix);
    assert(encode_utf8(prefix).len() == 16);
    assert(b.skip(16) =~= encode_utf8(digits));
    hex::hex_parse_roundtrip(hash@, hash@);
    if let Some(d) = data {
        hex::hex_parse_roundtrip(hash@, digest::blake3_digest(d));
    }
}

} // verus!
