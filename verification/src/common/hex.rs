//! Hexadecimal spellings of hashes and the keys built from them.
use vstd::prelude::*;
use vstd::utf8::*;

use crate::common::bytes;

verus! {

broadcast use vstd::array::group_array_axioms;

/// The lower-case hexadecimal digit of `n`.
pub open spec fn hex_char(n: int) -> char {
    (if n < 10 { 48 + n } else { 87 + n }) as u8 as char
}

/// Two lower-case hexadecimal digits per byte.
pub open spec fn hex_spec(bytes: Seq<u8>) -> Seq<char> {
    Seq::new(
        2 * bytes.len(),
        |i: int| hex_char(if i % 2 == 0 { bytes[i / 2] as int / 16 } else { bytes[i / 2] as int % 16 }),
    )
}

fn hex_digit(n: u8) -> (c: char)
    requires
        n < 16,
    ensures
        c == hex_char(n as int),
{
    if n < 10 {
        (48 + n) as char
    } else {
        (87 + n) as char
    }
}

/// Appends two lower-case hexadecimal digits per byte.
pub fn push_hex(out: &mut String, bytes: &[u8])
    ensures
        final(out)@ == old(out)@ + hex_spec(bytes@),
{
    let mut i: usize = 0;
    assert(out@ =~= old(out)@ + hex_spec(bytes@).take(0));
    while i < bytes.len()
        invariant
            i <= bytes@.len(),
            out@ == old(out)@ + hex_spec(bytes@).take(2 * i),
        decreases bytes.len() - i,
    {
        let b: u8 = bytes[i];
        out.push(hex_digit(b / 16));
        out.push(hex_digit(b % 16));
        proof {
            let all = hex_spec(bytes@);
            assert((2 * i) / 2 == i && (2 * i) % 2 == 0);
            assert((2 * i + 1) / 2 == i && (2 * i + 1) % 2 == 1);
            assert(all[2 * i] == hex_char(b as int / 16));
            assert(all[2 * i + 1] == hex_char(b as int % 16));
            assert(all.take(2 * (i + 1)) =~= all.take(2 * i).push(all[2 * i]).push(all[2 * i + 1]));
            assert(out@ =~= old(out)@ + all.take(2 * (i + 1)));
        }
        i = i + 1;
    }
    assert(hex_spec(bytes@).take(2 * i) =~= hex_spec(bytes@));
}

/// Two lower-case hexadecimal digits per byte.
pub fn hex(bytes: &[u8]) -> (text: String)
    ensures
        text@ == hex_spec(bytes@),
{
    let mut out = String::new();
    push_hex(&mut out, bytes);
    assert(Seq::<char>::empty() + hex_spec(bytes@) =~= hex_spec(bytes@));
    out
}

/// The value of a hexadecimal digit of either case.
pub open spec fn hex_digit_value(b: u8) -> Option<u8> {
    if 48 <= b <= 57 {
        Some((b - 48) as u8)
    } else if 97 <= b <= 102 {
        Some((b - 87) as u8)
    } else if 65 <= b <= 70 {
        Some((b - 55) as u8)
    } else {
        None
    }
}

/// The value of two hexadecimal digits.
pub open spec fn hex_pair_value(hi: u8, lo: u8) -> Option<u8> {
    match (hex_digit_value(hi), hex_digit_value(lo)) {
        (Some(h), Some(l)) => Some((16 * h + l) as u8),
        _ => None,
    }
}

fn digit_value(b: u8) -> (v: Option<u8>)
    ensures
        v == hex_digit_value(b),
        v matches Some(d) ==> d < 16,
{
    if 48 <= b && b <= 57 {
        Some(b - 48)
    } else if 97 <= b && b <= 102 {
        Some(b - 87)
    } else if 65 <= b && b <= 70 {
        Some(b - 55)
    } else {
        None
    }
}

fn pair_value(hi: u8, lo: u8) -> (v: Option<u8>)
    ensures
        v == hex_pair_value(hi, lo),
{
    match (digit_value(hi), digit_value(lo)) {
        (Some(h), Some(l)) => Some(16 * h + l),
        _ => None,
    }
}

/// Whether bytes spell 32 bytes in hexadecimal.
pub open spec fn spells_hash(b: Seq<u8>) -> bool {
    b.len() == 64 && forall|i: int| 0 <= i < 32 ==> (#[trigger] hex_pair_value(b[2 * i], b[2 * i + 1])) is Some
}

/// Whether bytes spell exactly `hash`.
pub open spec fn spells(b: Seq<u8>, hash: Seq<u8>) -> bool {
    b.len() == 64 && hash.len() == 32 && forall|i: int|
        0 <= i < 32 ==> (#[trigger] hex_pair_value(b[2 * i], b[2 * i + 1])) == Some(hash[i])
}

/// The hash that 64 hexadecimal digits spell.
pub fn parse_hex_bytes(b: &[u8]) -> (hash: Option<[u8; 32]>)
    ensures
        match hash {
            Some(h) => spells(b@, h@),
            None => !spells_hash(b@),
        },
        hash is Some <==> b@.len() == 64 && forall|i: int|
            0 <= i < 64 ==> 48 <= #[trigger] b@[i] <= 57 || 65 <= b@[i] <= 70 || 97 <= b@[i] <= 102,
        hash matches Some(h) ==> forall|i: int|
            0 <= i < 32 ==> #[trigger] h@[i] == 16 * hex_digit_value(b@[2 * i])->0 + hex_digit_value(b@[2 * i + 1])->0,
{
    let hash = read_hash(b);
    proof {
        if hash is Some {
            assert forall|i: int| 0 <= i < 64 implies 48 <= #[trigger] b@[i] <= 57 || 65 <= b@[i] <= 70 || 97 <= b@[i]
                <= 102 by {
                assert(hex_pair_value(b@[2 * (i / 2)], b@[2 * (i / 2) + 1]) is Some);
                assert(i == 2 * (i / 2) || i == 2 * (i / 2) + 1);
            }
            assert forall|i: int| 0 <= i < 32 implies #[trigger] hash->0@[i] == 16 * hex_digit_value(b@[2 * i])->0
                + hex_digit_value(b@[2 * i + 1])->0 by {
                assert(hex_pair_value(b@[2 * i], b@[2 * i + 1]) == Some(hash->0@[i]));
            }
        } else if b@.len() == 64 && (forall|i: int|
            0 <= i < 64 ==> 48 <= #[trigger] b@[i] <= 57 || 65 <= b@[i] <= 70 || 97 <= b@[i] <= 102) {
            assert forall|i: int| 0 <= i < 32 implies (#[trigger] hex_pair_value(b@[2 * i], b@[2 * i + 1])) is Some by {
                assert(48 <= b@[2 * i] <= 57 || 65 <= b@[2 * i] <= 70 || 97 <= b@[2 * i] <= 102);
                assert(48 <= b@[2 * i + 1] <= 57 || 65 <= b@[2 * i + 1] <= 70 || 97 <= b@[2 * i + 1] <= 102);
            }
        }
    }
    hash
}

/// Reads the digits pair by pair.
fn read_hash(b: &[u8]) -> (hash: Option<[u8; 32]>)
    ensures
        match hash {
            Some(h) => spells(b@, h@),
            None => !spells_hash(b@),
        },
{
    if b.len() != 64 {
        return None;
    }
    let mut out: [u8; 32] = [0u8; 32];
    let mut i: usize = 0;
    while i < 32
        invariant
            i <= 32,
            b@.len() == 64,
            out@.len() == 32,
            forall|j: int| 0 <= j < i ==> (#[trigger] hex_pair_value(b@[2 * j], b@[2 * j + 1])) == Some(out@[j]),
        decreases 32 - i,
    {
        match pair_value(b[2 * i], b[2 * i + 1]) {
            None => {
                assert(hex_pair_value(b@[2 * i as int], b@[2 * i as int + 1]) is None);
                return None;
            },
            Some(v) => {
                out[i] = v;
            },
        }
        i = i + 1;
    }
    Some(out)
}

/// The hash that a text of 64 hexadecimal digits spells.
pub fn parse_hex(text: &str) -> (hash: Option<[u8; 32]>)
    ensures
        match hash {
            Some(h) => spells(encode_utf8(text@), h@),
            None => !spells_hash(encode_utf8(text@)),
        },
{
    parse_hex_bytes(text.as_bytes())
}

/// What `hex` writes of a hash, `parse_hex` reads: the spelling of a hash
/// spells that hash, and no other.
pub proof fn hex_parse_roundtrip(hash: Seq<u8>, other: Seq<u8>)
    requires
        hash.len() == 32,
    ensures
        spells(encode_utf8(hex_spec(hash)), hash),
        spells(encode_utf8(hex_spec(hash)), other) ==> other == hash,
{
    let t = hex_spec(hash);
    assert(is_ascii_chars(t));
    is_ascii_chars_encode_utf8(t);
    let b = encode_utf8(t);
    assert(b =~= Seq::new(t.len(), |i: int| t[i] as u8));
    assert forall|i: int| 0 <= i < 32 implies (#[trigger] hex_pair_value(b[2 * i], b[2 * i + 1])) == Some(
        hash[i],
    ) by {
        assert((2 * i) / 2 == i && (2 * i) % 2 == 0);
        assert((2 * i + 1) / 2 == i && (2 * i + 1) % 2 == 1);
        assert(t[2 * i] == hex_char(hash[i] as int / 16));
        assert(t[2 * i + 1] == hex_char(hash[i] as int % 16));
    }
    if spells(b, other) {
        assert forall|i: int| 0 <= i < 32 implies other[i] == hash[i] by {
            assert(hex_pair_value(b[2 * i], b[2 * i + 1]) == Some(hash[i]));
        }
        assert(other =~= hash);
    }
}

/// The key of a chunk: the game as 16 hexadecimal digits, then the hash.
pub open spec fn chunk_key_spec(game_id: u64, hash: Seq<u8>) -> Seq<char> {
    game_prefix(game_id) + hex_spec(hash)
}

/// What all chunk keys of a game start with.
pub open spec fn game_prefix(game_id: u64) -> Seq<char> {
    hex_spec(bytes::be_bytes(game_id as nat, 8))
}

/// What all chunk keys of a game start with.
pub fn game_prefix_text(game_id: u64) -> (text: String)
    ensures
        text@ == game_prefix(game_id),
        text@ == hex_spec(bytes::be_bytes(game_id as nat, 8)),
{
    let mut id: Vec<u8> = Vec::new();
    bytes::push_u64_be(&mut id, game_id);
    assert(id@ =~= bytes::be_bytes(game_id as nat, 8));
    hex(id.as_slice())
}

/// The key of a chunk.
pub fn chunk_key(game_id: u64, hash: &[u8]) -> (key: String)
    ensures
        key@ == chunk_key_spec(game_id, hash@),
        key@ == hex_spec(bytes::be_bytes(game_id as nat, 8)) + hex_spec(hash@),
{
    let mut out = game_prefix_text(game_id);
    push_hex(&mut out, hash);
    out
}

/// Different bytes have different spellings.
pub proof fn lemma_hex_injective(a: Seq<u8>, b: Seq<u8>)
    requires
        hex_spec(a) == hex_spec(b),
    ensures
        a == b,
{
    let s = hex_spec(a);
    assert(s.len() == 2 * a.len());
    assert(s.len() == 2 * b.len());
    assert forall|i: int| 0 <= i < a.len() implies a[i] == b[i] by {
        assert((2 * i) / 2 == i && (2 * i) % 2 == 0);
        assert((2 * i + 1) / 2 == i && (2 * i + 1) % 2 == 1);
        assert(s[2 * i] == hex_char(a[i] as int / 16) && s[2 * i] == hex_char(b[i] as int / 16));
        assert(s[2 * i + 1] == hex_char(a[i] as int % 16) && s[2 * i + 1] == hex_char(b[i] as int % 16));
    }
    assert(a =~= b);
}

/// Chunks of different games, or with different hashes, have different keys.
pub proof fn chunk_keys_are_distinct(game_a: u64, a: Seq<u8>, game_b: u64, b: Seq<u8>)
    ensures
        chunk_key_spec(game_a, a) == chunk_key_spec(game_b, b) <==> game_a == game_b && a == b,
{
    let ka = chunk_key_spec(game_a, a);
    let kb = chunk_key_spec(game_b, b);
    if ka == kb {
        assert(bytes::width_bound(8) == 0x1_0000_0000_0000_0000) by {
            reveal_with_fuel(bytes::width_bound, 9);
        }
        bytes::lemma_be_roundtrip(game_a as nat, 8);
        bytes::lemma_be_roundtrip(game_b as nat, 8);
        assert(ka.take(16) =~= game_prefix(game_a));
        assert(kb.take(16) =~= game_prefix(game_b));
        lemma_hex_injective(bytes::be_bytes(game_a as nat, 8), bytes::be_bytes(game_b as nat, 8));
        assert(ka.skip(16) =~= hex_spec(a));
        assert(kb.skip(16) =~= hex_spec(b));
        lemma_hex_injective(a, b);
    }
}

/// A byte is written as two lower-case digits, the higher first.
pub proof fn bytes_are_written_as_two_digits(bytes: Seq<u8>, i: int)
    requires
        0 <= i < bytes.len(),
    ensures
        hex_spec(bytes).len() == 2 * bytes.len(),
        hex_spec(bytes)[2 * i] == "0123456789abcdef"@[bytes[i] as int / 16],
        hex_spec(bytes)[2 * i + 1] == "0123456789abcdef"@[bytes[i] as int % 16],
{
    reveal_strlit("0123456789abcdef");
    assert((2 * i) / 2 == i && (2 * i) % 2 == 0);
    assert((2 * i + 1) / 2 == i && (2 * i + 1) % 2 == 1);
}

/// Digits of either case have the same value; nothing but the sixteen digits
/// has one.
pub proof fn digits_have_their_values(b: u8)
    ensures
        b < 10 ==> hex_digit_value((48 + b) as u8) == Some(b),
        10 <= b < 16 ==> hex_digit_value((87 + b) as u8) == Some(b) && hex_digit_value((55 + b) as u8) == Some(b),
        hex_digit_value(b) matches Some(v) ==> v < 16 && (b == 48 + v || b == 87 + v || b == 55 + v),
        hex_digit_value(b) is Some <==> 48 <= b <= 57 || 65 <= b <= 70 || 97 <= b <= 102,
{
}

} // verus!
