//! Pieces of the command line tools that try out agents.
use vstd::prelude::*;
use vstd::utf8::*;

use crate::common::hex;
use crate::common::text;

verus! {

/// Why a text is not a hash.
#[derive(Debug, Clone, Copy, PartialEq, Eq, Structural)]
pub enum HexError {
    Length,
    Digit,
}

impl HexError {
    /// What to tell a user.
    pub open spec fn text(self) -> Seq<char> {
        match self {
            HexError::Length => "哈希必须是 64 位十六进制"@,
            HexError::Digit => "invalid digit found in string"@,
        }
    }

    /// What to tell a user.
    pub fn message(&self) -> (out: &'static str)
        ensures
            out@ == self.text(),
            out@ == (match *self {
                HexError::Length => "哈希必须是 64 位十六进制"@,
                HexError::Digit => "invalid digit found in string"@,
            }),
    {
        match self {
            HexError::Length => "哈希必须是 64 位十六进制",
            HexError::Digit => "invalid digit found in string",
        }
    }
}

/// The hash that a text spells.
pub fn hex_decode(t: &str) -> (hash: Result<[u8; 32], HexError>)
    ensures
        match hash {
            Ok(h) => hex::spells(encode_utf8(t@), h@),
            Err(HexError::Length) => encode_utf8(t@).len() != 64,
            Err(HexError::Digit) => encode_utf8(t@).len() == 64 && !hex::spells_hash(encode_utf8(t@)),
        },
{
    if t.as_bytes().len() != 64 {
        return Err(HexError::Length);
    }
    match hex::parse_hex(t) {
        Some(h) => Ok(h),
        None => Err(HexError::Digit),
    }
}

/// A number in decimal with at least four digits.
pub open spec fn four_digits(n: nat) -> Seq<char> {
    let d = text::decimal(n);
    if d.len() == 1 {
        "000"@ + d
    } else if d.len() == 2 {
        "00"@ + d
    } else if d.len() == 3 {
        "0"@ + d
    } else {
        d
    }
}

/// What seed chunk `i` of a game repeats.
pub open spec fn seed_text_spec(game_id: u64, i: u64) -> Seq<char> {
    "blazenet-seed-"@ + text::decimal(game_id as nat) + "-"@ + four_digits(i as nat)
}

/// What seed chunk `i` of a game repeats.
pub fn seed_text(game_id: u64, i: u64) -> (out: String)
    ensures
        out@ == seed_text_spec(game_id, i),
{
    let mut out = text::join3("blazenet-seed-", text::decimal_text(game_id).as_str(), "-");
    let digits = text::decimal_text(i);
    let n: usize = digits.as_str().unicode_len();
    let pad = if n == 1 {
        "000"
    } else if n == 2 {
        "00"
    } else if n == 3 {
        "0"
    } else {
        ""
    };
    proof {
        reveal_strlit("");
        text::lemma_decimal_digits(i as nat);
    }
    out.append(pad);
    out.append(digits.as_str());
    assert(out@ =~= seed_text_spec(game_id, i));
    out
}

/// How often a seed chunk repeats its text.
pub const SEED_REPEATS: usize = 65536;

/// The data `n` times.
pub open spec fn repeated(data: Seq<u8>, n: nat) -> Seq<u8>
    decreases n,
{
    if n == 0 {
        Seq::empty()
    } else {
        repeated(data, (n - 1) as nat) + data
    }
}

/// Seed chunk `i` of a game.
pub fn seed_chunk(game_id: u64, i: u64) -> (data: Vec<u8>)
    ensures
        data@ == repeated(encode_utf8(seed_text_spec(game_id, i)), SEED_REPEATS as nat),
{
    let unit = seed_text(game_id, i);
    let bytes = unit.as_str().as_bytes();
    let mut data: Vec<u8> = Vec::new();
    let mut k: usize = 0;
    while k < SEED_REPEATS
        invariant
            k <= SEED_REPEATS,
            data@ == repeated(bytes@, k as nat),
        decreases SEED_REPEATS - k,
    {
        crate::common::bytes::push_bytes(&mut data, bytes);
        k = k + 1;
    }
    data
}

/// Repeated data is as long as its repetitions together, and repeats.
pub proof fn data_repeats(data: Seq<u8>, n: nat, i: int)
    ensures
        repeated(data, n).len() == n * data.len(),
        0 <= i < n * data.len() ==> repeated(data, n)[i] == data[i % data.len() as int],
    decreases n,
{
    if n > 0 {
        let less = (n - 1) as nat;
        data_repeats(data, less, i);
        assert(n * data.len() == less * data.len() + data.len()) by (nonlinear_arith)
            requires
                less == n - 1,
        ;
        if less * data.len() <= i < n * data.len() {
            assert(i % data.len() as int == i - less * data.len()) by (nonlinear_arith)
                requires
                    less * data.len() <= i < less * data.len() + data.len(),
            ;
        }
    } else {
        assert(n * data.len() == 0) by (nonlinear_arith)
            requires
                n == 0,
        ;
    }
}

/// At least four digits: shorter numbers get zeros in front, no other is
/// changed.
pub proof fn numbers_are_padded(n: nat)
    ensures
        four_digits(n).len() == (if text::decimal(n).len() < 4 {
            4
        } else {
            text::decimal(n).len()
        }),
        four_digits(n).skip(four_digits(n).len() - text::decimal(n).len()) == text::decimal(n),
        forall|i: int| 0 <= i < four_digits(n).len() - text::decimal(n).len() ==> #[trigger] four_digits(n)[i] == '0',
{
    text::lemma_decimal_digits(n);
    reveal_strlit("0");
    reveal_strlit("00");
    reveal_strlit("000");
    let d = text::decimal(n);
    assert(four_digits(n).skip(four_digits(n).len() - d.len()) =~= d);
}

} // verus!
