//! The content of the files that disk throughput is measured with.
use vstd::prelude::*;

use crate::common::bytes;

verus! {

/// The next state of the generator.
pub open spec fn xorshift(seed: u64) -> u64 {
    let a = seed ^ (seed << 13u64);
    let b = a ^ (a >> 7u64);
    b ^ (b << 17u64)
}

/// The state after `n` steps.
pub open spec fn steps(seed: u64, n: nat) -> u64
    decreases n,
{
    if n == 0 {
        seed
    } else {
        xorshift(steps(seed, (n - 1) as nat))
    }
}

/// How many blocks of eight bytes cover `len` bytes.
pub open spec fn blocks(len: nat) -> nat {
    (len + 7) / 8
}

/// `len` pseudo-random bytes: each eight are a state of the generator, the low
/// byte first; the last block may be cut short. The seed moves on with them.
pub fn fill(len: usize, seed: &mut u64) -> (data: Vec<u8>)
    ensures
        data@.len() == len,
        *final(seed) == steps(*old(seed), blocks(len as nat)),
        forall|i: int| 0 <= i < len ==> #[trigger] data@[i] == bytes::le_bytes(
            steps(*old(seed), (i / 8 + 1) as nat) as nat,
            8,
        )[i % 8],
{
    let ghost start = *seed;
    let mut data: Vec<u8> = Vec::new();
    let ghost mut n: nat = 0;
    while data.len() < len
        invariant
            data@.len() == (if 8 * n <= len {
                8 * n
            } else {
                len as nat
            }),
            8 * n < len + 8,
            *seed == steps(start, n),
            forall|i: int| 0 <= i < data@.len() ==> #[trigger] data@[i] == bytes::le_bytes(
                steps(start, (i / 8 + 1) as nat) as nat,
                8,
            )[i % 8],
        decreases len - data.len(),
    {
        let mut s: u64 = *seed;
        s = s ^ (s << 13u64);
        s = s ^ (s >> 7u64);
        s = s ^ (s << 17u64);
        *seed = s;
        let mut block: Vec<u8> = Vec::new();
        bytes::push_u64_le(&mut block, s);
        proof {
            bytes::lemma_le_bytes_len(s as nat, 8);
            assert(block@ =~= bytes::le_bytes(s as nat, 8));
            assert(s == steps(start, n + 1));
        }
        let mut k: usize = 0;
        while k < 8 && data.len() < len
            invariant
                k <= 8,
                block@ == bytes::le_bytes(steps(start, n + 1) as nat, 8),
                block@.len() == 8,
                data@.len() == 8 * n + k,
                data@.len() <= len,
                forall|i: int| 0 <= i < data@.len() ==> #[trigger] data@[i] == bytes::le_bytes(
                    steps(start, (i / 8 + 1) as nat) as nat,
                    8,
                )[i % 8],
            decreases 8 - k,
        {
            let ghost at = data@.len() as int;
            assert(at / 8 == n && at % 8 == k as int);
            data.push(block[k]);
            k = k + 1;
        }
        proof {
            n = n + 1;
        }
    }
    assert(n == blocks(len as nat));
    data
}

/// The generator steps by three shifts, and its states follow each other.
pub proof fn states_follow_each_other(seed: u64, n: nat, m: nat)
    ensures
        steps(seed, 0) == seed,
        ({
            let a = steps(seed, n) ^ (steps(seed, n) << 13u64);
            let b = a ^ (a >> 7u64);
            steps(seed, n + 1) == b ^ (b << 17u64)
        }),
        steps(steps(seed, n), m) == steps(seed, n + m),
    decreases m,
{
    if m > 0 {
        states_follow_each_other(seed, n, (m - 1) as nat);
    }
}

/// As many blocks are drawn as are needed to cover the bytes, none more.
pub proof fn blocks_cover_the_bytes(len: nat)
    ensures
        8 * blocks(len) >= len,
        len > 0 ==> 8 * (blocks(len) - 1) < len,
        len == 0 ==> blocks(len) == 0,
{
}

/// Equal seeds give equal bytes, and a longer file begins like a shorter one.
pub proof fn content_is_reproducible(seed: u64, short: Seq<u8>, long: Seq<u8>)
    requires
        short.len() <= long.len(),
        forall|i: int| 0 <= i < short.len() ==> #[trigger] short[i] == bytes::le_bytes(
            steps(seed, (i / 8 + 1) as nat) as nat,
            8,
        )[i % 8],
        forall|i: int| 0 <= i < long.len() ==> #[trigger] long[i] == bytes::le_bytes(
            steps(seed, (i / 8 + 1) as nat) as nat,
            8,
        )[i % 8],
    ensures
        long.take(short.len() as int) == short,
{
    assert(long.take(short.len() as int) =~= short);
}

} // verus!
