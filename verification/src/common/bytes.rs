//! Fixed-width little- and big-endian integers in byte sequences.
use vstd::prelude::*;

verus! {

/// `n` bytes of `x`, least significant byte first.
pub open spec fn le_bytes(x: nat, n: nat) -> Seq<u8>
    decreases n,
{
    if n == 0 {
        Seq::empty()
    } else {
        seq![(x % 256) as u8] + le_bytes(x / 256, (n - 1) as nat)
    }
}

/// The number whose little-endian bytes are `s`.
pub open spec fn le_value(s: Seq<u8>) -> nat
    decreases s.len(),
{
    if s.len() == 0 {
        0
    } else {
        s[0] as nat + 256 * le_value(s.drop_first())
    }
}

/// `n` bytes of `x`, most significant byte first.
pub open spec fn be_bytes(x: nat, n: nat) -> Seq<u8> {
    le_bytes(x, n).reverse()
}

/// The number whose big-endian bytes are `s`.
pub open spec fn be_value(s: Seq<u8>) -> nat {
    le_value(s.reverse())
}

/// 256 to the power `n`.
pub open spec fn width_bound(n: nat) -> nat
    decreases n,
{
    if n == 0 {
        1
    } else {
        256 * width_bound((n - 1) as nat)
    }
}

pub proof fn lemma_le_bytes_len(x: nat, n: nat)
    ensures
        le_bytes(x, n).len() == n,
    decreases n,
{
    if n > 0 {
        lemma_le_bytes_len(x / 256, (n - 1) as nat);
    }
}

/// Writing a number that fits in `n` bytes and reading it back gives the number.
pub proof fn lemma_le_roundtrip(x: nat, n: nat)
    requires
        x < width_bound(n),
    ensures
        le_bytes(x, n).len() == n,
        le_value(le_bytes(x, n)) == x,
    decreases n,
{
    lemma_le_bytes_len(x, n);
    if n > 0 {
        let rest = le_bytes(x / 256, (n - 1) as nat);
        lemma_le_roundtrip(x / 256, (n - 1) as nat);
        assert(le_bytes(x, n).drop_first() =~= rest);
    }
}

/// Reading bytes as a number and writing it in as many bytes gives the bytes.
pub proof fn lemma_le_value_bytes(s: Seq<u8>)
    ensures
        le_value(s) < width_bound(s.len()),
        le_bytes(le_value(s), s.len()) == s,
    decreases s.len(),
{
    if s.len() > 0 {
        lemma_le_value_bytes(s.drop_first());
        let v = le_value(s);
        assert(v % 256 == s[0] as nat);
        assert(v / 256 == le_value(s.drop_first()));
        assert(seq![s[0]] + s.drop_first() =~= s);
    } else {
        assert(le_bytes(0, 0) =~= s);
    }
}

/// Appends bytes.
pub(crate) fn push_bytes(out: &mut Vec<u8>, data: &[u8])
    ensures
        final(out)@ == old(out)@ + data@,
{
    out.extend_from_slice(data);
    assert(out@ =~= old(out)@ + data@);
}

/// Appends `n` little-endian bytes of `x`.
pub(crate) fn push_le(out: &mut Vec<u8>, x: u64, n: usize)
    ensures
        final(out)@ == old(out)@ + le_bytes(x as nat, n as nat),
{
    let mut rest: u64 = x;
    let mut i: usize = 0;
    assert(out@ + le_bytes(x as nat, n as nat) =~= old(out)@ + le_bytes(x as nat, n as nat));
    while i < n
        invariant
            i <= n,
            out@ + le_bytes(rest as nat, (n - i) as nat) == old(out)@ + le_bytes(x as nat, n as nat),
        decreases n - i,
    {
        let ghost before = out@;
        let ghost tail = le_bytes(rest as nat / 256, (n - i - 1) as nat);
        out.push((rest % 256) as u8);
        proof {
            assert(le_bytes(rest as nat, (n - i) as nat) == seq![(rest as nat % 256) as u8] + tail);
            assert(out@ + tail =~= before + (seq![(rest as nat % 256) as u8] + tail));
        }
        rest = rest / 256;
        i = i + 1;
    }
    proof {
        assert(le_bytes(rest as nat, 0) =~= Seq::<u8>::empty());
        assert(out@ + Seq::<u8>::empty() =~= out@);
    }
}

/// Appends a `u16` in little-endian order.
pub fn push_u16_le(out: &mut Vec<u8>, x: u16)
    ensures
        final(out)@ == old(out)@ + le_bytes(x as nat, 2),
{
    push_le(out, x as u64, 2)
}

/// Appends a `u32` in little-endian order.
pub fn push_u32_le(out: &mut Vec<u8>, x: u32)
    ensures
        final(out)@ == old(out)@ + le_bytes(x as nat, 4),
{
    push_le(out, x as u64, 4)
}

/// Appends a `u64` in little-endian order.
pub fn push_u64_le(out: &mut Vec<u8>, x: u64)
    ensures
        final(out)@ == old(out)@ + le_bytes(x as nat, 8),
{
    push_le(out, x, 8)
}

/// Appends `n` big-endian bytes of `x`.
fn push_be(out: &mut Vec<u8>, x: u64, n: usize)
    ensures
        final(out)@ == old(out)@ + be_bytes(x as nat, n as nat),
{
    let mut bytes: Vec<u8> = Vec::new();
    push_le(&mut bytes, x, n);
    let ghost le = le_bytes(x as nat, n as nat);
    proof {
        lemma_le_bytes_len(x as nat, n as nat);
        assert(bytes@ =~= le);
    }
    let mut left: usize = n;
    while left > 0
        invariant
            left <= n,
            bytes@ == le,
            le.len() == n,
            out@ == old(out)@ + le.reverse().subrange(0, n - left),
        decreases left,
    {
        left = left - 1;
        out.push(bytes[left]);
        proof {
            assert(le.reverse()[n - left - 1] == le[left as int]);
            assert(le.reverse().subrange(0, n - left) =~= le.reverse().subrange(0, n - left - 1).push(le[left as int]));
            assert(out@ =~= old(out)@ + le.reverse().subrange(0, n - left));
        }
    }
    proof {
        assert(le.reverse().subrange(0, n as int) =~= le.reverse());
    }
}

/// Appends a `u32` in big-endian order.
pub fn push_u32_be(out: &mut Vec<u8>, x: u32)
    ensures
        final(out)@ == old(out)@ + be_bytes(x as nat, 4),
{
    push_be(out, x as u64, 4)
}

/// Appends a `u64` in big-endian order.
pub fn push_u64_be(out: &mut Vec<u8>, x: u64)
    ensures
        final(out)@ == old(out)@ + be_bytes(x as nat, 8),
{
    push_be(out, x, 8)
}

proof fn lemma_width_bound_monotone(a: nat, b: nat)
    requires
        a <= b,
    ensures
        width_bound(a) <= width_bound(b),
    decreases b,
{
    if a < b {
        lemma_width_bound_monotone(a, (b - 1) as nat);
    }
}

/// The little-endian number in `data[at..at + n]`.
fn le_at(data: &[u8], at: usize, n: usize) -> (x: u64)
    requires
        at + n <= data@.len(),
        n <= 8,
    ensures
        x == le_value(data@.subrange(at as int, at + n)),
        x < width_bound(n as nat),
{
    let mut left: usize = n;
    let mut x: u64 = 0;
    assert(data@.len() == data.len());
    assert(data@.subrange(at + n, at + n) =~= Seq::<u8>::empty());
    while left > 0
        invariant
            left <= n,
            at + n <= data.len(),
            n <= 8,
            x == le_value(data@.subrange(at + left, at + n)),
        decreases left,
    {
        proof {
            let tail = data@.subrange(at + left, at + n);
            let longer = data@.subrange(at + left - 1, at + n);
            lemma_le_value_bytes(tail);
            lemma_width_bound_monotone((n - left) as nat, 7);
            assert(width_bound(7) == 0x100_0000_0000_0000) by {
                reveal_with_fuel(width_bound, 8);
            }
            assert(longer.drop_first() =~= tail);
        }
        left = left - 1;
        x = data[at + left] as u64 + 256 * x;
    }
    proof {
        lemma_le_value_bytes(data@.subrange(at as int, at + n));
    }
    x
}

/// The `u16` at `at`, in little-endian order.
pub fn u16_le_at(data: &[u8], at: usize) -> (x: u16)
    requires
        at + 2 <= data@.len(),
    ensures
        x == le_value(data@.subrange(at as int, at + 2)),
{
    let x: u64 = le_at(data, at, 2);
    assert(width_bound(2) == 0x10000) by {
        reveal_with_fuel(width_bound, 3);
    }
    x as u16
}

/// The `u32` at `at`, in little-endian order.
pub fn u32_le_at(data: &[u8], at: usize) -> (x: u32)
    requires
        at + 4 <= data@.len(),
    ensures
        x == le_value(data@.subrange(at as int, at + 4)),
{
    let x: u64 = le_at(data, at, 4);
    assert(width_bound(4) == 0x1_0000_0000) by {
        reveal_with_fuel(width_bound, 5);
    }
    x as u32
}

/// The `u64` at `at`, in little-endian order.
pub fn u64_le_at(data: &[u8], at: usize) -> (x: u64)
    requires
        at + 8 <= data@.len(),
    ensures
        x == le_value(data@.subrange(at as int, at + 8)),
{
    le_at(data, at, 8)
}

/// Big-endian numbers that fit read back as they were written.
pub proof fn lemma_be_roundtrip(x: nat, n: nat)
    requires
        x < width_bound(n),
    ensures
        be_bytes(x, n).len() == n,
        be_value(be_bytes(x, n)) == x,
{
    lemma_le_roundtrip(x, n);
    assert(le_bytes(x, n).reverse().reverse() =~= le_bytes(x, n));
}

/// The big-endian number in `data[at..at + n]`.
fn be_at(data: &[u8], at: usize, n: usize) -> (x: u64)
    requires
        at + n <= data@.len(),
        n <= 8,
    ensures
        x == be_value(data@.subrange(at as int, at + n)),
        x < width_bound(n as nat),
{
    let mut i: usize = 0;
    let mut x: u64 = 0;
    assert(data@.len() == data.len());
    assert(data@.subrange(at as int, at as int).reverse() =~= Seq::<u8>::empty());
    while i < n
        invariant
            i <= n,
            at + n <= data.len(),
            n <= 8,
            x == be_value(data@.subrange(at as int, at + i)),
        decreases n - i,
    {
        proof {
            let done = data@.subrange(at as int, at + i).reverse();
            let longer = data@.subrange(at as int, at + i + 1).reverse();
            lemma_le_value_bytes(done);
            lemma_width_bound_monotone(i as nat, 7);
            assert(width_bound(7) == 0x100_0000_0000_0000) by {
                reveal_with_fuel(width_bound, 8);
            }
            assert(longer.drop_first() =~= done);
        }
        x = data[at + i] as u64 + 256 * x;
        i = i + 1;
    }
    proof {
        lemma_le_value_bytes(data@.subrange(at as int, at + n).reverse());
    }
    x
}

/// The `u32` at `at`, in big-endian order.
pub fn u32_be_at(data: &[u8], at: usize) -> (x: u32)
    requires
        at + 4 <= data@.len(),
    ensures
        x == be_value(data@.subrange(at as int, at + 4)),
{
    let x: u64 = be_at(data, at, 4);
    assert(width_bound(4) == 0x1_0000_0000) by {
        reveal_with_fuel(width_bound, 5);
    }
    x as u32
}

/// The `u64` at `at`, in big-endian order.
pub fn u64_be_at(data: &[u8], at: usize) -> (x: u64)
    requires
        at + 8 <= data@.len(),
    ensures
        x == be_value(data@.subrange(at as int, at + 8)),
{
    be_at(data, at, 8)
}

/// The bytes of numbers, least significant first.
pub proof fn little_endian_layout(x: nat)
    ensures
        le_bytes(x, 2) == seq![(x % 256) as u8, (x / 256 % 256) as u8],
        le_bytes(x, 4) == seq![
            (x % 256) as u8,
            (x / 256 % 256) as u8,
            (x / 0x10000 % 256) as u8,
            (x / 0x1000000 % 256) as u8,
        ],
        le_bytes(x, 8) == le_bytes(x, 4) + le_bytes(x / 0x1_0000_0000, 4),
{
    reveal_with_fuel(le_bytes, 9);
    assert(x / 256 / 256 == x / 0x10000);
    assert(x / 256 / 256 / 256 == x / 0x1000000);
    assert(x / 256 / 256 / 256 / 256 == x / 0x1_0000_0000);
    assert(le_bytes(x, 2) =~= seq![(x % 256) as u8, (x / 256 % 256) as u8]);
    assert(le_bytes(x, 4) =~= seq![
        (x % 256) as u8,
        (x / 256 % 256) as u8,
        (x / 0x10000 % 256) as u8,
        (x / 0x1000000 % 256) as u8,
    ]);
    assert(le_bytes(x, 8) =~= le_bytes(x, 4) + le_bytes(x / 0x1_0000_0000, 4));
}

/// The most significant byte comes first in the other order: what is written
/// in one is the other backwards.
pub proof fn big_endian_layout(x: nat, n: nat, i: int)
    requires
        0 <= i < n,
    ensures
        be_bytes(x, n).len() == n,
        be_bytes(x, n)[i] == le_bytes(x, n)[n - 1 - i],
        be_value(be_bytes(x, n)) == le_value(le_bytes(x, n)),
{
    lemma_le_bytes_len(x, n);
    assert(be_bytes(x, n).reverse() =~= le_bytes(x, n));
}

/// Each byte counts 256 times as much as the one before it.
pub proof fn bytes_count_in_powers(s: Seq<u8>, b: u8)
    ensures
        le_value(seq![b] + s) == b + 256 * le_value(s),
        le_value(Seq::empty()) == 0,
        be_value(s.push(b)) == 256 * be_value(s) + b,
{
    assert((seq![b] + s).drop_first() =~= s);
    assert(s.push(b).reverse() =~= seq![b] + s.reverse());
    assert((seq![b] + s.reverse()).drop_first() =~= s.reverse());
}

} // verus!
