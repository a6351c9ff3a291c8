//! Copying ranges of one file to the start of another, in bounded pieces.
use vstd::prelude::*;

verus! {

/// The most bytes that are copied at once.
pub const COPY_CHUNK: u32 = 1048576;

/// One read and one write.
#[derive(Debug, Clone, Copy, PartialEq, Eq)]
pub struct Piece {
    /// Where to read in the source.
    pub from: u64,
    /// Where to write in the destination.
    pub to: u64,
    pub len: u32,
}

/// The bytes of the ranges (offset, length), one after the other.
pub open spec fn copied(src: Seq<u8>, ranges: Seq<(u64, u32)>) -> Seq<u8>
    decreases ranges.len(),
{
    if ranges.len() == 0 {
        Seq::empty()
    } else {
        let (at, len) = ranges.last();
        copied(src, ranges.drop_last()) + src.subrange(at as int, at + len)
    }
}

/// The number of bytes in the ranges.
pub open spec fn ranges_len(ranges: Seq<(u64, u32)>) -> nat
    decreases ranges.len(),
{
    if ranges.len() == 0 {
        0
    } else {
        ranges_len(ranges.drop_last()) + ranges.last().1 as nat
    }
}

/// Whether all ranges lie inside a file of the given length.
pub open spec fn ranges_inside(ranges: Seq<(u64, u32)>, len: int) -> bool {
    forall|i: int| 0 <= i < ranges.len() ==> (#[trigger] ranges[i]).0 + ranges[i].1 <= len
}

/// The ranges that pieces read.
pub open spec fn piece_ranges(pieces: Seq<Piece>) -> Seq<(u64, u32)> {
    pieces.map_values(|p: Piece| (p.from, p.len))
}

/// Whether the pieces are written one after the other from the start, each
/// with at least one and at most `COPY_CHUNK` bytes.
pub open spec fn in_order(pieces: Seq<Piece>) -> bool {
    forall|i: int| 0 <= i < pieces.len() ==> 1 <= (#[trigger] pieces[i]).len <= COPY_CHUNK && pieces[i].to == ranges_len(
        piece_ranges(pieces.take(i)),
    )
}

proof fn lemma_push_piece(src: Seq<u8>, pieces: Seq<Piece>, p: Piece)
    ensures
        copied(src, piece_ranges(pieces.push(p))) == copied(src, piece_ranges(pieces)) + src.subrange(
            p.from as int,
            p.from + p.len,
        ),
        ranges_len(piece_ranges(pieces.push(p))) == ranges_len(piece_ranges(pieces)) + p.len,
{
    let all = piece_ranges(pieces.push(p));
    assert(all.drop_last() =~= piece_ranges(pieces));
    assert(all.last() == (p.from, p.len));
}

/// Pieces are written one behind the other from the start, and none is empty or
/// longer than a mebibyte.
pub proof fn pieces_are_written_in_turn(pieces: Seq<Piece>, i: int)
    requires
        in_order(pieces),
        0 <= i < pieces.len(),
    ensures
        pieces[0].to == 0,
        i + 1 < pieces.len() ==> pieces[i + 1].to == pieces[i].to + pieces[i].len,
        1 <= pieces[i].len <= 1024 * 1024,
        piece_ranges(pieces)[i] == (pieces[i].from, pieces[i].len),
{
    assert(pieces[0].to == ranges_len(piece_ranges(pieces.take(0))));
    assert(piece_ranges(pieces.take(0)) =~= Seq::empty());
    if i + 1 < pieces.len() {
        assert(pieces[i + 1].to == ranges_len(piece_ranges(pieces.take(i + 1))));
        assert(pieces[i].to == ranges_len(piece_ranges(pieces.take(i))));
        assert(pieces.take(i + 1) =~= pieces.take(i).push(pieces[i]));
        lemma_push_piece(Seq::empty(), pieces.take(i), pieces[i]);
    }
}

pub proof fn lemma_copied_len(src: Seq<u8>, ranges: Seq<(u64, u32)>)
    requires
        ranges_inside(ranges, src.len() as int),
    ensures
        copied(src, ranges).len() == ranges_len(ranges),
    decreases ranges.len(),
{
    if ranges.len() > 0 {
        let init = ranges.drop_last();
        assert forall|i: int| 0 <= i < init.len() implies (#[trigger] init[i]).0 + init[i].1 <= src.len() by {
            assert(init[i] == ranges[i]);
        }
        lemma_copied_len(src, init);
        assert(ranges[ranges.len() - 1].0 + ranges[ranges.len() - 1].1 <= src.len());
    }
}

/// Fewer ranges have no more bytes.
proof fn lemma_ranges_len(ranges: Seq<(u64, u32)>, n: int)
    requires
        0 <= n <= ranges.len(),
    ensures
        ranges_len(ranges.take(n)) <= ranges_len(ranges),
    decreases ranges.len(),
{
    if n < ranges.len() {
        assert(ranges.drop_last().take(n) =~= ranges.take(n));
        lemma_ranges_len(ranges.drop_last(), n);
    } else {
        assert(ranges.take(n) =~= ranges);
    }
}

/// The reads and writes that copy the ranges to the start of a file. The bytes
/// in the ranges must be a 64-bit number.
pub fn copy_pieces(ranges: &Vec<(u64, u32)>) -> (pieces: Vec<Piece>)
    requires
        ranges_inside(ranges@, u64::MAX as int),
        ranges_len(ranges@) <= u64::MAX,
    ensures
        in_order(pieces@),
        ranges_len(piece_ranges(pieces@)) == ranges_len(ranges@),
        forall|src: Seq<u8>| ranges_inside(ranges@, src.len() as int) ==> #[trigger] copied(
            src,
            piece_ranges(pieces@),
        ) == copied(src, ranges@),
{
    let mut pieces: Vec<Piece> = Vec::new();
    let mut to: u64 = 0;
    let mut i: usize = 0;
    proof {
        assert(ranges@.take(0) =~= Seq::empty());
        assert(piece_ranges(pieces@) =~= Seq::empty());
    }
    while i < ranges.len()
        invariant
            i <= ranges@.len(),
            ranges_len(ranges@) <= u64::MAX,
            ranges_inside(ranges@, u64::MAX as int),
            in_order(pieces@),
            to == ranges_len(ranges@.take(i as int)),
            to == ranges_len(piece_ranges(pieces@)),
            forall|src: Seq<u8>| ranges_inside(ranges@, src.len() as int) ==> #[trigger] copied(
                src,
                piece_ranges(pieces@),
            ) == copied(src, ranges@.take(i as int)),
        decreases ranges.len() - i,
    {
        let (start, len) = ranges[i];
        let ghost done = ranges@.take(i as int);
        let ghost to0 = to;
        let mut left: u32 = len;
        let mut from: u64 = start;
        assert(ranges@[i as int].0 + ranges@[i as int].1 <= u64::MAX);
        proof {
            let part = ranges@.take(i + 1);
            assert(part.drop_last() =~= done);
            assert(part.last() == (start, len));
            lemma_ranges_len(ranges@, i + 1);
            assert(to0 + len <= u64::MAX);
            assert forall|src: Seq<u8>| ranges_inside(ranges@, src.len() as int) implies #[trigger] copied(
                src,
                piece_ranges(pieces@),
            ) == copied(src, done) + src.subrange(start as int, from as int) by {
                assert(ranges@[i as int].0 + ranges@[i as int].1 <= src.len());
                assert(src.subrange(start as int, start as int) =~= Seq::empty());
                assert(copied(src, done) + Seq::<u8>::empty() =~= copied(src, done));
            }
        }
        while left > 0
            invariant
                i < ranges@.len(),
                ranges@[i as int] == (start, len),
                start + len <= u64::MAX,
                left <= len,
                from == start + (len - left),
                to == to0 + (len - left),
                to0 + len <= u64::MAX,
                in_order(pieces@),
                to == ranges_len(piece_ranges(pieces@)),
                forall|src: Seq<u8>| ranges_inside(ranges@, src.len() as int) ==> #[trigger] copied(
                    src,
                    piece_ranges(pieces@),
                ) == copied(src, done) + src.subrange(start as int, from as int),
            decreases left,
        {
            let want: u32 = if left < COPY_CHUNK {
                left
            } else {
                COPY_CHUNK
            };
            let ghost before = pieces@;
            let ghost p = Piece { from, to, len: want };
            pieces.push(Piece { from, to, len: want });
            proof {
                assert(pieces@ == before.push(p));
                assert forall|k: int| 0 <= k < pieces@.len() implies 1 <= (#[trigger] pieces@[k]).len <= COPY_CHUNK
                    && pieces@[k].to == ranges_len(piece_ranges(pieces@.take(k))) by {
                    if k < before.len() {
                        assert(pieces@[k] == before[k]);
                        assert(pieces@.take(k) =~= before.take(k));
                    } else {
                        assert(pieces@.take(k) =~= before);
                    }
                }
                lemma_push_piece(Seq::empty(), before, p);
                assert forall|src: Seq<u8>| ranges_inside(ranges@, src.len() as int) implies #[trigger] copied(
                    src,
                    piece_ranges(pieces@),
                ) == copied(src, done) + src.subrange(start as int, from + want) by {
                    lemma_push_piece(src, before, p);
                    assert(copied(src, piece_ranges(before)) == copied(src, done) + src.subrange(
                        start as int,
                        from as int,
                    ));
                    assert(ranges@[i as int].0 + ranges@[i as int].1 <= src.len());
                    assert(src.subrange(start as int, from as int) + src.subrange(from as int, from + want)
                        =~= src.subrange(start as int, from + want));
                    assert(copied(src, piece_ranges(pieces@)) =~= copied(src, done) + src.subrange(
                        start as int,
                        from + want,
                    ));
                }
            }
            left = left - want;
            from = from + want as u64;
            to = to + want as u64;
        }
        i = i + 1;
        proof {
            let part = ranges@.take(i as int);
            assert(part.drop_last() =~= done);
            assert(part.last() == (start, len));
        }
    }
    assert(ranges@.take(i as int) =~= ranges@);
    pieces
}

/// Ranges are copied one after the other, each whole.
pub proof fn ranges_are_copied_in_turn(src: Seq<u8>, a: Seq<(u64, u32)>, b: Seq<(u64, u32)>, at: u64, len: u32)
    ensures
        copied(src, a + b) == copied(src, a) + copied(src, b),
        copied(src, seq![(at, len)]) == src.subrange(at as int, at + len),
        copied(src, Seq::empty()) == Seq::<u8>::empty(),
        ranges_len(a + b) == ranges_len(a) + ranges_len(b),
        ranges_len(seq![(at, len)]) == len,
        ranges_len(Seq::empty()) == 0,
    decreases b.len(),
{
    let one = seq![(at, len)];
    assert(one.drop_last() =~= Seq::empty());
    assert(copied(src, one.drop_last()) =~= Seq::<u8>::empty());
    assert(copied(src, one) =~= src.subrange(at as int, at + len));
    assert(ranges_len(one.drop_last()) == 0);
    if b.len() == 0 {
        assert(a + b =~= a);
        assert(copied(src, a) + copied(src, b) =~= copied(src, a));
    } else {
        ranges_are_copied_in_turn(src, a, b.drop_last(), at, len);
        assert((a + b).drop_last() =~= a + b.drop_last());
        assert(copied(src, a + b) =~= copied(src, a) + copied(src, b));
    }
}

} // verus!
