//! Content-defined chunks of game files.
use vstd::prelude::*;

use crate::common::chunk_set::ChunkSet;
use crate::common::digest;
use crate::common::order;
use crate::common::path;
use crate::common::path::PathParts;
use crate::common::text;
use crate::origin::storage;
use crate::producer::config::ChunkParams;
use crate::producer::manifest;

verus! {

broadcast use vstd::array::group_array_axioms;

/// One chunk of a file: the hash of its bytes and their number.
#[derive(Debug, Clone, Copy, PartialEq, Eq)]
pub struct ChunkMeta {
    pub hash: [u8; 32],
    pub len: u32,
}

impl View for ChunkMeta {
    type V = (Seq<u8>, u32);

    open spec fn view(&self) -> (Seq<u8>, u32) {
        (self.hash@, self.len)
    }
}

/// The error of the FastCDC chunker.
#[verifier::external_type_specification]
#[verifier::external_body]
pub struct ExCdcError(fastcdc::v2020::Error);

/// The chunks that FastCDC cuts data into.
pub uninterp spec fn cdc_chunks(data: Seq<u8>, min_size: usize, avg_size: usize, max_size: usize) -> Seq<Seq<u8>>;

/// The pieces, one after the other.
pub open spec fn joined(pieces: Seq<Seq<u8>>) -> Seq<u8>
    decreases pieces.len(),
{
    if pieces.len() == 0 {
        Seq::empty()
    } else {
        joined(pieces.drop_last()) + pieces.last()
    }
}

/// Joined pieces are their bytes in their order, and nothing between them.
pub proof fn pieces_are_joined_in_order(pieces: Seq<Seq<u8>>)
    ensures
        joined(pieces) == pieces.flatten(),
    decreases pieces.len(),
{
    if pieces.len() == 0 {
        assert(pieces.flatten() =~= Seq::empty());
    } else {
        pieces_are_joined_in_order(pieces.drop_last());
        pieces.lemma_flatten_and_flatten_alt_are_equivalent();
        pieces.drop_last().lemma_flatten_and_flatten_alt_are_equivalent();
        assert(pieces.flatten_alt() == pieces.drop_last().flatten_alt() + pieces.last());
    }
}

/// The sizes that FastCDC takes.
pub open spec fn sizes_fit(p: ChunkParams) -> bool {
    &&& 64 <= p.min_size <= 1_048_576
    &&& 256 <= p.avg_size <= 4_194_304
    &&& 1024 <= p.max_size <= 16_777_216
    &&& p.min_size <= p.avg_size <= p.max_size
    &&& p.min_size % 2 == 0
    &&& p.avg_size % 2 == 0
    &&& p.max_size % 2 == 0
}

/// Runs `fastcdc::v2020::StreamCDC` over the data to its end. It does not fail
/// on data in memory. Its chunks depend on the data and the sizes alone; they
/// are not empty, not larger than the largest size, and make up the data. Where
/// it cuts is left unsaid.
#[verifier::external_body]
fn cdc_cut(data: &[u8], params: &ChunkParams) -> (r: Result<Vec<Vec<u8>>, fastcdc::v2020::Error>)
    requires
        sizes_fit(*params),
    ensures
        r is Ok,
        text::byte_views(r->Ok_0@) == cdc_chunks(data@, params.min_size, params.avg_size, params.max_size),
        joined(text::byte_views(r->Ok_0@)) == data@,
        forall|i: int| 0 <= i < r->Ok_0@.len() ==> 0 < (#[trigger] r->Ok_0@[i])@.len() <= params.max_size,
{
    fastcdc::v2020::StreamCDC::new(data, params.min_size, params.avg_size, params.max_size).map(
        |item| item.map(|chunk| chunk.data),
    ).collect()
}

/// What is known of the chunks of a file.
#[derive(Debug)]
pub struct Chunked {
    /// The chunks in order.
    pub metas: Vec<ChunkMeta>,
    /// The chunks to stage, under their hashes.
    pub staged: Vec<([u8; 32], Vec<u8>)>,
}

/// The hash and the number of bytes of a piece.
pub open spec fn describes(meta: ChunkMeta, piece: Seq<u8>) -> bool {
    meta.hash@ == digest::blake3_digest(piece) && meta.len == storage::low32(piece.len())
}

/// `seen` and then each hash that it lacks, once.
pub open spec fn now_seen(seen: Seq<[u8; 32]>, metas: Seq<ChunkMeta>) -> Seq<[u8; 32]>
    decreases metas.len(),
{
    if metas.len() == 0 {
        seen
    } else {
        let before = now_seen(seen, metas.drop_last());
        if before.contains(metas.last().hash) {
            before
        } else {
            before.push(metas.last().hash)
        }
    }
}

/// The pieces whose hashes had not been seen, each under its hash.
pub open spec fn fresh_pieces(seen: Seq<[u8; 32]>, metas: Seq<ChunkMeta>, pieces: Seq<Seq<u8>>) -> Seq<
    (Seq<u8>, Seq<u8>),
>
    decreases metas.len(),
{
    if metas.len() == 0 {
        Seq::empty()
    } else {
        let before = fresh_pieces(seen, metas.drop_last(), pieces.drop_last());
        if now_seen(seen, metas.drop_last()).contains(metas.last().hash) {
            before
        } else {
            before.push((metas.last().hash@, pieces.last()))
        }
    }
}

/// What staged chunks say.
pub open spec fn staged_views(staged: Seq<([u8; 32], Vec<u8>)>) -> Seq<(Seq<u8>, Seq<u8>)> {
    staged.map_values(|s: ([u8; 32], Vec<u8>)| (s.0@, s.1@))
}

/// Afterwards exactly those hashes count as seen that did before or that a
/// chunk has.
pub proof fn seen_are_old_and_new(seen: Seq<[u8; 32]>, metas: Seq<ChunkMeta>)
    ensures
        forall|h: [u8; 32]| #[trigger]
            now_seen(seen, metas).contains(h) <==> seen.contains(h) || exists|i: int|
                0 <= i < metas.len() && (#[trigger] metas[i]).hash == h,
    decreases metas.len(),
{
    if metas.len() > 0 {
        let init = metas.drop_last();
        let c = metas.last();
        seen_are_old_and_new(seen, init);
        assert forall|h: [u8; 32]| #[trigger] now_seen(seen, metas).contains(h) <==> seen.contains(h) || exists|i: int|
            0 <= i < metas.len() && (#[trigger] metas[i]).hash == h by {
            let before = now_seen(seen, init);
            order::lemma_push_contains(before, c.hash, h);
            assert(before.contains(h) <==> seen.contains(h) || exists|i: int|
                0 <= i < init.len() && (#[trigger] init[i]).hash == h);
            if exists|i: int| 0 <= i < init.len() && (#[trigger] init[i]).hash == h {
                let i = choose|i: int| 0 <= i < init.len() && (#[trigger] init[i]).hash == h;
                assert(metas[i].hash == h);
            }
            if c.hash == h {
                assert(metas[metas.len() - 1].hash == h);
            }
            if exists|i: int| 0 <= i < metas.len() && (#[trigger] metas[i]).hash == h {
                let i = choose|i: int| 0 <= i < metas.len() && (#[trigger] metas[i]).hash == h;
                if i < init.len() {
                    assert(init[i].hash == h);
                }
            }
        }
    }
}

/// Pieces are staged in their order, and hashes count as seen in theirs: a piece
/// whose hash is new goes to the end of both lists, any other changes neither.
pub proof fn pieces_are_staged_in_turn(
    seen: Seq<[u8; 32]>,
    metas: Seq<ChunkMeta>,
    pieces: Seq<Seq<u8>>,
    m: ChunkMeta,
    piece: Seq<u8>,
)
    requires
        metas.len() == pieces.len(),
    ensures
        now_seen(seen, Seq::empty()) == seen,
        fresh_pieces(seen, Seq::empty(), Seq::empty()) == Seq::<(Seq<u8>, Seq<u8>)>::empty(),
        if seen.contains(m.hash) || (exists|i: int| 0 <= i < metas.len() && (#[trigger] metas[i]).hash == m.hash) {
            &&& now_seen(seen, metas.push(m)) == now_seen(seen, metas)
            &&& fresh_pieces(seen, metas.push(m), pieces.push(piece)) == fresh_pieces(seen, metas, pieces)
        } else {
            &&& now_seen(seen, metas.push(m)) == now_seen(seen, metas).push(m.hash)
            &&& fresh_pieces(seen, metas.push(m), pieces.push(piece)) == fresh_pieces(seen, metas, pieces).push(
                (m.hash@, piece),
            )
        },
{
    assert(metas.push(m).drop_last() =~= metas);
    assert(pieces.push(piece).drop_last() =~= pieces);
    seen_are_old_and_new(seen, metas);
    assert(now_seen(seen, metas).contains(m.hash) <==> seen.contains(m.hash) || exists|i: int|
        0 <= i < metas.len() && (#[trigger] metas[i]).hash == m.hash);
}

/// What staged chunks say, one by one.
pub proof fn staged_chunks_say_all(staged: Seq<([u8; 32], Vec<u8>)>, k: int)
    requires
        0 <= k < staged.len(),
    ensures
        staged_views(staged).len() == staged.len(),
        staged_views(staged)[k] == (staged[k].0@, staged[k].1@),
{
}

/// Every chunk is available: its hash had been seen before, or a piece is
/// staged under it.
pub proof fn unseen_pieces_are_staged(seen: Seq<[u8; 32]>, metas: Seq<ChunkMeta>, pieces: Seq<Seq<u8>>, i: int)
    requires
        metas.len() == pieces.len(),
        0 <= i < metas.len(),
    ensures
        seen.contains(metas[i].hash) || exists|k: int|
            0 <= k < fresh_pieces(seen, metas, pieces).len() && (#[trigger] fresh_pieces(seen, metas, pieces)[k]).0
                == metas[i].hash@,
    decreases metas.len(),
{
    let init = metas.drop_last();
    let rest = pieces.drop_last();
    let before = fresh_pieces(seen, init, rest);
    let after = fresh_pieces(seen, metas, pieces);
    let h = metas[i].hash;
    seen_are_old_and_new(seen, init);
    if !seen.contains(h) {
        if i == init.len() && !now_seen(seen, init).contains(h) {
            assert(after[before.len() as int].0 == h@);
        } else {
            let j = if i < init.len() {
                i
            } else {
                choose|j: int| 0 <= j < init.len() && (#[trigger] init[j]).hash == h
            };
            assert(init[j].hash == h);
            unseen_pieces_are_staged(seen, init, rest, j);
            let k = choose|k: int| 0 <= k < before.len() && (#[trigger] before[k]).0 == h@;
            assert(after[k].0 == h@);
        }
    }
}

/// Only unseen pieces are staged, each under its hash and only the first with
/// that hash.
pub proof fn staged_pieces_are_unseen(seen: Seq<[u8; 32]>, metas: Seq<ChunkMeta>, pieces: Seq<Seq<u8>>)
    requires
        metas.len() == pieces.len(),
    ensures
        forall|k: int| 0 <= k < fresh_pieces(seen, metas, pieces).len() ==> exists|i: int|
            0 <= i < metas.len() && #[trigger] fresh_pieces(seen, metas, pieces)[k] == (
                (#[trigger] metas[i]).hash@,
                pieces[i],
            ) && !seen.contains(metas[i].hash) && forall|m: int|
                0 <= m < i ==> (#[trigger] metas[m]).hash != metas[i].hash,
        forall|a: int, b: int|
            0 <= a < b < fresh_pieces(seen, metas, pieces).len() ==> (#[trigger] fresh_pieces(
                seen,
                metas,
                pieces,
            )[a]).0 != (#[trigger] fresh_pieces(seen, metas, pieces)[b]).0,
    decreases metas.len(),
{
    if metas.len() > 0 {
        let init = metas.drop_last();
        let rest = pieces.drop_last();
        let before = fresh_pieces(seen, init, rest);
        let after = fresh_pieces(seen, metas, pieces);
        let last = metas.len() - 1;
        staged_pieces_are_unseen(seen, init, rest);
        seen_are_old_and_new(seen, init);
        assert forall|k: int| 0 <= k < after.len() implies exists|i: int|
            0 <= i < metas.len() && #[trigger] after[k] == ((#[trigger] metas[i]).hash@, pieces[i]) && !seen.contains(
                metas[i].hash,
            ) && forall|m: int| 0 <= m < i ==> (#[trigger] metas[m]).hash != metas[i].hash by {
            if k < before.len() {
                assert(after[k] == before[k]);
                let i = choose|i: int|
                    0 <= i < init.len() && before[k] == ((#[trigger] init[i]).hash@, rest[i]) && !seen.contains(
                        init[i].hash,
                    ) && forall|m: int| 0 <= m < i ==> (#[trigger] init[m]).hash != init[i].hash;
                assert(metas[i] == init[i] && pieces[i] == rest[i]);
                assert forall|m: int| 0 <= m < i implies (#[trigger] metas[m]).hash != metas[i].hash by {
                    assert(init[m].hash != init[i].hash);
                }
            } else {
                assert(after[k] == (metas[last].hash@, pieces[last]));
                assert forall|m: int| 0 <= m < last implies (#[trigger] metas[m]).hash != metas[last].hash by {
                    assert(init[m].hash == metas[m].hash);
                }
            }
        }
        assert forall|a: int, b: int| 0 <= a < b < after.len() implies (#[trigger] after[a]).0 != (
        #[trigger] after[b]).0 by {
            assert(after[a] == before[a]);
            if b < before.len() {
                assert(after[b] == before[b]);
            } else {
                let i = choose|i: int|
                    0 <= i < init.len() && before[a] == ((#[trigger] init[i]).hash@, rest[i]) && !seen.contains(
                        init[i].hash,
                    ) && forall|m: int| 0 <= m < i ==> (#[trigger] init[m]).hash != init[i].hash;
                if init[i].hash@ == metas[last].hash@ {
                    assert(init[i].hash =~= metas[last].hash);
                    assert(now_seen(seen, init).contains(metas[last].hash));
                }
            }
        }
    }
}

proof fn lemma_staged(
    seen: Seq<[u8; 32]>,
    metas: Seq<ChunkMeta>,
    pieces: Seq<Vec<u8>>,
    staged: Seq<([u8; 32], Vec<u8>)>,
)
    requires
        metas.len() == pieces.len(),
        forall|i: int| 0 <= i < pieces.len() ==> describes(#[trigger] metas[i], pieces[i]@),
        staged_views(staged) == fresh_pieces(seen, metas, text::byte_views(pieces)),
    ensures
        forall|h: [u8; 32]| #[trigger]
            now_seen(seen, metas).contains(h) && !seen.contains(h) ==> exists|k: int|
                0 <= k < staged.len() && (#[trigger] staged[k]).0 == h,
        forall|k: int| 0 <= k < staged.len() ==> !seen.contains((#[trigger] staged[k]).0) && exists|i: int|
            0 <= i < metas.len() && (#[trigger] metas[i]).hash == staged[k].0 && pieces[i]@ == staged[k].1@,
        forall|a: int, b: int|
            0 <= a < b < staged.len() ==> (#[trigger] staged[a]).0 != (#[trigger] staged[b]).0,
{
    let views = text::byte_views(pieces);
    let fresh = fresh_pieces(seen, metas, views);
    assert forall|h: [u8; 32]| #[trigger] now_seen(seen, metas).contains(h) && !seen.contains(h) implies exists|k: int|
        0 <= k < staged.len() && (#[trigger] staged[k]).0 == h by {
        seen_are_old_and_new(seen, metas);
        let i = choose|i: int| 0 <= i < metas.len() && (#[trigger] metas[i]).hash == h;
        unseen_pieces_are_staged(seen, metas, views, i);
        let k = choose|k: int| 0 <= k < fresh.len() && (#[trigger] fresh[k]).0 == h@;
        assert(staged_views(staged)[k] == (staged[k].0@, staged[k].1@));
        assert(staged[k].0 =~= h);
    }
    staged_pieces_are_unseen(seen, metas, views);
    assert forall|k: int| 0 <= k < staged.len() implies !seen.contains((#[trigger] staged[k]).0) && exists|i: int|
        0 <= i < metas.len() && (#[trigger] metas[i]).hash == staged[k].0 && pieces[i]@ == staged[k].1@ by {
        assert(staged_views(staged)[k] == (staged[k].0@, staged[k].1@));
        let i = choose|i: int|
            0 <= i < metas.len() && fresh[k] == ((#[trigger] metas[i]).hash@, views[i]) && !seen.contains(metas[i].hash)
                && forall|m: int| 0 <= m < i ==> (#[trigger] metas[m]).hash != metas[i].hash;
        assert(staged[k].0 =~= metas[i].hash);
        assert(views[i] == pieces[i]@);
    }
    assert forall|a: int, b: int| 0 <= a < b < staged.len() implies (#[trigger] staged[a]).0 != (
    #[trigger] staged[b]).0 by {
        assert(staged_views(staged)[a] == (staged[a].0@, staged[a].1@));
        assert(staged_views(staged)[b] == (staged[b].0@, staged[b].1@));
        assert(fresh[a].0 != fresh[b].0);
    }
}

/// Describes the pieces of a file. With `stage`, a piece whose hash had not
/// been seen is staged, and the hash counts as seen from then on.
pub fn describe_chunks(pieces: Vec<Vec<u8>>, stage: bool, seen: &mut ChunkSet) -> (out: Chunked)
    ensures
        out.metas@.len() == pieces@.len(),
        forall|i: int| 0 <= i < pieces@.len() ==> describes(#[trigger] out.metas@[i], pieces@[i]@),
        forall|i: int|
            0 <= i < pieces@.len() ==> (#[trigger] out.metas@[i]).hash@ == digest::blake3_digest(pieces@[i]@)
                && out.metas@[i].len as int == pieces@[i]@.len() as int % 0x1_0000_0000,
        stage ==> final(seen)@ == now_seen(old(seen)@, out.metas@) && staged_views(out.staged@) == fresh_pieces(
            old(seen)@,
            out.metas@,
            text::byte_views(pieces@),
        ),
        !stage ==> final(seen)@ == old(seen)@ && out.staged@.len() == 0,
        stage ==> {
            &&& forall|h: [u8; 32]| #[trigger]
                final(seen)@.contains(h) <==> old(seen)@.contains(h) || exists|i: int|
                    0 <= i < out.metas@.len() && (#[trigger] out.metas@[i]).hash == h
            &&& forall|h: [u8; 32]| #[trigger]
                final(seen)@.contains(h) && !old(seen)@.contains(h) ==> exists|k: int|
                    0 <= k < out.staged@.len() && (#[trigger] out.staged@[k]).0 == h
            &&& forall|k: int| 0 <= k < out.staged@.len() ==> !old(seen)@.contains((#[trigger] out.staged@[k]).0)
                && exists|i: int|
                0 <= i < out.metas@.len() && (#[trigger] out.metas@[i]).hash == out.staged@[k].0 && pieces@[i]@
                    == out.staged@[k].1@
            &&& forall|a: int, b: int|
                0 <= a < b < out.staged@.len() ==> (#[trigger] out.staged@[a]).0 != (#[trigger] out.staged@[b]).0
        },
{
    let ghost seen0 = seen@;
    let ghost views = text::byte_views(pieces@);
    let mut metas: Vec<ChunkMeta> = Vec::new();
    let mut staged: Vec<([u8; 32], Vec<u8>)> = Vec::new();
    let mut i: usize = 0;
    assert(staged_views(staged@) =~= Seq::empty());
    while i < pieces.len()
        invariant
            i <= pieces@.len(),
            views == text::byte_views(pieces@),
            metas@.len() == i,
            forall|k: int| 0 <= k < i ==> describes(#[trigger] metas@[k], pieces@[k]@),
            stage ==> seen@ == now_seen(seen0, metas@) && staged_views(staged@) == fresh_pieces(
                seen0,
                metas@,
                views.take(i as int),
            ),
            !stage ==> seen@ == seen0 && staged@.len() == 0,
        decreases pieces.len() - i,
    {
        let piece = &pieces[i];
        let hash = digest::blake3_hash(piece.as_slice());
        let ghost metas0 = metas@;
        let ghost staged0 = staged@;
        metas.push(ChunkMeta { hash, len: storage::length32(piece.len()) });
        proof {
            assert(metas@.drop_last() =~= metas0);
            assert(views.take(i + 1).drop_last() =~= views.take(i as int));
            assert(views.take(i + 1).last() == piece@);
        }
        if stage {
            if seen.insert(hash) {
                staged.push((hash, vstd::slice::slice_to_vec(piece.as_slice())));
                assert(staged_views(staged@) =~= staged_views(staged0).push((hash@, piece@)));
            }
        }
        i = i + 1;
    }
    assert(views.take(i as int) =~= views);
    proof {
        if stage {
            lemma_staged(seen0, metas@, pieces@, staged@);
            seen_are_old_and_new(seen0, metas@);
        }
    }
    Chunked { metas, staged }
}

/// Cuts the content of a file into chunks and describes them.
pub fn chunk_file(data: &[u8], params: &ChunkParams, stage: bool, seen: &mut ChunkSet) -> (out: Chunked)
    requires
        sizes_fit(*params),
    ensures
        ({
            let pieces = cdc_chunks(data@, params.min_size, params.avg_size, params.max_size);
            &&& out.metas@.len() == pieces.len()
            &&& forall|i: int| 0 <= i < pieces.len() ==> describes(#[trigger] out.metas@[i], pieces[i])
            &&& forall|i: int|
                0 <= i < pieces.len() ==> (#[trigger] out.metas@[i]).hash@ == digest::blake3_digest(pieces[i])
                    && out.metas@[i].len as int == pieces[i].len() as int % 0x1_0000_0000
            &&& stage ==> final(seen)@ == now_seen(old(seen)@, out.metas@) && staged_views(out.staged@)
                == fresh_pieces(old(seen)@, out.metas@, pieces)
            &&& !stage ==> final(seen)@ == old(seen)@ && out.staged@.len() == 0
            &&& joined(pieces) == data@
            &&& manifest::total_len(out.metas@) == data@.len()
        }),
        stage ==> {
            &&& forall|h: [u8; 32]| #[trigger]
                final(seen)@.contains(h) <==> old(seen)@.contains(h) || exists|i: int|
                    0 <= i < out.metas@.len() && (#[trigger] out.metas@[i]).hash == h
            &&& forall|h: [u8; 32]| #[trigger]
                final(seen)@.contains(h) && !old(seen)@.contains(h) ==> exists|k: int|
                    0 <= k < out.staged@.len() && (#[trigger] out.staged@[k]).0 == h
            &&& forall|k: int| 0 <= k < out.staged@.len() ==> !old(seen)@.contains((#[trigger] out.staged@[k]).0)
                && exists|i: int|
                0 <= i < out.metas@.len() && (#[trigger] out.metas@[i]).hash == out.staged@[k].0
                    && cdc_chunks(data@, params.min_size, params.avg_size, params.max_size)[i] == out.staged@[k].1@
            &&& forall|a: int, b: int|
                0 <= a < b < out.staged@.len() ==> (#[trigger] out.staged@[a]).0 != (#[trigger] out.staged@[b]).0
        },
{
    let pieces = cdc_cut(data, params).unwrap();
    let ghost views = text::byte_views(pieces@);
    let out = describe_chunks(pieces, stage, seen);
    proof {
        assert forall|i: int| 0 <= i < views.len() implies out.metas@[i].len == (#[trigger] views[i]).len() by {
            assert(describes(out.metas@[i], pieces@[i]@));
        }
        lemma_joined_len(views, out.metas@);
        let cut = cdc_chunks(data@, params.min_size, params.avg_size, params.max_size);
        if stage {
            assert forall|k: int| 0 <= k < out.staged@.len() implies exists|i: int|
                0 <= i < out.metas@.len() && (#[trigger] out.metas@[i]).hash == (#[trigger] out.staged@[k]).0 && cut[i]
                    == out.staged@[k].1@ by {
                let i = choose|i: int|
                    0 <= i < out.metas@.len() && (#[trigger] out.metas@[i]).hash == out.staged@[k].0 && pieces@[i]@
                        == out.staged@[k].1@;
                assert(views[i] == pieces@[i]@);
            }
        }
    }
    out
}

/// Chunks that describe pieces count their bytes.
pub proof fn lemma_joined_len(pieces: Seq<Seq<u8>>, metas: Seq<ChunkMeta>)
    requires
        metas.len() == pieces.len(),
        forall|i: int| 0 <= i < pieces.len() ==> metas[i].len == (#[trigger] pieces[i]).len(),
    ensures
        manifest::total_len(metas) == joined(pieces).len(),
    decreases pieces.len(),
{
    if pieces.len() > 0 {
        let init = pieces.drop_last();
        assert forall|i: int| 0 <= i < init.len() implies metas.drop_last()[i].len == (#[trigger] init[i]).len() by {
            assert(init[i] == pieces[i]);
        }
        assert(metas.last().len == pieces[pieces.len() - 1].len());
        lemma_joined_len(init, metas.drop_last());
    }
}

/// Bytes as lower-case hexadecimal digits.
pub fn hex(data: &[u8]) -> (digits: String)
    ensures
        digits@ == crate::common::hex::hex_spec(data@),
{
    crate::common::hex::hex(data)
}

/// What to do with an entry of a directory.
#[derive(Debug, Clone, Copy, PartialEq, Eq, Structural)]
pub enum Visit {
    /// List the file.
    File,
    /// Look into the directory.
    Descend,
    /// Pass over it.
    Skip,
}

/// What to do with an entry of a directory.
pub fn visit(is_file: bool, is_dir: bool) -> (v: Visit)
    ensures
        v == (if is_file {
            Visit::File
        } else if is_dir {
            Visit::Descend
        } else {
            Visit::Skip
        }),
{
    match (is_file, is_dir) {
        (true, _) => Visit::File,
        (false, true) => Visit::Descend,
        (false, false) => Visit::Skip,
    }
}

/// A directory that could not be read.
#[derive(Debug, PartialEq, Eq)]
pub struct UnreadableDir {
    pub dir: String,
}

impl UnreadableDir {
    /// What to tell a user.
    pub fn message(&self) -> (out: String)
        ensures
            out@ == "读取目录失败: "@ + self.dir@,
    {
        text::join2("读取目录失败: ", self.dir.as_str())
    }
}

/// The relative paths of the files below a directory, in order. `found` holds
/// them as they were found, or the directory that could not be read.
pub fn list_files(found: Result<Vec<PathParts>, String>) -> (files: Result<Vec<PathParts>, UnreadableDir>)
    ensures
        match (found, files) {
            (Ok(list), Ok(sorted)) => path::paths_sorted(path::path_views(sorted@)) && path::path_views(
                sorted@,
            ).to_multiset() == path::path_views(list@).to_multiset(),
            (Err(dir), Err(e)) => e.dir == dir,
            _ => false,
        },
{
    match found {
        Ok(list) => Ok(path::sort_paths(list)),
        Err(dir) => Err(UnreadableDir { dir }),
    }
}

} // verus!
