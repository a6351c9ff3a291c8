//! What a new version has to upload.
use vstd::prelude::*;

use crate::common::chunk_set;
use crate::common::chunk_set::ChunkSet;
use crate::common::order;
use crate::producer::chunker::ChunkMeta;
use crate::producer::manifest;
use crate::producer::manifest::{FileEntry, GameIndex};

verus! {

/// The chunks that a new version has and the old one has not.
#[derive(Debug, Clone, PartialEq, Eq)]
pub struct DeltaPlan {
    /// The hashes to upload, distinct, in the order of the new manifest.
    pub new_chunks: Vec<[u8; 32]>,
    /// How many distinct chunks of the new version the old one has.
    pub reused_chunks: usize,
    /// The number of bytes in the chunks to upload.
    pub new_bytes: u64,
}

/// The distinct chunk hashes of a version; none where there is no version.
pub open spec fn version_hashes(index: Option<&GameIndex>) -> Seq<[u8; 32]> {
    match index {
        Some(i) => chunk_set::first_occurrences(manifest::hashes_of(manifest::all_chunks(i.files@))),
        None => Seq::empty(),
    }
}

/// Whether `old` has the chunk.
pub open spec fn in_old(old: Seq<[u8; 32]>) -> spec_fn([u8; 32]) -> bool {
    |h: [u8; 32]| old.contains(h)
}

/// Whether `old` lacks the chunk.
pub open spec fn not_in_old(old: Seq<[u8; 32]>) -> spec_fn([u8; 32]) -> bool {
    |h: [u8; 32]| !old.contains(h)
}

/// The distinct chunk hashes of a version; the empty set where there is none.
pub fn version_set(index: Option<&GameIndex>) -> (set: ChunkSet)
    ensures
        set@ == version_hashes(index),
{
    match index {
        Some(i) => i.chunk_set(),
        None => ChunkSet::new(),
    }
}

/// The hashes of a version are those of the chunks of its files, each once.
pub proof fn old_chunks_are_those_of_the_version(index: Option<&GameIndex>)
    ensures
        version_hashes(index).no_duplicates(),
        forall|h: [u8; 32]| #[trigger]
            version_hashes(index).contains(h) <==> (index matches Some(o) && exists|i: int, k: int|
                0 <= i < o.files@.len() && 0 <= k < o.files@[i].chunks@.len() && (
                #[trigger] o.files@[i].chunks@[k]).hash == h),
{
    if let Some(o) = index {
        chunk_set::lemma_first_occurrences(manifest::hashes_of(manifest::all_chunks(o.files@)));
        manifest::all_chunks_are_those_of_the_files(o.files@);
        assert forall|h: [u8; 32]| #[trigger] version_hashes(index).contains(h) <==> exists|i: int, k: int|
            0 <= i < o.files@.len() && 0 <= k < o.files@[i].chunks@.len() && (#[trigger] o.files@[i].chunks@[k]).hash
                == h by {
            assert(version_hashes(index).contains(h) <==> manifest::hashes_of(
                manifest::all_chunks(o.files@),
            ).contains(h));
        }
    }
}

/// Whether this is the delta between two versions.
pub open spec fn plans_delta(plan: DeltaPlan, new: GameIndex, old: Option<&GameIndex>) -> bool {
    let chunks = manifest::all_chunks(new.files@);
    let fresh = manifest::fresh_chunks(chunks, in_old(version_hashes(old)));
    let kept = manifest::fresh_chunks(chunks, not_in_old(version_hashes(old)));
    &&& plan.new_chunks@ == manifest::hashes_of(fresh)
    &&& plan.new_bytes == manifest::total_len(fresh)
    &&& plan.reused_chunks == kept.len()
}

/// Compares a new version with the old one, if there is one. The lengths in
/// the new manifest must add up to a 64-bit number.
pub fn compute(new: &GameIndex, old: Option<&GameIndex>) -> (plan: DeltaPlan)
    requires
        manifest::total_len(manifest::all_chunks(new.files@)) <= u64::MAX,
    ensures
        plans_delta(plan, *new, old),
{
    let old_set = version_set(old);
    let chunks = new.list_chunks();
    let ghost gone = in_old(old_set@);
    let ghost known = not_in_old(old_set@);
    let mut new_chunks: Vec<[u8; 32]> = Vec::new();
    let mut seen = ChunkSet::new();
    let mut reused_chunks: usize = 0;
    let mut new_bytes: u64 = 0;
    let mut i: usize = 0;
    proof {
        assert(chunks@.take(0) =~= Seq::<ChunkMeta>::empty());
        assert(manifest::hashes_of(Seq::<ChunkMeta>::empty()) =~= Seq::empty());
    }
    while i < chunks.len()
        invariant
            i <= chunks@.len(),
            gone == in_old(old_set@),
            known == not_in_old(old_set@),
            manifest::total_len(chunks@) <= u64::MAX,
            new_chunks@ == manifest::hashes_of(manifest::fresh_chunks(chunks@.take(i as int), gone)),
            new_bytes == manifest::total_len(manifest::fresh_chunks(chunks@.take(i as int), gone)),
            reused_chunks == manifest::fresh_chunks(chunks@.take(i as int), known).len(),
            reused_chunks <= i,
            forall|h: [u8; 32]| #[trigger] seen@.contains(h) <==> manifest::hashes_of(chunks@.take(i as int)).contains(h),
        decreases chunks.len() - i,
    {
        let c = chunks[i];
        let ghost part = chunks@.take(i as int);
        let ghost next = chunks@.take(i + 1);
        let ghost seen0 = seen@;
        proof {
            assert(next.drop_last() =~= part);
            assert(next.last() == c);
            manifest::lemma_fresh_chunks(part, gone);
            manifest::lemma_fresh_chunks(part, known);
            manifest::lemma_fresh_chunks(next, gone);
            manifest::lemma_total_len_take(chunks@, i + 1);
            assert(manifest::hashes_of(next) =~= manifest::hashes_of(part).push(c.hash));
            let g0 = manifest::fresh_chunks(part, gone);
            assert(g0.push(c).drop_last() =~= g0);
            assert(manifest::hashes_of(g0.push(c)) =~= manifest::hashes_of(g0).push(c.hash));
        }
        if old_set.contains(&c.hash) {
            if seen.insert(c.hash) {
                reused_chunks = reused_chunks + 1;
            }
        } else if seen.insert(c.hash) {
            new_chunks.push(c.hash);
            new_bytes = new_bytes + c.len as u64;
        }
        proof {
            assert forall|h: [u8; 32]| #[trigger] seen@.contains(h) <==> manifest::hashes_of(next).contains(h) by {
                order::lemma_push_contains(manifest::hashes_of(part), c.hash, h);
                order::lemma_push_contains(seen0, c.hash, h);
                assert(seen0.contains(h) <==> manifest::hashes_of(part).contains(h));
                assert(seen0.contains(c.hash) <==> manifest::hashes_of(part).contains(c.hash));
            }
        }
        i = i + 1;
    }
    assert(chunks@.take(i as int) =~= chunks@);
    DeltaPlan { new_chunks, reused_chunks, new_bytes }
}

/// A chunk is uploaded exactly where a file of the new version has it and no
/// file of the old one; none is uploaded twice.
pub proof fn uploads_are_what_the_old_version_lacks(
    plan: DeltaPlan,
    new: GameIndex,
    old: Option<&GameIndex>,
    h: [u8; 32],
)
    requires
        plans_delta(plan, new, old),
    ensures
        plan.new_chunks@.no_duplicates(),
        plan.new_chunks@.contains(h) <==> (exists|i: int, k: int|
            0 <= i < new.files@.len() && 0 <= k < new.files@[i].chunks@.len() && (
            #[trigger] new.files@[i].chunks@[k]).hash == h) && !(old matches Some(o) && exists|i: int, k: int|
            0 <= i < o.files@.len() && 0 <= k < o.files@[i].chunks@.len() && (#[trigger] o.files@[i].chunks@[k]).hash
                == h),
{
    let skip = in_old(version_hashes(old));
    let chunks = manifest::all_chunks(new.files@);
    manifest::lemma_fresh_chunks(chunks, skip);
    manifest::all_chunks_are_those_of_the_files(new.files@);
    old_chunks_are_those_of_the_version(old);
    assert(plan.new_chunks@.contains(h) <==> manifest::hashes_of(chunks).contains(h) && !skip(h));
    assert(manifest::hashes_of(chunks).contains(h) <==> exists|i: int, k: int|
        0 <= i < new.files@.len() && 0 <= k < new.files@[i].chunks@.len() && (#[trigger] new.files@[i].chunks@[k]).hash
            == h);
    assert(version_hashes(old).contains(h) <==> (old matches Some(o) && exists|i: int, k: int|
        0 <= i < o.files@.len() && 0 <= k < o.files@[i].chunks@.len() && (#[trigger] o.files@[i].chunks@[k]).hash == h));
}

/// The bytes to upload are those of the chunks to upload, each once, and the chunks
/// come in the order in which the new version has them.
pub proof fn uploaded_bytes_are_counted(plan: DeltaPlan, new: GameIndex, old: Option<&GameIndex>, a: int, b: int)
    requires
        plans_delta(plan, new, old),
    ensures
        exists|metas: Seq<ChunkMeta>| #[trigger]
            manifest::total_len(metas) == plan.new_bytes && metas.len() == plan.new_chunks@.len() && forall|i: int|
                0 <= i < metas.len() ==> (#[trigger] metas[i]).hash == plan.new_chunks@[i] && manifest::all_chunks(
                    new.files@,
                ).contains(metas[i]),
        0 <= a < b < plan.new_chunks@.len() ==> exists|i: int, j: int|
            0 <= i < j < manifest::all_chunks(new.files@).len() && (#[trigger] manifest::all_chunks(new.files@)[i]).hash
                == plan.new_chunks@[a] && (#[trigger] manifest::all_chunks(new.files@)[j]).hash == plan.new_chunks@[b],
{
    let skip = in_old(version_hashes(old));
    let chunks = manifest::all_chunks(new.files@);
    let fresh = manifest::fresh_chunks(chunks, skip);
    manifest::fresh_chunks_are_first_occurrences(chunks, skip);
    assert(manifest::total_len(fresh) == plan.new_bytes);
    assert forall|i: int| 0 <= i < fresh.len() implies (#[trigger] fresh[i]).hash == plan.new_chunks@[i]
        && chunks.contains(fresh[i]) by {
        assert(manifest::hashes_of(fresh)[i] == fresh[i].hash);
        assert(fresh.contains(fresh[i]));
        let k = choose|k: int|
            0 <= k < chunks.len() && #[trigger] chunks[k] == fresh[i] && forall|m: int|
                0 <= m < k ==> (#[trigger] chunks[m]).hash != fresh[i].hash;
        assert(chunks[k] == fresh[i]);
    }
    if 0 <= a < b < plan.new_chunks@.len() {
        let (i, j) = choose|i: int, j: int|
            0 <= i < j < chunks.len() && #[trigger] chunks[i] == fresh[a] && #[trigger] chunks[j] == fresh[b];
        assert(chunks[i].hash == plan.new_chunks@[a] && chunks[j].hash == plan.new_chunks@[b]);
    }
}

/// What is reused is counted right: the hashes that both versions have, each
/// once, are as many as the plan says.
pub proof fn reused_chunks_are_in_both(
    plan: DeltaPlan,
    new: GameIndex,
    old: Option<&GameIndex>,
    both: Seq<[u8; 32]>,
)
    requires
        plans_delta(plan, new, old),
        both.no_duplicates(),
        forall|h: [u8; 32]| #[trigger]
            both.contains(h) <==> (exists|i: int, k: int|
                0 <= i < new.files@.len() && 0 <= k < new.files@[i].chunks@.len() && (
                #[trigger] new.files@[i].chunks@[k]).hash == h) && (old matches Some(o) && exists|i: int, k: int|
                0 <= i < o.files@.len() && 0 <= k < o.files@[i].chunks@.len() && (
                #[trigger] o.files@[i].chunks@[k]).hash == h),
    ensures
        plan.reused_chunks == both.len(),
{
    let skip = not_in_old(version_hashes(old));
    let chunks = manifest::all_chunks(new.files@);
    let kept = manifest::fresh_chunks(chunks, skip);
    manifest::lemma_fresh_chunks(chunks, skip);
    manifest::all_chunks_are_those_of_the_files(new.files@);
    old_chunks_are_those_of_the_version(old);
    let hashes = manifest::hashes_of(kept);
    assert(both.to_set() =~= hashes.to_set()) by {
        assert forall|h: [u8; 32]| both.to_set().contains(h) <==> hashes.to_set().contains(h) by {
            assert(both.to_set().contains(h) <==> both.contains(h));
            assert(hashes.to_set().contains(h) <==> hashes.contains(h));
            assert(hashes.contains(h) <==> manifest::hashes_of(chunks).contains(h) && !skip(h));
            assert(manifest::hashes_of(chunks).contains(h) <==> exists|i: int, k: int|
                0 <= i < new.files@.len() && 0 <= k < new.files@[i].chunks@.len() && (
                #[trigger] new.files@[i].chunks@[k]).hash == h);
            assert(version_hashes(old).contains(h) <==> (old matches Some(o) && exists|i: int, k: int|
                0 <= i < o.files@.len() && 0 <= k < o.files@[i].chunks@.len() && (
                #[trigger] o.files@[i].chunks@[k]).hash == h));
        }
    }
    both.unique_seq_to_set();
    hashes.unique_seq_to_set();
}

/// A delta is exactly what the old version lacks: no hash twice, none that the
/// old version has, and every chunk of the new version is in the delta or in
/// the old version.
pub proof fn delta_is_difference(files: Seq<FileEntry>, old: Seq<[u8; 32]>)
    ensures
        ({
            let fresh = manifest::hashes_of(manifest::fresh_chunks(manifest::all_chunks(files), in_old(old)));
            &&& fresh.no_duplicates()
            &&& forall|h: [u8; 32]| #[trigger] fresh.contains(h) ==> !old.contains(h)
            &&& forall|h: [u8; 32]| #[trigger]
                manifest::hashes_of(manifest::all_chunks(files)).contains(h) ==> fresh.contains(h) || old.contains(h)
        }),
{
    manifest::lemma_fresh_chunks(manifest::all_chunks(files), in_old(old));
}

/// New and reused chunks together are the distinct chunks of the new version.
pub proof fn delta_counts_add_up(files: Seq<FileEntry>, old: Seq<[u8; 32]>)
    ensures
        manifest::fresh_chunks(manifest::all_chunks(files), in_old(old)).len() + manifest::fresh_chunks(
            manifest::all_chunks(files),
            not_in_old(old),
        ).len() == chunk_set::first_occurrences(manifest::hashes_of(manifest::all_chunks(files))).len(),
{
    lemma_counts(manifest::all_chunks(files), old);
}

proof fn lemma_counts(chunks: Seq<ChunkMeta>, old: Seq<[u8; 32]>)
    ensures
        manifest::fresh_chunks(chunks, in_old(old)).len() + manifest::fresh_chunks(chunks, not_in_old(old)).len()
            == chunk_set::first_occurrences(manifest::hashes_of(chunks)).len(),
    decreases chunks.len(),
{
    if chunks.len() > 0 {
        let init = chunks.drop_last();
        let h = chunks.last().hash;
        lemma_counts(init, old);
        manifest::lemma_fresh_chunks(init, in_old(old));
        manifest::lemma_fresh_chunks(init, not_in_old(old));
        chunk_set::lemma_first_occurrences(manifest::hashes_of(init));
        assert(manifest::hashes_of(chunks).drop_last() =~= manifest::hashes_of(init));
        assert(chunk_set::first_occurrences(manifest::hashes_of(init)).contains(h) <==> manifest::hashes_of(
            init,
        ).contains(h));
    } else {
        assert(manifest::hashes_of(chunks) =~= Seq::empty());
    }
}

} // verus!
