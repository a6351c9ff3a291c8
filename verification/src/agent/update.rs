//! Bringing the files of a game to another version.
use vstd::prelude::*;
use vstd::utf8::*;

use crate::agent::cafe_store;
use crate::common::chunk_set;
use crate::common::chunk_set::ChunkSet;
use crate::common::digest;
use crate::common::digest::FileHasher;
use crate::common::hex;
use crate::common::order;
use crate::common::text;
use crate::common::update_plan;
use crate::common::update_plan::UpdatePlan;
use crate::producer::chunker;
use crate::producer::chunker::ChunkMeta;
use crate::producer::manifest;
use crate::producer::manifest::{FileEntry, GameIndex, ManifestError};

verus! {

broadcast use vstd::array::group_array_axioms;

/// What a merge did.
#[derive(Debug, PartialEq, Eq)]
pub struct MergeSummary {
    /// How many files were written.
    pub merged: usize,
    /// How many files were deleted.
    pub deleted: usize,
    /// The files that could not be written, with the reason.
    pub failed: Vec<String>,
}

impl Default for MergeSummary {
    fn default() -> (s: Self)
        ensures
            s.merged == 0,
            s.deleted == 0,
            s.failed@.len() == 0,
    {
        MergeSummary { merged: 0, deleted: 0, failed: Vec::new() }
    }
}

/// Whether a file name is `<hash in hexadecimal>.blk`.
pub open spec fn names_block(name: Seq<u8>, hash: Seq<u8>) -> bool {
    text::ends(name, seq![46u8, 98, 108, 107]) && hex::spells(name.take(name.len() - 4), hash)
}

/// Whether one of the names is that of the chunk's block.
pub open spec fn lists_block(names: Seq<String>, hash: [u8; 32]) -> bool {
    exists|i: int| 0 <= i < names.len() && names_block(encode_utf8((#[trigger] names[i])@), hash@)
}

/// The hash in the file name of a temporary block.
pub fn block_hash(name: &str) -> (hash: Option<[u8; 32]>)
    ensures
        match hash {
            Some(h) => names_block(encode_utf8(name@), h@),
            None => forall|h: [u8; 32]| !#[trigger] names_block(encode_utf8(name@), h@),
        },
{
    let b = name.as_bytes();
    let suffix: [u8; 4] = [46, 98, 108, 107];
    assert(suffix@ =~= seq![46u8, 98, 108, 107]);
    if !text::bytes_end(b, suffix.as_slice()) {
        return None;
    }
    let stem = vstd::slice::slice_subrange(b, 0, b.len() - 4);
    assert(stem@ =~= b@.take(b@.len() - 4));
    let hash = hex::parse_hex_bytes(stem);
    proof {
        if hash is None {
            assert forall|h: [u8; 32]| !#[trigger] names_block(encode_utf8(name@), h@) by {
                if names_block(b@, h@) {
                    assert forall|i: int| 0 <= i < 32 implies (#[trigger] hex::hex_pair_value(
                        stem@[2 * i],
                        stem@[2 * i + 1],
                    )) is Some by {
                        assert(hex::hex_pair_value(stem@[2 * i], stem@[2 * i + 1]) == Some(h@[i]));
                    }
                }
            }
        }
    }
    hash
}

proof fn lemma_spells_unique(b: Seq<u8>, h: [u8; 32], g: [u8; 32])
    requires
        hex::spells(b, h@),
        hex::spells(b, g@),
    ensures
        h == g,
{
    assert forall|i: int| 0 <= i < 32 implies h@[i] == g@[i] by {
        assert(hex::hex_pair_value(b[2 * i], b[2 * i + 1]) == Some(h@[i]));
    }
    assert(h =~= g);
}

/// The chunks that are in the temporary directory, given its file names.
pub fn collect_temp_hashes(names: &Vec<String>) -> (set: ChunkSet)
    ensures
        forall|h: [u8; 32]| #[trigger] set@.contains(h) <==> lists_block(names@, h),
        forall|h: [u8; 32]| #[trigger]
            set@.contains(h) <==> exists|i: int|
                0 <= i < names@.len() && names_block(encode_utf8((#[trigger] names@[i])@), h@),
{
    let mut set = ChunkSet::new();
    let mut i: usize = 0;
    while i < names.len()
        invariant
            i <= names@.len(),
            forall|h: [u8; 32]| #[trigger] set@.contains(h) <==> lists_block(names@.take(i as int), h),
        decreases names.len() - i,
    {
        let ghost before = set@;
        let ghost part = names@.take(i as int);
        let ghost next = names@.take(i + 1);
        let name = names[i].as_str();
        proof {
            assert forall|h: [u8; 32]| lists_block(next, h) <==> lists_block(part, h) || names_block(
                encode_utf8(name@),
                h@,
            ) by {
                if lists_block(part, h) {
                    let k = choose|k: int| 0 <= k < part.len() && names_block(encode_utf8((#[trigger] part[k])@), h@);
                    assert(next[k] == part[k]);
                }
                if names_block(encode_utf8(name@), h@) {
                    assert(next[i as int]@ == name@);
                }
                if lists_block(next, h) && !names_block(encode_utf8(name@), h@) {
                    let k = choose|k: int| 0 <= k < next.len() && names_block(encode_utf8((#[trigger] next[k])@), h@);
                    assert(part[k] == next[k]);
                }
            }
        }
        match block_hash(name) {
            None => {
                assert forall|h: [u8; 32]| #[trigger] set@.contains(h) <==> lists_block(next, h) by {
                    assert(!names_block(encode_utf8(name@), h@));
                    assert(before.contains(h) <==> lists_block(part, h));
                }
            },
            Some(hash) => {
                set.insert(hash);
                proof {
                    assert forall|h: [u8; 32]| #[trigger] set@.contains(h) <==> lists_block(next, h) by {
                        assert(before.contains(h) <==> lists_block(part, h));
                        order::lemma_push_contains(before, hash, h);
                        if names_block(encode_utf8(name@), h@) {
                            let b = encode_utf8(name@);
                            lemma_spells_unique(b.take(b.len() - 4), h, hash);
                        }
                    }
                }
            },
        }
        i = i + 1;
    }
    assert(names@.take(i as int) =~= names@);
    set
}

/// The block of a chunk is told by its name: the name that a chunk's block is
/// given names that chunk, and a name names a chunk exactly where it spells the
/// hash in 64 hexadecimal digits before `.blk`.
pub proof fn blocks_are_told_by_their_names(name: Seq<u8>, hash: [u8; 32])
    ensures
        names_block(encode_utf8(cafe_store::block_name_spec(hash@)), hash@),
        names_block(name, hash@) <==> name.len() == 68 && hex::spells(name.take(64), hash@) && name.skip(64)
            == seq![46u8, 98, 108, 107],
{
    let digits = hex::hex_spec(hash@);
    hex::hex_parse_roundtrip(hash@, hash@);
    reveal_strlit(".blk");
    assert(is_ascii_chars(".blk"@));
    is_ascii_chars_encode_utf8(".blk"@);
    text::lemma_encode_joined(digits, ".blk"@);
    let b = encode_utf8(digits);
    let all = encode_utf8(digits + ".blk"@);
    assert(b.len() == 64);
    assert(encode_utf8(".blk"@) =~= seq![46u8, 98, 108, 107]);
    assert(all.take(all.len() - 4) =~= b);
    assert(all.skip(all.len() - 4) =~= seq![46u8, 98, 108, 107]);
}

/// Why no update can be planned.
#[derive(Debug, Clone, Copy, PartialEq, Eq, Structural)]
pub enum UpdateError {
    BadNewManifest(ManifestError),
    BadOldManifest(ManifestError),
    /// The lengths in the new manifest do not add up to a 64-bit number.
    TooLarge,
}

impl UpdateError {
    /// What to tell a user.
    pub open spec fn text(self) -> Seq<char> {
        match self {
            UpdateError::BadNewManifest(e) => "解析新版本清单失败: "@ + e.text(),
            UpdateError::BadOldManifest(e) => "解析旧版本清单失败: "@ + e.text(),
            UpdateError::TooLarge => "块总长度超出 64 位范围"@,
        }
    }

    /// What to tell a user.
    pub fn message(&self) -> (out: String)
        ensures
            out@ == self.text(),
            out@ == (match *self {
                UpdateError::BadNewManifest(e) => "解析新版本清单失败: "@ + e.text(),
                UpdateError::BadOldManifest(e) => "解析旧版本清单失败: "@ + e.text(),
                UpdateError::TooLarge => "块总长度超出 64 位范围"@,
            }),
    {
        match self {
            UpdateError::BadNewManifest(e) => text::join2("解析新版本清单失败: ", e.message().as_str()),
            UpdateError::BadOldManifest(e) => text::join2("解析旧版本清单失败: ", e.message().as_str()),
            UpdateError::TooLarge => "块总长度超出 64 位范围".to_owned(),
        }
    }
}

/// Whether the plan is that of an update between two decoded manifests, with
/// the given chunks at hand.
pub open spec fn plans_update(
    plan: UpdatePlan,
    new: GameIndex,
    old: Option<GameIndex>,
    temp: Seq<[u8; 32]>,
) -> bool {
    let before = match old {
        Some(o) => Some(&o),
        None => None,
    };
    update_plan::plans(plan, new, before, temp)
}

/// Whether bytes decode to the manifest.
pub open spec fn decodes_to(bytes: Seq<u8>, index: GameIndex) -> bool {
    manifest::decode_spec(bytes) == Ok::<manifest::IndexView, ManifestError>(index@)
}

/// Whether optional bytes decode to the optional manifest.
pub open spec fn old_decodes_to(bytes: Option<&[u8]>, index: Option<GameIndex>) -> bool {
    match (bytes, index) {
        (Some(b), Some(i)) => decodes_to(b@, i),
        (None, None) => true,
        _ => false,
    }
}

/// Whether the manifests and the chunks are those that the bytes and the file
/// names stand for.
pub open spec fn reads_as(
    new_manifest: Seq<u8>,
    old_manifest: Option<&[u8]>,
    temp_names: Seq<String>,
    new: GameIndex,
    old: Option<GameIndex>,
    temp: Seq<[u8; 32]>,
) -> bool {
    &&& decodes_to(new_manifest, new)
    &&& old_decodes_to(old_manifest, old)
    &&& forall|h: [u8; 32]| #[trigger] temp.contains(h) <==> lists_block(temp_names, h)
}

/// A plan follows what was read: the new manifest, the old one exactly where there
/// is one, and the blocks that the file names name.
pub proof fn plans_follow_what_was_read(
    new_manifest: Seq<u8>,
    old_manifest: Option<&[u8]>,
    temp_names: Seq<String>,
    new: GameIndex,
    old: Option<GameIndex>,
    temp: Seq<[u8; 32]>,
    plan: UpdatePlan,
    h: [u8; 32],
)
    requires
        reads_as(new_manifest, old_manifest, temp_names, new, old, temp),
        plans_update(plan, new, old, temp),
    ensures
        manifest::decode_spec(new_manifest) == Ok::<manifest::IndexView, ManifestError>(new@),
        old_manifest is Some <==> old is Some,
        old_manifest matches Some(b) ==> manifest::decode_spec(b@) == Ok::<manifest::IndexView, ManifestError>(old->0@),
        temp.contains(h) <==> exists|i: int|
            0 <= i < temp_names.len() && names_block(encode_utf8((#[trigger] temp_names[i])@), h@),
        old is None ==> update_plan::plans(plan, new, None, temp),
        old matches Some(o) ==> update_plan::plans(plan, new, Some(&o), temp),
{
    assert(temp.contains(h) <==> lists_block(temp_names, h));
}

/// Plans the update from the old manifest, if there is one, to the new one;
/// `temp_names` are the file names in the temporary directory.
pub fn plan_update(new_manifest: &[u8], old_manifest: Option<&[u8]>, temp_names: &Vec<String>) -> (r: Result<
    UpdatePlan,
    UpdateError,
>)
    ensures
        match r {
            Ok(plan) => exists|new: GameIndex, old: Option<GameIndex>, temp: Seq<[u8; 32]>|
                #[trigger] reads_as(new_manifest@, old_manifest, temp_names@, new, old, temp) && plans_update(
                    plan,
                    new,
                    old,
                    temp,
                ),
            Err(UpdateError::BadNewManifest(e)) => manifest::decode_spec(new_manifest@) == Err::<
                manifest::IndexView,
                ManifestError,
            >(e),
            Err(UpdateError::BadOldManifest(e)) => manifest::decode_spec(new_manifest@) is Ok && old_manifest is Some
                && manifest::decode_spec(old_manifest->0@) == Err::<manifest::IndexView, ManifestError>(e),
            Err(UpdateError::TooLarge) => exists|new: GameIndex| #[trigger]
                decodes_to(new_manifest@, new) && manifest::total_len(manifest::all_chunks(new.files@)) > u64::MAX,
        },
{
    let new = match GameIndex::decode(new_manifest) {
        Err(e) => {
            return Err(UpdateError::BadNewManifest(e));
        },
        Ok(i) => i,
    };
    assert(decodes_to(new_manifest@, new));
    let old: Option<GameIndex> = match old_manifest {
        None => None,
        Some(b) => match GameIndex::decode(b) {
            Err(e) => {
                return Err(UpdateError::BadOldManifest(e));
            },
            Ok(i) => Some(i),
        },
    };
    let temp = collect_temp_hashes(temp_names);
    if new.byte_count().is_none() {
        return Err(UpdateError::TooLarge);
    }
    let plan = update_plan::compute(&new, old.as_ref(), &temp);
    assert(old_decodes_to(old_manifest, old));
    assert(plans_update(plan, new, old, temp@));
    assert(reads_as(new_manifest@, old_manifest, temp_names@, new, old, temp@));
    Ok(plan)
}

/// Where the bytes of a chunk of a new file come from.
#[derive(Debug, Clone, PartialEq, Eq)]
pub enum PieceSource {
    /// A range of the file that is replaced.
    OldFile { offset: u64, len: u32 },
    /// A temporary block with this file name.
    TempBlock(String),
}

/// The position of the first chunk with the hash.
pub open spec fn first_chunk(chunks: Seq<ChunkMeta>, hash: [u8; 32]) -> Option<int>
    decreases chunks.len(),
{
    if chunks.len() == 0 {
        None
    } else {
        match first_chunk(chunks.drop_last(), hash) {
            Some(k) => Some(k),
            None => if chunks.last().hash == hash {
                Some(chunks.len() - 1)
            } else {
                None
            },
        }
    }
}

/// Where the bytes of a chunk come from: from the file that is replaced where
/// it exists and its old entry has the chunk, else from a temporary block.
pub open spec fn comes_from(source: PieceSource, hash: [u8; 32], old: Option<FileEntry>, old_is_file: bool) -> bool {
    let at = match old {
        Some(f) => if old_is_file {
            first_chunk(f.chunks@, hash)
        } else {
            None
        },
        None => None,
    };
    match source {
        PieceSource::OldFile { offset, len } => at is Some && offset == manifest::total_len(
            old->0.chunks@.take(at->0),
        ) && len == old->0.chunks@[at->0].len,
        PieceSource::TempBlock(name) => at is None && name@ == cafe_store::block_name_spec(hash@),
    }
}

proof fn lemma_first_chunk(chunks: Seq<ChunkMeta>, hash: [u8; 32])
    ensures
        match first_chunk(chunks, hash) {
            Some(k) => 0 <= k < chunks.len() && chunks[k].hash == hash && forall|m: int|
                0 <= m < k ==> (#[trigger] chunks[m]).hash != hash,
            None => forall|m: int| 0 <= m < chunks.len() ==> (#[trigger] chunks[m]).hash != hash,
        },
    decreases chunks.len(),
{
    if chunks.len() > 0 {
        lemma_first_chunk(chunks.drop_last(), hash);
        assert forall|m: int| 0 <= m < chunks.len() - 1 implies chunks.drop_last()[m] == chunks[m] by {}
    }
}

/// The offset and length of the first chunk with the hash.
fn find_chunk(chunks: &Vec<ChunkMeta>, hash: &[u8; 32]) -> (found: Option<(u64, u32)>)
    requires
        manifest::total_len(chunks@) <= u64::MAX,
    ensures
        match found {
            Some((offset, len)) => {
                let k = first_chunk(chunks@, *hash);
                k is Some && offset == manifest::total_len(chunks@.take(k->0)) && len == chunks@[k->0].len
            },
            None => first_chunk(chunks@, *hash) is None,
        },
{
    proof {
        lemma_first_chunk(chunks@, *hash);
    }
    let mut offset: u64 = 0;
    let mut k: usize = 0;
    assert(chunks@.take(0) =~= Seq::empty());
    while k < chunks.len()
        invariant
            k <= chunks@.len(),
            manifest::total_len(chunks@) <= u64::MAX,
            offset == manifest::total_len(chunks@.take(k as int)),
            forall|m: int| 0 <= m < k ==> (#[trigger] chunks@[m]).hash != *hash,
            match first_chunk(chunks@, *hash) {
                Some(f) => 0 <= f < chunks@.len() && chunks@[f].hash == *hash && forall|m: int|
                    0 <= m < f ==> (#[trigger] chunks@[m]).hash != *hash,
                None => forall|m: int| 0 <= m < chunks@.len() ==> (#[trigger] chunks@[m]).hash != *hash,
            },
        decreases chunks.len() - k,
    {
        if chunk_set::same_hash(&chunks[k].hash, hash) {
            assert(chunks@[k as int].hash == *hash);
            return Some((offset, chunks[k].len));
        }
        proof {
            assert(chunks@.take(k + 1).drop_last() =~= chunks@.take(k as int));
            manifest::lemma_total_len_take(chunks@, k + 1);
        }
        offset = offset + chunks[k].len as u64;
        k = k + 1;
    }
    None
}

/// Whether a file of the new version has to be written: it is new, its content
/// differs, or it is not on disk.
pub open spec fn needs_merge(old: Seq<FileEntry>, entry: FileEntry, target_is_file: bool) -> bool {
    match update_plan::last_named(old, entry.name@) {
        None => true,
        Some(prev) => prev.file_hash != entry.file_hash || !target_is_file,
    }
}

/// A file is left as it is only where it already is the new one: it is on disk,
/// and the old version has a file of that name (the last, where it has several)
/// with the hash of the new one. Every other file is written.
pub proof fn only_unchanged_files_are_left(old: Seq<FileEntry>, entry: FileEntry, target_is_file: bool)
    ensures
        !needs_merge(old, entry, target_is_file) <==> target_is_file && exists|k: int|
            0 <= k < old.len() && (#[trigger] old[k]).name@ == entry.name@ && old[k].file_hash == entry.file_hash
                && forall|m: int| k < m < old.len() ==> (#[trigger] old[m]).name@ != entry.name@,
{
    update_plan::last_named_comes_last(old, entry.name@);
    if exists|k: int|
        0 <= k < old.len() && (#[trigger] old[k]).name@ == entry.name@ && old[k].file_hash == entry.file_hash
            && forall|m: int| k < m < old.len() ==> (#[trigger] old[m]).name@ != entry.name@ {
        let k = choose|k: int|
            0 <= k < old.len() && (#[trigger] old[k]).name@ == entry.name@ && old[k].file_hash == entry.file_hash
                && forall|m: int| k < m < old.len() ==> (#[trigger] old[m]).name@ != entry.name@;
        let f = update_plan::last_named(old, entry.name@)->0;
        let j = choose|j: int|
            0 <= j < old.len() && #[trigger] old[j] == f && f.name@ == entry.name@ && forall|m: int|
                j < m < old.len() ==> (#[trigger] old[m]).name@ != entry.name@;
        assert(j == k);
    }
}

/// Where the bytes of a chunk come from: out of the file that is replaced
/// exactly where that is on disk and the old version has a file of that name
/// (the last, where it has several) with the chunk, and then from where the
/// first such chunk begins, as many as it has; else from the block of the chunk.
pub proof fn pieces_lie_where_the_chunks_do(
    old: Seq<FileEntry>,
    name: Seq<char>,
    source: PieceSource,
    hash: [u8; 32],
    target_is_file: bool,
)
    requires
        comes_from(source, hash, update_plan::last_named(old, name), target_is_file),
    ensures
        source is OldFile <==> target_is_file && exists|k: int, c: int|
            0 <= k < old.len() && old[k].name@ == name && 0 <= c < old[k].chunks@.len() && (
            #[trigger] old[k].chunks@[c]).hash == hash && forall|m: int|
                k < m < old.len() ==> (#[trigger] old[m]).name@ != name,
        source matches PieceSource::OldFile { offset, len } ==> exists|k: int, c: int|
            0 <= k < old.len() && old[k].name@ == name && (forall|m: int|
                k < m < old.len() ==> (#[trigger] old[m]).name@ != name) && 0 <= c < old[k].chunks@.len() && (
            #[trigger] old[k].chunks@[c]).hash == hash && (forall|m: int|
                0 <= m < c ==> (#[trigger] old[k].chunks@[m]).hash != hash) && len == old[k].chunks@[c].len && offset
                == manifest::total_len(old[k].chunks@.take(c)),
        source matches PieceSource::TempBlock(block) ==> block@ == hex::hex_spec(hash@) + ".blk"@,
{
    update_plan::last_named_comes_last(old, name);
    if let Some(f) = update_plan::last_named(old, name) {
        let k = choose|k: int|
            0 <= k < old.len() && #[trigger] old[k] == f && f.name@ == name && forall|m: int|
                k < m < old.len() ==> (#[trigger] old[m]).name@ != name;
        lemma_first_chunk(f.chunks@, hash);
        if source is OldFile {
            let c = first_chunk(f.chunks@, hash)->0;
            assert(old[k].chunks@[c].hash == hash);
        }
        if target_is_file && exists|k: int, c: int|
            0 <= k < old.len() && old[k].name@ == name && 0 <= c < old[k].chunks@.len() && (
            #[trigger] old[k].chunks@[c]).hash == hash && forall|m: int|
                k < m < old.len() ==> (#[trigger] old[m]).name@ != name {
            let (j, c) = choose|k: int, c: int|
                0 <= k < old.len() && old[k].name@ == name && 0 <= c < old[k].chunks@.len() && (
                #[trigger] old[k].chunks@[c]).hash == hash && forall|m: int|
                    k < m < old.len() ==> (#[trigger] old[m]).name@ != name;
            assert(j == k);
            assert(f.chunks@[c].hash == hash);
        }
    } else {
        assert forall|k: int| 0 <= k < old.len() implies (#[trigger] old[k]).name@ != name by {}
    }
}

/// What has to be done for one file of the new version: `None` if nothing,
/// else where the bytes of each of its chunks come from.
pub fn merge_file(old: Option<&GameIndex>, entry: &FileEntry, target_is_file: bool) -> (job: Option<Vec<PieceSource>>)
    requires
        cafe_store::files_fit(update_plan::version_files(old)),
    ensures
        match job {
            None => !needs_merge(update_plan::version_files(old), *entry, target_is_file),
            Some(pieces) => {
                let files = update_plan::version_files(old);
                &&& needs_merge(files, *entry, target_is_file)
                &&& pieces@.len() == entry.chunks@.len()
                &&& forall|i: int| 0 <= i < pieces@.len() ==> comes_from(
                    #[trigger] pieces@[i],
                    entry.chunks@[i].hash,
                    update_plan::last_named(files, entry.name@),
                    target_is_file,
                )
            },
        },
        job is None <==> target_is_file && (old matches Some(o) && exists|k: int|
            0 <= k < o.files@.len() && (#[trigger] o.files@[k]).name@ == entry.name@ && o.files@[k].file_hash
                == entry.file_hash && forall|m: int|
                k < m < o.files@.len() ==> (#[trigger] o.files@[m]).name@ != entry.name@),
{
    proof {
        only_unchanged_files_are_left(update_plan::version_files(old), *entry, target_is_file);
    }
    let none: Vec<FileEntry> = Vec::new();
    let files: &Vec<FileEntry> = match old {
        Some(o) => &o.files,
        None => &none,
    };
    assert(files@ =~= update_plan::version_files(old));
    let found = update_plan::find_last(files, entry.name.as_str());
    if let Some(k) = found {
        if chunk_set::same_hash(&files[k].file_hash, &entry.file_hash) && target_is_file {
            return None;
        }
    }
    let ghost prev = update_plan::last_named(files@, entry.name@);
    let mut pieces: Vec<PieceSource> = Vec::new();
    let mut i: usize = 0;
    while i < entry.chunks.len()
        invariant
            i <= entry.chunks@.len(),
            pieces@.len() == i,
            cafe_store::files_fit(files@),
            prev == update_plan::last_named(files@, entry.name@),
            match found {
                Some(k) => k < files@.len() && prev == Some(files@[k as int]),
                None => prev is None,
            },
            forall|m: int| 0 <= m < i ==> comes_from(
                #[trigger] pieces@[m],
                entry.chunks@[m].hash,
                prev,
                target_is_file,
            ),
        decreases entry.chunks.len() - i,
    {
        let hash = &entry.chunks[i].hash;
        let in_old: Option<(u64, u32)> = match found {
            Some(k) => if target_is_file {
                assert(manifest::total_len(files@[k as int].chunks@) <= u64::MAX);
                find_chunk(&files[k].chunks, hash)
            } else {
                None
            },
            None => None,
        };
        let source = match in_old {
            Some((offset, len)) => PieceSource::OldFile { offset, len },
            None => PieceSource::TempBlock(cafe_store::block_name(hash)),
        };
        assert(comes_from(source, *hash, prev, target_is_file));
        let ghost before = pieces@;
        pieces.push(source);
        proof {
            assert forall|m: int| 0 <= m < i + 1 implies comes_from(
                #[trigger] pieces@[m],
                entry.chunks@[m].hash,
                prev,
                target_is_file,
            ) by {
                if m < i {
                    assert(pieces@[m] == before[m]);
                }
            }
        }
        i = i + 1;
    }
    Some(pieces)
}

/// The bytes of the chunks, given what the chunk of each hash holds.
pub open spec fn contents(chunks: Seq<ChunkMeta>, content: spec_fn([u8; 32]) -> Seq<u8>) -> Seq<Seq<u8>> {
    chunks.map_values(|c: ChunkMeta| content(c.hash))
}

/// Whether a file is made of its chunks, in order.
pub open spec fn made_of(file: Seq<u8>, chunks: Seq<ChunkMeta>, content: spec_fn([u8; 32]) -> Seq<u8>) -> bool {
    &&& file == chunker::joined(contents(chunks, content))
    &&& forall|i: int| 0 <= i < chunks.len() ==> content((#[trigger] chunks[i]).hash).len() == chunks[i].len
}

/// The bytes that a piece stands for, given the file that is replaced and what
/// the temporary blocks hold.
pub open spec fn piece_bytes(source: PieceSource, old_file: Seq<u8>, temp: spec_fn(Seq<char>) -> Seq<u8>) -> Seq<u8> {
    match source {
        PieceSource::OldFile { offset, len } => old_file.subrange(offset as int, offset + len),
        PieceSource::TempBlock(name) => temp(name@),
    }
}

/// The bytes of a new file: those of its pieces, one after the other.
pub open spec fn assembled(
    pieces: Seq<PieceSource>,
    old_file: Seq<u8>,
    temp: spec_fn(Seq<char>) -> Seq<u8>,
) -> Seq<u8> {
    chunker::joined(pieces.map_values(|s: PieceSource| piece_bytes(s, old_file, temp)))
}

/// A merge gives the file of the new version: where the file that is replaced
/// is made of the chunks of its entry, and every temporary block that is used
/// holds the chunk that it is named after, the pieces of a new file put
/// together are its chunks put together.
pub proof fn merged_file_is_the_new_one(
    old: Option<FileEntry>,
    old_is_file: bool,
    old_file: Seq<u8>,
    temp: spec_fn(Seq<char>) -> Seq<u8>,
    content: spec_fn([u8; 32]) -> Seq<u8>,
    chunks: Seq<ChunkMeta>,
    pieces: Seq<PieceSource>,
)
    requires
        pieces.len() == chunks.len(),
        forall|i: int| 0 <= i < pieces.len() ==> comes_from(#[trigger] pieces[i], chunks[i].hash, old, old_is_file),
        old_is_file ==> (old matches Some(f) ==> made_of(old_file, f.chunks@, content)),
        forall|i: int| 0 <= i < pieces.len() && (#[trigger] pieces[i]) is TempBlock ==> temp(
            cafe_store::block_name_spec(chunks[i].hash@),
        ) == content(chunks[i].hash),
    ensures
        assembled(pieces, old_file, temp) == chunker::joined(contents(chunks, content)),
{
    let got = pieces.map_values(|s: PieceSource| piece_bytes(s, old_file, temp));
    let want = contents(chunks, content);
    assert forall|i: int| 0 <= i < got.len() implies got[i] == want[i] by {
        let hash = chunks[i].hash;
        assert(comes_from(pieces[i], hash, old, old_is_file));
        if let PieceSource::OldFile { offset, len } = pieces[i] {
            let f = old->0;
            lemma_first_chunk(f.chunks@, hash);
            let k = first_chunk(f.chunks@, hash)->0;
            let parts = contents(f.chunks@, content);
            assert forall|m: int| 0 <= m < parts.len() implies (#[trigger] parts[m]).len() == f.chunks@[m].len by {
                assert(content(f.chunks@[m].hash).len() == f.chunks@[m].len);
            }
            cafe_store::lemma_piece_range(parts, f.chunks@, k);
            assert(parts[k] == content(hash));
        }
    }
    assert(got =~= want);
}

/// Whether an assembled file is the one that the manifest describes.
pub fn file_is_intact(hasher: &FileHasher, entry: &FileEntry) -> (intact: bool)
    ensures
        intact == (digest::blake3_digest(hasher.bytes()) == entry.file_hash@),
{
    let actual = hasher.finish();
    let same = chunk_set::same_hash(&actual, &entry.file_hash);
    assert(actual@ == entry.file_hash@ ==> actual =~= entry.file_hash);
    same
}

impl MergeSummary {
    /// Notes that a file was written, or why it was not.
    pub fn merged(&mut self, name: &str, failure: Option<&String>)
        requires
            old(self).merged < usize::MAX,
        ensures
            final(self).deleted == old(self).deleted,
            match failure {
                None => final(self).merged == old(self).merged + 1 && final(self).failed@ == old(self).failed@,
                Some(e) => final(self).merged == old(self).merged && final(self).failed@.len()
                    == old(self).failed@.len() + 1 && final(self).failed@.drop_last() == old(self).failed@
                    && final(self).failed@.last()@ == name@ + ": "@ + e@,
            },
    {
        match failure {
            None => {
                self.merged = self.merged + 1;
            },
            Some(e) => {
                let ghost before = self.failed@;
                self.failed.push(text::join3(name, ": ", e.as_str()));
                assert(self.failed@.drop_last() =~= before);
            },
        }
    }

    /// Notes that a file was deleted.
    pub fn deleted(&mut self)
        requires
            old(self).deleted < usize::MAX,
        ensures
            final(self).deleted == old(self).deleted + 1,
            final(self).merged == old(self).merged,
            final(self).failed == old(self).failed,
    {
        self.deleted = self.deleted + 1;
    }
}

/// The files to delete after a merge: those of the old version that the new
/// one has not, sorted by name.
pub fn files_to_delete(old: Option<&GameIndex>, new: &GameIndex) -> (names: Vec<String>)
    ensures
        update_plan::names_ascending(text::text_views(names@)),
        forall|n: Seq<char>| #[trigger]
            text::text_views(names@).contains(n) <==> update_plan::has_name(update_plan::version_files(old), n)
                && !update_plan::has_name(new.files@, n),
        old is None ==> names@.len() == 0,
        old matches Some(o) ==> forall|i: int|
            0 <= i < o.files@.len() ==> (text::text_views(names@).contains((#[trigger] o.files@[i]).name@) <==> forall|j: int|
                0 <= j < new.files@.len() ==> (#[trigger] new.files@[j]).name@ != o.files@[i].name@),
{
    let names = removed(old, new);
    proof {
        let views = text::text_views(names@);
        if old is None && names@.len() > 0 {
            assert(views[0] == names@[0]@);
            assert(views.contains(views[0]));
        }
        if let Some(o) = old {
            assert forall|i: int| 0 <= i < o.files@.len() implies (views.contains((#[trigger] o.files@[i]).name@)
                <==> forall|j: int|
                0 <= j < new.files@.len() ==> (#[trigger] new.files@[j]).name@ != o.files@[i].name@) by {
                assert(update_plan::has_name(update_plan::version_files(old), o.files@[i].name@));
            }
        }
    }
    names
}

/// The names that the new version has not, sorted.
fn removed(old: Option<&GameIndex>, new: &GameIndex) -> (names: Vec<String>)
    ensures
        update_plan::names_ascending(text::text_views(names@)),
        forall|n: Seq<char>| #[trigger]
            text::text_views(names@).contains(n) <==> update_plan::has_name(update_plan::version_files(old), n)
                && !update_plan::has_name(new.files@, n),
{
    let none: Vec<FileEntry> = Vec::new();
    let files: &Vec<FileEntry> = match old {
        Some(o) => &o.files,
        None => &none,
    };
    assert(files@ =~= update_plan::version_files(old));
    update_plan::removed_names(files, &new.files)
}

} // verus!
