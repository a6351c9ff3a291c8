//! Taking uploads: which chunks are known, which are accepted, and when a
//! version is published.
use vstd::prelude::*;

use crate::common::chunk_set;
use crate::common::digest;
use crate::common::hex;
use crate::common::order;
use crate::common::path::PathParts;
use crate::common::tables;
use crate::common::tables::CountTable;
use crate::common::text;
use crate::origin::storage;
use crate::origin::storage::{GameStore, StoreError};
use crate::producer::manifest;
use crate::producer::manifest::{GameIndex, ManifestError};
use crate::proto::{ChunkQuery, Code, CommitReply, CommitRequest, Status, UploadAck, UploadChunk};

verus! {

broadcast use vstd::array::group_array_axioms;

pub fn open_store_error(err: &str) -> (s: Status)
    ensures
        s.says(Code::Internal, "打开块库失败"@ + ": "@ + err@),
{
    Status::internal("打开块库失败", err)
}

pub fn query_chunk_error(err: &str) -> (s: Status)
    ensures
        s.says(Code::Internal, "查询块失败"@ + ": "@ + err@),
{
    Status::internal("查询块失败", err)
}

pub fn create_publish_dir_error(err: &str) -> (s: Status)
    ensures
        s.says(Code::Internal, "创建发布目录失败"@ + ": "@ + err@),
{
    Status::internal("创建发布目录失败", err)
}

pub fn write_manifest_error(err: &str) -> (s: Status)
    ensures
        s.says(Code::Internal, "写入版本清单失败"@ + ": "@ + err@),
{
    Status::internal("写入版本清单失败", err)
}

pub fn bad_hash_len() -> (s: Status)
    ensures
        s.says(Code::InvalidArgument, "块哈希必须为 32 字节"@),
{
    Status::invalid_argument("块哈希必须为 32 字节")
}

pub fn bad_manifest_hash_len() -> (s: Status)
    ensures
        s.says(Code::InvalidArgument, "manifest_hash 必须为 32 字节"@),
{
    Status::invalid_argument("manifest_hash 必须为 32 字节")
}

pub fn decode_manifest_error(err: ManifestError) -> (s: Status)
    ensures
        s.says(Code::InvalidArgument, "版本清单解析失败: "@ + err.text()),
{
    Status {
        code: Code::InvalidArgument,
        message: text::join2("版本清单解析失败: ", err.message().as_str()),
    }
}

/// The answer to a chunk that was appended, or why it was not.
pub fn append_ack(result: Result<(u64, u32), String>, hash: [u8; 32]) -> (ack: UploadAck)
    ensures
        ack.chunk_hash@ == hash@,
        match result {
            Ok(_) => ack.ok && ack.error@ == ""@,
            Err(e) => !ack.ok && ack.error@ == e@,
        },
{
    let chunk_hash = vstd::slice::slice_to_vec(hash.as_slice());
    match result {
        Ok(_) => UploadAck { chunk_hash, ok: true, error: "".to_owned() },
        Err(e) => UploadAck { chunk_hash, ok: false, error: e },
    }
}

/// What to do with an uploaded chunk.
#[derive(Debug, PartialEq, Eq)]
pub enum UploadStep {
    /// Answer that it is damaged.
    Refuse(UploadAck),
    /// Append it under its hash.
    Append([u8; 32]),
}

/// An upload must name a game; its first chunk says which.
pub fn check_first(first: &UploadChunk) -> (r: Result<u64, Status>)
    ensures
        match r {
            Ok(game_id) => game_id == first.game_id && game_id > 0,
            Err(s) => first.game_id == 0 && s.says(Code::InvalidArgument, "game_id 必须大于 0"@),
        },
{
    if first.game_id == 0 {
        return Err(Status::invalid_argument("game_id 必须大于 0"));
    }
    Ok(first.game_id)
}

/// Checks an uploaded chunk: its hash must have 32 bytes, and a chunk whose
/// bytes have another hash is refused.
pub fn process_chunk(chunk: &UploadChunk) -> (step: Result<UploadStep, Status>)
    ensures
        match step {
            Err(s) => chunk.chunk_hash@.len() != 32 && s.says(Code::InvalidArgument, "块哈希必须为 32 字节"@),
            Ok(UploadStep::Refuse(ack)) => {
                &&& chunk.chunk_hash@.len() == 32
                &&& digest::blake3_digest(chunk.data@) != chunk.chunk_hash@
                &&& ack.chunk_hash@ == chunk.chunk_hash@
                &&& !ack.ok
                &&& ack.error@ == "块哈希校验失败"@
            },
            Ok(UploadStep::Append(hash)) => hash@ == chunk.chunk_hash@ && digest::blake3_digest(chunk.data@) == hash@,
        },
{
    if chunk.chunk_hash.len() != 32 {
        return Err(bad_hash_len());
    }
    let hash = chunk_set::hash_at(chunk.chunk_hash.as_slice(), 0);
    assert(hash@ =~= chunk.chunk_hash@);
    let actual = digest::blake3_hash(chunk.data.as_slice());
    if !chunk_set::same_hash(&actual, &hash) {
        assert(actual@ == hash@ ==> actual =~= hash);
        return Ok(
            UploadStep::Refuse(
                UploadAck {
                    chunk_hash: vstd::slice::slice_to_vec(hash.as_slice()),
                    ok: false,
                    error: "块哈希校验失败".to_owned(),
                },
            ),
        );
    }
    Ok(UploadStep::Append(hash))
}

/// Why a request failed.
#[derive(Debug)]
pub enum RequestError {
    /// The request is at fault.
    Refused(Status),
    /// The chunk store is at fault.
    Store(StoreError),
}

/// Whether the store has a chunk with the hash.
pub open spec fn store_has(rows: Map<Seq<char>, u64>, game_id: u64, hash: Seq<u8>) -> bool {
    storage::location(rows, game_id, hash) is Some
}

/// The hashes that the store has, in order.
pub open spec fn known_hashes(
    hashes: Seq<Vec<u8>>,
    rows: Map<Seq<char>, u64>,
    game_id: u64,
) -> Seq<Seq<u8>>
    decreases hashes.len(),
{
    if hashes.len() == 0 {
        Seq::empty()
    } else {
        let before = known_hashes(hashes.drop_last(), rows, game_id);
        if store_has(rows, game_id, hashes.last()@) {
            before.push(hashes.last()@)
        } else {
            before
        }
    }
}

/// The answer to a query is right: it holds a hash exactly where that was asked
/// for and the index has a row for it; hashes come in the order of the query and
/// as often as there.
pub proof fn query_tells_what_is_there(hashes: Seq<Vec<u8>>, rows: Map<Seq<char>, u64>, game_id: u64, h: Seq<u8>)
    ensures
        known_hashes(hashes, rows, game_id).contains(h) <==> (exists|i: int|
            0 <= i < hashes.len() && (#[trigger] hashes[i])@ == h) && rows.contains_key(
            hex::chunk_key_spec(game_id, h),
        ),
        known_hashes(hashes, rows, game_id) == text::byte_views(hashes).filter(
            |x: Seq<u8>| rows.contains_key(hex::chunk_key_spec(game_id, x)),
        ),
    decreases hashes.len(),
{
    reveal(Seq::filter);
    let p = |x: Seq<u8>| rows.contains_key(hex::chunk_key_spec(game_id, x));
    let views = text::byte_views(hashes);
    if hashes.len() == 0 {
        assert(views.filter(p) =~= Seq::empty());
    } else {
        let init = hashes.drop_last();
        let last = hashes.last()@;
        let before = known_hashes(init, rows, game_id);
        query_tells_what_is_there(init, rows, game_id, h);
        assert(views.drop_last() =~= text::byte_views(init));
        order::lemma_push_contains(before, last, h);
        if exists|i: int| 0 <= i < init.len() && (#[trigger] init[i])@ == h {
            let i = choose|i: int| 0 <= i < init.len() && (#[trigger] init[i])@ == h;
            assert(hashes[i]@ == h);
        }
        if last == h {
            assert(hashes[hashes.len() - 1]@ == h);
        }
        if exists|i: int| 0 <= i < hashes.len() && (#[trigger] hashes[i])@ == h {
            let i = choose|i: int| 0 <= i < hashes.len() && (#[trigger] hashes[i])@ == h;
            if i < init.len() {
                assert(init[i]@ == h);
            }
        }
    }
}

/// Which of the chunks the store has. Every hash must have 32 bytes.
pub fn query_existing_chunks(store: &GameStore, index: &CountTable, query: &ChunkQuery) -> (r: Result<
    Vec<Vec<u8>>,
    RequestError,
>)
    requires
        store.game_id == query.game_id,
    ensures
        match r {
            Ok(list) => {
                &&& query.game_id > 0
                &&& forall|i: int| 0 <= i < query.chunk_hashes@.len() ==> (#[trigger] query.chunk_hashes@[i])@.len()
                    == 32
                &&& text::byte_views(list@) == known_hashes(
                    query.chunk_hashes@,
                    tables::count_rows(*index),
                    query.game_id,
                )
                &&& forall|h: Seq<u8>| #[trigger]
                    text::byte_views(list@).contains(h) <==> text::byte_views(query.chunk_hashes@).contains(h)
                        && tables::count_rows(*index).contains_key(hex::chunk_key_spec(query.game_id, h))
            },
            Err(RequestError::Refused(s)) => {
                ||| query.game_id == 0 && s.says(Code::InvalidArgument, "game_id 必须大于 0"@)
                ||| query.game_id > 0 && s.says(Code::InvalidArgument, "块哈希必须为 32 字节"@) && exists|i: int|
                    0 <= i < query.chunk_hashes@.len() && (#[trigger] query.chunk_hashes@[i])@.len() != 32
            },
            Err(RequestError::Store(e)) => query.game_id > 0 && e is Index,
        },
        query.game_id > 0 && query.chunk_hashes@.len() == 0 ==> r is Ok,
        query.chunk_hashes@.len() > 0 && query.chunk_hashes@[0]@.len() != 32 ==> r is Err && r->Err_0 is Refused,
{
    if query.game_id == 0 {
        return Err(RequestError::Refused(Status::invalid_argument("game_id 必须大于 0")));
    }
    let ghost rows = tables::count_rows(*index);
    let mut existing: Vec<Vec<u8>> = Vec::new();
    let mut i: usize = 0;
    assert(query.chunk_hashes@.take(0) =~= Seq::empty());
    assert(text::byte_views(existing@) =~= Seq::empty());
    while i < query.chunk_hashes.len()
        invariant
            i <= query.chunk_hashes@.len(),
            query.game_id > 0,
            store.game_id == query.game_id,
            rows == tables::count_rows(*index),
            forall|k: int| 0 <= k < i ==> (#[trigger] query.chunk_hashes@[k])@.len() == 32,
            text::byte_views(existing@) == known_hashes(query.chunk_hashes@.take(i as int), rows, query.game_id),
        decreases query.chunk_hashes.len() - i,
    {
        let bytes = &query.chunk_hashes[i];
        let ghost before = existing@;
        assert(query.chunk_hashes@.take(i + 1).drop_last() =~= query.chunk_hashes@.take(i as int));
        if bytes.len() != 32 {
            assert(query.chunk_hashes@[i as int]@.len() != 32);
            return Err(RequestError::Refused(bad_hash_len()));
        }
        let hash = chunk_set::hash_at(bytes.as_slice(), 0);
        assert(hash@ =~= bytes@);
        match store.contains(index, &hash) {
            Err(e) => {
                return Err(RequestError::Store(e));
            },
            Ok(found) => {
                if found {
                    existing.push(vstd::slice::slice_to_vec(hash.as_slice()));
                    assert(text::byte_views(existing@) =~= text::byte_views(before).push(bytes@));
                }
            },
        }
        i = i + 1;
    }
    assert(query.chunk_hashes@.take(i as int) =~= query.chunk_hashes@);
    proof {
        assert forall|h: Seq<u8>| #[trigger] text::byte_views(existing@).contains(h) <==> text::byte_views(
            query.chunk_hashes@,
        ).contains(h) && rows.contains_key(hex::chunk_key_spec(query.game_id, h)) by {
            query_tells_what_is_there(query.chunk_hashes@, rows, query.game_id, h);
            text::bytes_say_what_they_hold(query.chunk_hashes@, h);
        }
    }
    Ok(existing)
}

/// What is wrong with a request to publish, before the store is asked.
pub open spec fn commit_fault(c: CommitRequest) -> Option<Seq<char>> {
    let body = c.manifest@.take(c.manifest@.len() - 32);
    if c.game_id == 0 || c.version == 0 {
        Some("game_id 与 version 必须大于 0"@)
    } else if c.manifest@.len() < 32 {
        Some("版本清单长度不足"@)
    } else if c.manifest_hash@.len() != 32 {
        Some("manifest_hash 必须为 32 字节"@)
    } else if digest::blake3_digest(body) != c.manifest_hash@ {
        Some("manifest_hash 校验失败"@)
    } else {
        match manifest::decode_spec(c.manifest@) {
            Ok(_) => None,
            Err(e) => Some("版本清单解析失败: "@ + e.text()),
        }
    }
}

/// Checks a request to publish and decodes its manifest.
pub fn check_commit(commit: &CommitRequest) -> (r: Result<GameIndex, Status>)
    ensures
        match r {
            Ok(index) => commit_fault(*commit) is None && manifest::decode_spec(commit.manifest@) == Ok::<
                manifest::IndexView,
                ManifestError,
            >(index@),
            Err(s) => commit_fault(*commit) is Some && s.says(Code::InvalidArgument, commit_fault(*commit)->0),
        },
        if commit.game_id == 0 || commit.version == 0 {
            r matches Err(s) && s.says(Code::InvalidArgument, "game_id 与 version 必须大于 0"@)
        } else if commit.manifest@.len() < 32 {
            r matches Err(s) && s.says(Code::InvalidArgument, "版本清单长度不足"@)
        } else if commit.manifest_hash@.len() != 32 {
            r matches Err(s) && s.says(Code::InvalidArgument, "manifest_hash 必须为 32 字节"@)
        } else if digest::blake3_digest(commit.manifest@.take(commit.manifest@.len() - 32)) != commit.manifest_hash@ {
            r matches Err(s) && s.says(Code::InvalidArgument, "manifest_hash 校验失败"@)
        } else {
            match manifest::decode_spec(commit.manifest@) {
                Ok(view) => r matches Ok(index) && index@ == view,
                Err(e) => r matches Err(s) && s.says(Code::InvalidArgument, "版本清单解析失败: "@ + e.text()),
            }
        },
{
    if commit.game_id == 0 || commit.version == 0 {
        return Err(Status::invalid_argument("game_id 与 version 必须大于 0"));
    }
    if commit.manifest.len() < 32 {
        return Err(Status::invalid_argument("版本清单长度不足"));
    }
    let body = vstd::slice::slice_subrange(commit.manifest.as_slice(), 0, commit.manifest.len() - 32);
    assert(body@ =~= commit.manifest@.take(commit.manifest@.len() - 32));
    let actual = digest::blake3_hash(body);
    if commit.manifest_hash.len() != 32 {
        return Err(bad_manifest_hash_len());
    }
    if !text::same_bytes(actual.as_slice(), commit.manifest_hash.as_slice()) {
        return Err(Status::invalid_argument("manifest_hash 校验失败"));
    }
    match GameIndex::decode(commit.manifest.as_slice()) {
        Ok(index) => Ok(index),
        Err(e) => Err(decode_manifest_error(e)),
    }
}

/// What to do with a request to publish.
#[derive(Debug)]
pub enum CommitStep {
    /// Answer that chunks are missing.
    Refuse(CommitReply),
    /// Write the manifest to this file in this directory, then answer that the
    /// version is published.
    Publish { dir: PathParts, file: PathParts },
}

/// `{data_dir}/{game_id}/published`
pub open spec fn published_dir_spec(data_dir: Seq<char>, game_id: u64) -> Seq<Seq<char>> {
    seq![data_dir, text::decimal(game_id as nat), "published"@]
}

/// Whether the store has every chunk of every file.
pub open spec fn has_all(rows: Map<Seq<char>, u64>, game_id: u64, files: Seq<manifest::FileView>) -> bool {
    forall|hash: Seq<u8>| #[trigger] manifest::has_chunk(files, hash) ==> store_has(rows, game_id, hash)
}

/// Whether no file has a chunk.
pub open spec fn has_no_chunk(files: Seq<manifest::FileView>) -> bool {
    forall|hash: Seq<u8>| !#[trigger] manifest::has_chunk(files, hash)
}

/// A version is complete exactly where the index has a row for each chunk of
/// each of its files.
pub proof fn complete_versions_have_every_chunk(
    rows: Map<Seq<char>, u64>,
    game_id: u64,
    files: Seq<manifest::FileView>,
)
    ensures
        has_all(rows, game_id, files) <==> forall|i: int, j: int|
            0 <= i < files.len() && 0 <= j < files[i].chunks.len() ==> rows.contains_key(
                hex::chunk_key_spec(game_id, (#[trigger] files[i].chunks[j]).0),
            ),
{
    if has_all(rows, game_id, files) {
        assert forall|i: int, j: int| 0 <= i < files.len() && 0 <= j < files[i].chunks.len() implies rows.contains_key(
            hex::chunk_key_spec(game_id, (#[trigger] files[i].chunks[j]).0),
        ) by {
            let h = files[i].chunks[j].0;
            assert(manifest::chunk_at(files, i, j, h));
            assert(manifest::has_chunk(files, h));
            assert(store_has(rows, game_id, h));
        }
    }
    if forall|i: int, j: int|
        0 <= i < files.len() && 0 <= j < files[i].chunks.len() ==> rows.contains_key(
            hex::chunk_key_spec(game_id, (#[trigger] files[i].chunks[j]).0),
        ) {
        assert forall|h: Seq<u8>| #[trigger] manifest::has_chunk(files, h) implies store_has(rows, game_id, h) by {
            let (i, j) = choose|i: int, j: int| #[trigger] manifest::chunk_at(files, i, j, h);
            assert(files[i].chunks[j].0 == h);
        }
    }
}

/// Whether the store has all chunks of a version.
fn holds_all(store: &GameStore, index: &CountTable, version: &GameIndex) -> (r: Result<bool, StoreError>)
    ensures
        match r {
            Ok(all) => all == has_all(tables::count_rows(*index), store.game_id, version@.files),
            Err(e) => e is Index,
        },
        has_no_chunk(version@.files) ==> r is Ok,
{
    let set = version.chunk_set();
    let hashes = set.hashes();
    let ghost rows = tables::count_rows(*index);
    let ghost files = version@.files;
    proof {
        chunk_set::lemma_first_occurrences(manifest::hashes_of(manifest::all_chunks(version.files@)));
        manifest::lemma_has_chunk(version.files@);
    }
    let mut i: usize = 0;
    while i < hashes.len()
        invariant
            i <= hashes@.len(),
            rows == tables::count_rows(*index),
            files == version@.files,
            forall|h: [u8; 32]| #[trigger] hashes@.contains(h) <==> manifest::has_chunk(files, h@),
            forall|k: int| 0 <= k < i ==> store_has(rows, store.game_id, (#[trigger] hashes@[k])@),
        decreases hashes.len() - i,
    {
        assert(hashes@.contains(hashes@[i as int]));
        match store.contains(index, &hashes[i]) {
            Err(e) => {
                return Err(e);
            },
            Ok(found) => {
                if !found {
                    return Ok(false);
                }
            },
        }
        i = i + 1;
    }
    proof {
        assert forall|hash: Seq<u8>| #[trigger] manifest::has_chunk(files, hash) implies store_has(
            rows,
            store.game_id,
            hash,
        ) by {
            let h = manifest::lemma_chunk_hash(version.files@, hash);
            assert(hashes@.contains(h));
            let k = choose|k: int| 0 <= k < hashes@.len() && hashes@[k] == h;
            assert(store_has(rows, store.game_id, hashes@[k]@));
        }
    }
    Ok(true)
}

/// Decides on a request to publish: the request must be sound, and a version
/// is only published if the store has all its chunks.
pub fn commit_version(store: &GameStore, index: &CountTable, data_dir: &str, commit: &CommitRequest) -> (r: Result<
    CommitStep,
    RequestError,
>)
    requires
        store.game_id == commit.game_id,
    ensures
        match r {
            Err(RequestError::Refused(s)) => commit_fault(*commit) is Some && s.says(
                Code::InvalidArgument,
                commit_fault(*commit)->0,
            ),
            Err(RequestError::Store(e)) => commit_fault(*commit) is None && e is Index,
            Ok(step) => {
                let complete = has_all(
                    tables::count_rows(*index),
                    commit.game_id,
                    manifest::decode_spec(commit.manifest@)->Ok_0.files,
                );
                &&& commit_fault(*commit) is None
                &&& match step {
                    CommitStep::Publish { dir, file } => {
                        &&& complete
                        &&& dir@ == published_dir_spec(data_dir@, commit.game_id)
                        &&& file@ == dir@.push(text::decimal(commit.version as nat) + ".gameindex"@)
                    },
                    CommitStep::Refuse(reply) => {
                        &&& !complete
                        &&& !reply.published
                        &&& reply.error@ == "版本清单引用的块未齐全"@
                    },
                }
            },
        },
        commit_fault(*commit) is None && has_no_chunk(manifest::decode_spec(commit.manifest@)->Ok_0.files) ==> r is Ok,
        r is Ok ==> {
            &&& commit.game_id > 0 && commit.version > 0
            &&& commit.manifest@.len() >= 32
            &&& digest::blake3_digest(commit.manifest@.take(commit.manifest@.len() - 32)) == commit.manifest_hash@
            &&& manifest::decode_spec(commit.manifest@) is Ok
        },
        r matches Ok(step) ==> ({
            let files = manifest::decode_spec(commit.manifest@)->Ok_0.files;
            step is Publish <==> forall|i: int, j: int|
                0 <= i < files.len() && 0 <= j < files[i].chunks.len() ==> tables::count_rows(*index).contains_key(
                    hex::chunk_key_spec(commit.game_id, (#[trigger] files[i].chunks[j]).0),
                )
        }),
        r matches Ok(CommitStep::Publish { dir, file }) ==> file@ == seq![
            data_dir@,
            text::decimal(commit.game_id as nat),
            "published"@,
            text::decimal(commit.version as nat) + ".gameindex"@,
        ],
{
    let version_index = match check_commit(commit) {
        Err(s) => {
            return Err(RequestError::Refused(s));
        },
        Ok(i) => i,
    };
    proof {
        complete_versions_have_every_chunk(tables::count_rows(*index), commit.game_id, version_index@.files);
    }
    match holds_all(store, index, &version_index) {
        Err(e) => Err(RequestError::Store(e)),
        Ok(false) => Ok(
            CommitStep::Refuse(
                CommitReply { published: false, error: "版本清单引用的块未齐全".to_owned() },
            ),
        ),
        Ok(true) => {
            let game = PathParts::new(data_dir).join(text::decimal_text(commit.game_id).as_str());
            let dir = game.join("published");
            assert(dir@ =~= published_dir_spec(data_dir@, commit.game_id));
            let name = text::join2(text::decimal_text(commit.version).as_str(), ".gameindex");
            let file = dir.join(name.as_str());
            assert(file@ =~= seq![
                data_dir@,
                text::decimal(commit.game_id as nat),
                "published"@,
                text::decimal(commit.version as nat) + ".gameindex"@,
            ]);
            Ok(CommitStep::Publish { dir, file })
        },
    }
}

/// The answer once a manifest was written.
pub fn published_reply() -> (reply: CommitReply)
    ensures
        reply.published,
        reply.error@ == ""@,
{
    CommitReply { published: true, error: "".to_owned() }
}

} // verus!
