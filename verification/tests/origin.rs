//! The origin: chunk stores, uploads and publishing.
use blazenet::common::chunk_set::ChunkSet;
use blazenet::common::copy::copy_pieces;
use blazenet::common::hex::{chunk_key, hex};
use blazenet::common::tables::CountTable;
use blazenet::origin::inspect::{compare_sets, key_hash, parse_hash, Tally};
use blazenet::origin::server::{
    append_ack, bad_hash_len, bad_manifest_hash_len, check_commit, check_first, commit_version,
    create_publish_dir_error, decode_manifest_error, open_store_error, process_chunk, published_reply,
    query_chunk_error, query_existing_chunks, write_manifest_error, CommitStep, RequestError, UploadStep,
};
use blazenet::origin::source::{ChunkSource, NodeStore, SourceError};
use blazenet::origin::storage::{
    open_index, pack, read_exact_at, unpack, write_exact_at_impl, GameStore, Placement, ReadError, StoreError, WriteError,
};
use blazenet::producer::chunker::ChunkMeta;
use blazenet::producer::manifest::{FileEntry, GameIndex, ManifestError};
use blazenet::producer::upload::{
    attach_token, commit_result, existing_hashes, number_chunks, summarize, to_upload, UploadSummary,
};
use blazenet::proto::{ChunkQuery, Code, CommitRequest, UploadChunk};

fn database() -> redb::Database {
    redb::Database::builder().create_with_backend(redb::backends::InMemoryBackend::new()).unwrap()
}

fn hash(seed: u8) -> [u8; 32] {
    [seed; 32]
}

fn hash_of(data: &[u8]) -> [u8; 32] {
    blake3::hash(data).into()
}

/// A store with its pack file in memory.
struct Fixture {
    store: GameStore,
    file: Vec<u8>,
}

impl Fixture {
    fn new(game_id: u64) -> Self {
        Fixture { store: GameStore::new(game_id, 0), file: Vec::new() }
    }

    fn append(&mut self, index: &mut CountTable, hash: &[u8; 32], data: &[u8]) -> (u64, u32) {
        match self.store.append_chunk(index, hash, data.len()).unwrap() {
            Placement::Known { offset, len } => (offset, len),
            Placement::New { offset, len } => {
                assert_eq!(offset as usize, self.file.len());
                self.file.extend_from_slice(data);
                assert_eq!(self.store.commit_chunk(index, hash, data.len()).unwrap(), (offset, len));
                (offset, len)
            }
        }
    }

    fn batch(&mut self, index: &mut CountTable, chunks: &Vec<([u8; 32], Vec<u8>)>) -> Vec<(u64, u32)> {
        let plan = self.store.append_chunks_batch(index, chunks).unwrap();
        for i in &plan.new {
            assert_eq!(plan.places[*i].0 as usize, self.file.len());
            self.file.extend_from_slice(&chunks[*i].1);
        }
        assert_eq!(plan.end as usize, self.file.len());
        self.store.commit_batch(index, chunks, &plan).unwrap();
        plan.places
    }

    fn read(&self, index: &CountTable, hash: &[u8; 32]) -> Option<Vec<u8>> {
        let read = |max: usize, at: u64| {
            let rest = &self.file[(at as usize).min(self.file.len())..];
            Ok(rest[..rest.len().min(max).min(3)].to_vec())
        };
        self.store.read_chunk(index, hash, read).unwrap()
    }

    fn compact(&mut self, index: &mut CountTable, live: &[[u8; 32]], threshold: f64, space: u64) -> bool {
        let plan = self.store.plan_compact(index, &ChunkSet::from_hashes(live)).unwrap();
        let garbage = self.store.size().saturating_sub(plan.live_bytes);
        let below = (garbage as f64 / self.store.size() as f64) < threshold;
        if !self.store.should_compact(plan.live_bytes, below, space) {
            return false;
        }
        let mut copy: Vec<u8> = Vec::new();
        for piece in copy_pieces(&plan.ranges()) {
            copy.extend_from_slice(&self.file[piece.from as usize..piece.from as usize + piece.len as usize]);
        }
        GameStore::ensure_copy_size(copy.len() as u64, plan.live_bytes).unwrap();
        self.file = copy;
        self.store.commit_compact(index, &plan).unwrap();
        true
    }
}

#[test]
fn test_append_dedup_and_read() {
    let db = database();
    let txn = db.begin_write().unwrap();
    let mut index = open_index(&txn).unwrap();
    let mut s = Fixture::new(1);
    let h = hash(7);
    let (o1, l1) = s.append(&mut index, &h, b"hello");
    let (o2, l2) = s.append(&mut index, &h, b"hello");
    assert_eq!((o1, l1), (o2, l2));
    assert_eq!(s.read(&index, &h), Some(b"hello".to_vec()));
    assert_eq!(s.read(&index, &hash(8)), None);
    assert_eq!(s.store.size(), 5);
}

#[test]
fn test_batch_append_dedupe_and_read() {
    let db = database();
    let txn = db.begin_write().unwrap();
    let mut index = open_index(&txn).unwrap();
    let mut s = Fixture::new(1);
    let h1 = hash(1);
    let h2 = hash(2);
    let chunks = vec![(h1, b"aaaa".to_vec()), (h2, b"bb".to_vec()), (h1, b"aaaa".to_vec())];
    let locs = s.batch(&mut index, &chunks);
    assert_eq!(locs[0], locs[2]);
    assert_eq!(locs[0].1, 4);
    assert_eq!(locs[1].1, 2);
    assert_eq!(s.read(&index, &h1), Some(b"aaaa".to_vec()));
    assert_eq!(s.read(&index, &h2), Some(b"bb".to_vec()));
    assert_eq!(s.store.size(), 6);
}

#[test]
fn test_batch_append_empty() {
    let db = database();
    let txn = db.begin_write().unwrap();
    let mut index = open_index(&txn).unwrap();
    let mut s = Fixture::new(1);
    assert!(s.batch(&mut index, &Vec::new()).is_empty());
    assert_eq!(s.store.size(), 0);
}

#[test]
fn test_batch_append_existing_from_db() {
    let db = database();
    let txn = db.begin_write().unwrap();
    let mut index = open_index(&txn).unwrap();
    let mut s = Fixture::new(1);
    let h1 = hash(1);
    let h2 = hash(2);
    s.append(&mut index, &h1, b"aaaa");
    let locs = s.batch(&mut index, &vec![(h1, b"aaaa".to_vec()), (h2, b"bb".to_vec())]);
    assert_eq!(locs[0], (0, 4));
    assert_eq!(locs[1].1, 2);
    assert_eq!(s.store.size(), 6);
}

#[test]
fn test_read_chunk_eof_after_truncate() {
    let database = database();
    let txn = database.begin_write().unwrap();
    let mut index = open_index(&txn).unwrap();
    let mut fixture = Fixture::new(1);
    let h = hash(3);
    fixture.append(&mut index, &h, b"hello");
    fixture.file.truncate(2);
    let read = |max: usize, at: u64| {
        let start = (at as usize).min(fixture.file.len());
        let end = (start + max).min(fixture.file.len());
        Ok(fixture.file[start..end].to_vec())
    };
    let err = fixture.store.read_chunk(&index, &h, read).unwrap_err();
    assert!(matches!(err, StoreError::Read(ReadError::UnexpectedEof)));
    assert!(err.message().unwrap().contains("读取块数据失败"));
    assert_eq!(ReadError::UnexpectedEof.message(), "读取块数据遇到文件末尾");
    assert_eq!(ReadError::Failed.message(), "读取块数据失败");
}

#[test]
fn reads_in_small_steps() {
    let file: Vec<u8> = (0..50).collect();
    let read = |max: usize, at: u64| {
        let start = at as usize;
        let end = (start + max.min(3)).min(file.len());
        Ok(file[start..end].to_vec())
    };
    assert_eq!(read_exact_at(read, 20, 7).unwrap(), file[7..27].to_vec());
    assert_eq!(read_exact_at(|_: usize, _: u64| Err(ReadError::Failed), 1, 0), Err(ReadError::Failed));
    assert_eq!(read_exact_at(|_: usize, _: u64| Err(ReadError::Failed), 0, 0), Ok(Vec::new()));
}

#[test]
fn test_write_exact_at_zero_write() {
    let err = write_exact_at_impl(|_: &[u8], _: u64| Ok(0), b"x", 0).unwrap_err();
    assert_eq!(err, WriteError::WriteZero);
}

#[test]
fn writes_in_small_steps() {
    let file = std::cell::RefCell::new(vec![0u8; 10]);
    let write = |buf: &[u8], at: u64| {
        let n = buf.len().min(2);
        file.borrow_mut()[at as usize..at as usize + n].copy_from_slice(&buf[..n]);
        Ok(n)
    };
    assert_eq!(write_exact_at_impl(write, b"hello", 3), Ok(()));
    assert_eq!(&file.borrow()[..], b"\0\0\0hello\0\0");
    assert_eq!(write_exact_at_impl(|_: &[u8], _: u64| Err(WriteError::Failed), b"x", 0), Err(WriteError::Failed));
}

#[test]
fn test_ensure_copy_size_mismatch() {
    let err = GameStore::ensure_copy_size(1, 2).unwrap_err();
    assert!(err.message().unwrap().contains("字节数不一致"));
    assert_eq!(err.message().unwrap(), "压缩重写字节数不一致: 预期 2，实际 1");
    GameStore::ensure_copy_size(2, 2).unwrap();
}

#[test]
fn test_contains() {
    let db = database();
    let txn = db.begin_write().unwrap();
    let mut index = open_index(&txn).unwrap();
    let mut s = Fixture::new(1);
    let h = hash(5);
    assert!(!s.store.contains(&index, &h).unwrap());
    s.append(&mut index, &h, b"data");
    assert!(s.store.contains(&index, &h).unwrap());
}

#[test]
fn test_entries() {
    let db = database();
    let txn = db.begin_write().unwrap();
    let mut index = open_index(&txn).unwrap();
    let mut s = Fixture::new(1);
    let h1 = hash(1);
    let h2 = hash(2);
    s.append(&mut index, &h1, b"aaaa");
    s.append(&mut index, &h2, b"bbbb");
    let entries = s.store.entries(&index).unwrap();
    assert_eq!(entries.len(), 2);
    for (key, offset, len) in &entries {
        assert_eq!(key.len(), 80);
        assert_eq!(*len, 4);
        assert_eq!(*offset, if key.ends_with(&hex(&h1)) { 0 } else { 4 });
    }
}

#[test]
fn test_compact_skipped_below_threshold() {
    let db = database();
    let txn = db.begin_write().unwrap();
    let mut index = open_index(&txn).unwrap();
    let mut s = Fixture::new(1);
    s.append(&mut index, &hash(1), b"aaaa");
    s.append(&mut index, &hash(2), b"bbbb");
    assert!(!s.compact(&mut index, &[hash(1), hash(2)], 0.3, 1024));
    assert_eq!(s.store.size(), 8);
}

#[test]
fn test_compact_deferred_when_space_insufficient() {
    let db = database();
    let txn = db.begin_write().unwrap();
    let mut index = open_index(&txn).unwrap();
    let mut s = Fixture::new(1);
    s.append(&mut index, &hash(1), b"aaaa");
    s.append(&mut index, &hash(2), b"bbbb");
    s.append(&mut index, &hash(3), b"cccc");
    assert!(!s.compact(&mut index, &[hash(1)], 0.3, 1));
    assert_eq!(s.store.size(), 12);
}

#[test]
fn test_compact_rewrites_and_keeps_only_live() {
    let db = database();
    let txn = db.begin_write().unwrap();
    let mut index = open_index(&txn).unwrap();
    let mut s = Fixture::new(1);
    s.append(&mut index, &hash(1), b"aaaa");
    s.append(&mut index, &hash(2), b"bbbb");
    s.append(&mut index, &hash(3), b"cccc");
    assert!(s.compact(&mut index, &[hash(1), hash(3)], 0.3, 1024));
    assert_eq!(s.store.size(), 8);
    assert_eq!(s.read(&index, &hash(1)), Some(b"aaaa".to_vec()));
    assert_eq!(s.read(&index, &hash(3)), Some(b"cccc".to_vec()));
    assert_eq!(s.read(&index, &hash(2)), None);
}

#[test]
fn compaction_forgets_dead_chunks() {
    let db = database();
    let txn = db.begin_write().unwrap();
    let mut index = open_index(&txn).unwrap();
    let mut s = Fixture::new(1);
    s.append(&mut index, &hash(1), b"aaaa");
    s.append(&mut index, &hash(2), b"bbbb");
    assert!(s.compact(&mut index, &[hash(2)], 0.3, 1024));
    assert_eq!(s.store.locate(&index, &hash(1)).unwrap(), None);
    assert_eq!(s.store.locate(&index, &hash(2)).unwrap(), Some((0, 4)));
    assert!(!s.store.contains(&index, &hash(1)).unwrap());
}

#[test]
fn test_compact_keeps_other_games() {
    let db = database();
    let txn = db.begin_write().unwrap();
    let mut index = open_index(&txn).unwrap();
    let mut g1 = Fixture::new(1);
    let mut g2 = Fixture::new(2);
    g1.append(&mut index, &hash(1), b"aaaa");
    g2.append(&mut index, &hash(9), b"zzzz");
    assert!(g1.compact(&mut index, &[hash(1)], 0.0, 1024));
    assert_eq!(g2.read(&index, &hash(9)), Some(b"zzzz".to_vec()));
}

#[test]
fn test_compact_empty_store() {
    let db = database();
    let txn = db.begin_write().unwrap();
    let mut index = open_index(&txn).unwrap();
    let mut s = Fixture::new(1);
    assert!(!s.compact(&mut index, &[], 0.0, 1024));
}

#[test]
fn places_are_packed_into_one_number() {
    assert_eq!(unpack(pack(12_345, 678)), (12_345, 678));
    assert_eq!(pack(1, 2), 0x1_0000_0002);
    assert_eq!(unpack(pack(u32::MAX as u64, u32::MAX)), (u32::MAX as u64, u32::MAX));
}

#[test]
fn index_survives_the_transaction() {
    let db = database();
    let mut s = Fixture::new(1);
    {
        let txn = db.begin_write().unwrap();
        {
            let mut index = open_index(&txn).unwrap();
            s.append(&mut index, &hash(1), b"aaaa");
        }
        txn.commit().unwrap();
    }
    let txn = db.begin_write().unwrap();
    let index = open_index(&txn).unwrap();
    assert_eq!(s.read(&index, &hash(1)), Some(b"aaaa".to_vec()));
}

struct MockSource {
    hash: [u8; 32],
    data: Vec<u8>,
}

impl ChunkSource for MockSource {
    fn read_chunk(&self, hash: &[u8; 32]) -> Result<Option<Vec<u8>>, SourceError> {
        Ok(if hash == &self.hash { Some(self.data.clone()) } else { None })
    }

    fn contains(&self, hash: &[u8; 32]) -> Result<bool, SourceError> {
        Ok(hash == &self.hash)
    }
}

#[test]
fn test_node_store_pack_and_cafe() {
    let h = hash(6);
    let pack: NodeStore<MockSource, MockSource> = NodeStore::Pack(MockSource { hash: h, data: b"pack".to_vec() });
    assert_eq!(pack.read_chunk(&h).unwrap(), Some(b"pack".to_vec()));
    assert!(pack.contains(&h).unwrap());
    assert_eq!(pack.read_chunk(&hash(7)).unwrap(), None);
    let cafe: NodeStore<MockSource, MockSource> = NodeStore::Cafe(MockSource { hash: h, data: b"cafe".to_vec() });
    assert_eq!(cafe.read_chunk(&h).unwrap(), Some(b"cafe".to_vec()));
    assert!(cafe.contains(&h).unwrap());
    assert!(!cafe.contains(&hash(7)).unwrap());
}

#[test]
fn test_append_ack_ok() {
    let ack = append_ack(Ok((0, 5)), [1; 32]);
    assert!(ack.ok);
    assert!(ack.error.is_empty());
    assert_eq!(ack.chunk_hash, vec![1; 32]);
}

#[test]
fn test_append_ack_err() {
    let ack = append_ack(Err("磁盘写入失败".to_string()), [2; 32]);
    assert!(!ack.ok);
    assert!(ack.error.contains("磁盘写入失败"));
}

#[test]
fn test_error_helpers() {
    assert!(open_store_error("x").message.contains("打开块库失败"));
    assert!(query_chunk_error("x").message.contains("查询块失败"));
    assert!(create_publish_dir_error("x").message.contains("创建发布目录失败"));
    assert!(write_manifest_error("x").message.contains("写入版本清单失败"));
    assert!(bad_hash_len().message.contains("32 字节"));
    assert!(bad_manifest_hash_len().message.contains("32 字节"));
    assert!(decode_manifest_error(ManifestError::BadMagic).message.contains("版本清单解析失败"));
    assert_eq!(open_store_error("x").message, "打开块库失败: x");
    assert_eq!(open_store_error("x").code, Code::Internal);
}

fn refused<T>(r: Result<T, RequestError>) -> String {
    match r {
        Err(RequestError::Refused(s)) => s.message,
        _ => panic!("not refused"),
    }
}

fn commit(manifest: Vec<u8>, manifest_hash: Vec<u8>) -> CommitRequest {
    CommitRequest { game_id: 1, version: 1, manifest, manifest_hash }
}

#[test]
fn test_query_invalid_hash_len() {
    let db = database();
    let txn = db.begin_write().unwrap();
    let index = open_index(&txn).unwrap();
    let query = ChunkQuery { game_id: 1, chunk_hashes: vec![vec![1, 2, 3]] };
    assert!(refused(query_existing_chunks(&GameStore::new(1, 0), &index, &query)).contains("32 字节"));
}

#[test]
fn test_upload_zero_game_id() {
    let chunk = UploadChunk { game_id: 0, chunk_hash: vec![0; 32], data: vec![], seq: 1 };
    assert!(check_first(&chunk).unwrap_err().message.contains("game_id"));
    let chunk = UploadChunk { game_id: 4, ..chunk };
    assert_eq!(check_first(&chunk).unwrap(), 4);
}

#[test]
fn test_upload_short_hash_empty_acks() {
    let chunk = UploadChunk { game_id: 1, chunk_hash: vec![1, 2], data: vec![1], seq: 1 };
    assert!(process_chunk(&chunk).unwrap_err().message.contains("32 字节"));
}

#[test]
fn test_commit_bad_manifest_hash_len() {
    let err = check_commit(&commit(vec![0u8; 40], vec![0u8; 16])).unwrap_err();
    assert!(err.message.contains("32 字节"));
}

#[test]
fn test_commit_decode_failure() {
    let body = vec![0xffu8; 8];
    let mut manifest = body.clone();
    let hash = hash_of(&body);
    manifest.extend_from_slice(&hash);
    let err = check_commit(&commit(manifest, hash.to_vec())).unwrap_err();
    assert!(err.message.contains("版本清单解析失败"));
}

#[test]
fn test_commit_hash_mismatch() {
    let err = check_commit(&commit(vec![0u8; 40], vec![0u8; 32])).unwrap_err();
    assert!(err.message.contains("manifest_hash"));
    assert_eq!(err.code, Code::InvalidArgument);
}

#[test]
fn test_commit_short_manifest() {
    let err = check_commit(&commit(vec![1, 2, 3], vec![0u8; 32])).unwrap_err();
    assert!(err.message.contains("长度不足"));
}

#[test]
fn test_invalid_game_id() {
    let db = database();
    let txn = db.begin_write().unwrap();
    let index = open_index(&txn).unwrap();
    let query = ChunkQuery { game_id: 0, chunk_hashes: vec![] };
    assert!(refused(query_existing_chunks(&GameStore::new(0, 0), &index, &query)).contains("game_id"));
    let zero = CommitRequest { game_id: 0, ..commit(vec![0u8; 40], vec![0u8; 32]) };
    assert_eq!(check_commit(&zero).unwrap_err().message, "game_id 与 version 必须大于 0");
}

fn one_file(seed: u8, hash: [u8; 32], len: u32) -> GameIndex {
    GameIndex::build(vec![FileEntry {
        name: "a.bin".to_string(),
        file_hash: [seed; 32],
        chunks: vec![ChunkMeta { hash, len }],
    }])
}

#[test]
fn test_query_and_upload_and_commit() {
    let db = database();
    let txn = db.begin_write().unwrap();
    let mut index = open_index(&txn).unwrap();
    let mut s = Fixture::new(1);
    let d1 = b"hello".to_vec();
    let d2 = b"world".to_vec();
    let h1 = hash_of(&d1);
    let h2 = hash_of(&d2);
    let query = ChunkQuery { game_id: 1, chunk_hashes: vec![h1.to_vec(), h2.to_vec()] };
    assert!(query_existing_chunks(&s.store, &index, &query).unwrap().is_empty());

    let first = UploadChunk { game_id: 1, chunk_hash: h1.to_vec(), data: d1.clone(), seq: 1 };
    assert_eq!(check_first(&first).unwrap(), 1);
    let ack = match process_chunk(&first).unwrap() {
        UploadStep::Append(hash) => {
            let place = s.append(&mut index, &hash, &first.data);
            append_ack(Ok(place), hash)
        }
        UploadStep::Refuse(ack) => ack,
    };
    assert!(ack.ok);
    let second = UploadChunk { game_id: 1, chunk_hash: vec![0u8; 32], data: d2.clone(), seq: 2 };
    match process_chunk(&second).unwrap() {
        UploadStep::Append(_) => panic!("damaged chunk accepted"),
        UploadStep::Refuse(ack) => {
            assert!(!ack.ok);
            assert!(ack.error.contains("哈希校验失败"));
        }
    }
    assert_eq!(query_existing_chunks(&s.store, &index, &query).unwrap(), vec![h1.to_vec()]);

    let missing = one_file(1, h2, 5);
    let request = commit(missing.encode().unwrap(), missing.manifest_hash.to_vec());
    match commit_version(&s.store, &index, "/data", &request).unwrap() {
        CommitStep::Refuse(reply) => {
            assert!(!reply.published);
            assert_eq!(reply.error, "版本清单引用的块未齐全");
        }
        CommitStep::Publish { .. } => panic!("published with chunks missing"),
    }
    let complete = one_file(2, h1, 5);
    let request = commit(complete.encode().unwrap(), complete.manifest_hash.to_vec());
    match commit_version(&s.store, &index, "/data", &request).unwrap() {
        CommitStep::Refuse(_) => panic!("not published"),
        CommitStep::Publish { dir, file } => {
            assert_eq!(dir.parts, vec!["/data", "1", "published"]);
            assert_eq!(file.parts, vec!["/data", "1", "published", "1.gameindex"]);
        }
    }
    assert!(published_reply().published);
    assert!(published_reply().error.is_empty());
}

fn upload_delta(s: &mut Fixture, index: &mut CountTable, chunks: Vec<([u8; 32], Vec<u8>)>) -> UploadSummary {
    let query = ChunkQuery { game_id: 1, chunk_hashes: chunks.iter().map(|(h, _)| h.to_vec()).collect() };
    let existing = existing_hashes(&query_existing_chunks(&s.store, index, &query).unwrap());
    let mut acks = Vec::new();
    for message in number_chunks(1, to_upload(chunks, &existing)) {
        acks.push(match process_chunk(&message).unwrap() {
            UploadStep::Append(hash) => append_ack(Ok(s.append(index, &hash, &message.data)), hash),
            UploadStep::Refuse(ack) => ack,
        });
    }
    summarize(existing.len(), &acks)
}

#[test]
fn test_upload_delta_full_flow() {
    let db = database();
    let txn = db.begin_write().unwrap();
    let mut index = open_index(&txn).unwrap();
    let mut s = Fixture::new(1);
    let d1 = b"hello".to_vec();
    let d2 = b"world".to_vec();
    let h1 = hash_of(&d1);
    let h2 = hash_of(&d2);
    let token = Some("test-token".to_string());
    assert!(attach_token(&token).unwrap().is_some());

    let summary = upload_delta(&mut s, &mut index, vec![(h1, d1.clone()), (h2, d2.clone())]);
    assert_eq!(summary.uploaded, 2);
    assert_eq!(summary.skipped, 0);
    assert!(summary.failed.is_empty());

    let summary = upload_delta(&mut s, &mut index, vec![(h1, d1.clone()), (h2, d2.clone())]);
    assert_eq!(summary.uploaded, 0);
    assert_eq!(summary.skipped, 2);

    let manifest = one_file(1, h1, d1.len() as u32);
    let request = commit(manifest.encode().unwrap(), manifest.manifest_hash.to_vec());
    match commit_version(&s.store, &index, "/data", &request).unwrap() {
        CommitStep::Refuse(_) => panic!("not published"),
        CommitStep::Publish { file, .. } => assert!(file.parts.join("/").ends_with("1/published/1.gameindex")),
    }
    assert_eq!(commit_result(&published_reply()), Ok(()));
}

#[test]
fn test_upload_failed_ack_and_commit_rejected() {
    let db = database();
    let txn = db.begin_write().unwrap();
    let mut index = open_index(&txn).unwrap();
    let mut s = Fixture::new(1);
    assert_eq!(attach_token(&None), Ok(None));

    let wrong = [7u8; 32];
    let summary = upload_delta(&mut s, &mut index, vec![(wrong, b"data".to_vec())]);
    assert_eq!(summary.failed, vec![wrong]);
    assert_eq!(summary.uploaded, 0);

    let manifest = one_file(2, wrong, 4);
    let request = commit(manifest.encode().unwrap(), manifest.manifest_hash.to_vec());
    match commit_version(&s.store, &index, "/data", &request).unwrap() {
        CommitStep::Refuse(reply) => assert!(commit_result(&reply).unwrap_err().contains("版本发布失败")),
        CommitStep::Publish { .. } => panic!("published with chunks missing"),
    }
}

#[test]
fn succeeds_where_the_index_is_not_asked() {
    let db = database();
    let txn = db.begin_write().unwrap();
    let mut index = open_index(&txn).unwrap();
    let mut store = GameStore::new(1, 0);
    let none: Vec<([u8; 32], Vec<u8>)> = Vec::new();
    let plan = store.append_chunks_batch(&index, &none).unwrap();
    assert!(plan.places.is_empty() && plan.new.is_empty());
    assert_eq!(store.commit_batch(&mut index, &none, &plan).is_ok(), true);
    let query = ChunkQuery { game_id: 1, chunk_hashes: vec![] };
    assert!(query_existing_chunks(&store, &index, &query).unwrap().is_empty());
    let empty = GameIndex::build(vec![]);
    let request = commit(empty.encode().unwrap(), empty.manifest_hash.to_vec());
    assert!(matches!(commit_version(&store, &index, "/data", &request), Ok(CommitStep::Publish { .. })));
    let short = ChunkQuery { game_id: 1, chunk_hashes: vec![vec![1; 31]] };
    assert!(matches!(query_existing_chunks(&store, &index, &short), Err(RequestError::Refused(_))));
}

#[test]
fn checks_stored_chunks() {
    let h = hash_of(b"hello");
    assert_eq!(parse_hash(&hex(&h)), Ok(h));
    assert_eq!(parse_hash("ab").unwrap_err().message(), "哈希长度非法: ab");
    let signs = "+a".repeat(32);
    assert_eq!(parse_hash(&signs).unwrap_err().message(), format!("哈希含非十六进制字符: {signs}"));
    let zz = "zz".repeat(32);
    assert_eq!(parse_hash(&zz).unwrap_err().message(), format!("哈希含非十六进制字符: {zz}"));
    let key = chunk_key(1, &h);
    assert_eq!(key_hash(&key), Some(h));
    assert_eq!(key_hash("short"), None);
    let mut tally = Tally { ok: 0, bad: 0 };
    tally.count(&key, Some(&b"hello".to_vec()));
    tally.count(&key, Some(&b"other".to_vec()));
    tally.count(&key, None);
    tally.count("short", Some(&b"hello".to_vec()));
    assert_eq!(tally, Tally { ok: 1, bad: 3 });
    let a = ChunkSet::from_hashes(&[hash(1), hash(2), hash(3)]);
    let b = ChunkSet::from_hashes(&[hash(2), hash(4)]);
    assert_eq!(compare_sets(&a, &b), (1, 2));
    assert_eq!(compare_sets(&b, &a), (1, 1));
}

#[test]
fn the_index_is_the_table_of_chunks() {
    let database = redb::Database::builder().create_with_backend(redb::backends::InMemoryBackend::new()).unwrap();
    let txn = database.begin_write().unwrap();
    let mut index = open_index(&txn).unwrap();
    GameStore::new(1, 0).commit_chunk(&mut index, &[3u8; 32], 5).unwrap();
    drop(index);
    let table = txn.open_table(redb::TableDefinition::<String, u64>::new("chunks")).unwrap();
    assert_eq!(redb::ReadableTableMetadata::len(&table).unwrap(), 1);
}

#[test]
fn a_batch_is_appends_in_turn() {
    let (one, two) = (database(), database());
    let (first, second) = (one.begin_write().unwrap(), two.begin_write().unwrap());
    let mut batch_index = open_index(&first).unwrap();
    let mut turn_index = open_index(&second).unwrap();
    let (mut batch, mut turn) = (Fixture::new(1), Fixture::new(1));
    for (fixture, index) in [(&mut batch, &mut batch_index), (&mut turn, &mut turn_index)] {
        fixture.append(index, &hash(9), b"there");
    }
    let chunks = vec![
        (hash(1), b"aaaa".to_vec()),
        (hash(9), b"there".to_vec()),
        (hash(2), b"".to_vec()),
        (hash(1), b"aaaa".to_vec()),
        (hash(3), b"cc".to_vec()),
        (hash(2), b"".to_vec()),
    ];
    let places = batch.batch(&mut batch_index, &chunks);
    let singly: Vec<(u64, u32)> = chunks.iter().map(|(h, d)| turn.append(&mut turn_index, h, d)).collect();
    assert_eq!(places, singly);
    assert_eq!(places, vec![(5, 4), (0, 5), (9, 0), (5, 4), (9, 2), (9, 0)]);
    assert_eq!(batch.file, turn.file);
    assert_eq!(batch.store.size(), turn.store.size());
    assert_eq!(batch.store.entries(&batch_index).unwrap(), turn.store.entries(&turn_index).unwrap());
    for (h, _) in &chunks {
        assert_eq!(batch.read(&batch_index, h), turn.read(&turn_index, h));
    }
}
