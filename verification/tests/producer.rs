//! The producer: chunks, manifests and uploads.
use blazenet::bench::fill;
use blazenet::common::chunk_set::ChunkSet;
use blazenet::common::digest::FileHasher;
use blazenet::common::path::PathParts;
use blazenet::producer::chunker::{chunk_file, describe_chunks, hex, list_files, visit, ChunkMeta, Visit};
use blazenet::producer::config::ChunkParams;
use blazenet::producer::delta::compute;
use blazenet::producer::manifest::{FileEntry, GameIndex, FORMAT_VERSION, MAGIC};
use blazenet::producer::upload::{
    attach_token, bearer, commit_result, existing_hashes, number_chunks, summarize, to_upload, UploadSummary,
};
use blazenet::proto::{CommitReply, UploadAck};

fn random(seed: u64, len: usize) -> Vec<u8> {
    let mut seed = seed;
    fill(len, &mut seed)
}

#[test]
fn test_chunk_file_sum_lengths() {
    let data = random(1, 3 * 1024 * 1024);
    let mut seen = ChunkSet::new();
    let out = chunk_file(&data, &ChunkParams::default(), false, &mut seen);
    let total: u64 = out.metas.iter().map(|m| m.len as u64).sum();
    assert_eq!(total, 3 * 1024 * 1024);
    assert!(!out.metas.is_empty());
    assert!(out.staged.is_empty());
    assert!(seen.is_empty());
}

#[test]
fn test_chunk_file_stage_dedup() {
    let data = random(2, 1024 * 1024);
    let mut seen = ChunkSet::new();
    let out = chunk_file(&data, &ChunkParams::default(), true, &mut seen);
    assert_eq!(out.staged.len(), out.metas.len());
    for (hash, piece) in &out.staged {
        let actual: [u8; 32] = blake3::hash(piece).into();
        assert_eq!(*hash, actual);
    }
    let again = chunk_file(&data, &ChunkParams::default(), true, &mut seen);
    assert_eq!(again.metas, out.metas);
    assert!(again.staged.is_empty());
}

#[test]
fn chunks_make_up_the_file() {
    let data = random(3, 6 * 1024 * 1024);
    let params = ChunkParams::default();
    let mut seen = ChunkSet::new();
    let out = chunk_file(&data, &params, true, &mut seen);
    let mut joined: Vec<u8> = Vec::new();
    for (_, piece) in &out.staged {
        assert!(!piece.is_empty() && piece.len() <= params.max_size);
        joined.extend_from_slice(piece);
    }
    assert_eq!(joined, data);
    assert!(out.metas.len() > 1);
}

#[test]
fn pieces_are_described_in_order() {
    let mut seen = ChunkSet::new();
    let pieces = vec![b"a".to_vec(), b"bb".to_vec(), b"a".to_vec()];
    let out = describe_chunks(pieces, true, &mut seen);
    assert_eq!(out.metas.iter().map(|m| m.len).collect::<Vec<u32>>(), vec![1, 2, 1]);
    assert_eq!(out.metas[0].hash, out.metas[2].hash);
    assert_eq!(out.staged.len(), 2);
    assert_eq!(out.staged[1].1, b"bb".to_vec());
    assert_eq!(seen.len(), 2);
}

#[test]
fn test_file_hash_matches_blake3() {
    let data = random(3, 2 * 1024 * 1024);
    let mut hasher = FileHasher::new();
    for part in data.chunks(1000) {
        hasher.update(part);
    }
    let expected: [u8; 32] = blake3::hash(&data).into();
    assert_eq!(hasher.finish(), expected);
}

#[test]
fn test_list_files_recursive() {
    let sub = PathParts::new("sub");
    let found = vec![sub.join("c.bin"), PathParts::new("b.bin"), sub.join("a.bin")];
    let files = list_files(Ok(found)).unwrap();
    let names: Vec<String> = files.iter().map(|p| p.parts.join("/")).collect();
    assert_eq!(names, vec!["b.bin", "sub/a.bin", "sub/c.bin"]);
}

#[test]
fn test_list_files_missing_dir() {
    let err = list_files(Err("/tmp/不存在的目录".to_string())).unwrap_err();
    assert!(err.message().contains("读取目录失败"));
    assert_eq!(err.message(), "读取目录失败: /tmp/不存在的目录");
}

#[test]
fn test_list_files_ignores_broken_symlink() {
    assert_eq!(visit(true, false), Visit::File);
    assert_eq!(visit(false, true), Visit::Descend);
    assert_eq!(visit(false, false), Visit::Skip);
}

#[test]
fn test_hex() {
    assert_eq!(hex(&[0xab, 0x01]), "ab01");
}

fn index(hashes: &[u8]) -> GameIndex {
    GameIndex {
        format_version: FORMAT_VERSION,
        files: vec![FileEntry {
            name: "a.bin".to_string(),
            file_hash: [0; 32],
            chunks: hashes.iter().map(|h| ChunkMeta { hash: [*h; 32], len: 100 }).collect(),
        }],
        manifest_hash: [0; 32],
    }
}

#[test]
fn test_compute_all_new() {
    let plan = compute(&index(&[1, 2, 3]), None);
    assert_eq!(plan.new_chunks.len(), 3);
    assert_eq!(plan.reused_chunks, 0);
    assert_eq!(plan.new_bytes, 300);
}

#[test]
fn test_compute_partial_reuse() {
    let plan = compute(&index(&[1, 2, 3]), Some(&index(&[1, 4])));
    assert_eq!(plan.new_chunks, vec![[2; 32], [3; 32]]);
    assert_eq!(plan.reused_chunks, 1);
    assert_eq!(plan.new_bytes, 200);
}

#[test]
fn test_compute_no_change() {
    let plan = compute(&index(&[1, 2]), Some(&index(&[1, 2])));
    assert!(plan.new_chunks.is_empty());
    assert_eq!(plan.reused_chunks, 2);
    assert_eq!(plan.new_bytes, 0);
}

#[test]
fn test_compute_dedup_duplicate_within_new() {
    let mut new = index(&[1, 2]);
    new.files.push(FileEntry {
        name: "b.bin".to_string(),
        file_hash: [0; 32],
        chunks: vec![ChunkMeta { hash: [1; 32], len: 100 }],
    });
    let plan = compute(&new, None);
    assert_eq!(plan.new_chunks.len(), 2);
    assert_eq!(plan.new_bytes, 200);
}

fn entry(name: &str, chunks: Vec<(u8, u32)>) -> FileEntry {
    FileEntry {
        name: name.to_string(),
        file_hash: [name.len() as u8; 32],
        chunks: chunks.into_iter().map(|(h, len)| ChunkMeta { hash: [h; 32], len }).collect(),
    }
}

#[test]
fn test_encode_decode_roundtrip() {
    let index = GameIndex::build(vec![
        entry("a.bin", vec![(1, 10), (2, 20)]),
        entry("目录/b.bin", vec![(3, 30)]),
    ]);
    let bytes = index.encode().unwrap();
    let decoded = GameIndex::decode(&bytes).unwrap();
    assert_eq!(decoded, index);
    assert_eq!(decoded.byte_count(), Some(60));
}

#[test]
fn test_decode_too_short() {
    let err = GameIndex::decode(&[0u8; 10]).unwrap_err();
    assert!(err.message().contains("长度不足"));
}

#[test]
fn test_decode_bad_magic() {
    let index = GameIndex::build(vec![]);
    let mut bytes = index.encode().unwrap();
    bytes[0] = b'X';
    let err = GameIndex::decode(&bytes).unwrap_err();
    assert!(err.message().contains("magic"));
}

#[test]
fn test_decode_hash_mismatch() {
    let index = GameIndex::build(vec![entry("a.bin", vec![(1, 10)])]);
    let mut bytes = index.encode().unwrap();
    let last = bytes.len() - 1;
    bytes[last] ^= 0xff;
    let err = GameIndex::decode(&bytes).unwrap_err();
    assert!(err.message().contains("哈希校验失败"));
}

#[test]
fn test_decode_truncated_file() {
    let index = GameIndex::build(vec![entry("a.bin", vec![(1, 10)])]);
    let bytes = index.encode().unwrap();
    assert!(GameIndex::decode(&bytes[..bytes.len() - 40]).is_err());
}

#[test]
fn test_chunk_set_dedup() {
    let index = GameIndex::build(vec![
        entry("a.bin", vec![(1, 10), (2, 20)]),
        entry("b.bin", vec![(1, 10), (3, 30)]),
    ]);
    assert_eq!(index.chunk_set().len(), 3);
}

#[test]
fn test_decode_invalid_utf8_name() {
    let mut bytes = Vec::new();
    bytes.extend_from_slice(&MAGIC);
    bytes.extend_from_slice(&FORMAT_VERSION.to_le_bytes());
    bytes.extend_from_slice(&0u16.to_le_bytes());
    bytes.extend_from_slice(&1u32.to_le_bytes());
    bytes.extend_from_slice(&1u16.to_le_bytes());
    bytes.push(0xff);
    bytes.extend_from_slice(&[0u8; 32]);
    bytes.extend_from_slice(&0u32.to_le_bytes());
    let mut full = bytes.clone();
    let hash: [u8; 32] = blake3::hash(&bytes).into();
    full.extend_from_slice(&hash);
    let err = GameIndex::decode(&full).unwrap_err();
    assert!(err.message().contains("UTF-8"));
}

#[test]
fn test_decode_trailing_data() {
    let index = GameIndex::build(vec![entry("a.bin", vec![(1, 10)])]);
    let mut bytes = index.encode().unwrap();
    bytes.extend_from_slice(&[0u8; 4]);
    let err = GameIndex::decode(&bytes).unwrap_err();
    assert!(err.message().contains("多余数据"));
}

#[test]
fn encoded_layout() {
    let index = GameIndex::build(vec![entry("a", vec![(1, 2)])]);
    let bytes = index.encode().unwrap();
    assert_eq!(&bytes[..MAGIC.len()], &MAGIC);
    assert_eq!(&bytes[bytes.len() - 32..], &index.manifest_hash);
    let body_hash: [u8; 32] = blake3::hash(&bytes[..bytes.len() - 32]).into();
    assert_eq!(body_hash, index.manifest_hash);
}

fn ack(seed: u8, ok: bool) -> UploadAck {
    UploadAck { chunk_hash: vec![seed; 32], ok, error: String::new() }
}

#[test]
fn uploads_are_numbered_and_counted() {
    let chunks = vec![([1; 32], b"a".to_vec()), ([2; 32], b"bb".to_vec()), ([3; 32], b"c".to_vec())];
    let existing = existing_hashes(&vec![vec![2; 32]]);
    let rest = to_upload(chunks, &existing);
    assert_eq!(rest.iter().map(|c| c.0).collect::<Vec<[u8; 32]>>(), vec![[1; 32], [3; 32]]);
    let messages = number_chunks(9, rest);
    assert_eq!(messages[1].seq, 1);
    assert_eq!(messages[1].game_id, 9);
    assert_eq!(messages[1].chunk_hash, vec![3; 32]);
    assert_eq!(messages[1].data, b"c".to_vec());
    let summary = summarize(existing.len(), &vec![ack(1, true), ack(3, true)]);
    assert_eq!(summary, UploadSummary { uploaded: 2, skipped: 1, failed: vec![] });
    assert_eq!(UploadSummary::default(), UploadSummary { uploaded: 0, skipped: 0, failed: vec![] });
}

#[test]
fn failed_uploads_are_listed() {
    let summary = summarize(0, &vec![ack(1, true), ack(2, false)]);
    assert_eq!(summary, UploadSummary { uploaded: 1, skipped: 0, failed: vec![[2; 32]] });
    let reply = CommitReply { published: false, error: "块未齐全".to_string() };
    assert_eq!(commit_result(&reply), Err("版本发布失败: 块未齐全".to_string()));
    let reply = CommitReply { published: true, error: String::new() };
    assert_eq!(commit_result(&reply), Ok(()));
    assert_eq!(bearer("t0"), "Bearer t0");
}

#[test]
fn test_attach_token_invalid() {
    let token = Some("bad\nvalue".to_string());
    let err = attach_token(&token).unwrap_err();
    assert!(err.message().contains("Token"));
    assert_eq!(err.message(), "Token 格式非法");
    assert!(attach_token(&Some("\u{7f}".to_string())).is_err());
}

#[test]
fn tokens_that_requests_carry() {
    assert_eq!(attach_token(&None), Ok(None));
    let entry = |value: &str| Ok(Some(("authorization".to_string(), value.as_bytes().to_vec())));
    assert_eq!(attach_token(&Some("test-token".to_string())), entry("Bearer test-token"));
    assert_eq!(attach_token(&Some("a\tb".to_string())), entry("Bearer a\tb"));
    assert_eq!(attach_token(&Some("令牌".to_string())), entry("Bearer 令牌"));
    assert_eq!(attach_token(&Some(String::new())), entry("Bearer "));
}
