//! What all node types share.
use blazenet::bench::fill;
use blazenet::common::bytes::{push_u64_le, u64_le_at};
use blazenet::common::chunk_set::ChunkSet;
use blazenet::common::copy::{copy_pieces, COPY_CHUNK};
use blazenet::common::digest::FileHasher;
use blazenet::common::hex::{chunk_key, hex, parse_hex};
use blazenet::common::keepalive::{
    answer_ping, build_ping, build_pong, parse_ping, parse_pong, PING_LEN, PONG_LEN,
};
use blazenet::common::order::{dedup, sort};
use blazenet::common::path::{path_at_most, sort_paths, PathParts};
use blazenet::common::text::{decimal_text, parse_u64_bytes};
use blazenet::common::update_plan::compute;
use blazenet::common::words::split_words;
use blazenet::poc::{check_port, chunk, delta_bytes, path_verdict, rand_bytes, Compaction, Pack, Verdict};
use blazenet::producer::chunker::ChunkMeta;
use blazenet::producer::manifest::{FileEntry, GameIndex, FORMAT_VERSION};
use blazenet::proto::{CONTROL_SERVICE_NAME, UPLOAD_SERVICE_NAME};
use rand::{RngExt, SeedableRng};
use rand_chacha::ChaCha20Rng;

#[test]
fn test_run_ok() {
    assert!(blazenet::agent::run().is_ok());
}

#[test]
fn lib_test_run_ok() {
    assert!(blazenet::producer::run().is_ok());
    assert!(blazenet::relay::run().is_ok());
}

#[test]
fn keepalive_test_packet_roundtrip() {
    let ping = build_ping(42, 7, 3);
    assert_eq!(ping.len(), PING_LEN);
    assert_eq!(parse_ping(&ping), Some((42, 7, 3)));
    assert_eq!(parse_ping(&ping[..10]), None);
    assert_eq!(parse_ping(b"garbage"), None);
    let pong = build_pong(42);
    assert_eq!(pong.len(), PONG_LEN);
    assert_eq!(parse_pong(&pong), Some(42));
    assert_eq!(parse_pong(&pong[..5]), None);
    assert_eq!(parse_pong(b"garbage"), None);
}

#[test]
fn test_packet_roundtrip() {
    let ping = build_ping(42, 7, 3);
    assert_eq!(ping.len(), PING_LEN);
    assert_eq!(parse_ping(&ping), Some((42, 7, 3)));
    assert_eq!(parse_ping(&ping[..10]), None);
    let pong = build_pong(42);
    assert_eq!(pong.len(), PONG_LEN);
    assert_eq!(parse_pong(&pong), Some(42));
    assert_eq!(parse_pong(&pong[..5]), None);
}

#[test]
fn packets_have_their_layout() {
    let ping = build_ping(0x0403_0201, 5, 6);
    assert_eq!(&ping[..6], b"BLZPNG");
    assert_eq!(&ping[6..10], &[1, 2, 3, 4]);
    assert_eq!(&ping[10..18], &[5, 0, 0, 0, 0, 0, 0, 0]);
    assert_eq!(&ping[18..], &[6, 0, 0, 0]);
    assert_eq!(&build_pong(1)[..7], b"BLZPONG");
    assert_eq!(answer_ping(&ping), Some(build_pong(0x0403_0201)));
    assert_eq!(answer_ping(b"garbage"), None);
}

#[test]
fn test_package_name() {
    assert_eq!(blazenet::common::package_name(), "blazenet");
}

#[test]
fn test_service_name() {
    assert_eq!(UPLOAD_SERVICE_NAME, "blazenet.upload.Upload");
    assert_eq!(CONTROL_SERVICE_NAME, "blazenet.control.Control");
}

fn entry(name: &str, file_hash: u8, hashes: &[u8]) -> FileEntry {
    FileEntry {
        name: name.to_string(),
        file_hash: [file_hash; 32],
        chunks: hashes.iter().map(|h| ChunkMeta { hash: [*h; 32], len: 100 }).collect(),
    }
}

fn index(files: Vec<FileEntry>) -> GameIndex {
    GameIndex { format_version: FORMAT_VERSION, files, manifest_hash: [0; 32] }
}

#[test]
fn test_all_new_with_temp_skip() {
    let new = index(vec![entry("a.bin", 1, &[1, 2, 3])]);
    let temp = ChunkSet::from_hashes(&[[2; 32]]);
    let plan = compute(&new, None, &temp);
    assert_eq!(plan.files_to_download, vec!["a.bin"]);
    assert!(plan.files_to_update.is_empty());
    assert!(plan.files_to_delete.is_empty());
    assert_eq!(plan.chunks_to_download, vec![[1; 32], [3; 32]]);
    assert_eq!(plan.download_bytes, 200);
}

#[test]
fn test_mixed_files() {
    let old = index(vec![
        entry("same.bin", 1, &[1]),
        entry("changed.bin", 2, &[2, 3]),
        entry("gone.bin", 3, &[4]),
    ]);
    let new = index(vec![
        entry("same.bin", 1, &[1]),
        entry("changed.bin", 9, &[2, 5]),
        entry("added.bin", 4, &[6]),
    ]);
    let plan = compute(&new, Some(&old), &ChunkSet::new());
    assert_eq!(plan.files_to_download, vec!["added.bin"]);
    assert_eq!(plan.files_to_update, vec!["changed.bin"]);
    assert_eq!(plan.files_to_delete, vec!["gone.bin"]);
    assert_eq!(plan.chunks_to_download, vec![[5; 32], [6; 32]]);
    assert_eq!(plan.download_bytes, 200);
}

#[test]
fn test_shared_chunk_dedup_across_files() {
    let old = index(vec![entry("old.bin", 1, &[1])]);
    let new = index(vec![entry("a.bin", 2, &[1, 2]), entry("b.bin", 3, &[2, 3])]);
    let plan = compute(&new, Some(&old), &ChunkSet::new());
    assert_eq!(plan.chunks_to_download, vec![[2; 32], [3; 32]]);
    assert_eq!(plan.download_bytes, 200);
}

#[test]
fn test_delete_sorted() {
    let old = index(vec![entry("b.bin", 1, &[1]), entry("a.bin", 2, &[2])]);
    let new = index(vec![entry("c.bin", 3, &[3])]);
    let plan = compute(&new, Some(&old), &ChunkSet::new());
    assert_eq!(plan.files_to_delete, vec!["a.bin", "b.bin"]);
}

#[test]
fn update_to_the_same_version_does_nothing() {
    let version = index(vec![entry("a.bin", 1, &[1, 2]), entry("b.bin", 2, &[2])]);
    let plan = compute(&version, Some(&version), &ChunkSet::new());
    assert!(plan.files_to_download.is_empty() && plan.files_to_update.is_empty() && plan.files_to_delete.is_empty());
    assert!(plan.chunks_to_download.is_empty());
    assert_eq!(plan.download_bytes, 0);
}

#[test]
fn test_copy_ranges_ok() {
    let src = b"0123456789";
    let mut dst: Vec<u8> = Vec::new();
    let mut copied = 0;
    for p in copy_pieces(&vec![(2, 3), (7, 2)]) {
        assert_eq!(p.to as usize, dst.len());
        dst.extend_from_slice(&src[p.from as usize..p.from as usize + p.len as usize]);
        copied += p.len;
    }
    assert_eq!(copied, 5);
    assert_eq!(dst, b"23478");
}

#[test]
fn long_ranges_are_copied_in_pieces() {
    let pieces = copy_pieces(&vec![(0, COPY_CHUNK + 1)]);
    assert_eq!(pieces.len(), 2);
    assert_eq!((pieces[1].from, pieces[1].to, pieces[1].len), (COPY_CHUNK as u64, COPY_CHUNK as u64, 1));
}

#[test]
fn hex_and_back() {
    let hash: [u8; 32] = blake3::hash(b"x").into();
    assert_eq!(parse_hex(&hex(&hash)), Some(hash));
    assert_eq!(parse_hex("ab"), None);
    assert_eq!(hex(&[]), "");
    assert_eq!(chunk_key(255, &[0xab, 0xcd]), "00000000000000ffabcd");
}

#[test]
fn numbers_as_text() {
    assert_eq!(decimal_text(0), "0");
    assert_eq!(decimal_text(u64::MAX), "18446744073709551615");
    assert_eq!(parse_u64_bytes(b"18446744073709551615"), Some(u64::MAX));
    assert_eq!(parse_u64_bytes(b"18446744073709551616"), None);
    assert_eq!(parse_u64_bytes(b"+7"), Some(7));
    assert_eq!(parse_u64_bytes(b""), None);
    assert_eq!(parse_u64_bytes(b"1a"), None);
    let mut out = Vec::new();
    push_u64_le(&mut out, 0x0102_0304_0506_0708);
    assert_eq!(out, vec![8, 7, 6, 5, 4, 3, 2, 1]);
    assert_eq!(u64_le_at(&out, 0), 0x0102_0304_0506_0708);
}

#[test]
fn words_of_a_text() {
    assert_eq!(split_words(" a\tbc \n d"), vec!["a", "bc", "d"]);
    assert_eq!(split_words("甲\u{3000}乙"), vec!["甲", "乙"]);
    assert!(split_words(" \u{2028} ").is_empty());
}

#[test]
fn paths_are_ordered_by_component() {
    let path = PathParts::new("/data").join("x").join("y.bin");
    assert_eq!(path.parts, vec!["/data", "x", "y.bin"]);
    let list = ["sub/c", "a-b", "a/b", "b", "a", "甲/b", "z"];
    let mut expected: Vec<std::path::PathBuf> = list.iter().map(|s| s.into()).collect();
    expected.sort();
    let parts = |s: &str| PathParts { parts: s.split('/').map(|p| p.to_string()).collect() };
    let sorted = sort_paths(list.iter().map(|s| parts(s)).collect());
    let joined: Vec<std::path::PathBuf> = sorted.iter().map(|p| p.parts.iter().collect()).collect();
    assert_eq!(joined, expected);
    let texts: Vec<String> = sorted.iter().map(|p| p.parts.join("/")).collect();
    assert_eq!(texts, vec!["a", "a/b", "a-b", "b", "sub/c", "z", "甲/b"]);
    assert!(path_at_most(&parts("a/b"), &parts("a-b")));
    assert!(!path_at_most(&parts("a-b"), &parts("a/b")));
}

#[test]
fn sorting() {
    assert_eq!(sort(&vec![3u64, 1, 2, 1]), vec![1, 1, 2, 3]);
    assert_eq!(dedup(&vec![1u64, 1, 2, 3, 3]), vec![1, 2, 3]);
}

#[test]
fn chunk_sets_keep_the_first_occurrence() {
    let mut set = ChunkSet::from_hashes(&[[2; 32], [1; 32], [2; 32]]);
    assert_eq!(set.len(), 2);
    assert_eq!(set.hashes(), &vec![[2; 32], [1; 32]]);
    assert!(set.insert([3; 32]));
    assert!(!set.insert([1; 32]));
    assert!(set.contains(&[3; 32]) && !set.contains(&[4; 32]));
    assert_eq!(set.position(&[1; 32]), Some(1));
    assert!(ChunkSet::new().is_empty());
}

#[test]
fn hashing_in_steps() {
    let mut hasher = FileHasher::new();
    hasher.update(b"hel");
    hasher.update(b"lo");
    let expected: [u8; 32] = blake3::hash(b"hello").into();
    assert_eq!(hasher.finish(), expected);
}

#[test]
fn generated_content() {
    let mut seed: u64 = 0x2026_0827_1234_5678;
    let long = fill(20, &mut seed);
    let mut state: u64 = 0x2026_0827_1234_5678;
    let mut expected: Vec<u8> = Vec::new();
    for _ in 0..3 {
        state ^= state << 13;
        state ^= state >> 7;
        state ^= state << 17;
        expected.extend_from_slice(&state.to_le_bytes());
    }
    assert_eq!(long, expected[..20].to_vec());
    assert_eq!(seed, state);
    let mut again: u64 = 0x2026_0827_1234_5678;
    assert_eq!(fill(9, &mut again), long[..9].to_vec());
    assert!(fill(0, &mut again).is_empty());
}

fn data(seed: u64, len: usize) -> Vec<u8> {
    let mut seed = seed;
    fill(len, &mut seed)
}

#[test]
fn changed_regions_change_few_chunks() {
    let old = data(1, 8 * 1024 * 1024);
    let mut new = old.clone();
    new.extend_from_slice(&data(2, 1024 * 1024));
    let before = chunk(&old, 1024 * 1024);
    let after = chunk(&new, 1024 * 1024);
    let hashes: Vec<[u8; 32]> = before.iter().map(|m| m.hash).collect();
    let delta = delta_bytes(&after, &ChunkSet::from_hashes(&hashes));
    assert!(delta >= 1024 * 1024);
    assert!(delta < new.len() as u128);
    assert_eq!(delta_bytes(&before, &ChunkSet::from_hashes(&hashes)), 0);
}

#[test]
fn pack_files_are_rewritten_when_garbage_piles_up() {
    let named = |i: u8, n: usize| -> ([u8; 32], Vec<u8>) { ([i; 32], vec![i; n]) };
    let mut pack = Pack::new();
    let written = pack.append(&vec![named(1, 4), named(2, 6), named(1, 4)]);
    assert_eq!(written, vec![vec![1; 4], vec![2; 6]]);
    assert_eq!(pack.size, 10);
    assert_eq!(pack.locate(&[2; 32]), Some((4, 6)));
    assert_eq!(pack.locate(&[3; 32]), None);
    let live = vec![[2; 32]];
    assert_eq!(pack.live_size(&live), 6);
    assert!(matches!(pack.compact_if_needed(&live, true, 1024), Compaction::NotNeeded));
    assert!(matches!(pack.compact_if_needed(&live, false, 5), Compaction::Postponed));
    match pack.compact_if_needed(&live, false, 6) {
        Compaction::Run { ranges, pack } => {
            assert_eq!(ranges, vec![(4, 6)]);
            assert_eq!(pack.size, 6);
            assert_eq!(pack.locate(&[2; 32]), Some((0, 6)));
            assert_eq!(pack.locate(&[1; 32]), None);
        }
        _ => panic!("not rewritten"),
    }
}

#[test]
fn relays_carry_no_chunks() {
    assert_eq!(path_verdict(true, true), Verdict::Transfer);
    assert_eq!(path_verdict(false, true), Verdict::RelayOnly);
    assert_eq!(path_verdict(false, false), Verdict::NoPath);
    assert_eq!(check_port(0), Ok(()));
    assert_eq!(check_port(10001), Ok(()));
    assert_eq!(
        check_port(443),
        Err("打洞端口必须在 10001-65535 之间（NAT 网关限制），当前 443".to_string())
    );
}

fn one_file(seeds: &[u8]) -> GameIndex {
    GameIndex::build(vec![FileEntry {
        name: "a.bin".to_string(),
        file_hash: [seeds.len() as u8; 32],
        chunks: seeds.iter().map(|s| ChunkMeta { hash: [*s; 32], len: u32::from(*s) }).collect(),
    }])
}

#[test]
fn more_temporary_chunks_only_filter_a_plan() {
    let (new, old) = (one_file(&[5, 1, 4, 2, 5, 3]), one_file(&[2]));
    let few = compute(&new, Some(&old), &ChunkSet::from_hashes(&[[1; 32]]));
    let more = compute(&new, Some(&old), &ChunkSet::from_hashes(&[[1; 32], [4; 32], [9; 32]]));
    assert_eq!(few.chunks_to_download, vec![[5; 32], [4; 32], [3; 32]]);
    assert_eq!(more.chunks_to_download, vec![[5; 32], [3; 32]]);
    assert_eq!((few.download_bytes, more.download_bytes), (12, 8));
    assert_eq!(few.files_to_update, more.files_to_update);
    assert_eq!(few.files_to_download, more.files_to_download);
    assert_eq!(few.files_to_delete, more.files_to_delete);
}

#[test]
fn a_delta_is_an_update_without_temporary_chunks() {
    let (new, old) = (one_file(&[5, 1, 4, 2, 5, 3]), one_file(&[2, 4, 7]));
    let delta = blazenet::producer::delta::compute(&new, Some(&old));
    let update = compute(&new, Some(&old), &ChunkSet::new());
    assert_eq!(delta.new_chunks, update.chunks_to_download);
    assert_eq!(delta.new_bytes, update.download_bytes);
    assert_eq!(delta.new_chunks.len() + delta.reused_chunks, new.chunk_set().len());
}

#[test]
fn packets_that_parse_are_built_ones() {
    let mut packet = [7u8; 22];
    packet[..6].copy_from_slice(b"BLZPNG");
    let (seq, node_id, addr_index) = parse_ping(&packet).unwrap();
    assert_eq!(build_ping(seq, node_id, addr_index), packet);
    let mut packet = [200u8; 11];
    packet[..7].copy_from_slice(b"BLZPONG");
    assert_eq!(build_pong(parse_pong(&packet).unwrap()), packet);
}

#[test]
fn random_bytes_are_those_of_the_generator() {
    let mut rng = ChaCha20Rng::seed_from_u64(7);
    let expected: Vec<u8> = (0..100).map(|_| rng.random()).collect();
    assert_eq!(rand_bytes(7, 100), expected);
    assert_eq!(rand_bytes(7, 40), expected[..40].to_vec());
    assert_ne!(rand_bytes(8, 100), expected);
    assert!(rand_bytes(7, 0).is_empty());
}
