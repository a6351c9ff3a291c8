//! The agent: downloading, serving and updating.
use blazenet::agent::cafe_store::{
    block_name, build_map, current_version, current_version_path, game_dir, is_expired, manifest_name, temp_dir,
    CafeStore, ChunkPlace,
};
use blazenet::agent::config::NodeType;
use blazenet::agent::control::task_from_event;
use blazenet::agent::datapath::{allow_data, parse_request_header, reject_relay_only, reply_header};
use blazenet::agent::endpoint::{
    origin_target, origin_target_with, parse_endpoint, peer_target, peer_target_with, EndpointError,
};
use blazenet::agent::download::{sort_by_rtt, DownloadManager};
use blazenet::agent::executor::{
    assigned_set, cafe_chunks, choose_ep, choose_source, final_report, held_hashes, merge_failure, missing_chunks,
    plan_task, task_control, Download, DownloadError, PendingBatch, Routing, Settled, Target, TaskWork,
    IDC_BATCH_SIZE,
};
use blazenet::agent::fetch::{request_bytes, routes, store_chunk, FetchStats, Route};
use blazenet::agent::stun::echo_address;
use blazenet::agent::tools::{hex_decode, seed_chunk, seed_text, HexError};
use blazenet::agent::update::{
    block_hash, collect_temp_hashes, file_is_intact, files_to_delete, merge_file, plan_update, MergeSummary,
    PieceSource,
};
use blazenet::common::chunk_set::ChunkSet;
use blazenet::common::digest::FileHasher;
use blazenet::common::hex::hex;
use blazenet::common::path::PathParts;
use blazenet::producer::chunker::ChunkMeta;
use blazenet::producer::manifest::{FileEntry, GameIndex};
use blazenet::proto::{Addr, Ev, Peer, Task, TaskCancel};

fn hash_of(data: &[u8]) -> [u8; 32] {
    blake3::hash(data).into()
}

fn hashes(count: u8) -> Vec<[u8; 32]> {
    (0..count).map(|i| [i; 32]).collect()
}

fn task() -> Task {
    Task { id: 1, game_id: 2, version: 3, kind: 0, assigned_chunks: vec![] }
}

#[test]
fn test_task_from_event() {
    assert!(task_from_event(None).is_none());
    assert!(task_from_event(Some(Ev::Cancel(TaskCancel { task_id: 1, reason: "x".to_string() }))).is_none());
    let task = task_from_event(Some(Ev::Task(task())));
    assert_eq!(task.unwrap().id, 1);
}

#[test]
fn test_allow_data() {
    assert!(allow_data(true, false));
    assert!(allow_data(true, true));
    assert!(!allow_data(false, true));
    assert!(!allow_data(false, false));
    assert!(reject_relay_only(false, true).is_ok());
    assert!(reject_relay_only(true, false).is_ok());
}

#[test]
fn test_sort_by_rtt() {
    let mut peers = vec![("b", 50_000_000u128), ("a", 10_000_000u128)];
    sort_by_rtt(&mut peers);
    assert_eq!(peers[0].0, "a");
    assert_eq!(peers[1].0, "b");
}

#[test]
fn sorting_by_rtt_keeps_ties_in_order() {
    let mut peers = vec![("c", 5u128), ("a", 1), ("d", 5), ("b", 1)];
    sort_by_rtt(&mut peers);
    assert_eq!(peers.iter().map(|p| p.0).collect::<Vec<&str>>(), vec!["a", "b", "c", "d"]);
}

#[test]
fn test_assign_unique_and_distributed() {
    let mut manager = DownloadManager::new(hashes(5));
    let plan = manager.assign(2);
    let total: usize = plan.values().map(Vec::len).sum();
    assert_eq!(total, 5);
    assert!(manager.pending().is_empty());
    let mut all = Vec::new();
    for chunks in plan.values() {
        all.extend(chunks.iter().copied());
    }
    all.sort();
    assert_eq!(all, hashes(5));
}

#[test]
fn test_peer_failed_backfill() {
    let mut manager = DownloadManager::new(hashes(4));
    let plan = manager.assign(2);
    let failed = plan.get(&0).unwrap().clone();
    manager.peer_failed(0);
    assert!(manager.pending().len() >= failed.len());
    for hash in failed {
        assert!(manager.pending().contains(&hash));
    }
}

#[test]
fn test_chunk_done() {
    let mut manager = DownloadManager::new(hashes(3));
    let plan = manager.assign(1);
    let hash = plan.get(&0).unwrap()[0];
    manager.chunk_done(&hash);
    assert!(!manager.assigned().get(&0).unwrap().contains(&hash));
}

#[test]
fn test_assign_empty() {
    let mut manager = DownloadManager::new(vec![]);
    assert!(manager.assign(2).is_empty());
}

#[test]
fn test_store_chunk_matches_and_rejects() {
    let hash = hash_of(b"hello");
    let mut stored = Vec::new();
    assert!(store_chunk(&hash, b"hello".to_vec(), &mut stored));
    assert_eq!(stored.len(), 1);
    assert!(!store_chunk(&hash, b"WRONG".to_vec(), &mut stored));
    assert_eq!(stored.len(), 1);
}

#[test]
fn answers_are_counted() {
    let mut stats = FetchStats::default();
    let mut sink = Vec::new();
    stats.receive(&hash_of(b"hello"), Some(b"hello".to_vec()), &mut sink);
    stats.receive(&[1; 32], Some(b"hello".to_vec()), &mut sink);
    stats.receive(&[2; 32], None, &mut sink);
    assert_eq!(stats, FetchStats { downloaded: 1, bytes: 5, failed: vec![[1; 32], [2; 32]] });
    assert_eq!(sink, vec![(hash_of(b"hello"), b"hello".to_vec())]);
}

#[test]
fn requests_and_replies_on_the_wire() {
    let request = request_bytes(7, &vec![[9; 32], [8; 32]]);
    assert_eq!(request.len(), 12 + 64);
    let mut header = [0u8; 12];
    header.copy_from_slice(&request[..12]);
    assert_eq!(parse_request_header(&header), (7, 2));
    assert_eq!(&request[12..44], &[9; 32]);
    assert_eq!(reply_header(258), vec![0, 0, 1, 2]);
}

#[test]
fn ways_to_reach_a_peer() {
    assert_eq!(routes(true, true, false), vec![Route::Direct, Route::Relay]);
    assert_eq!(routes(true, true, true), vec![Route::Direct]);
    assert!(routes(false, true, true).is_empty());
    assert_eq!(routes(false, true, false), vec![Route::Relay]);
}

#[test]
fn test_discover_ok() {
    assert_eq!(echo_address("ADDR blazenet-agent 127.0.0.1:45678"), Some("127.0.0.1:45678".to_string()));
}

#[test]
fn test_discover_bad_reply() {
    assert_eq!(echo_address("garbage"), None);
    assert_eq!(echo_address("ADDR blazenet-agent"), None);
}

fn peer(endpoint_id: &str, addrs: Vec<&str>, direct_only: bool) -> Peer {
    Peer {
        node_id: 1,
        endpoint_id: endpoint_id.to_string(),
        addrs: addrs
            .into_iter()
            .map(|a| Addr { addr: a.to_string(), kind: "config".to_string(), link: String::new() })
            .collect(),
        direct_only,
    }
}

fn target(endpoint_id: &str) -> Target {
    Target { endpoint_id: endpoint_id.to_string(), addr: Some("1.2.3.4:5".to_string()), direct_only: false }
}

#[test]
fn test_choose_ep_direct_relay_and_missing() {
    assert_eq!(choose_ep(&target("a")), Ok(()));
    let none = Target { addr: None, ..target("a") };
    assert_eq!(choose_ep(&none), Err(DownloadError::NoDirectAddr));
    assert!(DownloadError::NoDirectAddr.message().contains("无直连地址"));
}

#[test]
fn sources_are_spread_by_hash() {
    assert_eq!(choose_source(&[0; 32], &vec![]), None);
    let peers = vec![peer("a", vec!["1.1.1.1:1"], false), peer("b", vec!["2.2.2.2:2", "3.3.3.3:3"], true)];
    for seed in 0..8u8 {
        let (p, a) = choose_source(&[seed; 32], &peers).unwrap();
        assert!(p < peers.len());
        assert!(a < peers[p].addrs.len());
    }
}

#[test]
fn test_idc_peer_unreachable_falls_back_to_origin() {
    let mut routing = Routing::new();
    routing.route([1; 32], Some(target("a")));
    routing.route([2; 32], Some(target("a")));
    routing.route([3; 32], None);
    assert_eq!(routing.groups.len(), 1);
    assert_eq!(routing.groups[0].hashes, vec![[1; 32], [2; 32]]);
    assert_eq!(routing.fallback, vec![[3; 32]]);
    let assigned = ChunkSet::from_hashes(&[[1; 32], [2; 32], [3; 32]]);
    let mut download = Download::start(9, routing, assigned);
    download.group_done(&vec![], None);
    match download.settle(true).unwrap() {
        Settled::AskOrigin(list) => assert_eq!(list, vec![[1; 32], [2; 32], [3; 32]]),
        Settled::Done => panic!("chunks are missing"),
    }
    assert_eq!(download.origin_done(&vec![[1; 32], [2; 32], [3; 32]], &vec![]), Ok(()));
    assert_eq!(download.downloaded.len(), 3);
}

#[test]
fn test_idc_unassigned_chunks_wait_for_peers() {
    let mut routing = Routing::new();
    routing.route([1; 32], None);
    let download = Download::start(9, routing, ChunkSet::new());
    let err = download.settle(true).unwrap_err();
    assert_eq!(err, DownloadError::WaitForOthers { game_id: 9, count: 1 });
    assert!(err.message().contains("等待其他节点完成责任分片"));
    assert_eq!(download.settle(false), Err(DownloadError::NoSource { game_id: 9, count: 1 }));
}

#[test]
fn test_peer_wrong_data_partitions_assigned_and_blocked() {
    let mut routing = Routing::new();
    routing.route([1; 32], Some(target("a")));
    routing.route([2; 32], Some(target("a")));
    routing.route([3; 32], Some(target("b")));
    let mut download = Download::start(9, routing, ChunkSet::from_hashes(&[[1; 32]]));
    download.group_done(&vec![], Some(&vec![[1; 32], [2; 32]]));
    download.group_done(&vec![[3; 32]], Some(&vec![]));
    assert_eq!(download.retry, vec![[1; 32]]);
    assert_eq!(download.blocked, vec![[2; 32]]);
    assert_eq!(download.downloaded, vec![[3; 32]]);
    assert!(download.settle(false).unwrap_err().message().contains("无候选源"));
}

#[test]
fn test_assigned_peer_failed_without_origin() {
    let mut routing = Routing::new();
    routing.route([1; 32], Some(target("a")));
    let mut download = Download::start(9, routing, ChunkSet::from_hashes(&[[1; 32]]));
    download.group_done(&vec![], None);
    let err = download.settle(false).unwrap_err();
    assert_eq!(err.message(), "块无候选源且未配置原始节点: 游戏 9 缺 1 块");
    assert_eq!(
        download.origin_done(&vec![], &vec![[1; 32]]),
        Err(DownloadError::StillMissing { count: 1 })
    );
}

#[test]
fn downloads_that_succeed_are_done() {
    let mut routing = Routing::new();
    routing.route([1; 32], Some(target("a")));
    let mut download = Download::start(9, routing, ChunkSet::new());
    download.group_done(&vec![[1; 32]], Some(&vec![]));
    assert_eq!(download.settle(false), Ok(Settled::Done));
}

#[test]
fn test_idc_batch_flush() {
    let mut batch = PendingBatch::new();
    let mut written = Vec::new();
    for i in 0..65u8 {
        if let Some(full) = batch.push([i; 32], vec![i]) {
            assert_eq!(full.len(), IDC_BATCH_SIZE);
            written.push(full);
        }
    }
    assert_eq!(written.len(), 1);
    assert_eq!(batch.flush().unwrap(), vec![([64; 32], vec![64])]);
    assert!(batch.flush().is_none());
}

#[test]
fn test_task_no_source_and_missing_version() {
    let err = plan_task(&task(), NodeType::Idc, None).unwrap_err();
    assert_eq!(err.message(), "版本清单不存在: 游戏 2 版本 3");
    let err = plan_task(&task(), NodeType::Idc, Some(&vec![1, 2, 3])).unwrap_err();
    assert!(err.message().contains("解析版本清单失败"));
    let bytes = GameIndex::build(vec![]).encode().unwrap();
    assert!(matches!(plan_task(&task(), NodeType::Idc, Some(&bytes)), Ok(TaskWork::Idc(_))));
    assert!(matches!(plan_task(&task(), NodeType::Cafe, Some(&bytes)), Ok(TaskWork::Cafe(_))));
}

#[test]
fn test_run_task_without_control_addr() {
    let err = task_control(&None).unwrap_err();
    assert!(err.message().contains("未配置控制面地址"));
    assert_eq!(task_control(&Some("http://x".to_string())).unwrap(), "http://x");
}

#[test]
fn test_failed_download_reported() {
    assert_eq!(final_report(None), ("done".to_string(), String::new()));
    let error = DownloadError::StillMissing { count: 1 }.message();
    assert!(error.contains("下载失败"));
    assert_eq!(final_report(Some(&error)), ("failed".to_string(), "仍有 1 块下载失败".to_string()));
}

#[test]
fn test_cafe_merge_failure_reported() {
    assert_eq!(merge_failure(&vec![]), None);
    let message = merge_failure(&vec!["a".to_string(), "b".to_string()]).unwrap();
    assert_eq!(message, "合并失败: a; b");
}

#[test]
fn chunks_to_fetch() {
    let set = assigned_set(&vec![vec![1; 32], vec![2, 3], vec![1; 32]]);
    assert_eq!(set.hashes(), &vec![[1; 32]]);
    let all = ChunkSet::from_hashes(&[[3; 32], [1; 32], [2; 32]]);
    assert_eq!(missing_chunks(&all, &vec![false, true, false]), vec![[2; 32], [3; 32]]);
    let index = GameIndex::build(vec![entry("a", [0; 32], vec![(2, 1), (1, 1), (2, 1)])]);
    assert_eq!(held_hashes(&index), vec![[1; 32], [2; 32]]);
}

fn entry(name: &str, file_hash: [u8; 32], chunks: Vec<(u8, u32)>) -> FileEntry {
    FileEntry {
        name: name.to_string(),
        file_hash,
        chunks: chunks.into_iter().map(|(seed, len)| ChunkMeta { hash: [seed; 32], len }).collect(),
    }
}

#[test]
fn test_cafe_task_full_flow() {
    let old = GameIndex::build(vec![entry("a.bin", [1; 32], vec![(1, 2)]), entry("b.bin", [2; 32], vec![(2, 2)])]);
    let new = GameIndex::build(vec![
        entry("a.bin", [1; 32], vec![(1, 2)]),
        entry("b.bin", [3; 32], vec![(2, 2), (5, 2)]),
        entry("c.bin", [4; 32], vec![(4, 1), (6, 1)]),
    ]);
    let temp = ChunkSet::from_hashes(&[[6; 32]]);
    assert_eq!(cafe_chunks(&new, Some(&old), &temp, &vec![true, true, true]), vec![[4; 32], [5; 32]]);
    // a.bin is not on disk: its chunk is fetched again.
    assert_eq!(
        cafe_chunks(&new, Some(&old), &temp, &vec![false, true, true]),
        vec![[1; 32], [4; 32], [5; 32]]
    );
}

#[test]
fn test_collect_temp_hashes() {
    let h = [7u8; 32];
    let names = vec![format!("{}.blk", hex(&h)), "bad.txt".to_string(), "abc.blk".to_string()];
    let set = collect_temp_hashes(&names);
    assert!(set.contains(&h));
    assert_eq!(set.len(), 1);
    assert_eq!(block_hash(&block_name(&h)), Some(h));
    assert_eq!(block_hash(&format!("{}.blk", "+a".repeat(32))), None);
}

#[test]
fn test_plan_update_delta() {
    let old = GameIndex::build(vec![entry("a.bin", [1; 32], vec![(1, 2)])]);
    let new = GameIndex::build(vec![
        entry("a.bin", [2; 32], vec![(1, 2), (3, 3)]),
        entry("b.bin", [3; 32], vec![(4, 1)]),
    ]);
    let plan = plan_update(&new.encode().unwrap(), Some(&old.encode().unwrap()), &vec![]).unwrap();
    assert_eq!(plan.files_to_update, vec!["a.bin"]);
    assert_eq!(plan.files_to_download, vec!["b.bin"]);
    assert_eq!(plan.chunks_to_download, vec![[3; 32], [4; 32]]);
    let err = plan_update(b"bad", None, &vec![]).unwrap_err();
    assert!(err.message().contains("解析新版本清单失败"));
    let err = plan_update(&new.encode().unwrap(), Some(b"bad"), &vec![]).unwrap_err();
    assert!(err.message().contains("解析旧版本清单失败"));
}

/// Files and temporary blocks in memory.
struct Disk {
    files: std::collections::BTreeMap<String, Vec<u8>>,
    temp: std::collections::BTreeMap<String, Vec<u8>>,
}

impl Disk {
    fn merge(&mut self, new: &GameIndex, old: Option<&GameIndex>) -> MergeSummary {
        let mut summary = MergeSummary::default();
        for file in &new.files {
            let Some(pieces) = merge_file(old, file, self.files.contains_key(&file.name)) else {
                continue;
            };
            match self.assemble(file, pieces) {
                Ok(data) => {
                    self.files.insert(file.name.clone(), data);
                    summary.merged(&file.name, None);
                }
                Err(e) => summary.merged(&file.name, Some(&e)),
            }
        }
        for name in files_to_delete(old, new) {
            if self.files.remove(&name).is_some() {
                summary.deleted();
            }
        }
        summary
    }

    fn assemble(&self, file: &FileEntry, pieces: Vec<PieceSource>) -> Result<Vec<u8>, String> {
        let mut data = Vec::new();
        for piece in pieces {
            match piece {
                PieceSource::OldFile { offset, len } => {
                    let old = &self.files[&file.name];
                    data.extend_from_slice(&old[offset as usize..offset as usize + len as usize]);
                }
                PieceSource::TempBlock(name) => match self.temp.get(&name) {
                    Some(block) => data.extend_from_slice(block),
                    None => return Err("读取临时块失败".to_string()),
                },
            }
        }
        let mut hasher = FileHasher::new();
        hasher.update(&data);
        if file_is_intact(&hasher, file) {
            Ok(data)
        } else {
            Err("新文件哈希校验失败".to_string())
        }
    }
}

fn disk(files: &[(&str, &[u8])], temp: &[(u8, &[u8])]) -> Disk {
    Disk {
        files: files.iter().map(|(n, d)| (n.to_string(), d.to_vec())).collect(),
        temp: temp.iter().map(|(s, d)| (block_name(&[*s; 32]), d.to_vec())).collect(),
    }
}

#[test]
fn test_merge_files_success_and_delete() {
    let mut disk = disk(&[("a.bin", b"hello"), ("b.bin", b"bye"), ("d.bin", b"same")], &[(9, b"llo!"), (8, b"new")]);
    let old = GameIndex::build(vec![
        entry("a.bin", hash_of(b"hello"), vec![(1, 2), (2, 3)]),
        entry("b.bin", hash_of(b"bye"), vec![(5, 3)]),
        entry("d.bin", hash_of(b"same"), vec![(7, 4)]),
        entry("ghost.bin", [8; 32], vec![(8, 1)]),
    ]);
    let new = GameIndex::build(vec![
        entry("a.bin", hash_of(b"hello!"), vec![(1, 2), (9, 4)]),
        entry("c.bin", hash_of(b"new"), vec![(8, 3)]),
        entry("d.bin", hash_of(b"same"), vec![(7, 4)]),
    ]);
    let summary = disk.merge(&new, Some(&old));
    assert_eq!(summary.merged, 2);
    assert_eq!(summary.deleted, 1);
    assert!(summary.failed.is_empty());
    assert_eq!(disk.files["a.bin"], b"hello!");
    assert_eq!(disk.files["c.bin"], b"new");
    assert_eq!(disk.files["d.bin"], b"same");
    assert!(!disk.files.contains_key("b.bin"));
    assert!(!disk.files.contains_key("ghost.bin"));
}

#[test]
fn test_merge_hash_mismatch_keeps_old() {
    let mut disk = disk(&[("a.bin", b"hello")], &[]);
    let old = GameIndex::build(vec![entry("a.bin", hash_of(b"hello"), vec![(1, 2), (2, 3)])]);
    let new = GameIndex::build(vec![entry("a.bin", [9; 32], vec![(1, 2), (2, 3)])]);
    let summary = disk.merge(&new, Some(&old));
    assert_eq!(summary.failed.len(), 1);
    assert!(summary.failed[0].contains("哈希校验失败"));
    assert_eq!(disk.files["a.bin"], b"hello");
}

#[test]
fn test_merge_missing_chunk_keeps_old() {
    let mut disk = disk(&[("a.bin", b"hello")], &[]);
    let old = GameIndex::build(vec![entry("a.bin", hash_of(b"hello"), vec![(1, 2), (2, 3)])]);
    let new = GameIndex::build(vec![entry("a.bin", [9; 32], vec![(1, 2), (9, 4)])]);
    let summary = disk.merge(&new, Some(&old));
    assert_eq!(summary.failed.len(), 1);
    assert_eq!(summary.merged, 0);
    assert_eq!(disk.files["a.bin"], b"hello");
}

#[test]
fn test_merge_repairs_missing_file() {
    let mut disk = disk(&[], &[(4, b"hello")]);
    let index = GameIndex::build(vec![entry("a.bin", hash_of(b"hello"), vec![(4, 5)])]);
    let summary = disk.merge(&index, Some(&index));
    assert_eq!(summary.merged, 1);
    assert!(summary.failed.is_empty());
    assert_eq!(disk.files["a.bin"], b"hello");
}

/// A path as this platform writes it.
fn joined(path: &PathParts) -> String {
    let path: std::path::PathBuf = path.parts.iter().collect();
    path.to_string_lossy().to_string()
}

#[test]
fn test_open_without_version() {
    let store = CafeStore::new("/data", 1);
    assert_eq!(current_version(None), Ok(None));
    assert_eq!(store.locate(&[1; 32], false), ChunkPlace::Nowhere);
    assert_eq!(joined(&game_dir("/data", 1)), "/data/games/1");
    assert_eq!(joined(&temp_dir("/data", 1)), "/data/.blazenet/temp/1");
    assert!(joined(&current_version_path("/data", 1)).ends_with("/current.version"));
    assert_eq!(manifest_name(3), "3.gameindex");
}

#[test]
fn test_save_and_read_temp_then_real_file() {
    let data = b"real-file-data";
    let hash = hash_of(data);
    let index = GameIndex::build(vec![FileEntry {
        name: "dir/a.bin".to_string(),
        file_hash: hash,
        chunks: vec![ChunkMeta { hash: [1; 32], len: 4 }, ChunkMeta { hash, len: 10 }, ChunkMeta { hash, len: 10 }],
    }]);
    let mut store = CafeStore::new("/data", 1);
    store.set_current(&index.encode().unwrap()).unwrap();
    match store.locate(&hash, false) {
        ChunkPlace::File { path, offset, len } => {
            assert_eq!(joined(&path), "/data/games/1/dir/a.bin");
            assert_eq!((offset, len), (4, 10));
        }
        other => panic!("{other:?}"),
    }
    match store.locate(&hash, true) {
        ChunkPlace::Temp(path) => {
            assert_eq!(joined(&path), format!("/data/.blazenet/temp/1/{}.blk", hex(&hash)));
        }
        other => panic!("{other:?}"),
    }
    assert_eq!(store.locate(&[2; 32], false), ChunkPlace::Nowhere);
    assert!(store.set_current(b"bad").is_err());
    let map = build_map(&index);
    assert_eq!(map.hashes.len(), 2);
}

#[test]
fn test_open_loads_existing_manifest() {
    assert_eq!(current_version(Some("1")), Ok(Some(1)));
    assert_eq!(current_version(Some(" 42\n")), Ok(Some(42)));
    assert_eq!(current_version(Some("4 2")).unwrap_err().message(), "当前版本号非法");
    assert!(current_version(Some("")).is_err());
}

#[test]
fn test_cleanup_expired() {
    let hour: u128 = 3_600_000_000_000;
    let name = block_name(&[1; 32]);
    let now = 100 * hour;
    assert!(is_expired(&name, now, now - 25 * hour, 24));
    assert!(!is_expired(&name, now, now - 24 * hour, 24));
    assert!(!is_expired(&name, now, now + hour, 0));
    assert!(!is_expired("keep.txt", now, 0, 24));
}

#[test]
fn tools_for_trying_out() {
    assert_eq!(hex_decode("00"), Err(HexError::Length));
    assert_eq!(HexError::Length.message(), "哈希必须是 64 位十六进制");
    assert_eq!(hex_decode(&"ab".repeat(32)), Ok([0xab; 32]));
    assert_eq!(hex_decode(&"zz".repeat(32)), Err(HexError::Digit));
    assert_eq!(hex_decode(&"+a".repeat(32)), Err(HexError::Digit));
    assert_eq!(seed_text(7, 3), "blazenet-seed-7-0003");
    assert_eq!(seed_text(7, 12345), "blazenet-seed-7-12345");
    assert_eq!(seed_chunk(7, 3), "blazenet-seed-7-0003".repeat(64 * 1024).into_bytes());
}

#[test]
fn merges_find_what_was_fetched() {
    let old = GameIndex::build(vec![entry("a.bin", [1; 32], vec![(1, 2), (2, 3)])]);
    let new = GameIndex::build(vec![
        entry("a.bin", [2; 32], vec![(1, 2), (3, 3), (4, 1)]),
        entry("b.bin", [3; 32], vec![(5, 1)]),
    ]);
    let temp = ChunkSet::from_hashes(&[[4; 32]]);
    let present = vec![true, false];
    let fetched = cafe_chunks(&new, Some(&old), &temp, &present);
    assert_eq!(fetched, vec![[3; 32], [5; 32]]);
    for (file, present) in new.files.iter().zip(&present) {
        for piece in merge_file(Some(&old), file, *present).unwrap() {
            if let PieceSource::TempBlock(name) = piece {
                let hash = block_hash(&name).unwrap();
                assert!(temp.contains(&hash) || fetched.contains(&hash));
            }
        }
    }
}

#[test]
fn chunks_that_moved_to_another_file() {
    let old = GameIndex::build(vec![
        entry("a.bin", [1; 32], vec![(1, 2)]),
        entry("b.bin", [2; 32], vec![(2, 2)]),
    ]);
    let new = GameIndex::build(vec![entry("b.bin", [3; 32], vec![(1, 2)])]);
    // The old version has the chunk, so it is not fetched, and `b.bin` asks for
    // a temporary block.
    assert!(cafe_chunks(&new, Some(&old), &ChunkSet::new(), &vec![true]).is_empty());
    assert_eq!(
        merge_file(Some(&old), &new.files[0], true),
        Some(vec![PieceSource::TempBlock(block_name(&[1; 32]))])
    );
}

#[test]
fn a_later_assignment_keeps_what_peers_have() {
    let (a, b, c, d) = ([0u8; 32], [1u8; 32], [2u8; 32], [3u8; 32]);
    let mut manager = DownloadManager::new(vec![a, b, c, d]);
    let plan = manager.assign(2);
    assert_eq!(plan.get(&1), Some(&vec![b, d]));
    manager.peer_failed(0);
    let plan = manager.assign(1);
    assert_eq!(plan.len(), 1);
    assert_eq!(plan.get(&0), Some(&vec![a, c]));
    assert_eq!(manager.assigned().get(&0), Some(&vec![a, c]));
    assert_eq!(manager.assigned().get(&1), Some(&vec![b, d]));
    manager.peer_failed(1);
    assert_eq!(manager.pending().len(), 2);
    assert!(manager.pending().contains(&b) && manager.pending().contains(&d));
    let plan = manager.assign(1);
    assert_eq!(plan.get(&0), Some(&vec![b, d]));
    assert_eq!(manager.assigned().get(&0), Some(&vec![a, c, b, d]));
}

#[test]
fn no_chunk_of_a_download_is_lost() {
    let all = hashes(9);
    let mut manager = DownloadManager::new(all.clone());
    let mut done: Vec<[u8; 32]> = Vec::new();
    let account = |m: &DownloadManager, done: &Vec<[u8; 32]>| {
        for h in &all {
            let held = m.assigned().values().filter(|l| l.contains(h)).count();
            let waits = if m.pending().contains(h) { 1 } else { 0 };
            assert_eq!(held + waits, if done.contains(h) { 0 } else { 1 });
        }
    };
    manager.assign(3);
    account(&manager, &done);
    manager.chunk_done(&all[4]);
    done.push(all[4]);
    manager.peer_failed(1);
    account(&manager, &done);
    manager.assign(5);
    manager.peer_failed(0);
    manager.assign(2);
    manager.chunk_done(&all[0]);
    done.push(all[0]);
    manager.peer_failed(2);
    account(&manager, &done);
    assert_eq!(manager.pending().len(), 3);
}

fn base32(bytes: &[u8]) -> String {
    let digits = b"abcdefghijklmnopqrstuvwxyz234567";
    let bit = |i: usize| bytes.get(i / 8).map_or(0, |b| b >> (7 - i % 8) & 1);
    (0..(bytes.len() * 8).div_ceil(5))
        .map(|d| digits[(0..5).fold(0, |n, i| n * 2 + usize::from(bit(d * 5 + i)))] as char)
        .collect()
}

#[test]
fn endpoints_are_written_in_one_way() {
    let key = iroh::SecretKey::from_bytes(&[7; 32]).public();
    let text = hex(key.as_bytes());
    assert_eq!(parse_endpoint(&text), Some(text.clone()));
    let other = base32(key.as_bytes());
    assert_eq!(other.len(), 52);
    assert_eq!(parse_endpoint(&other), Some(text.clone()));
    assert_eq!(parse_endpoint(&other.to_uppercase()), Some(text.clone()));
    assert_eq!(parse_endpoint(&text.to_uppercase()), None);
    assert_eq!(parse_endpoint("not-an-endpoint"), None);
    assert_eq!(parse_endpoint(""), None);
}

#[test]
fn targets_of_peers_and_origins() {
    let key = iroh::SecretKey::from_bytes(&[9; 32]).public();
    let text = hex(key.as_bytes());
    let addr = Some("10.0.0.1:4433".to_string());
    let mut peer = Peer { node_id: 1, endpoint_id: base32(key.as_bytes()), addrs: vec![], direct_only: true };
    let target = peer_target(&peer, addr.clone()).unwrap();
    assert_eq!(target, Target { endpoint_id: text.clone(), addr: addr.clone(), direct_only: true });
    assert_eq!(peer_target(&peer, None).unwrap().addr, None);
    peer.endpoint_id = "x".to_string();
    let err = peer_target(&peer, addr.clone()).unwrap_err();
    assert_eq!(err, EndpointError::Peer);
    assert_eq!(err.message(), "候选端点 ID 非法");
    assert_eq!(peer_target_with(None, addr.clone(), false), Err(EndpointError::Peer));

    let some = |s: &str| Some(s.to_string());
    let target = origin_target(&some(&text), &addr, addr.clone()).unwrap().unwrap();
    assert_eq!(target, Target { endpoint_id: text.clone(), addr: addr.clone(), direct_only: false });
    assert_eq!(origin_target(&None, &addr, addr.clone()), Ok(None));
    assert_eq!(origin_target(&some(&text), &None, None), Ok(None));
    let err = origin_target(&some("x"), &some("y"), None).unwrap_err();
    assert_eq!(err.message(), "原始节点端点 ID 非法");
    let err = origin_target(&some(&text), &some("y"), None).unwrap_err();
    assert_eq!(err.message(), "原始节点地址非法");
    assert_eq!(origin_target_with(some("a"), None), Err(EndpointError::OriginAddr));
}
