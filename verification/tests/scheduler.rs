//! The scheduler: its data, what it answers, and probing.
use blazenet::common::keepalive::{build_pong, parse_ping};
use blazenet::producer::chunker::ChunkMeta;
use blazenet::producer::manifest::{FileEntry, GameIndex};
use blazenet::proto::{Addr, ChunkDone, Code, Ev, PeerQuery, RegisterRequest, TaskReport};
use blazenet::scheduler::db;
use blazenet::scheduler::db::{
    AddrRecord, Binding, DbError, GameRecord, NodeRecord, RecordKind, TaskRecord,
};
use blazenet::scheduler::http;
use blazenet::scheduler::http::{
    Action, BindRequest, CreateGameRequest, CreateGroupRequest, CreatePlaceRequest, CreateTaskRequest,
    CreateUserRequest, HttpError, LoginRequest, Lookup, NodeView, RollbackRequest,
};
use blazenet::scheduler::keepalive::{
    addr_slot, declared_addrs, node_status, parsed_targets, AddrState, Keepalive, Prober, SockAddr, Target,
};
use blazenet::scheduler::server;
use blazenet::scheduler::server::Pending;
use blazenet::scheduler::store::Store;

fn database() -> redb::Database {
    redb::Database::builder().create_with_backend(redb::backends::InMemoryBackend::new()).unwrap()
}

fn node(id: u64, heartbeat: u64) -> NodeRecord {
    NodeRecord {
        id,
        node_type: "idc".to_string(),
        endpoint_id: format!("ep-{id}"),
        token: format!("tok-{id}"),
        addrs: vec![AddrRecord {
            addr: "127.0.0.1:42001".to_string(),
            kind: "config".to_string(),
            link: "".to_string(),
        }],
        status: "online".to_string(),
        last_heartbeat_ms: heartbeat,
    }
}

fn task(id: u64, node_id: u64) -> TaskRecord {
    TaskRecord {
        id,
        node_id,
        game_id: 3,
        version: 2,
        kind: "UPDATE".to_string(),
        assigned_chunks: vec![vec![1u8; 32]],
        status: "queued".to_string(),
        error: String::new(),
    }
}

fn game(id: u64) -> GameRecord {
    GameRecord {
        id,
        name: "GameX".to_string(),
        status: "published".to_string(),
        current_version: 1,
        latest_version: 2,
    }
}

#[test]
fn test_node_roundtrip_and_ids() {
    let database = database();
    let txn = database.begin_write().unwrap();
    let mut counters = db::open_counters(&txn).unwrap();
    assert_eq!(db::next_id(&mut counters, RecordKind::Node), Ok(1));
    assert_eq!(db::next_id(&mut counters, RecordKind::Node), Ok(2));
    let mut nodes = db::open_records(&txn, RecordKind::Node).unwrap();
    let text = "{\"id\":1}".to_string();
    db::insert_record(&mut nodes, RecordKind::Node, 1, &text).unwrap();
    assert_eq!(db::get_record(&nodes, RecordKind::Node, 1), Ok(Some(text)));
    assert_eq!(db::get_record(&nodes, RecordKind::Node, 99), Ok(None));
    assert_eq!(db::list_records(&nodes, RecordKind::Node).unwrap().len(), 1);
}

#[test]
fn records_are_listed_by_number() {
    let database = database();
    let txn = database.begin_write().unwrap();
    let mut games = db::open_records(&txn, RecordKind::Game).unwrap();
    for id in [7u64, 2, 300] {
        db::insert_record(&mut games, RecordKind::Game, id, &format!("g{id}")).unwrap();
    }
    db::insert_record(&mut games, RecordKind::Game, 2, &"changed".to_string()).unwrap();
    assert_eq!(db::list_records(&games, RecordKind::Game), Ok(vec![
        "changed".to_string(),
        "g7".to_string(),
        "g300".to_string(),
    ]));
}

#[test]
fn test_task_roundtrip() {
    let tasks = vec![task(1, 7), task(2, 8), task(3, 7)];
    assert_eq!(db::tasks_for_node(tasks.clone(), 7), vec![task(1, 7), task(3, 7)]);
    assert!(db::tasks_for_node(tasks, 9).is_empty());
}

#[test]
fn test_update_task_status() {
    let updated = db::update_task_status(Some(task(1, 7)), "ready", "").unwrap();
    assert_eq!(updated, TaskRecord { status: "ready".to_string(), ..task(1, 7) });
    assert_eq!(db::update_task_status(None, "ready", ""), None);
    let report = TaskReport { node_id: 7, task_id: 1, status: "failed".to_string(), error: "坏".to_string() };
    let updated = server::report_task(Some(task(1, 7)), &report).unwrap();
    assert_eq!((updated.status.as_str(), updated.error.as_str()), ("failed", "坏"));
}

#[test]
fn test_offline_nodes() {
    let nodes = vec![node(1, 1000), node(2, 10_000), node(3, 20_000)];
    assert_eq!(db::offline_nodes(&nodes, 11_000, 5_000), vec![1]);
}

#[test]
fn test_chunk_ledger() {
    let database = database();
    let txn = database.begin_write().unwrap();
    let mut ledger = db::open_ledger(&txn).unwrap();
    let hash = [7u8; 32];
    db::record_chunk_holder(&mut ledger, 1, 3, &hash).unwrap();
    db::record_chunk_holder(&mut ledger, 2, 3, &hash).unwrap();
    db::record_chunk_holder(&mut ledger, 1, 3, &hash).unwrap();
    assert_eq!(db::chunk_holders(&ledger, 3, &hash), Ok(vec![1, 2]));
    assert_eq!(db::chunk_holders(&ledger, 3, &[8u8; 32]), Ok(vec![]));
}

#[test]
fn unreadable_ledger_entries() {
    let database = database();
    let txn = database.begin_write().unwrap();
    {
        let definition: redb::TableDefinition<String, String> = redb::TableDefinition::new("chunks");
        let mut table = txn.open_table(definition).unwrap();
        table.insert(blazenet::common::hex::chunk_key(3, &[7; 32]), "not json".to_string()).unwrap();
    }
    let mut ledger = db::open_ledger(&txn).unwrap();
    assert_eq!(db::chunk_holders(&ledger, 3, &[7; 32]), Err(DbError::BadLedger));
    assert_eq!(DbError::BadLedger.message(), "解析块账本失败");
    // Recording a holder starts the entry anew.
    db::record_chunk_holder(&mut ledger, 5, 3, &[7; 32]).unwrap();
    assert_eq!(db::chunk_holders(&ledger, 3, &[7; 32]), Ok(vec![5]));
}

#[test]
fn test_heat_top_games() {
    let database = database();
    let txn = database.begin_write().unwrap();
    let mut heat = db::open_heat(&txn).unwrap();
    assert_eq!(db::add_launch(&mut heat, 1, 5), Ok(5));
    assert_eq!(db::add_launch(&mut heat, 2, 9), Ok(9));
    assert_eq!(db::add_launch(&mut heat, 1, 3), Ok(8));
    assert_eq!(db::top_games(&heat, 10), Ok(vec![2, 1]));
    assert_eq!(db::top_games(&heat, 1), Ok(vec![2]));
    // Equal counts keep the order of the keys.
    db::add_launch(&mut heat, 10, 8).unwrap();
    assert_eq!(db::top_games(&heat, 10), Ok(vec![2, 1, 10]));
    assert_eq!(db::add_launch(&mut heat, 1, u64::MAX), Err(DbError::CounterFull));
}

#[test]
fn launch_counts_without_a_game() {
    let database = database();
    let txn = database.begin_write().unwrap();
    {
        let definition: redb::TableDefinition<String, u64> = redb::TableDefinition::new("heat");
        txn.open_table(definition).unwrap().insert("x".to_string(), 1).unwrap();
    }
    let heat = db::open_heat(&txn).unwrap();
    assert_eq!(db::top_games(&heat, 1), Err(DbError::BadGameId));
}

#[test]
fn counters_end_at_the_largest_number() {
    let database = database();
    let txn = database.begin_write().unwrap();
    {
        let definition: redb::TableDefinition<String, u64> = redb::TableDefinition::new("counters");
        txn.open_table(definition).unwrap().insert("next_game_id".to_string(), u64::MAX).unwrap();
    }
    let mut counters = db::open_counters(&txn).unwrap();
    assert_eq!(db::next_id(&mut counters, RecordKind::Game), Err(DbError::CounterFull));
    assert_eq!(db::next_id(&mut counters, RecordKind::Group), Ok(1));
}

#[test]
fn test_password_hash() {
    assert_eq!(db::hash_password("abc", "s1"), db::hash_password("abc", "s1"));
    assert_ne!(db::hash_password("abc", "s1"), db::hash_password("abc", "s2"));
    assert_eq!(db::hash_password("abc", "s1"), blake3::hash(b"s1:abc").to_string());
}

#[test]
fn test_admin_entities_roundtrip() {
    let database = database();
    let txn = database.begin_write().unwrap();
    let mut counters = db::open_counters(&txn).unwrap();
    for kind in [RecordKind::User, RecordKind::Place, RecordKind::Group, RecordKind::Game] {
        assert_eq!(db::next_id(&mut counters, kind), Ok(1));
        let mut table = db::open_records(&txn, kind).unwrap();
        db::insert_record(&mut table, kind, 1, &"x".to_string()).unwrap();
        assert_eq!(db::get_record(&table, kind, 1), Ok(Some("x".to_string())));
        assert_eq!(db::get_record(&table, kind, 99), Ok(None));
        assert_eq!(db::list_records(&table, kind).unwrap().len(), 1);
    }
}

#[test]
fn test_bindings_places_of_user() {
    let database = database();
    let txn = database.begin_write().unwrap();
    let mut bindings = db::open_bindings(&txn).unwrap();
    db::bind(&mut bindings, Binding::UserPlace, 1, 10).unwrap();
    db::bind(&mut bindings, Binding::UserPlace, 1, 11).unwrap();
    db::bind(&mut bindings, Binding::UserGroup, 1, 7).unwrap();
    db::bind(&mut bindings, Binding::GroupPlace, 7, 20).unwrap();
    db::bind(&mut bindings, Binding::GroupPlace, 7, 10).unwrap();
    db::bind(&mut bindings, Binding::UserPlace, 11, 99).unwrap();
    assert_eq!(db::places_of_user(&bindings, 1), Ok(vec![10, 11, 20]));
    assert_eq!(db::places_of_user(&bindings, 2), Ok(vec![]));
}

#[test]
fn test_delete_entities() {
    let database = database();
    let txn = database.begin_write().unwrap();
    for kind in [RecordKind::User, RecordKind::Place, RecordKind::Group] {
        let mut table = db::open_records(&txn, kind).unwrap();
        db::insert_record(&mut table, kind, 1, &"x".to_string()).unwrap();
        assert_eq!(db::delete_record(&mut table, kind, 1), Ok(true));
        assert_eq!(db::delete_record(&mut table, kind, 1), Ok(false));
    }
}

#[test]
fn test_games_roundtrip() {
    let database = database();
    let txn = database.begin_write().unwrap();
    let mut counters = db::open_counters(&txn).unwrap();
    assert_eq!(db::next_id(&mut counters, RecordKind::Game), Ok(1));
    let mut games = db::open_records(&txn, RecordKind::Game).unwrap();
    db::insert_record(&mut games, RecordKind::Game, 1, &"x".to_string()).unwrap();
    assert_eq!(db::get_record(&games, RecordKind::Game, 2), Ok(None));
    assert_eq!(db::delete_record(&mut games, RecordKind::Game, 1), Ok(true));
    assert_eq!(db::delete_record(&mut games, RecordKind::Game, 1), Ok(false));
}

#[test]
fn test_version_roundtrip() {
    let database = database();
    let txn = database.begin_write().unwrap();
    let mut versions = db::open_versions(&txn).unwrap();
    assert_eq!(db::get_version(&versions, 1, 1), Ok(None));
    db::save_version(&mut versions, 1, 1, b"manifest-v1").unwrap();
    db::save_version(&mut versions, 1, 2, b"manifest-v2").unwrap();
    assert_eq!(db::get_version(&versions, 1, 1), Ok(Some(b"manifest-v1".to_vec())));
    assert_eq!(db::get_version(&versions, 1, 2), Ok(Some(b"manifest-v2".to_vec())));
    db::save_version(&mut versions, 1, 1, b"overwrite").unwrap();
    assert_eq!(db::get_version(&versions, 1, 1), Ok(Some(b"overwrite".to_vec())));
}

#[test]
fn versions_are_kept_as_json() {
    let database = database();
    let txn = database.begin_write().unwrap();
    {
        let mut versions = db::open_versions(&txn).unwrap();
        db::save_version(&mut versions, 12, 3, &[1, 255]).unwrap();
    }
    let definition: redb::TableDefinition<String, String> = redb::TableDefinition::new("versions");
    {
        let mut table = txn.open_table(definition).unwrap();
        assert_eq!(table.remove("12:3".to_string()).unwrap().unwrap().value(), "[1,255]");
        table.insert("1:1".to_string(), "[256]".to_string()).unwrap();
    }
    let versions = db::open_versions(&txn).unwrap();
    assert_eq!(db::get_version(&versions, 1, 1), Err(DbError::Decode));
}

#[test]
fn test_helpers() {
    assert!(server::valid_node_type("origin"));
    assert!(!server::valid_node_type("other"));
    assert_eq!(server::task_kind("UPDATE"), 1);
    assert_eq!(server::task_kind("ROLLBACK"), 2);
    assert_eq!(server::task_kind("未知"), 0);
    assert!(server::bad_node_type().message.contains("node_type"));
    assert!(server::node_not_found().message.contains("节点未注册"));
    assert!(server::alloc_node_id_error("x").message.contains("分配节点 ID 失败"));
    assert!(server::write_node_error("x").message.contains("写入节点失败"));
    assert!(server::query_tasks_error("x").message.contains("查询任务失败"));
    assert!(server::query_node_error("x").message.contains("查询节点失败"));
    assert!(server::update_node_error("x").message.contains("更新节点失败"));
    assert!(server::update_task_error("x").message.contains("更新任务失败"));
    assert!(server::chunk_ledger_error("x").message.contains("块账本操作失败"));
    assert_eq!(server::write_task_error("x").message, "写入任务失败: x");
    assert_eq!(server::node_not_found().code, Code::NotFound);
}

fn register_request(node_type: &str) -> RegisterRequest {
    RegisterRequest {
        node_type: node_type.to_string(),
        endpoint_id: "ep-1".to_string(),
        addrs: vec![Addr {
            addr: "127.0.0.1:42001".to_string(),
            kind: "config".to_string(),
            link: "".to_string(),
        }],
        token: String::new(),
    }
}

#[test]
fn test_register_heartbeat_and_watch() {
    let database = database();
    let txn = database.begin_write().unwrap();
    let mut counters = db::open_counters(&txn).unwrap();
    let node = server::register(&mut counters, register_request("idc"), 1234).unwrap();
    assert_eq!(node.id, 1);
    assert_eq!(node.token, "1234-1");
    assert_eq!(node.status, "online");
    let alive = server::heartbeat(Some(node.clone()), 5000).unwrap();
    assert_eq!(alive, NodeRecord { last_heartbeat_ms: 5000, ..node });
    assert!(server::heartbeat(None, 1).unwrap_err().message.contains("节点未注册"));

    let mut tasks = db::open_records(&txn, RecordKind::Task).unwrap();
    let mut pending = Pending::new();
    server::push_task(&mut tasks, &mut pending, &task(1, 1), &"text".to_string()).unwrap();
    server::push_task(&mut tasks, &mut pending, &task(2, 1), &"text".to_string()).unwrap();
    assert_eq!(db::get_record(&tasks, RecordKind::Task, 1), Ok(Some("text".to_string())));
    assert!(pending.drain(9).is_empty());
    assert_eq!(
        pending.drain(1),
        vec![Ev::Task(server::to_proto_task(&task(1, 1))), Ev::Task(server::to_proto_task(&task(2, 1)))]
    );
    assert!(pending.drain(1).is_empty());
    let message = server::to_proto_task(&task(1, 1));
    assert_eq!((message.kind, message.assigned_chunks), (1, vec![vec![1u8; 32]]));
}

#[test]
fn test_register_invalid_type() {
    let database = database();
    let txn = database.begin_write().unwrap();
    let mut counters = db::open_counters(&txn).unwrap();
    let err = server::register(&mut counters, register_request("other"), 1).unwrap_err();
    assert!(err.message.contains("node_type"));
    assert_eq!(server::register(&mut counters, register_request("cafe"), 1).unwrap().id, 1);
}

#[test]
fn test_register_with_addrs_and_initial_tasks() {
    let database = database();
    let txn = database.begin_write().unwrap();
    let mut counters = db::open_counters(&txn).unwrap();
    let node = server::register(&mut counters, register_request("cafe"), 1).unwrap();
    assert_eq!(node.addrs.len(), 1);
    let done = TaskRecord { status: "done".to_string(), ..task(2, 1) };
    let tasks = vec![task(1, 1), done, task(3, 9)];
    let reply = server::register_reply(&node, tasks.clone());
    assert_eq!(reply.node_id, 1);
    assert_eq!(reply.token, node.token);
    assert_eq!(reply.initial_tasks, vec![server::to_proto_task(&task(1, 1))]);
    let reply = server::heartbeat_reply(1, tasks, 77);
    assert_eq!(reply.task_ids, vec![1]);
    assert_eq!(reply.server_time, 77);
}

#[test]
fn test_report_query_and_version() {
    let database = database();
    let txn = database.begin_write().unwrap();
    let mut ledger = db::open_ledger(&txn).unwrap();
    let hash = vec![7u8; 32];
    for node_id in [1u64, 2, 99] {
        let done = ChunkDone { node_id, game_id: 3, chunk_hash: hash.clone(), size: 4 };
        server::report_chunk(&mut ledger, &done).unwrap();
    }
    let query = |game_id: u64, chunk_hash: Vec<u8>, limit: u32| PeerQuery { game_id, chunk_hash, limit };
    assert!(server::query_holders(&ledger, &query(1, vec![8u8; 32], 0)).unwrap().is_empty());
    let ids = server::query_holders(&ledger, &query(3, hash.clone(), 0)).unwrap();
    assert_eq!(ids, vec![1, 2, 99]);
    assert_eq!(server::query_holders(&ledger, &query(3, hash, 1)).unwrap(), vec![1]);
    let cafe = NodeRecord { node_type: "cafe".to_string(), addrs: vec![], ..node(2, 1) };
    let peers = server::query_peers(vec![Some(node(1, 1)), Some(cafe), None]);
    assert_eq!(peers.len(), 2);
    assert_eq!(peers[0].addrs.len(), 1);
    assert!(!peers[0].direct_only);
    assert!(peers[1].direct_only);
    assert!(!server::get_version().found);
}

#[test]
fn test_status_helpers() {
    assert_eq!(HttpError::Unauthorized.code(), 401);
    assert_eq!(HttpError::Internal.code(), 500);
    assert_eq!(HttpError::BadRequest.code(), 400);
    assert_eq!(HttpError::NotFound.code(), 404);
}

#[test]
fn test_healthz() {
    assert_eq!(http::healthz(), "ok");
}

#[test]
fn test_metrics_endpoint() {
    let done = TaskRecord { status: "done".to_string(), ..task(1, 1) };
    let text = http::metrics(&vec![node(1, 1)], &vec![done], 1, 0);
    for key in [
        "blazenet_nodes_total 1",
        "blazenet_nodes_online 1",
        "blazenet_tasks_total 1",
        "blazenet_tasks_done 1",
        "blazenet_games_total 1",
    ] {
        assert!(text.contains(key));
    }
    assert!(text.starts_with(
        "# HELP blazenet_nodes_total 节点总数\n# TYPE blazenet_nodes_total gauge\nblazenet_nodes_total 1\n# HELP blazenet_nodes_online 在线节点数\n"
    ));
    assert!(text.ends_with("# TYPE blazenet_audits_total gauge\nblazenet_audits_total 0\n"));
}

#[test]
fn test_cancel_queued_task() {
    let cancelled = http::cancel_task(vec![task(2, 1), task(1, 1)], 1).unwrap();
    assert_eq!(cancelled.id, 1);
    assert_eq!(cancelled.status, "cancelled");
    assert_eq!(cancelled.error, "人工取消");
    assert_eq!(http::cancel_task(vec![cancelled], 1), Err(HttpError::BadRequest));
    assert_eq!(http::cancel_task(vec![task(2, 1)], 99), Err(HttpError::NotFound));
}

#[test]
fn test_login_ok_and_wrong() {
    let request = |password: &str| LoginRequest { username: "admin".to_string(), password: password.to_string() };
    assert_eq!(http::login("admin", "secret", &request("secret")).unwrap().token, "dev-token");
    assert_eq!(http::login("admin", "secret", &request("bad")).unwrap_err(), HttpError::Unauthorized);
}

#[test]
fn test_users_crud() {
    let database = database();
    let txn = database.begin_write().unwrap();
    let mut counters = db::open_counters(&txn).unwrap();
    let request = |username: &str, password: &str| CreateUserRequest {
        username: username.to_string(),
        password: password.to_string(),
    };
    let user = http::create_user(&mut counters, request("alice", "pw"), 99).unwrap();
    assert_eq!((user.id, user.username.as_str(), user.salt.as_str()), (1, "alice", "99"));
    assert_eq!(user.password_hash, db::hash_password("pw", "99"));
    assert_eq!(http::create_user(&mut counters, request("", "pw"), 1).unwrap_err(), HttpError::BadRequest);
    assert_eq!(http::create_user(&mut counters, request("bob", ""), 1).unwrap_err(), HttpError::BadRequest);
    assert_eq!(http::deleted(Ok(true)), Ok(()));
    assert_eq!(http::deleted(Ok(false)), Err(HttpError::NotFound));
    assert_eq!(http::deleted(Err(DbError::DeleteRecord(RecordKind::User))), Err(HttpError::Internal));
}

#[test]
fn test_places_groups_and_bindings() {
    let database = database();
    let txn = database.begin_write().unwrap();
    let mut counters = db::open_counters(&txn).unwrap();
    let place = CreatePlaceRequest { name: "网吧A".to_string(), region: "上海".to_string() };
    let place = http::create_place(&mut counters, place).unwrap();
    assert_eq!((place.id, place.name.as_str(), place.region.as_str()), (1, "网吧A", "上海"));
    let empty = CreatePlaceRequest { name: String::new(), region: "上海".to_string() };
    assert_eq!(http::create_place(&mut counters, empty).unwrap_err(), HttpError::BadRequest);
    let group = http::create_group(&mut counters, CreateGroupRequest { name: "华东组".to_string() }).unwrap();
    assert_eq!(group.id, 1);
    let empty = CreateGroupRequest { name: String::new() };
    assert_eq!(http::create_group(&mut counters, empty).unwrap_err(), HttpError::BadRequest);
    let mut bindings = db::open_bindings(&txn).unwrap();
    let request = |kind: &str, a: u64, b: u64| BindRequest { kind: kind.to_string(), a, b };
    http::bind(&mut bindings, &request("user_group", 1, 1)).unwrap();
    http::bind(&mut bindings, &request("group_place", 1, 1)).unwrap();
    assert_eq!(http::bind(&mut bindings, &request("bad", 1, 1)), Err(HttpError::BadRequest));
    assert_eq!(db::places_of_user(&bindings, 1), Ok(vec![1]));
}

#[test]
fn test_nodes_tasks_games_api() {
    let views = http::node_views(vec![node(1, 5), node(2, 6)]);
    assert_eq!(views.len(), 2);
    assert_eq!(views[1].id, 2);
    assert_eq!(views[1].endpoint_id, "ep-2");
    assert_eq!(NodeView::from(node(3, 7)).last_heartbeat_ms, 7);
}

#[test]
fn test_create_game_with_explicit_id() {
    let database = database();
    let txn = database.begin_write().unwrap();
    let mut counters = db::open_counters(&txn).unwrap();
    let request = |name: &str, id: Option<u64>| CreateGameRequest { name: name.to_string(), id };
    let created = http::create_game(&mut counters, request("X", Some(11)), Lookup::Missing).unwrap();
    assert_eq!((created.id, created.status.as_str()), (11, "uploading"));
    let again = http::create_game(&mut counters, request("Y", Some(11)), Lookup::Found(game(11)));
    assert_eq!(again, Err(HttpError::BadRequest));
    let zero = http::create_game(&mut counters, request("Z", Some(0)), Lookup::Missing);
    assert_eq!(zero, Err(HttpError::BadRequest));
    let failed = http::create_game(&mut counters, request("G", Some(1)), Lookup::Failed);
    assert_eq!(failed, Err(HttpError::Internal));
    assert_eq!(http::create_game(&mut counters, request("", None), Lookup::Missing), Err(HttpError::BadRequest));
    assert_eq!(http::create_game(&mut counters, request("H", None), Lookup::Missing).unwrap().id, 1);
}

#[test]
fn test_rollback_api() {
    let database = database();
    let txn = database.begin_write().unwrap();
    let mut counters = db::open_counters(&txn).unwrap();
    let mut versions = db::open_versions(&txn).unwrap();
    db::save_version(&mut versions, 1, 1, b"m1").unwrap();
    let ok = RollbackRequest { node_id: 5, version: 1 };
    let (task, updated) =
        http::rollback_game(&mut counters, &versions, 1, &ok, Lookup::Found(game(1)), &Lookup::Found(node(5, 1)))
            .unwrap();
    assert_eq!((task.id, task.kind.as_str(), task.node_id, task.game_id, task.version), (1, "ROLLBACK", 5, 1, 1));
    assert_eq!(task.status, "queued");
    assert_eq!(updated, GameRecord { current_version: 1, ..game(1) });
    let zero = RollbackRequest { node_id: 5, version: 0 };
    assert_eq!(
        http::rollback_game(&mut counters, &versions, 1, &zero, Lookup::Found(game(1)), &Lookup::Found(node(5, 1))),
        Err(HttpError::BadRequest)
    );
    assert_eq!(
        http::rollback_game(&mut counters, &versions, 1, &ok, Lookup::Missing, &Lookup::Found(node(5, 1))),
        Err(HttpError::NotFound)
    );
    let unknown = RollbackRequest { node_id: 5, version: 9 };
    assert_eq!(
        http::rollback_game(&mut counters, &versions, 1, &unknown, Lookup::Found(game(1)), &Lookup::Found(node(5, 1))),
        Err(HttpError::NotFound)
    );
    assert_eq!(
        http::rollback_game(&mut counters, &versions, 1, &ok, Lookup::Found(game(1)), &Lookup::Missing),
        Err(HttpError::NotFound)
    );
}

#[test]
fn test_create_task_assigns_idc_chunks() {
    let database = database();
    let txn = database.begin_write().unwrap();
    let mut store = Store::open(&txn).unwrap();
    let (h1, h2) = ([1u8; 32], [2u8; 32]);
    let index = GameIndex::build(vec![FileEntry {
        name: "a.bin".to_string(),
        file_hash: [9; 32],
        chunks: vec![ChunkMeta { hash: h1, len: 4 }, ChunkMeta { hash: h2, len: 4 }],
    }]);
    store.save_version(9, 1, &index.encode().unwrap()).unwrap();
    let typed = |id: u64, node_type: &str| Lookup::Found(NodeRecord {
        node_type: node_type.to_string(),
        addrs: vec![],
        token: "tok".to_string(),
        ..node(id, 1)
    });
    let request = |node_id: u64| CreateTaskRequest { node_id, game_id: 9, version: 1, kind: "UPDATE".to_string() };
    let mut tasks = Vec::new();
    for (id, node_type) in [(1u64, "idc"), (2, "idc"), (3, "cafe")] {
        let node = typed(id, node_type);
        tasks.push(
            http::create_task(&mut store.counters, &store.versions, &store.ledger, request(id), &node).unwrap(),
        );
    }
    assert_eq!(tasks[0].assigned_chunks.len(), 2);
    store.record_chunk_holder(1, 9, &h1).unwrap();
    let node = typed(2, "idc");
    tasks.push(http::create_task(&mut store.counters, &store.versions, &store.ledger, request(2), &node).unwrap());
    assert_eq!(tasks[3].assigned_chunks.len(), 1);
    assert_eq!(tasks[3].assigned_chunks[0], h2.to_vec());
    assert!(tasks[2].assigned_chunks.is_empty());
    assert_eq!(tasks.iter().map(|t| t.id).collect::<Vec<u64>>(), vec![1, 2, 3, 4]);
}

#[test]
fn tasks_that_are_refused() {
    let database = database();
    let txn = database.begin_write().unwrap();
    let mut counters = db::open_counters(&txn).unwrap();
    let mut versions = db::open_versions(&txn).unwrap();
    let mut ledger = db::open_ledger(&txn).unwrap();
    let index = GameIndex::build(vec![FileEntry {
        name: "a.bin".to_string(),
        file_hash: [0; 32],
        chunks: [3u8, 1, 2, 3].iter().map(|h| ChunkMeta { hash: [*h; 32], len: 4 }).collect(),
    }]);
    db::save_version(&mut versions, 1, 1, &index.encode().unwrap()).unwrap();
    db::record_chunk_holder(&mut ledger, 9, 1, &[2; 32]).unwrap();
    let request = |version: u64, kind: &str| CreateTaskRequest {
        node_id: 5,
        game_id: 1,
        version,
        kind: kind.to_string(),
    };
    let found = Lookup::Found(node(5, 1));
    let task = http::create_task(&mut counters, &versions, &ledger, request(1, "DOWNLOAD"), &found).unwrap();
    assert_eq!(task.assigned_chunks, vec![vec![1; 32], vec![3; 32]]);
    assert_eq!((task.id, task.kind.as_str(), task.status.as_str()), (1, "DOWNLOAD", "queued"));
    let cafe = Lookup::Found(NodeRecord { node_type: "cafe".to_string(), ..node(5, 1) });
    let task = http::create_task(&mut counters, &versions, &ledger, request(1, "DOWNLOAD"), &cafe).unwrap();
    assert!(task.assigned_chunks.is_empty());
    let task = http::create_task(&mut counters, &versions, &ledger, request(7, "DOWNLOAD"), &found).unwrap();
    assert!(task.assigned_chunks.is_empty());
    assert_eq!(
        http::create_task(&mut counters, &versions, &ledger, request(1, ""), &found),
        Err(HttpError::BadRequest)
    );
    assert_eq!(
        http::create_task(&mut counters, &versions, &ledger, request(1, "UPDATE"), &Lookup::Missing),
        Err(HttpError::NotFound)
    );
    db::save_version(&mut versions, 1, 8, b"damaged").unwrap();
    assert_eq!(
        http::create_task(&mut counters, &versions, &ledger, request(8, "UPDATE"), &found),
        Err(HttpError::Internal)
    );
}

#[test]
fn test_audit_logged_and_listed() {
    let action = Action::CreateTask { id: 1, game_id: 2, version: 3 };
    assert_eq!(action.name(), "创建任务");
    assert_eq!(action.detail(), "任务 ID 1 游戏 2 版本 3");
    assert_eq!(Action::CreateUser(7).detail(), "账号 ID 7");
    assert_eq!(Action::DeletePlace(7).name(), "删除场所");
    assert_eq!(Action::Bind { kind: Binding::UserPlace, a: 1, b: 2 }.detail(), "user_place 1/2");
    assert_eq!(Action::Rollback { game_id: 4, version: 5 }.detail(), "游戏 4 回滚到版本 5");
    assert_eq!(Action::CancelTask(9).detail(), "任务 ID 9 已取消（排队中）");
}

fn sock(text: &str, hash: u64) -> SockAddr {
    SockAddr { text: text.to_string(), hash }
}

#[test]
fn test_probe_due_spread() {
    let mut keep = Keepalive::new();
    let addrs = [("127.0.0.1:10001", 5u64), ("127.0.0.1:10002", 17), ("127.0.0.1:10003", 123)];
    for (text, hash) in addrs {
        keep.register(&sock(text, hash));
        keep.register(&sock(text, hash));
    }
    let mut seen = Vec::new();
    for now in 0..10 {
        seen.extend(keep.probe_due(now, 10));
    }
    assert_eq!(seen.len(), 3);
    for (text, _) in addrs {
        assert!(seen.contains(&text.to_string()));
    }
    assert_eq!(addr_slot(123, 10), 3);
}

#[test]
fn test_record_transitions() {
    let mut keep = Keepalive::new();
    let addr = sock("127.0.0.1:10004", 1);
    keep.register(&addr);
    keep.record(&addr, false, 3);
    keep.record(&addr, false, 3);
    assert!(keep.unavailable().is_empty());
    keep.record(&addr, false, 3);
    assert_eq!(keep.unavailable(), vec!["127.0.0.1:10004"]);
    keep.record(&addr, true, 3);
    assert!(keep.unavailable().is_empty());
    assert_eq!(keep.state("127.0.0.1:10004").unwrap().failures, 0);
    assert_eq!(keep.state("127.0.0.1:1"), None);
    assert_eq!(AddrState::default(), AddrState { failures: 0, available: true });
}

fn targets(list: &[(&str, u64, u64, u32)]) -> Vec<Target> {
    list.iter()
        .map(|(text, hash, node_id, addr_index)| Target {
            addr: sock(text, *hash),
            node_id: *node_id,
            addr_index: *addr_index,
        })
        .collect()
}

#[test]
fn test_run_marks_offline_without_pong() {
    let stun = AddrRecord { addr: "127.0.0.1:9".to_string(), kind: "stun".to_string(), link: String::new() };
    let mut mixed = node(1, 1);
    mixed.addrs.insert(0, stun);
    let declared = declared_addrs(&vec![mixed, node(2, 1)]);
    assert_eq!(declared.len(), 2);
    assert_eq!((declared[0].node_id, declared[0].addr_index, declared[0].addr.as_str()), (1, 1, "127.0.0.1:42001"));

    let second: u128 = 1_000_000_000;
    let mut prober = Prober::new();
    let mut probes = 0;
    for now in 0..6u64 {
        prober.sync(targets(&[("a", 0, 1, 0)]));
        probes += prober.due(now, 2, now as u128 * second).len();
        prober.expire(now as u128 * second, 2, 2);
    }
    assert_eq!(probes, 3);
    assert_eq!(prober.statuses(), vec![(1, false)]);
    let updated = node_status(node(1, 1), false).unwrap();
    assert_eq!(updated, NodeRecord { status: "offline".to_string(), ..node(1, 1) });
    assert_eq!(node_status(updated.clone(), false), None);
    assert_eq!(node_status(updated, true).unwrap().status, "online");
}

#[test]
fn test_run_pong_keeps_online_and_restores() {
    let second: u128 = 1_000_000_000;
    let mut prober = Prober::new();
    prober.sync(targets(&[("a", 0, 1, 0), ("b", 1, 2, 4)]));
    let pings = prober.due(0, 2, 0);
    assert_eq!(pings.len(), 1);
    assert_eq!(pings[0].addr, "a");
    assert_eq!(parse_ping(&pings[0].packet), Some((1, 1, 0)));
    let pings = prober.due(1, 2, second);
    assert_eq!(parse_ping(&pings[0].packet), Some((2, 2, 4)));
    assert_eq!(prober.outstanding.len(), 2);
    prober.pong(b"garbage", 1);
    prober.pong(&build_pong(77), 1);
    assert_eq!(prober.outstanding.len(), 2);
    prober.pong(&build_pong(1), 1);
    assert_eq!(prober.outstanding.len(), 1);
    prober.expire(3 * second, 2, 1);
    assert!(prober.outstanding.is_empty());
    assert_eq!(prober.statuses(), vec![(1, true), (2, false)]);
    prober.due(3, 2, 3 * second);
    prober.pong(&build_pong(3), 1);
    assert_eq!(prober.statuses(), vec![(1, true), (2, true)]);
    // A later owner of an address replaces an earlier one.
    prober.sync(targets(&[("a", 0, 1, 0), ("a", 0, 8, 2)]));
    assert_eq!(prober.statuses(), vec![(8, true)]);
}

#[test]
fn tables_of_one_transaction() {
    let database = database();
    let txn = database.begin_write().unwrap();
    let mut store = Store::open(&txn).unwrap();
    assert_eq!(store.next_node_id(), Ok(1));
    assert_eq!(store.next_node_id(), Ok(2));
    assert_eq!(store.next_task_id(), Ok(1));
    assert_eq!(store.next_user_id(), Ok(1));
    assert_eq!(store.next_place_id(), Ok(1));
    assert_eq!(store.next_group_id(), Ok(1));
    assert_eq!(store.next_game_id(), Ok(1));
    let text = "x".to_string();
    store.insert_node(1, &text).unwrap();
    store.insert_task(1, &text).unwrap();
    store.insert_user(1, &text).unwrap();
    store.insert_place(1, &text).unwrap();
    store.insert_group(1, &text).unwrap();
    store.insert_game(1, &text).unwrap();
    assert_eq!(store.get_node(1), Ok(Some(text.clone())));
    assert_eq!(store.get_node(99), Ok(None));
    assert_eq!(store.get_task(1), Ok(Some(text.clone())));
    assert_eq!(store.list_nodes(), Ok(vec![text.clone()]));
    assert_eq!(store.list_tasks(), Ok(vec![text.clone()]));
    assert_eq!(store.delete_user(1), Ok(true));
    assert_eq!(store.delete_user(1), Ok(false));
    assert_eq!(store.get_user(1), Ok(None));
    assert_eq!(store.list_users(), Ok(vec![]));
    assert_eq!(store.get_place(1), Ok(Some(text.clone())));
    assert_eq!(store.delete_place(1), Ok(true));
    assert_eq!(store.list_places(), Ok(vec![]));
    assert_eq!(store.get_group(1), Ok(Some(text.clone())));
    assert_eq!(store.delete_group(1), Ok(true));
    assert_eq!(store.list_groups(), Ok(vec![]));
    assert_eq!(store.get_game(1), Ok(Some(text.clone())));
    assert_eq!(store.list_games(), Ok(vec![text]));
    assert_eq!(store.delete_game(1), Ok(true));
    store.record_chunk_holder(4, 1, &[7; 32]).unwrap();
    assert_eq!(store.chunk_holders(1, &[7; 32]), Ok(vec![4]));
    assert_eq!(store.chunk_holders(2, &[7; 32]), Ok(vec![]));
    assert_eq!(store.add_launch(3, 2), Ok(2));
    assert_eq!(store.top_games(5), Ok(vec![3]));
    store.save_version(1, 2, b"m").unwrap();
    assert_eq!(store.get_version(1, 2), Ok(Some(b"m".to_vec())));
    assert_eq!(store.get_version(1, 3), Ok(None));
    store.bind(Binding::UserPlace, 1, 5).unwrap();
    assert_eq!(store.places_of_user(1), Ok(vec![5]));
}

#[test]
fn tables_last_until_they_are_changed() {
    let database = database();
    let txn = database.begin_write().unwrap();
    Store::open(&txn).unwrap().insert_game(9, &"kept".to_string()).unwrap();
    txn.commit().unwrap();
    let txn = database.begin_write().unwrap();
    Store::open(&txn).unwrap().insert_game(9, &"dropped".to_string()).unwrap();
    txn.abort().unwrap();
    let txn = database.begin_write().unwrap();
    assert_eq!(Store::open(&txn).unwrap().get_game(9), Ok(Some("kept".to_string())));
}

#[test]
fn tables_have_their_names() {
    let database = database();
    let txn = database.begin_write().unwrap();
    drop(Store::open(&txn).unwrap());
    let mut names: Vec<String> =
        txn.list_tables().unwrap().map(|t| redb::TableHandle::name(&t).to_string()).collect();
    names.sort();
    assert_eq!(
        names,
        vec![
            "bindings", "chunks", "counters", "games", "groups", "heat", "nodes", "places", "tasks", "users", "versions"
        ]
    );
}

#[test]
fn rows_go_to_the_table_that_was_opened() {
    let database = database();
    let txn = database.begin_write().unwrap();
    db::add_launch(&mut db::open_heat(&txn).unwrap(), 7, 3).unwrap();
    db::next_id(&mut db::open_counters(&txn).unwrap(), RecordKind::Node).unwrap();
    db::bind(&mut db::open_bindings(&txn).unwrap(), Binding::UserPlace, 1, 2).unwrap();
    db::record_chunk_holder(&mut db::open_ledger(&txn).unwrap(), 1, 7, &[5u8; 32]).unwrap();
    db::save_version(&mut db::open_versions(&txn).unwrap(), 7, 1, &[1, 2]).unwrap();
    let mut groups = db::open_records(&txn, RecordKind::Group).unwrap();
    db::insert_record(&mut groups, RecordKind::Group, 4, &"g".to_string()).unwrap();
    drop(groups);
    for name in ["heat", "counters", "bindings"] {
        let table = txn.open_table(redb::TableDefinition::<String, u64>::new(name)).unwrap();
        assert_eq!(redb::ReadableTableMetadata::len(&table).unwrap(), 1);
    }
    for name in ["chunks", "versions"] {
        let table = txn.open_table(redb::TableDefinition::<String, String>::new(name)).unwrap();
        assert_eq!(redb::ReadableTableMetadata::len(&table).unwrap(), 1);
    }
    let table = txn.open_table(redb::TableDefinition::<u64, String>::new("groups")).unwrap();
    assert_eq!(redb::ReadableTableMetadata::len(&table).unwrap(), 1);
    assert_eq!(txn.list_tables().unwrap().count(), 6);
}

#[test]
fn numbers_follow_the_last() {
    assert_eq!(db::number_after(None), Ok(1));
    assert_eq!(db::number_after(Some(6)), Ok(7));
    assert_eq!(db::number_after(Some(u64::MAX - 1)), Ok(u64::MAX));
    assert_eq!(db::number_after(Some(u64::MAX)), Err(DbError::CounterFull));
}

#[test]
fn ledger_entries_are_read_and_written() {
    let text = |s: &str| s.to_string();
    assert_eq!(db::holders_in(None), Ok(vec![]));
    assert_eq!(db::holders_in(Some(&text("[3, 1]"))), Ok(vec![3, 1]));
    assert_eq!(db::holders_in(Some(&text("{}"))), Err(DbError::BadLedger));
    assert_eq!(db::entry_with_holder(None, 4), Some(vec![4]));
    assert_eq!(db::entry_with_holder(Some(&text("[3,1]")), 4), Some(vec![3, 1, 4]));
    assert_eq!(db::entry_with_holder(Some(&text("[3,1]")), 1), None);
    assert_eq!(db::entry_with_holder(Some(&text("broken")), 4), Some(vec![4]));
    assert_eq!(db::manifest_in(None), Ok(None));
    assert_eq!(db::manifest_in(Some(&text("[1,255]"))), Ok(Some(vec![1, 255])));
    assert_eq!(db::manifest_in(Some(&text("[256]"))), Err(DbError::Decode));
}

#[test]
fn entries_are_kept_as_plain_json() {
    let database = database();
    let txn = database.begin_write().unwrap();
    {
        let mut ledger = db::open_ledger(&txn).unwrap();
        db::record_chunk_holder(&mut ledger, 12, 7, &[0xab; 32]).unwrap();
        db::record_chunk_holder(&mut ledger, 5, 7, &[0xab; 32]).unwrap();
        let mut versions = db::open_versions(&txn).unwrap();
        db::save_version(&mut versions, 7, 2, &[0, 10, 255]).unwrap();
        db::save_version(&mut versions, 7, 3, &[]).unwrap();
    }
    let texts = |name: &str| -> Vec<String> {
        let table = txn.open_table(redb::TableDefinition::<String, String>::new(name)).unwrap();
        let rows = redb::ReadableTable::iter(&table).unwrap();
        rows.map(|row| row.unwrap().1.value()).collect()
    };
    assert_eq!(texts("chunks"), vec!["[12,5]"]);
    assert_eq!(texts("versions"), vec!["[0,10,255]", "[]"]);
}

#[test]
fn launches_add_up() {
    assert_eq!(db::launches_after(None, 3), Ok(3));
    assert_eq!(db::launches_after(Some(4), 3), Ok(7));
    assert_eq!(db::launches_after(Some(u64::MAX), 0), Ok(u64::MAX));
    assert_eq!(db::launches_after(Some(u64::MAX), 1), Err(DbError::CounterFull));
}

#[test]
fn games_are_ranked() {
    let row = |k: &str, n: u64| (k.to_string(), n);
    let rows = vec![row("1", 5), row("2", 9), row("3", 5), row("4", 0)];
    assert_eq!(db::rank_games(&rows, 3), Ok(vec![2, 1, 3]));
    assert_eq!(db::rank_games(&rows, 9), Ok(vec![2, 1, 3, 4]));
    assert_eq!(db::rank_games(&rows, 0), Ok(vec![]));
    assert_eq!(db::rank_games(&vec![row("1", 5), row("x", 9)], 1), Err(DbError::BadGameId));
}

#[test]
fn places_are_seen_directly_or_through_a_group() {
    let row = |k: &str| (k.to_string(), 1u64);
    let rows = vec![
        row("group_place/4/8"),
        row("group_place/5/9"),
        row("user_group/1/4"),
        row("user_place/1/8"),
        row("user_place/1/3"),
        row("user_place/11/6"),
        row("user_place/1/x"),
    ];
    assert_eq!(db::visible_places(&rows, 1), vec![3, 8]);
    assert_eq!(db::visible_places(&rows, 11), vec![6]);
    assert_eq!(db::visible_places(&rows, 2), Vec::<u64>::new());
}

#[test]
fn records_come_in_the_order_of_the_rows() {
    let rows = vec![(1u64, "a".to_string()), (4, "b".to_string())];
    assert_eq!(db::record_texts(rows), vec!["a", "b"]);
}

#[test]
fn new_records_take_the_number_that_was_given_out() {
    let user = |name: &str| CreateUserRequest { username: name.to_string(), password: "pw".to_string() };
    let made = http::user_with(user("u"), 77, Ok(5)).unwrap();
    assert_eq!((made.id, made.username.as_str(), made.salt.as_str()), (5, "u", "77"));
    assert_eq!(made.password_hash, db::hash_password("pw", "77"));
    assert_eq!(http::user_with(user("u"), 77, Err(DbError::CounterFull)), Err(HttpError::Internal));
    assert_eq!(http::user_with(user(""), 77, Ok(5)), Err(HttpError::BadRequest));
    let place = |name: &str| CreatePlaceRequest { name: name.to_string(), region: "r".to_string() };
    assert_eq!(http::place_with(place("p"), Ok(6)).unwrap().id, 6);
    assert_eq!(http::place_with(place("p"), Err(DbError::ReadCounter)), Err(HttpError::Internal));
    assert_eq!(http::place_with(place(""), Ok(6)), Err(HttpError::BadRequest));
    let group = |name: &str| CreateGroupRequest { name: name.to_string() };
    assert_eq!(http::group_with(group("g"), Ok(7)).unwrap().id, 7);
    assert_eq!(http::group_with(group("g"), Err(DbError::WriteCounter)), Err(HttpError::Internal));
    assert_eq!(http::group_with(group(""), Ok(7)), Err(HttpError::BadRequest));
    let new_game = |id: Option<u64>| CreateGameRequest { name: "g".to_string(), id };
    let made = http::game_with(new_game(None), &Lookup::Missing, Ok(8)).unwrap();
    assert_eq!((made.id, made.status.as_str(), made.current_version, made.latest_version), (8, "uploading", 0, 0));
    assert_eq!(http::game_with(new_game(Some(3)), &Lookup::Missing, Err(DbError::ReadCounter)).unwrap().id, 3);
    assert_eq!(
        http::game_with(new_game(None), &Lookup::Missing, Err(DbError::ReadCounter)),
        Err(HttpError::Internal)
    );
    assert_eq!(http::game_with(new_game(Some(3)), &Lookup::Found(game(3)), Ok(8)), Err(HttpError::BadRequest));
    assert_eq!(http::game_with(new_game(Some(3)), &Lookup::Failed, Ok(8)), Err(HttpError::Internal));
    assert_eq!(http::game_with(new_game(Some(0)), &Lookup::Missing, Ok(8)), Err(HttpError::BadRequest));
    assert_eq!(http::game_check(&new_game(Some(3)), &Lookup::Missing), Ok(()));
}

#[test]
fn chunks_are_assigned_from_what_is_held() {
    let index = GameIndex::build(vec![FileEntry {
        name: "a.bin".to_string(),
        file_hash: [9; 32],
        chunks: [3u8, 1, 3, 2].iter().map(|s| ChunkMeta { hash: [*s; 32], len: 4 }).collect(),
    }]);
    let bytes = index.encode().unwrap();
    assert_eq!(http::version_to_assign("idc", Ok(Some(bytes.clone()))), Ok(Some(index.clone())));
    assert_eq!(http::version_to_assign("cafe", Ok(Some(bytes.clone()))), Ok(None));
    assert_eq!(http::version_to_assign("idc", Ok(None)), Ok(None));
    assert_eq!(
        http::version_to_assign("idc", Err(DbError::ReadVersion)),
        Err(http::AssignError::Db(DbError::ReadVersion))
    );
    assert!(matches!(
        http::version_to_assign("idc", Ok(Some(bytes[1..].to_vec()))),
        Err(http::AssignError::Manifest(_))
    ));
    assert_eq!(http::assign_from(&index, &vec![false, true, false]), vec![vec![2u8; 32], vec![3u8; 32]]);
    assert_eq!(http::assign_from(&index, &vec![true, true, true]), Vec::<Vec<u8>>::new());
}

#[test]
fn tasks_follow_what_the_store_gave() {
    let request = |kind: &str| CreateTaskRequest { node_id: 5, game_id: 9, version: 2, kind: kind.to_string() };
    let found = Lookup::Found(node(5, 1));
    let chunks = vec![vec![1u8; 32]];
    let made = http::task_with(request("UPDATE"), &found, Ok(chunks.clone()), Ok(4)).unwrap();
    let expected = TaskRecord {
        id: 4,
        node_id: 5,
        game_id: 9,
        version: 2,
        kind: "UPDATE".to_string(),
        assigned_chunks: chunks.clone(),
        status: "queued".to_string(),
        error: String::new(),
    };
    assert_eq!(made, expected);
    let failed = http::AssignError::Db(DbError::ReadLedger);
    assert_eq!(http::task_with(request("UPDATE"), &found, Err(failed), Ok(4)), Err(HttpError::Internal));
    assert_eq!(
        http::task_with(request("UPDATE"), &found, Ok(vec![]), Err(DbError::ReadCounter)),
        Err(HttpError::Internal)
    );
    assert_eq!(http::task_with(request(""), &found, Ok(vec![]), Ok(4)), Err(HttpError::BadRequest));
    assert_eq!(http::task_with(request("X"), &Lookup::Missing, Ok(vec![]), Ok(4)), Err(HttpError::NotFound));
    assert_eq!(http::task_with(request("X"), &Lookup::Failed, Ok(vec![]), Ok(4)), Err(HttpError::Internal));
    assert_eq!(http::task_check(&request("X"), &found), Ok(()));
}

#[test]
fn rollbacks_follow_what_the_store_gave() {
    let request = |version: u64| RollbackRequest { node_id: 5, version };
    let found = || Lookup::Found(node(5, 1));
    let kept = || Lookup::Found(vec![1u8]);
    let roll = |kept: Lookup<Vec<u8>>, id, game, node: Lookup<NodeRecord>, version| {
        http::rollback_with(&kept, id, game, &node, 1, &request(version))
    };
    let (task, after) = roll(kept(), Ok(3), Lookup::Found(game(1)), found(), 7).unwrap();
    assert_eq!((task.id, task.kind.as_str(), task.status.as_str(), task.version), (3, "ROLLBACK", "queued", 7));
    assert!(task.assigned_chunks.is_empty());
    assert_eq!(after, GameRecord { current_version: 7, ..game(1) });
    let some = || Lookup::Found(game(1));
    assert_eq!(roll(kept(), Ok(3), some(), found(), 0), Err(HttpError::BadRequest));
    assert_eq!(roll(kept(), Ok(3), Lookup::Missing, found(), 7), Err(HttpError::NotFound));
    assert_eq!(roll(kept(), Ok(3), Lookup::Failed, found(), 7), Err(HttpError::Internal));
    assert_eq!(roll(Lookup::Missing, Ok(3), some(), found(), 7), Err(HttpError::NotFound));
    assert_eq!(roll(Lookup::Failed, Ok(3), some(), found(), 7), Err(HttpError::Internal));
    assert_eq!(roll(kept(), Ok(3), some(), Lookup::Missing, 7), Err(HttpError::NotFound));
    assert_eq!(roll(kept(), Ok(3), some(), Lookup::Failed, 7), Err(HttpError::Internal));
    assert_eq!(roll(kept(), Err(DbError::WriteCounter), some(), found(), 7), Err(HttpError::Internal));
}

#[test]
fn a_refused_rollback_gives_out_no_number() {
    let database = database();
    let txn = database.begin_write().unwrap();
    let mut counters = db::open_counters(&txn).unwrap();
    let versions = db::open_versions(&txn).unwrap();
    let request = RollbackRequest { node_id: 5, version: 1 };
    let found = Lookup::Found(node(5, 1));
    let refused = http::rollback_game(&mut counters, &versions, 1, &request, Lookup::Found(game(1)), &found);
    assert_eq!(refused, Err(HttpError::NotFound));
    assert_eq!(db::next_id(&mut counters, RecordKind::Task), Ok(1));
}

#[test]
fn nodes_follow_what_the_store_gave() {
    let request = |node_type: &str| RegisterRequest {
        node_type: node_type.to_string(),
        endpoint_id: "ep".to_string(),
        addrs: vec![],
        token: String::new(),
    };
    let made = server::node_with(Ok(6), request("idc"), 99).unwrap();
    assert_eq!((made.id, made.token.as_str(), made.status.as_str()), (6, "99-6", "online"));
    let full = server::node_with(Err(DbError::CounterFull), request("idc"), 99).unwrap_err();
    assert_eq!(full.code, Code::Internal);
    assert_eq!(full.message, format!("分配节点 ID 失败: {}", DbError::CounterFull.message()));
    assert_eq!(server::node_with(Ok(6), request("x"), 99).unwrap_err().code, Code::InvalidArgument);
}

#[test]
fn answers_follow_what_the_store_gave() {
    let mut pending = Pending::new();
    let failed = server::announce(&mut pending, &task(1, 5), Err(DbError::WriteRecord(RecordKind::Task)));
    assert_eq!(failed.unwrap_err().message, "写入任务失败: 写入任务失败");
    assert!(pending.drain(5).is_empty());
    server::announce(&mut pending, &task(1, 5), Ok(())).unwrap();
    assert!(matches!(pending.drain(5).as_slice(), [Ev::Task(t)] if t.id == 1));
    assert!(server::chunk_reply(Ok(())).is_ok());
    assert_eq!(server::chunk_reply(Err(DbError::WriteLedger)).unwrap_err().message, "块账本操作失败: 写入块账本失败");
    assert_eq!(server::first_holders(Ok(vec![4, 2, 9]), 2).unwrap(), vec![4, 2]);
    assert_eq!(server::first_holders(Ok(vec![4, 2, 9]), 0).unwrap(), vec![4, 2, 9]);
    assert_eq!(server::first_holders(Err(DbError::BadLedger), 2).unwrap_err().code, Code::Internal);
}

#[test]
fn only_declared_addresses_become_targets() {
    let with = |id: u64, kind: &str, addr: &str| NodeRecord {
        addrs: vec![AddrRecord { addr: addr.to_string(), kind: kind.to_string(), link: String::new() }],
        ..node(id, 1)
    };
    let nodes = vec![with(1, "config", "good"), with(2, "stun", "good"), with(3, "config", "bad")];
    let declared = declared_addrs(&nodes);
    let parsed = declared.iter().map(|d| if d.addr == "good" { Some(sock("good", 0)) } else { None }).collect();
    let mut prober = Prober::new();
    prober.sync(parsed_targets(&declared, parsed));
    assert_eq!(prober.statuses(), vec![(1, true)]);
    let pings = prober.due(30, 30, 0);
    assert_eq!(pings.len(), 1);
    assert_eq!(parse_ping(&pings[0].packet), Some((1, 1, 0)));
    prober.expire(60_000_000_000, 30, 1);
    assert_eq!(prober.statuses(), vec![(1, false)]);
}
