//! Configurations of all node types.
use blazenet::agent::config as agent;
use blazenet::agent::config::NodeType;
use blazenet::common::path::PathParts;
use blazenet::origin::config as origin;
use blazenet::producer::config as producer;
use blazenet::scheduler::config as scheduler;

fn args(list: &[&str]) -> Vec<String> {
    list.iter().map(|s| s.to_string()).collect()
}

fn agent_config(node_type: NodeType) -> agent::Config {
    agent::Config::with_defaults(node_type, "/data".to_string())
}

fn agent_checks() -> agent::Checks {
    agent::Checks { compact_threshold: true, origin_addr: true, external_addr: true, stun_addr: true }
}

fn agent_fault(config: &agent::Config, checks: agent::Checks) -> String {
    config.validate(checks).unwrap_err().message()
}

fn origin_checks() -> origin::Checks {
    origin::Checks { bind_addr: true, external_addr: true, compact_threshold: true }
}

fn producer_config() -> producer::Config {
    producer::Config {
        game_id: 1,
        version: 2,
        source_dir: "/tmp".to_string(),
        previous_dir: None,
        output_dir: "/tmp/out".to_string(),
        chunk: producer::ChunkParams::default(),
    }
}

#[test]
fn config_test_parse_args_ok() {
    let path = agent::Config::parse_args(&args(&["agent", "--config", "/tmp/agent.toml"])).unwrap();
    assert_eq!(path, "/tmp/agent.toml");
    let path = origin::Config::parse_args(&args(&["origin", "--config", "/tmp/origin.toml"])).unwrap();
    assert_eq!(path, "/tmp/origin.toml");
    let path = scheduler::Config::parse_args(&args(&["scheduler", "--config", "/tmp/scheduler.toml"])).unwrap();
    assert_eq!(path, "/tmp/scheduler.toml");
}

#[test]
fn config_test_parse_args_invalid() {
    let err = agent::Config::parse_args(&args(&["agent", "/tmp/agent.toml"])).unwrap_err();
    assert!(err.message().contains("用法"));
    let err = scheduler::Config::parse_args(&args(&["scheduler"])).unwrap_err();
    assert!(err.message().contains("用法"));
}

#[test]
fn test_parse_args_missing_flag() {
    let err = origin::Config::parse_args(&args(&["origin", "/tmp/origin.toml"])).unwrap_err();
    assert!(err.message().contains("用法"));
}

#[test]
fn test_parse_args_extra() {
    let err = origin::Config::parse_args(&args(&["origin", "--config", "/tmp/origin.toml", "extra"])).unwrap_err();
    assert!(err.message().contains("用法"));
}

#[test]
fn lib_test_load_from_args_invalid() {
    let err = origin::Config::parse_args(&args(&["origin"])).unwrap_err();
    assert!(err.message().contains("用法"));
    let err = scheduler::Config::parse_args(&args(&["scheduler"])).unwrap_err();
    assert_eq!(err.message(), "用法: scheduler --config <配置文件路径>");
}

#[test]
fn config_test_load_defaults() {
    let config = agent_config(NodeType::Cafe);
    assert_eq!(config.concurrent_games, agent::DEFAULT_CONCURRENT_GAMES);
    assert_eq!(config.chunk_concurrency, agent::DEFAULT_CHUNK_CONCURRENCY);
    assert_eq!(config.disk_free_threshold, agent::DEFAULT_DISK_FREE_THRESHOLD);
    assert_eq!(config.listen_port, agent::DEFAULT_LISTEN_PORT);
    assert_eq!(config.temp_ttl_hours, agent::DEFAULT_TEMP_TTL_HOURS);
    assert_eq!(config.origin_endpoint, None);
    assert_eq!(config.origin_addr, None);
    assert_eq!(config.validate(agent_checks()), Ok(()));

    let config = origin::Config::with_defaults("/data".to_string());
    assert_eq!(config.min_free_bytes, origin::DEFAULT_MIN_FREE_BYTES);
    assert_eq!(config.min_free_bytes, 50 * 1024 * 1024 * 1024);
    assert_eq!(config.listen_port, origin::DEFAULT_LISTEN_PORT);
    assert_eq!(config.external_addr, None);
    assert_eq!(config.relay_url, None);
    assert_eq!(config.validate(origin_checks()), Ok(()));

    let config = scheduler::Config::with_defaults("/data".to_string());
    assert_eq!(config.bind_addr, scheduler::DEFAULT_BIND_ADDR);
    assert_eq!(config.heartbeat_interval_secs, scheduler::DEFAULT_HEARTBEAT_INTERVAL_SECS);
    assert_eq!(config.offline_timeout_secs, scheduler::DEFAULT_OFFLINE_TIMEOUT_SECS);
    assert_eq!(config.validate(true), Ok(()));
}

#[test]
fn test_load_invalid_temp_ttl() {
    let mut config = agent_config(NodeType::Cafe);
    config.temp_ttl_hours = 0;
    assert!(agent_fault(&config, agent_checks()).contains("temp_ttl_hours"));
}

#[test]
fn test_load_origin_mismatch() {
    let mut config = agent_config(NodeType::Idc);
    config.origin_endpoint = Some("abc".to_string());
    assert!(agent_fault(&config, agent_checks()).contains("origin_endpoint"));
}

#[test]
fn test_load_cafe_forbids_origin() {
    let mut config = agent_config(NodeType::Cafe);
    config.origin_endpoint = Some("abc".to_string());
    config.origin_addr = Some("127.0.0.1:42001".to_string());
    assert!(agent_fault(&config, agent_checks()).contains("网吧节点不得配置 origin"));
}

#[test]
fn test_load_invalid_origin_addr() {
    let mut config = agent_config(NodeType::Idc);
    config.origin_endpoint = Some("abc".to_string());
    config.origin_addr = Some("bad".to_string());
    let mut checks = agent_checks();
    checks.origin_addr = false;
    assert!(agent_fault(&config, checks).contains("origin_addr"));
}

#[test]
fn test_load_invalid_node_type() {
    assert_eq!(NodeType::from_text("other"), None);
    assert_eq!(NodeType::from_text("idc"), Some(NodeType::Idc));
    assert_eq!(NodeType::from_text("cafe"), Some(NodeType::Cafe));
}

#[test]
fn test_load_invalid_concurrency() {
    let mut config = agent_config(NodeType::Idc);
    config.concurrent_games = 0;
    assert!(agent_fault(&config, agent_checks()).contains("concurrent_games"));
    let mut config = agent_config(NodeType::Idc);
    config.chunk_concurrency = 0;
    assert!(agent_fault(&config, agent_checks()).contains("chunk_concurrency"));
}

#[test]
fn test_display_node_type() {
    assert_eq!(NodeType::Idc.to_text(), "idc");
    assert_eq!(NodeType::Cafe.to_text(), "cafe");
}

#[test]
fn config_test_load_empty_data_dir() {
    let mut config = agent_config(NodeType::Idc);
    config.data_dir = String::new();
    assert!(agent_fault(&config, agent_checks()).contains("data_dir"));
    let config = origin::Config::with_defaults(String::new());
    assert!(config.validate(origin_checks()).unwrap_err().message().contains("data_dir"));
    let config = scheduler::Config::with_defaults(String::new());
    assert!(config.validate(true).unwrap_err().message().contains("data_dir"));
}

#[test]
fn test_load_zero_disk_threshold() {
    let mut config = agent_config(NodeType::Idc);
    config.disk_free_threshold = 0;
    assert!(agent_fault(&config, agent_checks()).contains("disk_free_threshold"));
}

#[test]
fn test_load_invalid_compact_threshold() {
    let mut checks = agent_checks();
    checks.compact_threshold = false;
    assert!(agent_fault(&agent_config(NodeType::Idc), checks).contains("compact_threshold"));
}

#[test]
fn config_test_load_invalid_listen_port() {
    let mut config = agent_config(NodeType::Idc);
    config.listen_port = 443;
    assert!(agent_fault(&config, agent_checks()).contains("10000"));
    let mut config = origin::Config::with_defaults("/data".to_string());
    config.listen_port = 443;
    assert!(config.validate(origin_checks()).unwrap_err().message().contains("listen_port"));
}

#[test]
fn test_load_external_addr() {
    let mut config = agent_config(NodeType::Cafe);
    config.external_addr = Some("111.161.74.28:42001".to_string());
    assert_eq!(config.validate(agent_checks()), Ok(()));
}

#[test]
fn config_test_load_invalid_external_addr() {
    let mut config = agent_config(NodeType::Cafe);
    config.external_addr = Some("不合法".to_string());
    let mut checks = agent_checks();
    checks.external_addr = false;
    assert!(agent_fault(&config, checks).contains("external_addr"));
    let mut config = origin::Config::with_defaults("/data".to_string());
    config.external_addr = Some("不合法".to_string());
    let mut checks = origin_checks();
    checks.external_addr = false;
    assert!(config.validate(checks).unwrap_err().message().contains("external_addr"));
}

#[test]
fn test_load_invalid_stun_addr() {
    let mut config = agent_config(NodeType::Cafe);
    config.stun_addr = Some("不合法".to_string());
    let mut checks = agent_checks();
    checks.stun_addr = false;
    assert!(agent_fault(&config, checks).contains("stun_addr"));
}

#[test]
fn test_load_invalid_keepalive_port() {
    let mut config = agent_config(NodeType::Cafe);
    config.keepalive_port = Some(443);
    assert!(agent_fault(&config, agent_checks()).contains("keepalive_port"));
}

#[test]
fn test_load_control_addr() {
    let mut config = agent_config(NodeType::Idc);
    config.control_addr = Some("http://127.0.0.1:50051".to_string());
    assert_eq!(config.validate(agent_checks()), Ok(()));
}

#[test]
fn test_load_invalid_control_addr() {
    let mut config = agent_config(NodeType::Idc);
    config.control_addr = Some("127.0.0.1:50051".to_string());
    assert!(agent_fault(&config, agent_checks()).contains("control_addr"));
}

#[test]
fn test_load_invalid_threshold() {
    let config = origin::Config::with_defaults("/data".to_string());
    let mut checks = origin_checks();
    checks.compact_threshold = false;
    assert!(config.validate(checks).unwrap_err().message().contains("compact_threshold"));
}

#[test]
fn test_load_zero_min_free() {
    let mut config = origin::Config::with_defaults("/data".to_string());
    config.min_free_bytes = 0;
    assert!(config.validate(origin_checks()).unwrap_err().message().contains("min_free_bytes"));
}

#[test]
fn config_test_load_invalid_bind() {
    let mut config = origin::Config::with_defaults("/data".to_string());
    config.bind_addr = "不合法".to_string();
    let mut checks = origin_checks();
    checks.bind_addr = false;
    assert_eq!(config.validate(checks).unwrap_err().message(), "bind_addr 非法: 不合法");
    let mut config = scheduler::Config::with_defaults("/data".to_string());
    config.bind_addr = "不合法".to_string();
    assert_eq!(config.validate(false).unwrap_err().message(), "bind_addr 非法: 不合法");
}

#[test]
fn test_load_invalid_timeout() {
    let mut config = scheduler::Config::with_defaults("/data".to_string());
    config.heartbeat_interval_secs = 25;
    config.offline_timeout_secs = 30;
    assert!(config.validate(true).unwrap_err().message().contains("2 倍"));
    config.offline_timeout_secs = 50;
    assert_eq!(config.validate(true), Ok(()));
}

#[test]
fn test_load_zero_interval() {
    let mut config = scheduler::Config::with_defaults("/data".to_string());
    config.heartbeat_interval_secs = 0;
    assert!(config.validate(true).unwrap_err().message().contains("必须大于 0"));
}

#[test]
fn test_load_with_defaults() {
    let config = producer_config();
    assert_eq!(config.validate(true), Ok(()));
    assert_eq!(config.chunk.min_size, producer::DEFAULT_CHUNK_MIN);
    assert_eq!(config.chunk.avg_size, producer::DEFAULT_CHUNK_AVG);
    assert_eq!(config.chunk.max_size, producer::DEFAULT_CHUNK_MAX);
    assert_eq!(producer::DEFAULT_CHUNK_AVG, 1024 * 1024);
}

#[test]
fn test_load_invalid_params() {
    let mut config = producer_config();
    config.chunk.min_size = 1024;
    assert!(config.validate(true).unwrap_err().message().contains("64KiB"));
}

#[test]
fn test_load_game_id_zero() {
    let mut config = producer_config();
    config.game_id = 0;
    assert!(config.validate(true).unwrap_err().message().contains("game_id"));
}

#[test]
fn test_load_version_zero() {
    let mut config = producer_config();
    config.version = 0;
    assert!(config.validate(true).unwrap_err().message().contains("version"));
}

#[test]
fn test_load_params_min_not_less_than_avg() {
    let mut config = producer_config();
    config.chunk.min_size = 2097152;
    assert!(config.validate(true).unwrap_err().message().contains("min < avg"));
}

#[test]
fn test_load_partial_chunk_uses_field_defaults() {
    let mut config = producer_config();
    config.chunk = producer::ChunkParams { avg_size: 2097152, ..producer::ChunkParams::default() };
    assert_eq!(config.validate(true), Ok(()));
    assert_eq!(config.chunk.min_size, producer::DEFAULT_CHUNK_MIN);
    assert_eq!(config.chunk.avg_size, 2 * 1024 * 1024);
    assert_eq!(config.chunk.max_size, producer::DEFAULT_CHUNK_MAX);
}

#[test]
fn test_load_missing_source_dir() {
    let mut config = producer_config();
    config.source_dir = "/tmp/不存在的目录".to_string();
    assert!(config.validate(false).unwrap_err().message().contains("source_dir"));
}

/// A path as this platform writes it.
fn joined(path: &PathParts) -> String {
    let path: std::path::PathBuf = path.parts.iter().collect();
    path.to_string_lossy().to_string()
}

#[test]
fn config_test_default_path() {
    let path = agent::Config::default_path("/opt/blaze");
    assert!(joined(&path).ends_with(&format!("config{}cafe-agent.toml", std::path::MAIN_SEPARATOR)));
    assert_eq!(path.parts, vec!["/opt/blaze", "config", "cafe-agent.toml"]);
}

#[test]
fn test_default_path() {
    let path = producer::Config::default_path("/opt/blaze/");
    assert!(joined(&path).ends_with(&format!("config{}producer.toml", std::path::MAIN_SEPARATOR)));
    assert_eq!(path.parts, vec!["/opt/blaze/", "config", "producer.toml"]);
}
