//! The agent's configuration.
use vstd::prelude::*;
use vstd::utf8::*;

use crate::common::args;
use crate::common::path::PathParts;
use crate::common::text;

verus! {

/// The name of the configuration file where it is not given on the command
/// line.
pub const CONFIG_FILE_NAME: &'static str = "cafe-agent.toml";

/// How many games are handled at once.
pub const DEFAULT_CONCURRENT_GAMES: u32 = 5;

/// How many sources are asked at once.
pub const DEFAULT_CHUNK_CONCURRENCY: u32 = 4;

/// 200 GiB.
pub const DEFAULT_DISK_FREE_THRESHOLD: u64 = 214748364800;

/// Ports up to 10000 do not pass the NAT gateways.
pub const DEFAULT_LISTEN_PORT: u16 = 42001;

/// Temporary blocks are kept for a day.
pub const DEFAULT_TEMP_TTL_HOURS: u64 = 24;

/// What kind of site a node serves.
#[derive(Debug, Clone, Copy, PartialEq, Eq, Structural)]
pub enum NodeType {
    /// A data centre: chunks are kept in a chunk store.
    Idc,
    /// An internet cafe: games are kept as real files.
    Cafe,
}

impl NodeType {
    /// The name of the node type.
    pub open spec fn name(self) -> Seq<char> {
        match self {
            NodeType::Idc => "idc"@,
            NodeType::Cafe => "cafe"@,
        }
    }

    /// The name of the node type.
    pub fn to_text(&self) -> (name: String)
        ensures
            name@ == self.name(),
            name@ == (match *self {
                NodeType::Idc => "idc"@,
                NodeType::Cafe => "cafe"@,
            }),
    {
        match self {
            NodeType::Idc => "idc".to_owned(),
            NodeType::Cafe => "cafe".to_owned(),
        }
    }

    /// The node type with the name.
    pub fn from_text(name: &str) -> (node_type: Option<NodeType>)
        ensures
            match node_type {
                Some(t) => t.name() == name@,
                None => name@ != NodeType::Idc.name() && name@ != NodeType::Cafe.name(),
            },
            node_type == Some(NodeType::Idc) <==> name@ == "idc"@,
            node_type == Some(NodeType::Cafe) <==> name@ == "cafe"@,
    {
        proof {
            reveal_strlit("idc");
            reveal_strlit("cafe");
            assert("idc"@.len() != "cafe"@.len());
        }
        if text::same_text(name, "idc") {
            Some(NodeType::Idc)
        } else if text::same_text(name, "cafe") {
            Some(NodeType::Cafe)
        } else {
            None
        }
    }
}

/// How an agent is set up.
#[derive(Debug, Clone)]
pub struct Config {
    pub node_type: NodeType,
    /// The chunk stores of a data centre, or the game files of a cafe.
    pub data_dir: String,
    pub concurrent_games: u32,
    pub chunk_concurrency: u32,
    pub disk_free_threshold: u64,
    pub listen_port: u16,
    pub temp_ttl_hours: u64,
    /// The origin, for data centres only.
    pub origin_endpoint: Option<String>,
    pub origin_addr: Option<String>,
    /// Where keep-alive pings are answered.
    pub keepalive_port: Option<u16>,
    pub relay_url: Option<String>,
    /// The public address to announce.
    pub external_addr: Option<String>,
    /// The address echo service.
    pub stun_addr: Option<String>,
    /// The scheduler.
    pub control_addr: Option<String>,
}

/// What is known of the values that the library cannot judge itself: whether
/// the compaction threshold is in (0, 1], and whether the addresses, where
/// they are given, are an IP address and a port.
#[derive(Debug, Clone, Copy)]
pub struct Checks {
    pub compact_threshold: bool,
    pub origin_addr: bool,
    pub external_addr: bool,
    pub stun_addr: bool,
}

/// What is wrong with a configuration.
#[derive(Debug, Clone, Copy, PartialEq, Eq, Structural)]
pub enum ConfigError {
    Usage,
    DataDir,
    Concurrency,
    DiskFreeThreshold,
    CompactThreshold,
    ListenPort,
    TempTtl,
    OriginIncomplete,
    OriginForCafe,
    OriginAddr,
    KeepalivePort,
    ExternalAddr,
    StunAddr,
    ControlAddr,
}

impl ConfigError {
    /// What to tell a user.
    pub open spec fn text(self) -> Seq<char> {
        match self {
            ConfigError::Usage => "用法: agent --config <配置文件路径>"@,
            ConfigError::DataDir => "data_dir 不能为空"@,
            ConfigError::Concurrency => "concurrent_games 与 chunk_concurrency 必须大于 0"@,
            ConfigError::DiskFreeThreshold => "disk_free_threshold 必须大于 0"@,
            ConfigError::CompactThreshold => "compact_threshold 必须在 (0, 1] 之间"@,
            ConfigError::ListenPort => "listen_port 必须大于 10000（NAT 网关打洞限制）"@,
            ConfigError::TempTtl => "temp_ttl_hours 必须大于 0"@,
            ConfigError::OriginIncomplete => "origin_endpoint 与 origin_addr 必须同时配置或同时缺省"@,
            ConfigError::OriginForCafe => "网吧节点不得配置 origin_endpoint/origin_addr（网吧只从 IDC 拉取）"@,
            ConfigError::OriginAddr => "origin_addr 必须是 ip:port"@,
            ConfigError::KeepalivePort => "keepalive_port 必须大于 10000（NAT 网关打洞限制）"@,
            ConfigError::ExternalAddr => "external_addr 必须是 ip:port"@,
            ConfigError::StunAddr => "stun_addr 必须是 ip:port"@,
            ConfigError::ControlAddr => "control_addr 必须是 http(s):// 地址"@,
        }
    }

    /// What to tell a user.
    pub fn message(&self) -> (out: String)
        ensures
            out@ == self.text(),
            out@ == (match *self {
                ConfigError::Usage => "用法: agent --config <配置文件路径>"@,
                ConfigError::DataDir => "data_dir 不能为空"@,
                ConfigError::Concurrency => "concurrent_games 与 chunk_concurrency 必须大于 0"@,
                ConfigError::DiskFreeThreshold => "disk_free_threshold 必须大于 0"@,
                ConfigError::CompactThreshold => "compact_threshold 必须在 (0, 1] 之间"@,
                ConfigError::ListenPort => "listen_port 必须大于 10000（NAT 网关打洞限制）"@,
                ConfigError::TempTtl => "temp_ttl_hours 必须大于 0"@,
                ConfigError::OriginIncomplete => "origin_endpoint 与 origin_addr 必须同时配置或同时缺省"@,
                ConfigError::OriginForCafe => "网吧节点不得配置 origin_endpoint/origin_addr（网吧只从 IDC 拉取）"@,
                ConfigError::OriginAddr => "origin_addr 必须是 ip:port"@,
                ConfigError::KeepalivePort => "keepalive_port 必须大于 10000（NAT 网关打洞限制）"@,
                ConfigError::ExternalAddr => "external_addr 必须是 ip:port"@,
                ConfigError::StunAddr => "stun_addr 必须是 ip:port"@,
                ConfigError::ControlAddr => "control_addr 必须是 http(s):// 地址"@,
            }),
    {
        let t: &str = match self {
            ConfigError::Usage => "用法: agent --config <配置文件路径>",
            ConfigError::DataDir => "data_dir 不能为空",
            ConfigError::Concurrency => "concurrent_games 与 chunk_concurrency 必须大于 0",
            ConfigError::DiskFreeThreshold => "disk_free_threshold 必须大于 0",
            ConfigError::CompactThreshold => "compact_threshold 必须在 (0, 1] 之间",
            ConfigError::ListenPort => "listen_port 必须大于 10000（NAT 网关打洞限制）",
            ConfigError::TempTtl => "temp_ttl_hours 必须大于 0",
            ConfigError::OriginIncomplete => "origin_endpoint 与 origin_addr 必须同时配置或同时缺省",
            ConfigError::OriginForCafe => "网吧节点不得配置 origin_endpoint/origin_addr（网吧只从 IDC 拉取）",
            ConfigError::OriginAddr => "origin_addr 必须是 ip:port",
            ConfigError::KeepalivePort => "keepalive_port 必须大于 10000（NAT 网关打洞限制）",
            ConfigError::ExternalAddr => "external_addr 必须是 ip:port",
            ConfigError::StunAddr => "stun_addr 必须是 ip:port",
            ConfigError::ControlAddr => "control_addr 必须是 http(s):// 地址",
        };
        t.to_owned()
    }
}

/// Whether a text starts like a web address.
pub open spec fn is_http(addr: Seq<char>) -> bool {
    text::begins(encode_utf8(addr), encode_utf8("http://"@)) || text::begins(
        encode_utf8(addr),
        encode_utf8("https://"@),
    )
}

/// Whether the configuration has the given fault.
pub open spec fn has_fault(c: Config, k: Checks, e: ConfigError) -> bool {
    match e {
        ConfigError::Usage => false,
        ConfigError::DataDir => c.data_dir@.len() == 0,
        ConfigError::Concurrency => c.concurrent_games == 0 || c.chunk_concurrency == 0,
        ConfigError::DiskFreeThreshold => c.disk_free_threshold == 0,
        ConfigError::CompactThreshold => !k.compact_threshold,
        ConfigError::ListenPort => c.listen_port <= 10000,
        ConfigError::TempTtl => c.temp_ttl_hours == 0,
        ConfigError::OriginIncomplete => (c.origin_endpoint is Some) != (c.origin_addr is Some),
        ConfigError::OriginForCafe => c.node_type == NodeType::Cafe && (c.origin_endpoint is Some || c.origin_addr is Some),
        ConfigError::OriginAddr => c.origin_addr is Some && !k.origin_addr,
        ConfigError::KeepalivePort => c.keepalive_port is Some && c.keepalive_port->0 <= 10000,
        ConfigError::ExternalAddr => c.external_addr is Some && !k.external_addr,
        ConfigError::StunAddr => c.stun_addr is Some && !k.stun_addr,
        ConfigError::ControlAddr => c.control_addr is Some && !is_http(c.control_addr->0@),
    }
}

/// The faults in the order in which they are reported.
pub open spec fn fault_order() -> Seq<ConfigError> {
    seq![
        ConfigError::DataDir,
        ConfigError::Concurrency,
        ConfigError::DiskFreeThreshold,
        ConfigError::CompactThreshold,
        ConfigError::ListenPort,
        ConfigError::TempTtl,
        ConfigError::OriginIncomplete,
        ConfigError::OriginForCafe,
        ConfigError::OriginAddr,
        ConfigError::KeepalivePort,
        ConfigError::ExternalAddr,
        ConfigError::StunAddr,
        ConfigError::ControlAddr,
    ]
}

/// Whether `e` is the first fault in the order.
pub open spec fn first_fault(c: Config, k: Checks, e: ConfigError) -> bool {
    exists|i: int|
        0 <= i < fault_order().len() && #[trigger] fault_order()[i] == e && has_fault(c, k, e) && forall|j: int|
            0 <= j < i ==> !has_fault(c, k, #[trigger] fault_order()[j])
}

/// Whether the text starts like a web address.
fn starts_http(addr: &str) -> (yes: bool)
    ensures
        yes == is_http(addr@),
{
    text::bytes_begin(addr.as_bytes(), "http://".as_bytes()) || text::bytes_begin(
        addr.as_bytes(),
        "https://".as_bytes(),
    )
}

impl Config {
    /// Where the configuration is looked for when no path is given: below the
    /// directory that holds the program's own directory.
    pub fn default_path(base: &str) -> (path: PathParts)
        ensures
            path@ == seq![base@, "config"@, CONFIG_FILE_NAME@],
            path@ == seq![base@, "config"@, "cafe-agent.toml"@],
    {
        let path = PathParts::new(base).join("config").join(CONFIG_FILE_NAME);
        assert(path@ =~= seq![base@, "config"@, CONFIG_FILE_NAME@]);
        path
    }

    /// A configuration with the defaults for all that may be left out.
    pub fn with_defaults(node_type: NodeType, data_dir: String) -> (c: Self)
        ensures
            c.node_type == node_type,
            c.data_dir == data_dir,
            c.concurrent_games == DEFAULT_CONCURRENT_GAMES,
            c.chunk_concurrency == DEFAULT_CHUNK_CONCURRENCY,
            c.disk_free_threshold == DEFAULT_DISK_FREE_THRESHOLD,
            c.listen_port == DEFAULT_LISTEN_PORT,
            c.temp_ttl_hours == DEFAULT_TEMP_TTL_HOURS,
            c.concurrent_games == 5,
            c.chunk_concurrency == 4,
            c.disk_free_threshold == 200 * 1024 * 1024 * 1024,
            c.listen_port == 42001,
            c.temp_ttl_hours == 24,
            c.origin_endpoint is None,
            c.origin_addr is None,
            c.keepalive_port is None,
            c.relay_url is None,
            c.external_addr is None,
            c.stun_addr is None,
            c.control_addr is None,
    {
        Config {
            node_type,
            data_dir,
            concurrent_games: DEFAULT_CONCURRENT_GAMES,
            chunk_concurrency: DEFAULT_CHUNK_CONCURRENCY,
            disk_free_threshold: DEFAULT_DISK_FREE_THRESHOLD,
            listen_port: DEFAULT_LISTEN_PORT,
            temp_ttl_hours: DEFAULT_TEMP_TTL_HOURS,
            origin_endpoint: None,
            origin_addr: None,
            keepalive_port: None,
            relay_url: None,
            external_addr: None,
            stun_addr: None,
            control_addr: None,
        }
    }

    /// The configuration file on the command line.
    pub fn parse_args(args: &Vec<String>) -> (path: Result<String, ConfigError>)
        ensures
            match path {
                Ok(p) => args@.len() == 3 && args@[1]@ == "--config"@ && p@ == args@[2]@,
                Err(e) => e == ConfigError::Usage && (args@.len() != 3 || args@[1]@ != "--config"@),
            },
    {
        match args::config_path(args) {
            Some(p) => Ok(p),
            None => Err(ConfigError::Usage),
        }
    }

    /// Looks for the first fault.
    pub fn validate(&self, checks: Checks) -> (r: Result<(), ConfigError>)
        ensures
            match r {
                Ok(_) => forall|e: ConfigError| !#[trigger] has_fault(*self, checks, e),
                Err(e) => first_fault(*self, checks, e),
            },
            if self.data_dir@.len() == 0 {
                r == Err::<(), ConfigError>(ConfigError::DataDir)
            } else if self.concurrent_games == 0 || self.chunk_concurrency == 0 {
                r == Err::<(), ConfigError>(ConfigError::Concurrency)
            } else if self.disk_free_threshold == 0 {
                r == Err::<(), ConfigError>(ConfigError::DiskFreeThreshold)
            } else if !checks.compact_threshold {
                r == Err::<(), ConfigError>(ConfigError::CompactThreshold)
            } else if self.listen_port < 10001 {
                r == Err::<(), ConfigError>(ConfigError::ListenPort)
            } else if self.temp_ttl_hours == 0 {
                r == Err::<(), ConfigError>(ConfigError::TempTtl)
            } else if (self.origin_endpoint is Some) != (self.origin_addr is Some) {
                r == Err::<(), ConfigError>(ConfigError::OriginIncomplete)
            } else if self.node_type == NodeType::Cafe && self.origin_addr is Some {
                r == Err::<(), ConfigError>(ConfigError::OriginForCafe)
            } else if self.origin_addr is Some && !checks.origin_addr {
                r == Err::<(), ConfigError>(ConfigError::OriginAddr)
            } else if self.keepalive_port is Some && self.keepalive_port->0 < 10001 {
                r == Err::<(), ConfigError>(ConfigError::KeepalivePort)
            } else if self.external_addr is Some && !checks.external_addr {
                r == Err::<(), ConfigError>(ConfigError::ExternalAddr)
            } else if self.stun_addr is Some && !checks.stun_addr {
                r == Err::<(), ConfigError>(ConfigError::StunAddr)
            } else if self.control_addr is Some && !text::begins(
                encode_utf8(self.control_addr->0@),
                encode_utf8("http://"@),
            ) && !text::begins(encode_utf8(self.control_addr->0@), encode_utf8("https://"@)) {
                r == Err::<(), ConfigError>(ConfigError::ControlAddr)
            } else {
                r == Ok::<(), ConfigError>(())
            },
    {
        let ghost order = fault_order();
        if self.data_dir.as_str().is_empty() {
            assert(order[0] == ConfigError::DataDir);
            return Err(ConfigError::DataDir);
        }
        if self.concurrent_games == 0 || self.chunk_concurrency == 0 {
            assert(order[1] == ConfigError::Concurrency);
            return Err(ConfigError::Concurrency);
        }
        if self.disk_free_threshold == 0 {
            assert(order[2] == ConfigError::DiskFreeThreshold);
            return Err(ConfigError::DiskFreeThreshold);
        }
        if !checks.compact_threshold {
            assert(order[3] == ConfigError::CompactThreshold);
            return Err(ConfigError::CompactThreshold);
        }
        if self.listen_port < 10001 {
            assert(order[4] == ConfigError::ListenPort);
            return Err(ConfigError::ListenPort);
        }
        if self.temp_ttl_hours == 0 {
            assert(order[5] == ConfigError::TempTtl);
            return Err(ConfigError::TempTtl);
        }
        if self.origin_endpoint.is_some() != self.origin_addr.is_some() {
            assert(order[6] == ConfigError::OriginIncomplete);
            return Err(ConfigError::OriginIncomplete);
        }
        if self.node_type == NodeType::Cafe && (self.origin_endpoint.is_some() || self.origin_addr.is_some()) {
            assert(order[7] == ConfigError::OriginForCafe);
            return Err(ConfigError::OriginForCafe);
        }
        if self.origin_addr.is_some() && !checks.origin_addr {
            assert(order[8] == ConfigError::OriginAddr);
            return Err(ConfigError::OriginAddr);
        }
        if let Some(port) = self.keepalive_port {
            if port < 10001 {
                assert(order[9] == ConfigError::KeepalivePort);
                return Err(ConfigError::KeepalivePort);
            }
        }
        if self.external_addr.is_some() && !checks.external_addr {
            assert(order[10] == ConfigError::ExternalAddr);
            return Err(ConfigError::ExternalAddr);
        }
        if self.stun_addr.is_some() && !checks.stun_addr {
            assert(order[11] == ConfigError::StunAddr);
            return Err(ConfigError::StunAddr);
        }
        if let Some(addr) = &self.control_addr {
            if !starts_http(addr.as_str()) {
                assert(order[12] == ConfigError::ControlAddr);
                return Err(ConfigError::ControlAddr);
            }
        }
        Ok(())
    }
}

} // verus!
