//! The origin's configuration.
use vstd::prelude::*;

use crate::common::args;
use crate::common::text;

verus! {

/// 50 GiB; with less free space no uploads are taken.
pub const DEFAULT_MIN_FREE_BYTES: u64 = 53687091200;

/// Where uploads are taken.
pub const DEFAULT_BIND_ADDR: &'static str = "0.0.0.0:50052";

/// Ports up to 10000 do not pass the NAT gateways.
pub const DEFAULT_LISTEN_PORT: u16 = 42001;

/// How an origin is set up.
#[derive(Debug, Clone)]
pub struct Config {
    /// The chunk stores, one directory per game.
    pub data_dir: String,
    pub bind_addr: String,
    pub listen_port: u16,
    /// The public address to announce.
    pub external_addr: Option<String>,
    pub relay_url: Option<String>,
    pub min_free_bytes: u64,
}

/// What is known of the values that the library cannot judge itself: whether
/// the addresses, where they are given, are an IP address and a port, and
/// whether the compaction threshold is in (0, 1].
#[derive(Debug, Clone, Copy)]
pub struct Checks {
    pub bind_addr: bool,
    pub external_addr: bool,
    pub compact_threshold: bool,
}

/// What is wrong with a configuration.
#[derive(Debug, PartialEq, Eq)]
pub enum ConfigError {
    Usage,
    DataDir,
    /// The address that is not one.
    BindAddr(String),
    ListenPort,
    ExternalAddr,
    CompactThreshold,
    MinFreeBytes,
}

impl ConfigError {
    /// What to tell a user.
    pub open spec fn text(self) -> Seq<char> {
        match self {
            ConfigError::Usage => "用法: origin --config <配置文件路径>"@,
            ConfigError::DataDir => "data_dir 不能为空"@,
            ConfigError::BindAddr(a) => "bind_addr 非法: "@ + a@,
            ConfigError::ListenPort => "listen_port 必须大于 10000（NAT 网关打洞限制）"@,
            ConfigError::ExternalAddr => "external_addr 必须是 ip:port"@,
            ConfigError::CompactThreshold => "compact_threshold 必须在 (0, 1] 之间"@,
            ConfigError::MinFreeBytes => "min_free_bytes 必须大于 0"@,
        }
    }

    /// What to tell a user.
    pub fn message(&self) -> (out: String)
        ensures
            out@ == self.text(),
            out@ == (match *self {
                ConfigError::Usage => "用法: origin --config <配置文件路径>"@,
                ConfigError::DataDir => "data_dir 不能为空"@,
                ConfigError::BindAddr(a) => "bind_addr 非法: "@ + a@,
                ConfigError::ListenPort => "listen_port 必须大于 10000（NAT 网关打洞限制）"@,
                ConfigError::ExternalAddr => "external_addr 必须是 ip:port"@,
                ConfigError::CompactThreshold => "compact_threshold 必须在 (0, 1] 之间"@,
                ConfigError::MinFreeBytes => "min_free_bytes 必须大于 0"@,
            }),
    {
        match self {
            ConfigError::Usage => "用法: origin --config <配置文件路径>".to_owned(),
            ConfigError::DataDir => "data_dir 不能为空".to_owned(),
            ConfigError::BindAddr(a) => text::join2("bind_addr 非法: ", a.as_str()),
            ConfigError::ListenPort => "listen_port 必须大于 10000（NAT 网关打洞限制）".to_owned(),
            ConfigError::ExternalAddr => "external_addr 必须是 ip:port".to_owned(),
            ConfigError::CompactThreshold => "compact_threshold 必须在 (0, 1] 之间".to_owned(),
            ConfigError::MinFreeBytes => "min_free_bytes 必须大于 0".to_owned(),
        }
    }
}

/// The faults of a configuration, in the order in which they are reported.
pub open spec fn faults(c: Config, k: Checks) -> Seq<bool> {
    seq![
        c.data_dir@.len() == 0,
        !k.bind_addr,
        c.listen_port <= 10000,
        c.external_addr is Some && !k.external_addr,
        !k.compact_threshold,
        c.min_free_bytes == 0,
    ]
}

/// The place of an error in that order.
pub open spec fn fault_place(e: ConfigError) -> int {
    match e {
        ConfigError::Usage => -1,
        ConfigError::DataDir => 0,
        ConfigError::BindAddr(_) => 1,
        ConfigError::ListenPort => 2,
        ConfigError::ExternalAddr => 3,
        ConfigError::CompactThreshold => 4,
        ConfigError::MinFreeBytes => 5,
    }
}

impl Config {
    /// A configuration with the defaults for all that may be left out.
    pub fn with_defaults(data_dir: String) -> (c: Self)
        ensures
            c.data_dir == data_dir,
            c.bind_addr@ == DEFAULT_BIND_ADDR@,
            c.listen_port == DEFAULT_LISTEN_PORT,
            c.external_addr is None,
            c.relay_url is None,
            c.min_free_bytes == DEFAULT_MIN_FREE_BYTES,
            c.bind_addr@ == "0.0.0.0:50052"@,
            c.listen_port == 42001,
            c.min_free_bytes == 50 * 1024 * 1024 * 1024,
    {
        Config {
            data_dir,
            bind_addr: DEFAULT_BIND_ADDR.to_owned(),
            listen_port: DEFAULT_LISTEN_PORT,
            external_addr: None,
            relay_url: None,
            min_free_bytes: DEFAULT_MIN_FREE_BYTES,
        }
    }

    /// The configuration file on the command line.
    pub fn parse_args(args: &Vec<String>) -> (path: Result<String, ConfigError>)
        ensures
            match path {
                Ok(p) => args@.len() == 3 && args@[1]@ == "--config"@ && p@ == args@[2]@,
                Err(e) => e is Usage && (args@.len() != 3 || args@[1]@ != "--config"@),
            },
    {
        match args::config_path(args) {
            Some(p) => Ok(p),
            None => Err(ConfigError::Usage),
        }
    }

    /// Looks for the first fault.
    pub fn validate(&self, checks: Checks) -> (r: Result<(), ConfigError>)
        ensures
            match r {
                Ok(_) => forall|i: int| 0 <= i < 6 ==> !#[trigger] faults(*self, checks)[i],
                Err(e) => {
                    &&& 0 <= fault_place(e) < 6
                    &&& faults(*self, checks)[fault_place(e)]
                    &&& forall|i: int| 0 <= i < fault_place(e) ==> !#[trigger] faults(*self, checks)[i]
                    &&& e matches ConfigError::BindAddr(a) ==> a@ == self.bind_addr@
                },
            },
            if self.data_dir@.len() == 0 {
                r matches Err(e) && e is DataDir
            } else if !checks.bind_addr {
                r matches Err(e) && e matches ConfigError::BindAddr(a) && a@ == self.bind_addr@
            } else if self.listen_port < 10001 {
                r matches Err(e) && e is ListenPort
            } else if self.external_addr is Some && !checks.external_addr {
                r matches Err(e) && e is ExternalAddr
            } else if !checks.compact_threshold {
                r matches Err(e) && e is CompactThreshold
            } else if self.min_free_bytes == 0 {
                r matches Err(e) && e is MinFreeBytes
            } else {
                r is Ok
            },
    {
        if self.data_dir.as_str().is_empty() {
            return Err(ConfigError::DataDir);
        }
        if !checks.bind_addr {
            return Err(ConfigError::BindAddr(self.bind_addr.clone()));
        }
        if self.listen_port < 10001 {
            return Err(ConfigError::ListenPort);
        }
        if self.external_addr.is_some() && !checks.external_addr {
            return Err(ConfigError::ExternalAddr);
        }
        if !checks.compact_threshold {
            return Err(ConfigError::CompactThreshold);
        }
        if self.min_free_bytes == 0 {
            return Err(ConfigError::MinFreeBytes);
        }
        Ok(())
    }
}

} // verus!
