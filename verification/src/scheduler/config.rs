//! The scheduler's configuration.
use vstd::prelude::*;

use crate::common::args;
use crate::common::text;

verus! {

/// Where nodes reach the scheduler.
pub const DEFAULT_BIND_ADDR: &'static str = "0.0.0.0:50051";

/// How often nodes report.
pub const DEFAULT_HEARTBEAT_INTERVAL_SECS: u64 = 25;

/// A node is offline after three missed reports.
pub const DEFAULT_OFFLINE_TIMEOUT_SECS: u64 = 75;

/// How a scheduler is set up.
#[derive(Debug, Clone)]
pub struct Config {
    pub data_dir: String,
    pub bind_addr: String,
    pub heartbeat_interval_secs: u64,
    pub offline_timeout_secs: u64,
}

/// What is wrong with a configuration.
#[derive(Debug, PartialEq, Eq)]
pub enum ConfigError {
    Usage,
    DataDir,
    /// The address that is not one.
    BindAddr(String),
    ZeroInterval,
    TimeoutTooShort,
}

impl ConfigError {
    /// What to tell a user.
    pub open spec fn text(self) -> Seq<char> {
        match self {
            ConfigError::Usage => "用法: scheduler --config <配置文件路径>"@,
            ConfigError::DataDir => "data_dir 不能为空"@,
            ConfigError::BindAddr(a) => "bind_addr 非法: "@ + a@,
            ConfigError::ZeroInterval => "心跳间隔与离线超时必须大于 0"@,
            ConfigError::TimeoutTooShort => "离线超时至少应为心跳间隔的 2 倍"@,
        }
    }

    /// What to tell a user.
    pub fn message(&self) -> (out: String)
        ensures
            out@ == self.text(),
            out@ == (match *self {
                ConfigError::Usage => "用法: scheduler --config <配置文件路径>"@,
                ConfigError::DataDir => "data_dir 不能为空"@,
                ConfigError::BindAddr(a) => "bind_addr 非法: "@ + a@,
                ConfigError::ZeroInterval => "心跳间隔与离线超时必须大于 0"@,
                ConfigError::TimeoutTooShort => "离线超时至少应为心跳间隔的 2 倍"@,
            }),
    {
        match self {
            ConfigError::Usage => "用法: scheduler --config <配置文件路径>".to_owned(),
            ConfigError::DataDir => "data_dir 不能为空".to_owned(),
            ConfigError::BindAddr(a) => text::join2("bind_addr 非法: ", a.as_str()),
            ConfigError::ZeroInterval => "心跳间隔与离线超时必须大于 0".to_owned(),
            ConfigError::TimeoutTooShort => "离线超时至少应为心跳间隔的 2 倍".to_owned(),
        }
    }
}

/// The faults of a configuration, in the order in which they are reported.
pub open spec fn faults(c: Config, bind_addr_ok: bool) -> Seq<bool> {
    seq![
        c.data_dir@.len() == 0,
        !bind_addr_ok,
        c.heartbeat_interval_secs == 0 || c.offline_timeout_secs == 0,
        c.offline_timeout_secs < 2 * c.heartbeat_interval_secs,
    ]
}

/// The place of an error in that order.
pub open spec fn fault_place(e: ConfigError) -> int {
    match e {
        ConfigError::Usage => -1,
        ConfigError::DataDir => 0,
        ConfigError::BindAddr(_) => 1,
        ConfigError::ZeroInterval => 2,
        ConfigError::TimeoutTooShort => 3,
    }
}

impl Config {
    /// A configuration with the defaults for all that may be left out.
    pub fn with_defaults(data_dir: String) -> (c: Self)
        ensures
            c.data_dir == data_dir,
            c.bind_addr@ == DEFAULT_BIND_ADDR@,
            c.heartbeat_interval_secs == DEFAULT_HEARTBEAT_INTERVAL_SECS,
            c.offline_timeout_secs == DEFAULT_OFFLINE_TIMEOUT_SECS,
            c.bind_addr@ == "0.0.0.0:50051"@,
            c.heartbeat_interval_secs == 25,
            c.offline_timeout_secs == 75,
    {
        Config {
            data_dir,
            bind_addr: DEFAULT_BIND_ADDR.to_owned(),
            heartbeat_interval_secs: DEFAULT_HEARTBEAT_INTERVAL_SECS,
            offline_timeout_secs: DEFAULT_OFFLINE_TIMEOUT_SECS,
        }
    }

    /// The configuration file on the command line.
    pub fn parse_args(args: &Vec<String>) -> (path: Result<String, ConfigError>)
        ensures
            match path {
                Ok(p) => args@.len() == 3 && args@[1]@ == "--config"@ && p@ == args@[2]@,
                Err(e) => e is Usage && (args@.len() != 3 || args@[1]@ != "--config"@),
            },
    {
        match args::config_path(args) {
            Some(p) => Ok(p),
            None => Err(ConfigError::Usage),
        }
    }

    /// Looks for the first fault; `bind_addr_ok` says whether the address is
    /// an IP address and a port.
    pub fn validate(&self, bind_addr_ok: bool) -> (r: Result<(), ConfigError>)
        ensures
            match r {
                Ok(_) => forall|i: int| 0 <= i < 4 ==> !#[trigger] faults(*self, bind_addr_ok)[i],
                Err(e) => {
                    &&& 0 <= fault_place(e) < 4
                    &&& faults(*self, bind_addr_ok)[fault_place(e)]
                    &&& forall|i: int| 0 <= i < fault_place(e) ==> !#[trigger] faults(*self, bind_addr_ok)[i]
                    &&& e matches ConfigError::BindAddr(a) ==> a@ == self.bind_addr@
                },
            },
            if self.data_dir@.len() == 0 {
                r matches Err(e) && e is DataDir
            } else if !bind_addr_ok {
                r matches Err(e) && e matches ConfigError::BindAddr(a) && a@ == self.bind_addr@
            } else if self.heartbeat_interval_secs == 0 || self.offline_timeout_secs == 0 {
                r matches Err(e) && e is ZeroInterval
            } else if self.offline_timeout_secs < self.heartbeat_interval_secs + self.heartbeat_interval_secs {
                r matches Err(e) && e is TimeoutTooShort
            } else {
                r is Ok
            },
    {
        if self.data_dir.as_str().is_empty() {
            return Err(ConfigError::DataDir);
        }
        if !bind_addr_ok {
            return Err(ConfigError::BindAddr(self.bind_addr.clone()));
        }
        if self.heartbeat_interval_secs == 0 || self.offline_timeout_secs == 0 {
            return Err(ConfigError::ZeroInterval);
        }
        if (self.offline_timeout_secs as u128) < 2 * self.heartbeat_interval_secs as u128 {
            return Err(ConfigError::TimeoutTooShort);
        }
        Ok(())
    }
}

} // verus!
