//! The producer's configuration.
use vstd::prelude::*;

use crate::common::path::PathParts;
use crate::common::text;

verus! {

/// 64 KiB.
pub const DEFAULT_CHUNK_MIN: usize = 65536;

/// 1 MiB.
pub const DEFAULT_CHUNK_AVG: usize = 1048576;

/// 4 MiB.
pub const DEFAULT_CHUNK_MAX: usize = 4194304;

/// The name of the configuration file.
pub const CONFIG_FILE_NAME: &'static str = "producer.toml";

/// How large chunks may get.
#[derive(Debug, Clone, Copy, PartialEq, Eq)]
pub struct ChunkParams {
    pub min_size: usize,
    pub avg_size: usize,
    pub max_size: usize,
}

impl Default for ChunkParams {
    fn default() -> (p: Self)
        ensures
            p.min_size == DEFAULT_CHUNK_MIN,
            p.avg_size == DEFAULT_CHUNK_AVG,
            p.max_size == DEFAULT_CHUNK_MAX,
            p.min_size == 64 * 1024,
            p.avg_size == 1024 * 1024,
            p.max_size == 4 * 1024 * 1024,
    {
        ChunkParams { min_size: DEFAULT_CHUNK_MIN, avg_size: DEFAULT_CHUNK_AVG, max_size: DEFAULT_CHUNK_MAX }
    }
}

/// What a producer is to publish.
#[derive(Debug, Clone)]
pub struct Config {
    pub game_id: u64,
    pub version: u64,
    pub source_dir: String,
    /// The files of the version before; none for a new game.
    pub previous_dir: Option<String>,
    pub output_dir: String,
    pub chunk: ChunkParams,
}

/// What is wrong with a configuration.
#[derive(Debug, PartialEq, Eq)]
pub enum ConfigError {
    GameId,
    Version,
    ChunkMin,
    ChunkOrder,
    /// The path that is not a directory.
    SourceDir(String),
}

impl ConfigError {
    /// What to tell a user.
    pub open spec fn text(self) -> Seq<char> {
        match self {
            ConfigError::GameId => "game_id 必须大于 0"@,
            ConfigError::Version => "version 必须大于 0"@,
            ConfigError::ChunkMin => "分块最小尺寸不得小于 64KiB"@,
            ConfigError::ChunkOrder => "分块参数必须满足 min < avg <= max"@,
            ConfigError::SourceDir(d) => "source_dir 不是有效目录: "@ + d@,
        }
    }

    /// What to tell a user.
    pub fn message(&self) -> (out: String)
        ensures
            out@ == self.text(),
            out@ == (match *self {
                ConfigError::GameId => "game_id 必须大于 0"@,
                ConfigError::Version => "version 必须大于 0"@,
                ConfigError::ChunkMin => "分块最小尺寸不得小于 64KiB"@,
                ConfigError::ChunkOrder => "分块参数必须满足 min < avg <= max"@,
                ConfigError::SourceDir(d) => "source_dir 不是有效目录: "@ + d@,
            }),
    {
        match self {
            ConfigError::GameId => "game_id 必须大于 0".to_owned(),
            ConfigError::Version => "version 必须大于 0".to_owned(),
            ConfigError::ChunkMin => "分块最小尺寸不得小于 64KiB".to_owned(),
            ConfigError::ChunkOrder => "分块参数必须满足 min < avg <= max".to_owned(),
            ConfigError::SourceDir(d) => text::join2("source_dir 不是有效目录: ", d.as_str()),
        }
    }
}

/// The faults of a configuration, in the order in which they are reported.
pub open spec fn faults(c: Config, source_is_dir: bool) -> Seq<bool> {
    seq![
        c.game_id == 0,
        c.version == 0,
        c.chunk.min_size < DEFAULT_CHUNK_MIN,
        !(c.chunk.min_size < c.chunk.avg_size <= c.chunk.max_size),
        !source_is_dir,
    ]
}

/// The place of an error in that order.
pub open spec fn fault_place(e: ConfigError) -> int {
    match e {
        ConfigError::GameId => 0,
        ConfigError::Version => 1,
        ConfigError::ChunkMin => 2,
        ConfigError::ChunkOrder => 3,
        ConfigError::SourceDir(_) => 4,
    }
}

impl Config {
    /// Where the configuration is looked for when no path is given: below the
    /// directory that holds the program's own directory.
    pub fn default_path(base: &str) -> (path: PathParts)
        ensures
            path@ == seq![base@, "config"@, CONFIG_FILE_NAME@],
            path@ == seq![base@, "config"@, "producer.toml"@],
    {
        let path = PathParts::new(base).join("config").join(CONFIG_FILE_NAME);
        assert(path@ =~= seq![base@, "config"@, CONFIG_FILE_NAME@]);
        path
    }

    /// Looks for the first fault; `source_is_dir` says whether the source is a
    /// directory.
    pub fn validate(&self, source_is_dir: bool) -> (r: Result<(), ConfigError>)
        ensures
            match r {
                Ok(_) => forall|i: int| 0 <= i < 5 ==> !#[trigger] faults(*self, source_is_dir)[i],
                Err(e) => {
                    &&& faults(*self, source_is_dir)[fault_place(e)]
                    &&& forall|i: int| 0 <= i < fault_place(e) ==> !#[trigger] faults(*self, source_is_dir)[i]
                    &&& e matches ConfigError::SourceDir(d) ==> d@ == self.source_dir@
                },
            },
            if self.game_id == 0 {
                r matches Err(e) && e is GameId
            } else if self.version == 0 {
                r matches Err(e) && e is Version
            } else if self.chunk.min_size < 64 * 1024 {
                r matches Err(e) && e is ChunkMin
            } else if !(self.chunk.min_size < self.chunk.avg_size <= self.chunk.max_size) {
                r matches Err(e) && e is ChunkOrder
            } else if !source_is_dir {
                r matches Err(e) && e matches ConfigError::SourceDir(d) && d@ == self.source_dir@
            } else {
                r is Ok
            },
    {
        if self.game_id == 0 {
            return Err(ConfigError::GameId);
        }
        if self.version == 0 {
            return Err(ConfigError::Version);
        }
        if self.chunk.min_size < DEFAULT_CHUNK_MIN {
            return Err(ConfigError::ChunkMin);
        }
        if !(self.chunk.min_size < self.chunk.avg_size && self.chunk.avg_size <= self.chunk.max_size) {
            return Err(ConfigError::ChunkOrder);
        }
        if !source_is_dir {
            return Err(ConfigError::SourceDir(self.source_dir.clone()));
        }
        Ok(())
    }
}

} // verus!
