//! The messages that nodes and the scheduler exchange.
use vstd::prelude::*;

use crate::common::text;

verus! {

/// An address under which a node can be reached.
#[derive(Debug, Clone, PartialEq, Eq)]
pub struct Addr {
    pub addr: String,
    pub kind: String,
    pub link: String,
}

/// A node that holds a chunk.
#[derive(Debug, Clone, PartialEq, Eq)]
pub struct Peer {
    pub node_id: u64,
    pub endpoint_id: String,
    pub addrs: Vec<Addr>,
    /// Whether chunks may only be fetched over a direct connection.
    pub direct_only: bool,
}

/// A task for an agent.
#[derive(Debug, Clone, PartialEq, Eq)]
pub struct Task {
    pub id: u64,
    pub game_id: u64,
    pub version: u64,
    /// 0 download, 1 update, 2 rollback.
    pub kind: i32,
    /// The chunks that this agent may fetch from the origin.
    pub assigned_chunks: Vec<Vec<u8>>,
}

/// The withdrawal of a task.
#[derive(Debug, Clone, PartialEq, Eq)]
pub struct TaskCancel {
    pub task_id: u64,
    pub reason: String,
}

/// What the scheduler pushes to an agent.
#[derive(Debug, Clone, PartialEq, Eq)]
pub enum Ev {
    Task(Task),
    Cancel(TaskCancel),
}

/// The name of the service that takes uploads.
pub const UPLOAD_SERVICE_NAME: &'static str = "blazenet.upload.Upload";

/// The name of the scheduler's service.
pub const CONTROL_SERVICE_NAME: &'static str = "blazenet.control.Control";

/// A chunk on its way to the origin.
#[derive(Debug, Clone, PartialEq, Eq)]
pub struct UploadChunk {
    pub game_id: u64,
    pub chunk_hash: Vec<u8>,
    pub data: Vec<u8>,
    pub seq: u32,
}

/// The origin's answer to an uploaded chunk.
#[derive(Debug, Clone, PartialEq, Eq)]
pub struct UploadAck {
    pub chunk_hash: Vec<u8>,
    pub ok: bool,
    pub error: String,
}

/// The question which chunks the origin has.
#[derive(Debug, Clone, PartialEq, Eq)]
pub struct ChunkQuery {
    pub game_id: u64,
    pub chunk_hashes: Vec<Vec<u8>>,
}

/// The request to publish a version.
#[derive(Debug, Clone, PartialEq, Eq)]
pub struct CommitRequest {
    pub game_id: u64,
    pub version: u64,
    pub manifest: Vec<u8>,
    pub manifest_hash: Vec<u8>,
}

/// The answer to the request to publish a version.
#[derive(Debug, Clone, PartialEq, Eq)]
pub struct CommitReply {
    pub published: bool,
    pub error: String,
}

/// A node's request to be registered.
#[derive(Debug, Clone, PartialEq, Eq)]
pub struct RegisterRequest {
    pub node_type: String,
    pub endpoint_id: String,
    pub addrs: Vec<Addr>,
    pub token: String,
}

/// The answer to a registration.
#[derive(Debug, Clone, PartialEq, Eq)]
pub struct RegisterReply {
    pub node_id: u64,
    pub token: String,
    /// The tasks that wait for the node.
    pub initial_tasks: Vec<Task>,
}

/// The answer to a node's report that it is alive.
#[derive(Debug, Clone, PartialEq, Eq)]
pub struct HeartbeatReply {
    pub server_time: u64,
    /// The tasks that wait for the node.
    pub task_ids: Vec<u64>,
}

/// The question which nodes hold a chunk.
#[derive(Debug, Clone, PartialEq, Eq)]
pub struct PeerQuery {
    pub game_id: u64,
    pub chunk_hash: Vec<u8>,
    /// At most so many nodes; zero stands for all.
    pub limit: u32,
}

/// A node's report that it holds a chunk.
#[derive(Debug, Clone, PartialEq, Eq)]
pub struct ChunkDone {
    pub node_id: u64,
    pub game_id: u64,
    pub chunk_hash: Vec<u8>,
    pub size: u64,
}

/// A node's report on a task.
#[derive(Debug, Clone, PartialEq, Eq)]
pub struct TaskReport {
    pub node_id: u64,
    pub task_id: u64,
    pub status: String,
    pub error: String,
}

/// What the scheduler knows of a version.
#[derive(Debug, Clone, PartialEq, Eq)]
pub struct VersionInfo {
    pub found: bool,
    pub version: u64,
    pub manifest: Vec<u8>,
}

/// What kind of failure a request met.
#[derive(Debug, Clone, Copy, PartialEq, Eq, Structural)]
pub enum Code {
    InvalidArgument,
    NotFound,
    Internal,
}

/// The failure of a request.
#[derive(Debug, Clone, PartialEq, Eq)]
pub struct Status {
    pub code: Code,
    pub message: String,
}

impl Status {
    /// Whether the failure is of that kind and has that text.
    pub open spec fn says(self, code: Code, message: Seq<char>) -> bool {
        self.code == code && self.message@ == message
    }

    /// A failure says its kind and its text, the whole text.
    pub proof fn failures_say_what_they_are(self, code: Code, message: Seq<char>)
        ensures
            self.says(code, message) <==> self.code == code && self.message@ == message,
    {
    }

    pub fn invalid_argument(message: &str) -> (s: Self)
        ensures
            s.says(Code::InvalidArgument, message@),
            s.code == Code::InvalidArgument,
            s.message@ == message@,
    {
        Status { code: Code::InvalidArgument, message: message.to_owned() }
    }

    pub fn not_found(message: &str) -> (s: Self)
        ensures
            s.says(Code::NotFound, message@),
            s.code == Code::NotFound,
            s.message@ == message@,
    {
        Status { code: Code::NotFound, message: message.to_owned() }
    }

    /// An internal failure: what was tried, and the reason.
    pub fn internal(tried: &str, reason: &str) -> (s: Self)
        ensures
            s.says(Code::Internal, tried@ + ": "@ + reason@),
            s.code == Code::Internal,
            s.message@ == tried@ + ": "@ + reason@,
    {
        Status { code: Code::Internal, message: text::join3(tried, ": ", reason) }
    }
}

} // verus!
