//! What the admin interface answers.
//!
//! A function that needs a stored record takes what was found of it; the
//! caller looks it up and keeps what comes back.
use vstd::prelude::*;

use crate::agent::executor;
use crate::common::chunk_set;
use crate::common::order;
use crate::common::tables;
use crate::common::tables::{CountTable, TextTable};
use crate::common::text;
use crate::producer::manifest;
use crate::producer::manifest::{GameIndex, ManifestError};
use crate::scheduler::db;
use crate::scheduler::db::{
    AddrRecord,
    Binding,
    DbError,
    GameRecord,
    GroupRecord,
    NodeRecord,
    PlaceRecord,
    RecordKind,
    TaskRecord,
    UserRecord,
};

verus! {

broadcast use vstd::array::group_array_axioms;

#[derive(Debug)]
pub struct LoginRequest {
    pub username: String,
    pub password: String,
}

#[derive(Debug)]
pub struct LoginReply {
    pub token: String,
}

#[derive(Debug)]
pub struct CreateUserRequest {
    pub username: String,
    pub password: String,
}

#[derive(Debug)]
pub struct CreatePlaceRequest {
    pub name: String,
    pub region: String,
}

#[derive(Debug)]
pub struct CreateGroupRequest {
    pub name: String,
}

#[derive(Debug)]
pub struct CreateGameRequest {
    pub name: String,
    /// The number of the game; without one it gets the next.
    pub id: Option<u64>,
}

#[derive(Debug)]
pub struct CreateTaskRequest {
    pub node_id: u64,
    pub game_id: u64,
    pub version: u64,
    pub kind: String,
}

#[derive(Debug)]
pub struct RollbackRequest {
    pub node_id: u64,
    pub version: u64,
}

#[derive(Debug)]
pub struct BindRequest {
    pub kind: String,
    pub a: u64,
    pub b: u64,
}

/// A node as the admin interface shows it: without its token.
#[derive(Debug)]
pub struct NodeView {
    pub id: u64,
    pub node_type: String,
    pub endpoint_id: String,
    pub addrs: Vec<AddrRecord>,
    pub status: String,
    pub last_heartbeat_ms: u64,
}

impl From<NodeRecord> for NodeView {
    fn from(node: NodeRecord) -> (view: Self) {
        NodeView {
            id: node.id,
            node_type: node.node_type,
            endpoint_id: node.endpoint_id,
            addrs: node.addrs,
            status: node.status,
            last_heartbeat_ms: node.last_heartbeat_ms,
        }
    }
}

impl vstd::std_specs::convert::FromSpecImpl<NodeRecord> for NodeView {
    open spec fn obeys_from_spec() -> bool {
        true
    }

    open spec fn from_spec(node: NodeRecord) -> Self {
        NodeView {
            id: node.id,
            node_type: node.node_type,
            endpoint_id: node.endpoint_id,
            addrs: node.addrs,
            status: node.status,
            last_heartbeat_ms: node.last_heartbeat_ms,
        }
    }
}

/// Why a request is turned down.
#[derive(Debug, Clone, Copy, PartialEq, Eq, Structural)]
pub enum HttpError {
    BadRequest,
    Unauthorized,
    NotFound,
    Internal,
}

impl HttpError {
    /// The status code.
    pub fn code(&self) -> (n: u16)
        ensures
            n == (match self {
                HttpError::BadRequest => 400,
                HttpError::Unauthorized => 401,
                HttpError::NotFound => 404,
                HttpError::Internal => 500u16,
            }),
    {
        match self {
            HttpError::BadRequest => 400,
            HttpError::Unauthorized => 401,
            HttpError::NotFound => 404,
            HttpError::Internal => 500,
        }
    }
}

/// What was found of a stored record.
#[derive(Debug)]
pub enum Lookup<T> {
    Found(T),
    Missing,
    /// It could not be read.
    Failed,
}

/// Whether the service is up.
pub fn healthz() -> (answer: &'static str)
    ensures
        answer@ == "ok"@,
{
    "ok"
}

/// Logs the administrator in.
pub fn login(admin_user: &str, admin_password: &str, request: &LoginRequest) -> (reply: Result<LoginReply, HttpError>)
    ensures
        match reply {
            Ok(r) => request.username@ == admin_user@ && request.password@ == admin_password@ && r.token@
                == "dev-token"@,
            Err(e) => (request.username@ != admin_user@ || request.password@ != admin_password@) && e
                == HttpError::Unauthorized,
        },
{
    if !text::same_text(request.username.as_str(), admin_user) || !text::same_text(
        request.password.as_str(),
        admin_password,
    ) {
        return Err(HttpError::Unauthorized);
    }
    Ok(LoginReply { token: "dev-token".to_owned() })
}

/// Whether the number is the next of its kind, and the counters say so now.
pub open spec fn numbered(
    before: Map<Seq<char>, u64>,
    after: Map<Seq<char>, u64>,
    kind: RecordKind,
    id: u64,
) -> bool {
    id == db::next_number(before, kind) && after == before.insert(kind.counter(), id)
}

/// A new account under the number that was given out, if one could be. Its
/// password is kept as a hash salted with the time.
pub fn user_with(request: CreateUserRequest, now_ms: u64, id: Result<u64, DbError>) -> (user: Result<
    UserRecord,
    HttpError,
>)
    ensures
        if request.username@.len() == 0 || request.password@.len() == 0 {
            user == Err::<UserRecord, HttpError>(HttpError::BadRequest)
        } else {
            match id {
                Err(_) => user == Err::<UserRecord, HttpError>(HttpError::Internal),
                Ok(n) => {
                    &&& user matches Ok(u)
                    &&& u.id == n
                    &&& u.username == request.username
                    &&& u.salt@ == text::decimal(now_ms as nat)
                    &&& u.password_hash@ == db::password_hash_spec(request.password@, u.salt@)
                },
            }
        },
{
    if request.username.as_str().is_empty() || request.password.as_str().is_empty() {
        return Err(HttpError::BadRequest);
    }
    match id {
        Err(_) => Err(HttpError::Internal),
        Ok(id) => {
            let salt = text::decimal_text(now_ms);
            let password_hash = db::hash_password(request.password.as_str(), salt.as_str());
            Ok(UserRecord { id, username: request.username, password_hash, salt })
        },
    }
}

/// A new account: it gets the next number, and its password is kept as a hash
/// salted with the time.
pub fn create_user(counters: &mut CountTable, request: CreateUserRequest, now_ms: u64) -> (user: Result<
    UserRecord,
    HttpError,
>)
    ensures
        tables::count_opened(*final(counters)) == tables::count_opened(*old(counters)),
        user matches Ok(u) ==> {
            &&& tables::count_rows(*final(counters)) == tables::count_rows(*old(counters)).insert(
                RecordKind::User.counter(),
                u.id,
            )
            &&& tables::count_rows(*old(counters)).contains_key(RecordKind::User.counter()) ==> u.id
                == tables::count_rows(*old(counters))[RecordKind::User.counter()] + 1
            &&& !tables::count_rows(*old(counters)).contains_key(RecordKind::User.counter()) ==> u.id == 1
        },
        match user {
            Ok(u) => {
                &&& request.username@.len() > 0 && request.password@.len() > 0
                &&& numbered(
                    tables::count_rows(*old(counters)),
                    tables::count_rows(*final(counters)),
                    RecordKind::User,
                    u.id,
                )
                &&& u.username == request.username
                &&& u.salt@ == text::decimal(now_ms as nat)
                &&& u.password_hash@ == db::password_hash_spec(request.password@, u.salt@)
            },
            Err(HttpError::BadRequest) => (request.username@.len() == 0 || request.password@.len() == 0) && *final(counters)
                == *old(counters),
            Err(e) => request.username@.len() > 0 && request.password@.len() > 0 && e == HttpError::Internal,
        },
{
    if request.username.as_str().is_empty() || request.password.as_str().is_empty() {
        return Err(HttpError::BadRequest);
    }
    let id = db::next_id(counters, RecordKind::User);
    user_with(request, now_ms, id)
}

/// A new place under the number that was given out, if one could be.
pub fn place_with(request: CreatePlaceRequest, id: Result<u64, DbError>) -> (place: Result<PlaceRecord, HttpError>)
    ensures
        if request.name@.len() == 0 {
            place == Err::<PlaceRecord, HttpError>(HttpError::BadRequest)
        } else {
            place == (match id {
                Err(_) => Err::<PlaceRecord, HttpError>(HttpError::Internal),
                Ok(n) => Ok(PlaceRecord { id: n, name: request.name, region: request.region }),
            })
        },
{
    if request.name.as_str().is_empty() {
        return Err(HttpError::BadRequest);
    }
    match id {
        Err(_) => Err(HttpError::Internal),
        Ok(id) => Ok(PlaceRecord { id, name: request.name, region: request.region }),
    }
}

/// A new place.
pub fn create_place(counters: &mut CountTable, request: CreatePlaceRequest) -> (place: Result<PlaceRecord, HttpError>)
    ensures
        tables::count_opened(*final(counters)) == tables::count_opened(*old(counters)),
        place matches Ok(p) ==> {
            &&& tables::count_rows(*final(counters)) == tables::count_rows(*old(counters)).insert(
                RecordKind::Place.counter(),
                p.id,
            )
            &&& tables::count_rows(*old(counters)).contains_key(RecordKind::Place.counter()) ==> p.id
                == tables::count_rows(*old(counters))[RecordKind::Place.counter()] + 1
            &&& !tables::count_rows(*old(counters)).contains_key(RecordKind::Place.counter()) ==> p.id == 1
        },
        match place {
            Ok(p) => {
                &&& request.name@.len() > 0
                &&& numbered(
                    tables::count_rows(*old(counters)),
                    tables::count_rows(*final(counters)),
                    RecordKind::Place,
                    p.id,
                )
                &&& p.name == request.name
                &&& p.region == request.region
            },
            Err(HttpError::BadRequest) => request.name@.len() == 0 && *final(counters) == *old(counters),
            Err(e) => request.name@.len() > 0 && e == HttpError::Internal,
        },
{
    if request.name.as_str().is_empty() {
        return Err(HttpError::BadRequest);
    }
    let id = db::next_id(counters, RecordKind::Place);
    place_with(request, id)
}

/// A new group under the number that was given out, if one could be.
pub fn group_with(request: CreateGroupRequest, id: Result<u64, DbError>) -> (group: Result<GroupRecord, HttpError>)
    ensures
        if request.name@.len() == 0 {
            group == Err::<GroupRecord, HttpError>(HttpError::BadRequest)
        } else {
            group == (match id {
                Err(_) => Err::<GroupRecord, HttpError>(HttpError::Internal),
                Ok(n) => Ok(GroupRecord { id: n, name: request.name }),
            })
        },
{
    if request.name.as_str().is_empty() {
        return Err(HttpError::BadRequest);
    }
    match id {
        Err(_) => Err(HttpError::Internal),
        Ok(id) => Ok(GroupRecord { id, name: request.name }),
    }
}

/// A new group.
pub fn create_group(counters: &mut CountTable, request: CreateGroupRequest) -> (group: Result<GroupRecord, HttpError>)
    ensures
        tables::count_opened(*final(counters)) == tables::count_opened(*old(counters)),
        group matches Ok(g) ==> {
            &&& tables::count_rows(*final(counters)) == tables::count_rows(*old(counters)).insert(
                RecordKind::Group.counter(),
                g.id,
            )
            &&& tables::count_rows(*old(counters)).contains_key(RecordKind::Group.counter()) ==> g.id
                == tables::count_rows(*old(counters))[RecordKind::Group.counter()] + 1
            &&& !tables::count_rows(*old(counters)).contains_key(RecordKind::Group.counter()) ==> g.id == 1
        },
        match group {
            Ok(g) => {
                &&& request.name@.len() > 0
                &&& numbered(
                    tables::count_rows(*old(counters)),
                    tables::count_rows(*final(counters)),
                    RecordKind::Group,
                    g.id,
                )
                &&& g.name == request.name
            },
            Err(HttpError::BadRequest) => request.name@.len() == 0 && *final(counters) == *old(counters),
            Err(e) => request.name@.len() > 0 && e == HttpError::Internal,
        },
{
    if request.name.as_str().is_empty() {
        return Err(HttpError::BadRequest);
    }
    let id = db::next_id(counters, RecordKind::Group);
    group_with(request, id)
}

/// Why a game cannot be created under the number that was asked for, if so.
pub open spec fn game_fault(request: CreateGameRequest, existing: Lookup<GameRecord>) -> Option<HttpError> {
    if request.name@.len() == 0 || request.id == Some(0u64) {
        Some(HttpError::BadRequest)
    } else if request.id is None {
        None
    } else {
        match existing {
            Lookup::Failed => Some(HttpError::Internal),
            Lookup::Found(_) => Some(HttpError::BadRequest),
            Lookup::Missing => None,
        }
    }
}

/// Whether a game can be created under the number that was asked for, or under
/// the next. `existing` is what was found under the number that was asked for.
pub fn game_check(request: &CreateGameRequest, existing: &Lookup<GameRecord>) -> (r: Result<(), HttpError>)
    ensures
        r is Ok <==> request.name@.len() > 0 && (request.id is None || (request.id != Some(0u64)
            && *existing is Missing)),
        r == Err::<(), HttpError>(HttpError::BadRequest) <==> request.name@.len() == 0 || request.id == Some(0u64)
            || (request.id is Some && *existing is Found),
        r matches Err(e) ==> e == HttpError::BadRequest || e == HttpError::Internal,
        r == (match game_fault(*request, *existing) {
            Some(e) => Err::<(), HttpError>(e),
            None => Ok(()),
        }),
{
    if request.name.as_str().is_empty() {
        return Err(HttpError::BadRequest);
    }
    match request.id {
        None => Ok(()),
        Some(0) => Err(HttpError::BadRequest),
        Some(_) => match existing {
            Lookup::Failed => Err(HttpError::Internal),
            Lookup::Found(_) => Err(HttpError::BadRequest),
            Lookup::Missing => Ok(()),
        },
    }
}

/// A new game under the number that was asked for or, without one, under the
/// number that was given out, if one could be.
pub fn game_with(request: CreateGameRequest, existing: &Lookup<GameRecord>, next: Result<u64, DbError>) -> (game: Result<
    GameRecord,
    HttpError,
>)
    ensures
        game is Ok <==> request.name@.len() > 0 && match request.id {
            Some(n) => n > 0 && *existing is Missing,
            None => next is Ok,
        },
        game == Err::<GameRecord, HttpError>(HttpError::BadRequest) <==> request.name@.len() == 0 || request.id == Some(
            0u64,
        ) || (request.id is Some && *existing is Found),
        game matches Err(e) ==> e == HttpError::BadRequest || e == HttpError::Internal,
        match game_fault(request, *existing) {
            Some(e) => game == Err::<GameRecord, HttpError>(e),
            None => if request.id is None && next is Err {
                game == Err::<GameRecord, HttpError>(HttpError::Internal)
            } else {
                &&& game matches Ok(g)
                &&& g.id == (match request.id {
                    Some(id) => id,
                    None => next->Ok_0,
                })
                &&& g.name == request.name
                &&& g.status@ == "uploading"@
                &&& g.current_version == 0
                &&& g.latest_version == 0
            },
        },
{
    match game_check(&request, existing) {
        Err(e) => {
            return Err(e);
        },
        Ok(_) => {},
    }
    let id: u64 = match request.id {
        Some(id) => id,
        None => match next {
            Err(_) => {
                return Err(HttpError::Internal);
            },
            Ok(id) => id,
        },
    };
    Ok(GameRecord { id, name: request.name, status: "uploading".to_owned(), current_version: 0, latest_version: 0 })
}

/// A new game under the number that was asked for, if no game has it, or the
/// next. `existing` is what was found under the number that was asked for.
pub fn create_game(counters: &mut CountTable, request: CreateGameRequest, existing: Lookup<GameRecord>) -> (game: Result<
    GameRecord,
    HttpError,
>)
    ensures
        tables::count_opened(*final(counters)) == tables::count_opened(*old(counters)),
        game matches Ok(g) ==> (match request.id {
            Some(n) => g.id == n && tables::count_rows(*final(counters)) == tables::count_rows(*old(counters)),
            None => {
                &&& tables::count_rows(*final(counters)) == tables::count_rows(*old(counters)).insert(
                    RecordKind::Game.counter(),
                    g.id,
                )
                &&& tables::count_rows(*old(counters)).contains_key(RecordKind::Game.counter()) ==> g.id
                    == tables::count_rows(*old(counters))[RecordKind::Game.counter()] + 1
                &&& !tables::count_rows(*old(counters)).contains_key(RecordKind::Game.counter()) ==> g.id == 1
            },
        }),
        ({
            let bad = request.name@.len() == 0 || request.id == Some(0u64) || (request.id is Some && existing is Found);
            match game {
                Ok(g) => {
                    &&& !bad
                    &&& match request.id {
                        Some(id) => existing is Missing && g.id == id && *final(counters) == *old(counters),
                        None => numbered(
                            tables::count_rows(*old(counters)),
                            tables::count_rows(*final(counters)),
                            RecordKind::Game,
                            g.id,
                        ),
                    }
                    &&& g.name == request.name
                    &&& g.status@ == "uploading"@
                    &&& g.current_version == 0
                    &&& g.latest_version == 0
                },
                Err(HttpError::BadRequest) => bad && *final(counters) == *old(counters),
                Err(e) => !bad && e == HttpError::Internal && (request.id is Some ==> existing is Failed),
            }
        }),
{
    match game_check(&request, &existing) {
        Err(e) => {
            return Err(e);
        },
        Ok(_) => {},
    }
    let next = match request.id {
        Some(id) => Ok(id),
        None => db::next_id(counters, RecordKind::Game),
    };
    game_with(request, &existing, next)
}

/// The answer to a deletion, given whether there was a record.
pub fn deleted(found: Result<bool, DbError>) -> (r: Result<(), HttpError>)
    ensures
        r == (match found {
            Ok(true) => Ok::<(), HttpError>(()),
            Ok(false) => Err(HttpError::NotFound),
            Err(_) => Err(HttpError::Internal),
        }),
{
    match found {
        Ok(true) => Ok(()),
        Ok(false) => Err(HttpError::NotFound),
        Err(_) => Err(HttpError::Internal),
    }
}

/// Binds one thing to another.
pub fn bind(bindings: &mut CountTable, request: &BindRequest) -> (done: Result<(), HttpError>)
    ensures
        tables::count_opened(*final(bindings)) == tables::count_opened(*old(bindings)),
        match done {
            Ok(_) => exists|kind: Binding| #[trigger]
                kind.text() == request.kind@ && tables::count_rows(*final(bindings)) == tables::count_rows(
                    *old(bindings),
                ).insert(db::binding_key(kind, request.a, request.b), 1),
            Err(HttpError::BadRequest) => (forall|kind: Binding| #[trigger] kind.text() != request.kind@)
                && *final(bindings) == *old(bindings),
            Err(e) => e == HttpError::Internal && exists|kind: Binding| #[trigger] kind.text() == request.kind@,
        },
{
    match Binding::from_name(request.kind.as_str()) {
        None => Err(HttpError::BadRequest),
        Some(kind) => {
            assert(kind.text() == request.kind@);
            match db::bind(bindings, kind, request.a, request.b) {
                Err(_) => Err(HttpError::Internal),
                Ok(_) => Ok(()),
            }
        },
    }
}

/// Why chunks could not be assigned.
#[derive(Debug, Clone, Copy, PartialEq, Eq, Structural)]
pub enum AssignError {
    Db(DbError),
    Manifest(ManifestError),
}

/// Whether the list is ascending and holds exactly the chunks of the files that
/// no node holds.
pub open spec fn assigns(
    list: Seq<Seq<u8>>,
    files: Seq<manifest::FileView>,
    ledger: Map<Seq<char>, Seq<char>>,
    game_id: u64,
) -> bool {
    &&& forall|i: int, j: int| 0 <= i < j < list.len() ==> (#[trigger] list[i]) != (#[trigger] list[j])
        && order::bytes_le(list[i], list[j])
    &&& forall|hash: Seq<u8>| #[trigger]
        list.contains(hash) <==> manifest::has_chunk(files, hash) && db::holders(ledger, game_id, hash).len() == 0
}

/// The distinct chunks of a version, in the order in which they first occur.
pub open spec fn distinct_chunks(version: GameIndex) -> Seq<[u8; 32]> {
    chunk_set::first_occurrences(manifest::hashes_of(manifest::all_chunks(version.files@)))
}

/// What an IDC is to be assigned chunks of, given what was kept of the version:
/// nothing where the node is no IDC or no manifest is kept.
pub fn version_to_assign(node_type: &str, kept: Result<Option<Vec<u8>>, DbError>) -> (version: Result<
    Option<GameIndex>,
    AssignError,
>)
    ensures
        if node_type@ != "idc"@ {
            version == Ok::<Option<GameIndex>, AssignError>(None)
        } else {
            match kept {
                Err(e) => version == Err::<Option<GameIndex>, AssignError>(AssignError::Db(e)),
                Ok(None) => version == Ok::<Option<GameIndex>, AssignError>(None),
                Ok(Some(m)) => match manifest::decode_spec(m@) {
                    Err(e) => version == Err::<Option<GameIndex>, AssignError>(AssignError::Manifest(e)),
                    Ok(view) => version matches Ok(Some(index)) && index@ == view,
                },
            }
        },
{
    if !text::same_text(node_type, "idc") {
        return Ok(None);
    }
    match kept {
        Err(e) => Err(AssignError::Db(e)),
        Ok(None) => Ok(None),
        Ok(Some(m)) => match GameIndex::decode(m.as_slice()) {
            Err(e) => Err(AssignError::Manifest(e)),
            Ok(index) => Ok(Some(index)),
        },
    }
}

/// The chunks of a version that no node holds, ascending. `held` says of each
/// distinct chunk whether a node holds it.
pub fn assign_from(version: &GameIndex, held: &Vec<bool>) -> (list: Vec<Vec<u8>>)
    requires
        held@.len() == distinct_chunks(*version).len(),
    ensures
        forall|i: int, j: int|
            0 <= i < j < list@.len() ==> (#[trigger] list@[i])@ != (#[trigger] list@[j])@ && order::bytes_le(
                list@[i]@,
                list@[j]@,
            ),
        forall|hash: Seq<u8>| #[trigger]
            text::byte_views(list@).contains(hash) <==> exists|i: int|
                0 <= i < held@.len() && (#[trigger] distinct_chunks(*version)[i])@ == hash && !held@[i],
{
    let set = version.chunk_set();
    let sorted = executor::missing_chunks(&set, held);
    let mut list: Vec<Vec<u8>> = Vec::new();
    let mut j: usize = 0;
    while j < sorted.len()
        invariant
            j <= sorted@.len(),
            list@.len() == j,
            forall|k: int| 0 <= k < j ==> (#[trigger] list@[k])@ == sorted@[k]@,
        decreases sorted.len() - j,
    {
        list.push(vstd::slice::slice_to_vec(sorted[j].as_slice()));
        j = j + 1;
    }
    proof {
        let views = text::byte_views(list@);
        let chunks = distinct_chunks(*version);
        assert forall|a: int, b: int| 0 <= a < b < list@.len() implies (#[trigger] list@[a])@ != (
        #[trigger] list@[b])@ && order::bytes_le(list@[a]@, list@[b]@) by {
            assert(list@[a]@ == sorted@[a]@);
            assert(list@[b]@ == sorted@[b]@);
            assert(order::Ranked::le(sorted@[a], sorted@[b]));
            if sorted@[a]@ == sorted@[b]@ {
                assert(sorted@[a] =~= sorted@[b]);
            }
        }
        assert forall|hash: Seq<u8>| #[trigger] views.contains(hash) <==> exists|i: int|
            0 <= i < held@.len() && (#[trigger] chunks[i])@ == hash && !held@[i] by {
            if views.contains(hash) {
                let k = choose|k: int| 0 <= k < views.len() && views[k] == hash;
                assert(views[k] == sorted@[k]@);
                assert(sorted@.contains(sorted@[k]));
                let i = choose|i: int| 0 <= i < set@.len() && #[trigger] set@[i] == sorted@[k] && !held@[i];
                assert(chunks[i]@ == hash);
            }
            if exists|i: int| 0 <= i < held@.len() && (#[trigger] chunks[i])@ == hash && !held@[i] {
                let i = choose|i: int| 0 <= i < held@.len() && (#[trigger] chunks[i])@ == hash && !held@[i];
                assert(set@[i] == chunks[i]);
                assert(sorted@.contains(chunks[i]));
                let k = choose|k: int| 0 <= k < sorted@.len() && sorted@[k] == chunks[i];
                assert(views[k] == hash);
            }
        }
    }
    list
}

/// Of each distinct chunk of a version, whether a node holds it.
fn held_chunks(ledger: &TextTable, game_id: u64, version: &GameIndex) -> (held: Result<Vec<bool>, DbError>)
    ensures
        match held {
            Ok(h) => {
                &&& h@.len() == distinct_chunks(*version).len()
                &&& forall|i: int|
                    0 <= i < h@.len() ==> #[trigger] h@[i] == (db::holders(
                        tables::text_rows(*ledger),
                        game_id,
                        distinct_chunks(*version)[i]@,
                    ).len() > 0)
            },
            Err(e) => exists|hash: Seq<u8>| #[trigger]
                db::tells_none(tables::text_rows(*ledger), game_id, hash, e),
        },
{
    let set = version.chunk_set();
    let hashes = set.hashes();
    let mut held: Vec<bool> = Vec::new();
    let mut i: usize = 0;
    while i < hashes.len()
        invariant
            i <= hashes@.len(),
            held@.len() == i,
            forall|k: int|
                0 <= k < i ==> #[trigger] held@[k] == (db::holders(
                    tables::text_rows(*ledger),
                    game_id,
                    hashes@[k]@,
                ).len() > 0),
        decreases hashes.len() - i,
    {
        match db::chunk_holders(ledger, game_id, hashes[i].as_slice()) {
            Err(e) => {
                assert(db::tells_none(tables::text_rows(*ledger), game_id, hashes@[i as int]@, e));
                return Err(e);
            },
            Ok(ids) => {
                held.push(ids.len() > 0);
            },
        }
        i = i + 1;
    }
    Ok(held)
}

/// What no node holds by the ledger is what is assigned.
proof fn lemma_assigns(
    version: GameIndex,
    held: Seq<bool>,
    list: Seq<Vec<u8>>,
    ledger: Map<Seq<char>, Seq<char>>,
    game_id: u64,
)
    requires
        held.len() == distinct_chunks(version).len(),
        forall|i: int|
            0 <= i < held.len() ==> #[trigger] held[i] == (db::holders(
                ledger,
                game_id,
                distinct_chunks(version)[i]@,
            ).len() > 0),
        forall|i: int, j: int|
            0 <= i < j < list.len() ==> (#[trigger] list[i])@ != (#[trigger] list[j])@ && order::bytes_le(
                list[i]@,
                list[j]@,
            ),
        forall|hash: Seq<u8>| #[trigger]
            text::byte_views(list).contains(hash) <==> exists|i: int|
                0 <= i < held.len() && (#[trigger] distinct_chunks(version)[i])@ == hash && !held[i],
    ensures
        assigns(text::byte_views(list), version@.files, ledger, game_id),
{
    let views = text::byte_views(list);
    let chunks = distinct_chunks(version);
    chunk_set::lemma_first_occurrences(manifest::hashes_of(manifest::all_chunks(version.files@)));
    manifest::lemma_has_chunk(version.files@);
    assert forall|a: int, b: int| 0 <= a < b < views.len() implies (#[trigger] views[a]) != (#[trigger] views[b])
        && order::bytes_le(views[a], views[b]) by {
        assert(views[a] == list[a]@);
        assert(views[b] == list[b]@);
    }
    assert forall|hash: Seq<u8>| #[trigger] views.contains(hash) <==> manifest::has_chunk(version@.files, hash)
        && db::holders(ledger, game_id, hash).len() == 0 by {
        if views.contains(hash) {
            let i = choose|i: int| 0 <= i < held.len() && (#[trigger] chunks[i])@ == hash && !held[i];
            assert(chunks.contains(chunks[i]));
            assert(!held[i]);
        }
        if manifest::has_chunk(version@.files, hash) && db::holders(ledger, game_id, hash).len() == 0 {
            let h = manifest::lemma_chunk_hash(version.files@, hash);
            assert(chunks.contains(h));
            let i = choose|i: int| 0 <= i < chunks.len() && chunks[i] == h;
            assert(chunks[i]@ == hash && !held[i]);
        }
    }
}

/// The chunks that an IDC fetches from the origin: those of the version that no
/// node holds yet, so that the origin gives each chunk away once. Other nodes
/// get none, nor does a version whose manifest is not kept.
pub fn assign_idc_chunks(
    versions: &TextTable,
    ledger: &TextTable,
    game_id: u64,
    version: u64,
    node_type: &str,
) -> (list: Result<Vec<Vec<u8>>, AssignError>)
    ensures
        ({
            let kept = tables::row(tables::text_rows(*versions), db::version_key_spec(game_id, version));
            let bytes = db::manifest_of(tables::text_rows(*versions), game_id, version);
            match list {
                Ok(l) => if node_type@ != "idc"@ || kept is None {
                    l@.len() == 0
                } else {
                    &&& bytes is Some
                    &&& manifest::decode_spec(bytes->0) is Ok
                    &&& assigns(
                        text::byte_views(l@),
                        manifest::decode_spec(bytes->0)->Ok_0.files,
                        tables::text_rows(*ledger),
                        game_id,
                    )
                },
                Err(AssignError::Manifest(e)) => {
                    &&& node_type@ == "idc"@
                    &&& bytes is Some
                    &&& manifest::decode_spec(bytes->0) == Err::<manifest::IndexView, ManifestError>(e)
                },
                Err(AssignError::Db(e)) => {
                    &&& node_type@ == "idc"@
                    &&& {
                        ||| e == DbError::ReadVersion
                        ||| e == DbError::Decode && kept is Some && bytes is None
                        ||| exists|hash: Seq<u8>| #[trigger] db::tells_none(tables::text_rows(*ledger), game_id, hash, e)
                    }
                },
            }
        }),
{
    if !text::same_text(node_type, "idc") {
        return Ok(Vec::new());
    }
    let index = match version_to_assign(node_type, db::get_version(versions, game_id, version)) {
        Err(e) => {
            return Err(e);
        },
        Ok(None) => {
            return Ok(Vec::new());
        },
        Ok(Some(index)) => index,
    };
    match held_chunks(ledger, game_id, &index) {
        Err(e) => Err(AssignError::Db(e)),
        Ok(held) => {
            let list = assign_from(&index, &held);
            proof {
                lemma_assigns(index, held@, list@, tables::text_rows(*ledger), game_id);
            }
            Ok(list)
        },
    }
}

/// A chunk that a node holds is not fetched from the origin again.
pub proof fn held_chunks_are_not_assigned(
    list: Seq<Seq<u8>>,
    files: Seq<manifest::FileView>,
    ledger: Map<Seq<char>, Seq<char>>,
    game_id: u64,
    node_id: u64,
    hash: Seq<u8>,
)
    requires
        assigns(list, files, ledger, game_id),
        db::holders(ledger, game_id, hash).contains(node_id),
    ensures
        !list.contains(hash),
{
}

/// Of a chunk of the version: it is fetched from the origin exactly when the
/// ledger names no node for it. Nothing else is fetched, nothing twice.
pub proof fn assigned_are_the_unheld(
    list: Seq<Seq<u8>>,
    files: Seq<manifest::FileView>,
    ledger: Map<Seq<char>, Seq<char>>,
    game_id: u64,
    i: int,
    j: int,
    k: int,
)
    requires
        assigns(list, files, ledger, game_id),
    ensures
        0 <= i < files.len() && 0 <= j < files[i].chunks.len() ==> (list.contains(files[i].chunks[j].0) <==> db::holders(ledger, game_id, files[i].chunks[j].0).len() == 0),
        0 <= k < list.len() ==> exists|f: int, c: int|
            0 <= f < files.len() && 0 <= c < files[f].chunks.len() && (#[trigger] files[f].chunks[c]).0 == list[k],
        list.no_duplicates(),
{
    if 0 <= i < files.len() && 0 <= j < files[i].chunks.len() {
        assert(manifest::chunk_at(files, i, j, files[i].chunks[j].0));
    }
    if 0 <= k < list.len() {
        assert(list.contains(list[k]));
        let (f, c) = choose|f: int, c: int| #[trigger] manifest::chunk_at(files, f, c, list[k]);
        assert(files[f].chunks[c].0 == list[k]);
    }
    assert forall|a: int, b: int| 0 <= a < list.len() && 0 <= b < list.len() && a != b implies list[a] != list[b] by {
        if a < b {
            assert(list[a] != list[b]);
        } else {
            assert(list[b] != list[a]);
        }
    }
}

/// Whether the task waits for its node with these values.
pub open spec fn is_queued_task(task: TaskRecord, node_id: u64, game_id: u64, version: u64, kind: Seq<char>) -> bool {
    &&& task.node_id == node_id
    &&& task.game_id == game_id
    &&& task.version == version
    &&& task.kind@ == kind
    &&& task.status@ == "queued"@
    &&& task.error@ == ""@
}

/// Why there can be no task, if so.
pub open spec fn task_fault(request: CreateTaskRequest, node: Lookup<NodeRecord>) -> Option<HttpError> {
    if request.kind@.len() == 0 {
        Some(HttpError::BadRequest)
    } else {
        match node {
            Lookup::Failed => Some(HttpError::Internal),
            Lookup::Missing => Some(HttpError::NotFound),
            Lookup::Found(_) => None,
        }
    }
}

/// Whether there can be a task for a node. `node` is what was found of it.
pub fn task_check(request: &CreateTaskRequest, node: &Lookup<NodeRecord>) -> (r: Result<(), HttpError>)
    ensures
        r is Ok <==> request.kind@.len() > 0 && *node is Found,
        r == Err::<(), HttpError>(HttpError::BadRequest) <==> request.kind@.len() == 0,
        r == Err::<(), HttpError>(HttpError::NotFound) <==> request.kind@.len() > 0 && *node is Missing,
        r == Err::<(), HttpError>(HttpError::Internal) <==> request.kind@.len() > 0 && *node is Failed,
        r == (match task_fault(*request, *node) {
            Some(e) => Err::<(), HttpError>(e),
            None => Ok(()),
        }),
{
    if request.kind.as_str().is_empty() {
        return Err(HttpError::BadRequest);
    }
    match node {
        Lookup::Failed => Err(HttpError::Internal),
        Lookup::Missing => Err(HttpError::NotFound),
        Lookup::Found(_) => Ok(()),
    }
}

/// A new task for a node, under the number that was given out, if one could
/// be, and with the chunks that were assigned, if they could be.
pub fn task_with(
    request: CreateTaskRequest,
    node: &Lookup<NodeRecord>,
    assigned: Result<Vec<Vec<u8>>, AssignError>,
    id: Result<u64, DbError>,
) -> (task: Result<TaskRecord, HttpError>)
    ensures
        task is Ok <==> request.kind@.len() > 0 && *node is Found && assigned is Ok && id is Ok,
        task matches Ok(t) ==> {
            &&& t.node_id == request.node_id
            &&& t.game_id == request.game_id
            &&& t.version == request.version
            &&& t.kind@ == request.kind@
            &&& t.status@ == "queued"@
            &&& t.error@ == ""@
        },
        match task_fault(request, *node) {
            Some(e) => task == Err::<TaskRecord, HttpError>(e),
            None => if assigned is Err || id is Err {
                task == Err::<TaskRecord, HttpError>(HttpError::Internal)
            } else {
                &&& task matches Ok(t)
                &&& Ok::<u64, DbError>(t.id) == id
                &&& Ok::<Vec<Vec<u8>>, AssignError>(t.assigned_chunks) == assigned
                &&& is_queued_task(t, request.node_id, request.game_id, request.version, request.kind@)
            },
        },
{
    match task_check(&request, node) {
        Err(e) => {
            return Err(e);
        },
        Ok(_) => {},
    }
    match (assigned, id) {
        (Ok(assigned_chunks), Ok(id)) => Ok(
            TaskRecord {
                id,
                node_id: request.node_id,
                game_id: request.game_id,
                version: request.version,
                kind: request.kind,
                assigned_chunks,
                status: "queued".to_owned(),
                error: "".to_owned(),
            },
        ),
        _ => Err(HttpError::Internal),
    }
}

/// A new task for a node. `node` is what was found of the node.
pub fn create_task(
    counters: &mut CountTable,
    versions: &TextTable,
    ledger: &TextTable,
    request: CreateTaskRequest,
    node: &Lookup<NodeRecord>,
) -> (task: Result<TaskRecord, HttpError>)
    ensures
        tables::count_opened(*final(counters)) == tables::count_opened(*old(counters)),
        task matches Ok(t) ==> {
            &&& tables::count_rows(*final(counters)) == tables::count_rows(*old(counters)).insert(
                RecordKind::Task.counter(),
                t.id,
            )
            &&& tables::count_rows(*old(counters)).contains_key(RecordKind::Task.counter()) ==> t.id
                == tables::count_rows(*old(counters))[RecordKind::Task.counter()] + 1
            &&& !tables::count_rows(*old(counters)).contains_key(RecordKind::Task.counter()) ==> t.id == 1
            &&& t.node_id == request.node_id
            &&& t.game_id == request.game_id
            &&& t.version == request.version
            &&& t.kind@ == request.kind@
            &&& t.status@ == "queued"@
            &&& t.error@ == ""@
        },
        ({
            let kept = tables::row(
                tables::text_rows(*versions),
                db::version_key_spec(request.game_id, request.version),
            );
            let bytes = db::manifest_of(tables::text_rows(*versions), request.game_id, request.version);
            match task {
                Ok(t) => {
                    &&& request.kind@.len() > 0
                    &&& node is Found
                    &&& numbered(
                        tables::count_rows(*old(counters)),
                        tables::count_rows(*final(counters)),
                        RecordKind::Task,
                        t.id,
                    )
                    &&& is_queued_task(t, request.node_id, request.game_id, request.version, request.kind@)
                    &&& if node->Found_0.node_type@ != "idc"@ || kept is None {
                        t.assigned_chunks@.len() == 0
                    } else {
                        &&& bytes is Some
                        &&& manifest::decode_spec(bytes->0) is Ok
                        &&& assigns(
                            text::byte_views(t.assigned_chunks@),
                            manifest::decode_spec(bytes->0)->Ok_0.files,
                            tables::text_rows(*ledger),
                            request.game_id,
                        )
                    }
                },
                Err(HttpError::BadRequest) => request.kind@.len() == 0 && *final(counters) == *old(counters),
                Err(HttpError::NotFound) => request.kind@.len() > 0 && node is Missing && *final(counters) == *old(counters),
                Err(e) => request.kind@.len() > 0 && !(node is Missing) && e == HttpError::Internal,
            }
        }),
{
    match task_check(&request, node) {
        Err(e) => {
            return Err(e);
        },
        Ok(_) => {},
    }
    let node_type = match node {
        Lookup::Found(n) => n.node_type.as_str(),
        _ => "",
    };
    let assigned = assign_idc_chunks(versions, ledger, request.game_id, request.version, node_type);
    if assigned.is_err() {
        return Err(HttpError::Internal);
    }
    let id = db::next_id(counters, RecordKind::Task);
    task_with(request, node, assigned, id)
}

/// Why a node cannot be taken back to a version, if so.
pub open spec fn rollback_fault(
    version: u64,
    game: Lookup<GameRecord>,
    kept: Lookup<Vec<u8>>,
    node: Lookup<NodeRecord>,
) -> Option<HttpError> {
    if version == 0 {
        Some(HttpError::BadRequest)
    } else {
        match (game, kept, node) {
            (Lookup::Failed, _, _) => Some(HttpError::Internal),
            (Lookup::Missing, _, _) => Some(HttpError::NotFound),
            (Lookup::Found(_), Lookup::Failed, _) => Some(HttpError::Internal),
            (Lookup::Found(_), Lookup::Missing, _) => Some(HttpError::NotFound),
            (Lookup::Found(_), Lookup::Found(_), Lookup::Failed) => Some(HttpError::Internal),
            (Lookup::Found(_), Lookup::Found(_), Lookup::Missing) => Some(HttpError::NotFound),
            (Lookup::Found(_), Lookup::Found(_), Lookup::Found(_)) => None,
        }
    }
}

/// Whether a node can be taken back to a version, given what was found of the
/// game, of the manifest of the version and of the node.
pub fn rollback_check(
    version: u64,
    game: &Lookup<GameRecord>,
    kept: &Lookup<Vec<u8>>,
    node: &Lookup<NodeRecord>,
) -> (r: Result<(), HttpError>)
    ensures
        r is Ok <==> version > 0 && *game is Found && *kept is Found && *node is Found,
        r == Err::<(), HttpError>(HttpError::BadRequest) <==> version == 0,
        r == Err::<(), HttpError>(HttpError::NotFound) <==> version > 0 && (*game is Missing || (*game is Found && (*kept
            is Missing || (*kept is Found && *node is Missing)))),
        r == Err::<(), HttpError>(HttpError::Internal) <==> version > 0 && (*game is Failed || (*game is Found && (*kept
            is Failed || (*kept is Found && *node is Failed)))),
        r == (match rollback_fault(version, *game, *kept, *node) {
            Some(e) => Err::<(), HttpError>(e),
            None => Ok(()),
        }),
{
    if version == 0 {
        return Err(HttpError::BadRequest);
    }
    match game {
        Lookup::Failed => Err(HttpError::Internal),
        Lookup::Missing => Err(HttpError::NotFound),
        Lookup::Found(_) => match kept {
            Lookup::Failed => Err(HttpError::Internal),
            Lookup::Missing => Err(HttpError::NotFound),
            Lookup::Found(_) => match node {
                Lookup::Failed => Err(HttpError::Internal),
                Lookup::Missing => Err(HttpError::NotFound),
                Lookup::Found(_) => Ok(()),
            },
        },
    }
}

/// Takes a node back to a version, given what was found of the game, of the
/// manifest of the version and of the node, and the number that was given out
/// for the task, if one could be: the task, and the game as it is to be kept.
pub fn rollback_with(
    kept: &Lookup<Vec<u8>>,
    id: Result<u64, DbError>,
    game: Lookup<GameRecord>,
    node: &Lookup<NodeRecord>,
    game_id: u64,
    request: &RollbackRequest,
) -> (done: Result<(TaskRecord, GameRecord), HttpError>)
    ensures
        done is Ok <==> request.version > 0 && game is Found && *kept is Found && *node is Found && id is Ok,
        done matches Ok((t, g)) ==> {
            &&& t.node_id == request.node_id
            &&& t.game_id == game_id
            &&& t.version == request.version
            &&& t.kind@ == "ROLLBACK"@
            &&& t.status@ == "queued"@
            &&& t.error@ == ""@
        },
        match rollback_fault(request.version, game, *kept, *node) {
            Some(e) => done == Err::<(TaskRecord, GameRecord), HttpError>(e),
            None => match id {
                Err(_) => done == Err::<(TaskRecord, GameRecord), HttpError>(HttpError::Internal),
                Ok(n) => {
                    &&& done matches Ok((t, g))
                    &&& t.id == n
                    &&& is_queued_task(t, request.node_id, game_id, request.version, "ROLLBACK"@)
                    &&& t.assigned_chunks@.len() == 0
                    &&& g == (GameRecord { current_version: request.version, ..game->Found_0 })
                },
            },
        },
{
    match rollback_check(request.version, &game, kept, node) {
        Err(e) => {
            return Err(e);
        },
        Ok(_) => {},
    }
    match (game, id) {
        (Lookup::Found(found), Ok(id)) => {
            let task = TaskRecord {
                id,
                node_id: request.node_id,
                game_id,
                version: request.version,
                kind: "ROLLBACK".to_owned(),
                assigned_chunks: Vec::new(),
                status: "queued".to_owned(),
                error: "".to_owned(),
            };
            let mut game = found;
            game.current_version = request.version;
            Ok((task, game))
        },
        _ => Err(HttpError::Internal),
    }
}

/// Takes a node back to a version that is kept: a task for the node, and the
/// game with that version as its current one. `game` and `node` are what was
/// found of them.
pub fn rollback_game(
    counters: &mut CountTable,
    versions: &TextTable,
    game_id: u64,
    request: &RollbackRequest,
    game: Lookup<GameRecord>,
    node: &Lookup<NodeRecord>,
) -> (done: Result<(TaskRecord, GameRecord), HttpError>)
    ensures
        tables::count_opened(*final(counters)) == tables::count_opened(*old(counters)),
        done matches Ok((t, g)) ==> {
            &&& tables::count_rows(*final(counters)) == tables::count_rows(*old(counters)).insert(
                RecordKind::Task.counter(),
                t.id,
            )
            &&& tables::count_rows(*old(counters)).contains_key(RecordKind::Task.counter()) ==> t.id
                == tables::count_rows(*old(counters))[RecordKind::Task.counter()] + 1
            &&& !tables::count_rows(*old(counters)).contains_key(RecordKind::Task.counter()) ==> t.id == 1
            &&& t.node_id == request.node_id
            &&& t.game_id == game_id
            &&& t.version == request.version
            &&& t.kind@ == "ROLLBACK"@
            &&& t.status@ == "queued"@
            &&& t.error@ == ""@
        },
        ({
            let kept = tables::row(tables::text_rows(*versions), db::version_key_spec(game_id, request.version));
            match done {
                Ok((t, g)) => {
                    &&& request.version > 0
                    &&& game is Found && kept is Some && node is Found
                    &&& db::manifest_of(tables::text_rows(*versions), game_id, request.version) is Some
                    &&& numbered(
                        tables::count_rows(*old(counters)),
                        tables::count_rows(*final(counters)),
                        RecordKind::Task,
                        t.id,
                    )
                    &&& is_queued_task(t, request.node_id, game_id, request.version, "ROLLBACK"@)
                    &&& t.assigned_chunks@.len() == 0
                    &&& g == (GameRecord { current_version: request.version, ..game->Found_0 })
                },
                Err(HttpError::BadRequest) => request.version == 0 && *final(counters) == *old(counters),
                Err(HttpError::NotFound) => {
                    &&& request.version > 0
                    &&& game is Missing || (game is Found && (kept is None || (kept is Some && node is Missing)))
                    &&& *final(counters) == *old(counters)
                },
                Err(e) => {
                    &&& e == HttpError::Internal
                    &&& request.version > 0
                    &&& !(game is Missing)
                },
            }
        }),
{
    let kept = match db::get_version(versions, game_id, request.version) {
        Err(_) => Lookup::Failed,
        Ok(None) => Lookup::Missing,
        Ok(Some(m)) => Lookup::Found(m),
    };
    match rollback_check(request.version, &game, &kept, node) {
        Err(e) => {
            return Err(e);
        },
        Ok(_) => {},
    }
    let id = db::next_id(counters, RecordKind::Task);
    rollback_with(&kept, id, game, node, game_id, request)
}

/// The place of the first task with that number.
pub open spec fn task_place(tasks: Seq<TaskRecord>, id: u64) -> Option<int>
    decreases tasks.len(),
{
    if tasks.len() == 0 {
        None
    } else {
        match task_place(tasks.drop_last(), id) {
            Some(i) => Some(i),
            None => if tasks.last().id == id {
                Some(tasks.len() - 1)
            } else {
                None
            },
        }
    }
}

/// Withdraws a task that no node has begun: the task as it is to be kept. A
/// task with another status is not withdrawn.
pub fn cancel_task(tasks: Vec<TaskRecord>, id: u64) -> (task: Result<TaskRecord, HttpError>)
    ensures
        task == Err::<TaskRecord, HttpError>(HttpError::NotFound) <==> forall|i: int|
            0 <= i < tasks@.len() ==> (#[trigger] tasks@[i]).id != id,
        forall|i: int|
            0 <= i < tasks@.len() && (#[trigger] tasks@[i]).id == id && (forall|k: int|
                0 <= k < i ==> (#[trigger] tasks@[k]).id != id) ==> match task {
                Ok(t) => {
                    &&& tasks@[i].status@ == "queued"@
                    &&& t.id == id
                    &&& t.node_id == tasks@[i].node_id
                    &&& t.game_id == tasks@[i].game_id
                    &&& t.version == tasks@[i].version
                    &&& t.kind == tasks@[i].kind
                    &&& t.assigned_chunks == tasks@[i].assigned_chunks
                    &&& t.status@ == "cancelled"@
                    &&& t.error@ == "人工取消"@
                },
                Err(e) => tasks@[i].status@ != "queued"@ && e == HttpError::BadRequest,
            },
        match (task_place(tasks@, id), task) {
            (None, Err(e)) => e == HttpError::NotFound,
            (Some(i), Ok(t)) => {
                &&& tasks@[i].status@ == "queued"@
                &&& t.status@ == "cancelled"@
                &&& t.error@ == "人工取消"@
                &&& t == (TaskRecord { status: t.status, error: t.error, ..tasks@[i] })
            },
            (Some(i), Err(e)) => tasks@[i].status@ != "queued"@ && e == HttpError::BadRequest,
            _ => false,
        },
{
    let mut tasks = tasks;
    let ghost all = tasks@;
    let mut at: usize = 0;
    assert(all.take(0) =~= Seq::empty());
    while at < tasks.len() && tasks[at].id != id
        invariant
            at <= tasks@.len(),
            tasks@ == all,
            task_place(all.take(at as int), id) is None,
            forall|k: int| 0 <= k < at ==> (#[trigger] all[k]).id != id,
        decreases tasks.len() - at,
    {
        assert(all.take(at + 1).drop_last() =~= all.take(at as int));
        at = at + 1;
    }
    if at == tasks.len() {
        assert(all.take(at as int) =~= all);
        return Err(HttpError::NotFound);
    }
    proof {
        assert(all[at as int].id == id);
        assert forall|i: int|
            0 <= i < all.len() && (#[trigger] all[i]).id == id && (forall|k: int|
                0 <= k < i ==> (#[trigger] all[k]).id != id) implies i == at by {
            if i < at {
                assert(all[i].id != id);
            }
            if at < i {
                assert(all[at as int].id != id);
            }
        }
        assert(all.take(at + 1).drop_last() =~= all.take(at as int));
        lemma_task_place(all, at + 1, id);
    }
    let task = tasks.swap_remove(at);
    if !text::same_text(task.status.as_str(), "queued") {
        return Err(HttpError::BadRequest);
    }
    let updated = db::update_task_status(Some(task), "cancelled", "人工取消");
    Ok(updated.unwrap())
}

/// A task found among the first is the one found among all.
proof fn lemma_task_place(tasks: Seq<TaskRecord>, n: int, id: u64)
    requires
        0 <= n <= tasks.len(),
        task_place(tasks.take(n), id) is Some,
    ensures
        task_place(tasks, id) == task_place(tasks.take(n), id),
    decreases tasks.len(),
{
    if n < tasks.len() {
        assert(tasks.drop_last().take(n) =~= tasks.take(n));
        lemma_task_place(tasks.drop_last(), n, id);
    } else {
        assert(tasks.take(n) =~= tasks);
    }
}

/// What the administrator did.
#[derive(Debug, Clone, Copy, PartialEq, Eq)]
pub enum Action {
    CreateUser(u64),
    DeleteUser(u64),
    CreatePlace(u64),
    DeletePlace(u64),
    CreateGroup(u64),
    DeleteGroup(u64),
    CreateGame(u64),
    DeleteGame(u64),
    Bind { kind: Binding, a: u64, b: u64 },
    CreateTask { id: u64, game_id: u64, version: u64 },
    Rollback { game_id: u64, version: u64 },
    CancelTask(u64),
}

impl Action {
    /// How the audit log names it.
    pub open spec fn title(self) -> Seq<char> {
        match self {
            Action::CreateUser(_) => "创建账号"@,
            Action::DeleteUser(_) => "删除账号"@,
            Action::CreatePlace(_) => "创建场所"@,
            Action::DeletePlace(_) => "删除场所"@,
            Action::CreateGroup(_) => "创建分组"@,
            Action::DeleteGroup(_) => "删除分组"@,
            Action::CreateGame(_) => "创建游戏"@,
            Action::DeleteGame(_) => "删除游戏"@,
            Action::Bind { .. } => "建立绑定"@,
            Action::CreateTask { .. } => "创建任务"@,
            Action::Rollback { .. } => "回滚游戏"@,
            Action::CancelTask(_) => "取消任务"@,
        }
    }

    /// What the audit log holds of each action: its name, and the numbers it is
    /// about.
    pub proof fn audits_say_what_was_done(self)
        ensures
            self matches Action::CreateUser(id) ==> self.title() == "创建账号"@ && self.detail_spec() == "账号 ID "@ + text::decimal(id as nat),
            self matches Action::DeleteUser(id) ==> self.title() == "删除账号"@ && self.detail_spec() == "账号 ID "@ + text::decimal(id as nat),
            self matches Action::CreatePlace(id) ==> self.title() == "创建场所"@ && self.detail_spec() == "场所 ID "@ + text::decimal(id as nat),
            self matches Action::DeletePlace(id) ==> self.title() == "删除场所"@ && self.detail_spec() == "场所 ID "@ + text::decimal(id as nat),
            self matches Action::CreateGroup(id) ==> self.title() == "创建分组"@ && self.detail_spec() == "分组 ID "@ + text::decimal(id as nat),
            self matches Action::DeleteGroup(id) ==> self.title() == "删除分组"@ && self.detail_spec() == "分组 ID "@ + text::decimal(id as nat),
            self matches Action::CreateGame(id) ==> self.title() == "创建游戏"@ && self.detail_spec() == "游戏 ID "@ + text::decimal(id as nat),
            self matches Action::DeleteGame(id) ==> self.title() == "删除游戏"@ && self.detail_spec() == "游戏 ID "@ + text::decimal(id as nat),
            self matches Action::Bind { kind, a, b } ==> self.title() == "建立绑定"@ && self.detail_spec() == kind.text() + " "@ + text::decimal(a as nat) + "/"@ + text::decimal(b as nat),
            self matches Action::CreateTask { id, game_id, version } ==> self.title() == "创建任务"@ && self.detail_spec() == "任务 ID "@ + text::decimal(id as nat) + " 游戏 "@ + text::decimal(game_id as nat)
                + " 版本 "@ + text::decimal(version as nat),
            self matches Action::Rollback { game_id, version } ==> self.title() == "回滚游戏"@ && self.detail_spec() == "游戏 "@ + text::decimal(game_id as nat) + " 回滚到版本 "@ + text::decimal(
                version as nat,
            ),
            self matches Action::CancelTask(id) ==> self.title() == "取消任务"@ && self.detail_spec() == "任务 ID "@ + text::decimal(id as nat) + " 已取消（排队中）"@,
    {
    }

    /// How the audit log names it.
    pub fn name(&self) -> (out: &'static str)
        ensures
            out@ == self.title(),
            out@ == (match *self {
                Action::CreateUser(_) => "创建账号"@,
                Action::DeleteUser(_) => "删除账号"@,
                Action::CreatePlace(_) => "创建场所"@,
                Action::DeletePlace(_) => "删除场所"@,
                Action::CreateGroup(_) => "创建分组"@,
                Action::DeleteGroup(_) => "删除分组"@,
                Action::CreateGame(_) => "创建游戏"@,
                Action::DeleteGame(_) => "删除游戏"@,
                Action::Bind { .. } => "建立绑定"@,
                Action::CreateTask { .. } => "创建任务"@,
                Action::Rollback { .. } => "回滚游戏"@,
                Action::CancelTask(_) => "取消任务"@,
            }),
    {
        match self {
            Action::CreateUser(_) => "创建账号",
            Action::DeleteUser(_) => "删除账号",
            Action::CreatePlace(_) => "创建场所",
            Action::DeletePlace(_) => "删除场所",
            Action::CreateGroup(_) => "创建分组",
            Action::DeleteGroup(_) => "删除分组",
            Action::CreateGame(_) => "创建游戏",
            Action::DeleteGame(_) => "删除游戏",
            Action::Bind { .. } => "建立绑定",
            Action::CreateTask { .. } => "创建任务",
            Action::Rollback { .. } => "回滚游戏",
            Action::CancelTask(_) => "取消任务",
        }
    }

    /// What the audit log says of it.
    pub open spec fn detail_spec(self) -> Seq<char> {
        match self {
            Action::CreateUser(id) | Action::DeleteUser(id) => "账号 ID "@ + text::decimal(id as nat),
            Action::CreatePlace(id) | Action::DeletePlace(id) => "场所 ID "@ + text::decimal(id as nat),
            Action::CreateGroup(id) | Action::DeleteGroup(id) => "分组 ID "@ + text::decimal(id as nat),
            Action::CreateGame(id) | Action::DeleteGame(id) => "游戏 ID "@ + text::decimal(id as nat),
            Action::Bind { kind, a, b } => kind.text() + " "@ + text::decimal(a as nat) + "/"@ + text::decimal(
                b as nat,
            ),
            Action::CreateTask { id, game_id, version } => "任务 ID "@ + text::decimal(id as nat) + " 游戏 "@
                + text::decimal(game_id as nat) + " 版本 "@ + text::decimal(version as nat),
            Action::Rollback { game_id, version } => "游戏 "@ + text::decimal(game_id as nat) + " 回滚到版本 "@
                + text::decimal(version as nat),
            Action::CancelTask(id) => "任务 ID "@ + text::decimal(id as nat) + " 已取消（排队中）"@,
        }
    }

    /// What the audit log says of it.
    pub fn detail(&self) -> (out: String)
        ensures
            out@ == self.detail_spec(),
            out@ == (match *self {
                Action::CreateUser(id) | Action::DeleteUser(id) => "账号 ID "@ + text::decimal(id as nat),
                Action::CreatePlace(id) | Action::DeletePlace(id) => "场所 ID "@ + text::decimal(id as nat),
                Action::CreateGroup(id) | Action::DeleteGroup(id) => "分组 ID "@ + text::decimal(id as nat),
                Action::CreateGame(id) | Action::DeleteGame(id) => "游戏 ID "@ + text::decimal(id as nat),
                Action::Bind { kind, a, b } => kind.text() + " "@ + text::decimal(a as nat) + "/"@ + text::decimal(
                    b as nat,
                ),
                Action::CreateTask { id, game_id, version } => "任务 ID "@ + text::decimal(id as nat) + " 游戏 "@
                    + text::decimal(game_id as nat) + " 版本 "@ + text::decimal(version as nat),
                Action::Rollback { game_id, version } => "游戏 "@ + text::decimal(game_id as nat) + " 回滚到版本 "@
                    + text::decimal(version as nat),
                Action::CancelTask(id) => "任务 ID "@ + text::decimal(id as nat) + " 已取消（排队中）"@,
            }),
    {
        match self {
            Action::CreateUser(id) | Action::DeleteUser(id) => text::join2("账号 ID ", text::decimal_text(*id).as_str()),
            Action::CreatePlace(id) | Action::DeletePlace(id) => text::join2(
                "场所 ID ",
                text::decimal_text(*id).as_str(),
            ),
            Action::CreateGroup(id) | Action::DeleteGroup(id) => text::join2(
                "分组 ID ",
                text::decimal_text(*id).as_str(),
            ),
            Action::CreateGame(id) | Action::DeleteGame(id) => text::join2("游戏 ID ", text::decimal_text(*id).as_str()),
            Action::Bind { kind, a, b } => {
                let mut out = text::join3(kind.name(), " ", text::decimal_text(*a).as_str());
                out.append("/");
                text::push_decimal(&mut out, *b);
                out
            },
            Action::CreateTask { id, game_id, version } => {
                let mut out = text::join3("任务 ID ", text::decimal_text(*id).as_str(), " 游戏 ");
                text::push_decimal(&mut out, *game_id);
                out.append(" 版本 ");
                text::push_decimal(&mut out, *version);
                out
            },
            Action::Rollback { game_id, version } => {
                let mut out = text::join3("游戏 ", text::decimal_text(*game_id).as_str(), " 回滚到版本 ");
                text::push_decimal(&mut out, *version);
                out
            },
            Action::CancelTask(id) => text::join3(
                "任务 ID ",
                text::decimal_text(*id).as_str(),
                " 已取消（排队中）",
            ),
        }
    }
}

/// How many of the texts are `wanted`.
pub open spec fn times(texts: Seq<Seq<char>>, wanted: Seq<char>) -> nat
    decreases texts.len(),
{
    if texts.len() == 0 {
        0
    } else {
        times(texts.drop_last(), wanted) + (if texts.last() == wanted {
            1nat
        } else {
            0
        })
    }
}

/// The count goes text by text: none among none, one for a text that is
/// `wanted`, and the counts of two lists add up.
pub proof fn counts_add_up(one: Seq<Seq<char>>, two: Seq<Seq<char>>, text: Seq<char>, wanted: Seq<char>)
    ensures
        times(Seq::empty(), wanted) == 0,
        times(seq![text], wanted) == if text == wanted { 1nat } else { 0nat },
        times(one + two, wanted) == times(one, wanted) + times(two, wanted),
    decreases two.len(),
{
    reveal_with_fuel(times, 2);
    assert(seq![text].drop_last() =~= Seq::empty());
    if two.len() == 0 {
        assert(one + two =~= one);
    } else {
        counts_add_up(one, two.drop_last(), text, wanted);
        assert((one + two).drop_last() =~= one + two.drop_last());
        assert((one + two).last() == two.last());
    }
}

/// The statuses of nodes.
pub open spec fn node_statuses(nodes: Seq<NodeRecord>) -> Seq<Seq<char>> {
    nodes.map_values(|n: NodeRecord| n.status@)
}

/// The statuses of tasks.
pub open spec fn task_statuses(tasks: Seq<TaskRecord>) -> Seq<Seq<char>> {
    tasks.map_values(|t: TaskRecord| t.status@)
}

/// How many nodes have that status.
fn count_nodes(nodes: &Vec<NodeRecord>, status: &str) -> (n: usize)
    ensures
        n == times(node_statuses(nodes@), status@),
        n == nodes@.filter(|r: NodeRecord| r.status@ == status@).len(),
{
    let ghost all = node_statuses(nodes@);
    let ghost with_status = |r: NodeRecord| r.status@ == status@;
    let mut n: usize = 0;
    let mut i: usize = 0;
    assert(all.take(0) =~= Seq::empty());
    proof {
        reveal(Seq::filter);
        assert(nodes@.take(0) =~= Seq::empty());
    }
    while i < nodes.len()
        invariant
            i <= nodes@.len(),
            n <= i,
            all == node_statuses(nodes@),
            n == times(all.take(i as int), status@),
            with_status == (|r: NodeRecord| r.status@ == status@),
            n == nodes@.take(i as int).filter(with_status).len(),
        decreases nodes.len() - i,
    {
        assert(all.take(i + 1).drop_last() =~= all.take(i as int));
        proof {
            reveal(Seq::filter);
            assert(nodes@.take(i + 1).drop_last() =~= nodes@.take(i as int));
        }
        if text::same_text(nodes[i].status.as_str(), status) {
            n = n + 1;
        }
        i = i + 1;
    }
    assert(all.take(i as int) =~= all);
    assert(nodes@.take(i as int) =~= nodes@);
    n
}

/// How many tasks have that status.
fn count_tasks(tasks: &Vec<TaskRecord>, status: &str) -> (n: usize)
    ensures
        n == times(task_statuses(tasks@), status@),
        n == tasks@.filter(|r: TaskRecord| r.status@ == status@).len(),
{
    let ghost all = task_statuses(tasks@);
    let ghost with_status = |r: TaskRecord| r.status@ == status@;
    let mut n: usize = 0;
    let mut i: usize = 0;
    assert(all.take(0) =~= Seq::empty());
    proof {
        reveal(Seq::filter);
        assert(tasks@.take(0) =~= Seq::empty());
    }
    while i < tasks.len()
        invariant
            i <= tasks@.len(),
            n <= i,
            all == task_statuses(tasks@),
            n == times(all.take(i as int), status@),
            with_status == (|r: TaskRecord| r.status@ == status@),
            n == tasks@.take(i as int).filter(with_status).len(),
        decreases tasks.len() - i,
    {
        assert(all.take(i + 1).drop_last() =~= all.take(i as int));
        proof {
            reveal(Seq::filter);
            assert(tasks@.take(i + 1).drop_last() =~= tasks@.take(i as int));
        }
        if text::same_text(tasks[i].status.as_str(), status) {
            n = n + 1;
        }
        i = i + 1;
    }
    assert(all.take(i as int) =~= all);
    assert(tasks@.take(i as int) =~= tasks@);
    n
}

/// One metric: its help text, its type and its value.
pub open spec fn metric(name: Seq<char>, help: Seq<char>, value: nat) -> Seq<char> {
    "# HELP "@ + name + " "@ + help + "\n# TYPE "@ + name + " gauge\n"@ + name + " "@ + text::decimal(value) + "\n"@
}

fn push_metric(out: &mut String, name: &str, help: &str, value: usize)
    ensures
        final(out)@ == old(out)@ + metric(name@, help@, value as nat),
{
    out.append("# HELP ");
    out.append(name);
    out.append(" ");
    out.append(help);
    out.append("\n# TYPE ");
    out.append(name);
    out.append(" gauge\n");
    out.append(name);
    out.append(" ");
    text::push_decimal(out, value as u64);
    out.append("\n");
    assert(out@ =~= old(out)@ + metric(name@, help@, value as nat));
}

/// All metrics.
pub open spec fn metrics_spec(nodes: Seq<Seq<char>>, tasks: Seq<Seq<char>>, games: nat, audits: nat) -> Seq<char> {
    metric("blazenet_nodes_total"@, "节点总数"@, nodes.len()) + metric(
        "blazenet_nodes_online"@,
        "在线节点数"@,
        times(nodes, "online"@),
    ) + metric("blazenet_tasks_total"@, "任务总数"@, tasks.len()) + metric(
        "blazenet_tasks_running"@,
        "运行中任务"@,
        times(tasks, "running"@),
    ) + metric("blazenet_tasks_done"@, "完成任务"@, times(tasks, "done"@)) + metric(
        "blazenet_tasks_failed"@,
        "失败任务"@,
        times(tasks, "failed"@),
    ) + metric("blazenet_games_total"@, "游戏总数"@, games) + metric("blazenet_audits_total"@, "审计日志数"@, audits)
}

/// The metrics in the text format of Prometheus.
pub fn metrics(nodes: &Vec<NodeRecord>, tasks: &Vec<TaskRecord>, games: usize, audits: usize) -> (out: String)
    ensures
        out@ == metrics_spec(node_statuses(nodes@), task_statuses(tasks@), games as nat, audits as nat),
        out@ == ("# HELP "@ + "blazenet_nodes_total"@ + " "@ + "节点总数"@ + "\n# TYPE "@ + "blazenet_nodes_total"@ + " gauge\n"@ + "blazenet_nodes_total"@
            + " "@ + text::decimal(nodes@.len()) + "\n"@) + ("# HELP "@ + "blazenet_nodes_online"@ + " "@ + "在线节点数"@ + "\n# TYPE "@ + "blazenet_nodes_online"@ + " gauge\n"@ + "blazenet_nodes_online"@
            + " "@ + text::decimal(nodes@.filter(|r: NodeRecord| r.status@ == "online"@).len()) + "\n"@) + ("# HELP "@ + "blazenet_tasks_total"@ + " "@ + "任务总数"@ + "\n# TYPE "@ + "blazenet_tasks_total"@ + " gauge\n"@ + "blazenet_tasks_total"@
            + " "@ + text::decimal(tasks@.len()) + "\n"@) + ("# HELP "@ + "blazenet_tasks_running"@ + " "@ + "运行中任务"@ + "\n# TYPE "@ + "blazenet_tasks_running"@ + " gauge\n"@ + "blazenet_tasks_running"@
            + " "@ + text::decimal(tasks@.filter(|r: TaskRecord| r.status@ == "running"@).len()) + "\n"@) + ("# HELP "@ + "blazenet_tasks_done"@ + " "@ + "完成任务"@ + "\n# TYPE "@ + "blazenet_tasks_done"@ + " gauge\n"@ + "blazenet_tasks_done"@
            + " "@ + text::decimal(tasks@.filter(|r: TaskRecord| r.status@ == "done"@).len()) + "\n"@) + ("# HELP "@ + "blazenet_tasks_failed"@ + " "@ + "失败任务"@ + "\n# TYPE "@ + "blazenet_tasks_failed"@ + " gauge\n"@ + "blazenet_tasks_failed"@
            + " "@ + text::decimal(tasks@.filter(|r: TaskRecord| r.status@ == "failed"@).len()) + "\n"@) + ("# HELP "@ + "blazenet_games_total"@ + " "@ + "游戏总数"@ + "\n# TYPE "@ + "blazenet_games_total"@ + " gauge\n"@ + "blazenet_games_total"@
            + " "@ + text::decimal(games as nat) + "\n"@) + ("# HELP "@ + "blazenet_audits_total"@ + " "@ + "审计日志数"@ + "\n# TYPE "@ + "blazenet_audits_total"@ + " gauge\n"@ + "blazenet_audits_total"@
            + " "@ + text::decimal(audits as nat) + "\n"@),
{
    let mut out = String::new();
    push_metric(&mut out, "blazenet_nodes_total", "节点总数", nodes.len());
    assert(out@ =~= metric("blazenet_nodes_total"@, "节点总数"@, nodes@.len()));
    push_metric(&mut out, "blazenet_nodes_online", "在线节点数", count_nodes(nodes, "online"));
    push_metric(&mut out, "blazenet_tasks_total", "任务总数", tasks.len());
    push_metric(&mut out, "blazenet_tasks_running", "运行中任务", count_tasks(tasks, "running"));
    push_metric(&mut out, "blazenet_tasks_done", "完成任务", count_tasks(tasks, "done"));
    push_metric(&mut out, "blazenet_tasks_failed", "失败任务", count_tasks(tasks, "failed"));
    push_metric(&mut out, "blazenet_games_total", "游戏总数", games);
    push_metric(&mut out, "blazenet_audits_total", "审计日志数", audits);
    out
}

/// The nodes as the admin interface shows them.
pub fn node_views(nodes: Vec<NodeRecord>) -> (views: Vec<NodeView>)
    ensures
        views@.len() == nodes@.len(),
        forall|i: int| 0 <= i < views@.len() ==> #[trigger] views@[i] == shown(nodes@[i]),
        forall|i: int|
            0 <= i < views@.len() ==> {
                &&& (#[trigger] views@[i]).id == nodes@[i].id
                &&& views@[i].node_type == nodes@[i].node_type
                &&& views@[i].endpoint_id == nodes@[i].endpoint_id
                &&& views@[i].addrs == nodes@[i].addrs
                &&& views@[i].status == nodes@[i].status
                &&& views@[i].last_heartbeat_ms == nodes@[i].last_heartbeat_ms
            },
{
    let ghost all = nodes@;
    let mut rest = crate::common::lists::reversed(nodes);
    let mut views: Vec<NodeView> = Vec::new();
    assert(all.skip(0) =~= all);
    while rest.len() > 0
        invariant
            views@.len() + rest@.len() == all.len(),
            rest@ == all.skip(views@.len() as int).reverse(),
            forall|i: int| 0 <= i < views@.len() ==> #[trigger] views@[i] == shown(all[i]),
        decreases rest@.len(),
    {
        proof {
            crate::common::lists::lemma_rest_reversed(all, views@.len() as int);
        }
        let node = rest.pop().unwrap();
        views.push(NodeView::from(node));
    }
    views
}

/// A node without its token.
pub open spec fn shown(node: NodeRecord) -> NodeView {
    NodeView {
        id: node.id,
        node_type: node.node_type,
        endpoint_id: node.endpoint_id,
        addrs: node.addrs,
        status: node.status,
        last_heartbeat_ms: node.last_heartbeat_ms,
    }
}

} // verus!
