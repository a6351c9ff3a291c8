//! The chunk source of an internet cafe: chunks are read from temporary block
//! files or out of the real game files.
use vstd::prelude::*;
use vstd::utf8::*;

use crate::common::chunk_set::ChunkSet;
use crate::common::hex;
use crate::common::order;
use crate::common::path::PathParts;
use crate::common::text;
use crate::common::words;
use crate::producer::chunker;
use crate::producer::chunker::ChunkMeta;
use crate::producer::manifest;
use crate::producer::manifest::{FileEntry, GameIndex, ManifestError};

verus! {

broadcast use vstd::array::group_array_axioms;

/// `{data_dir}/games/{game_id}`
pub open spec fn game_dir_spec(data_dir: Seq<char>, game_id: u64) -> Seq<Seq<char>> {
    seq![data_dir, "games"@, text::decimal(game_id as nat)]
}

/// `{data_dir}/.blazenet/temp/{game_id}`
pub open spec fn temp_dir_spec(data_dir: Seq<char>, game_id: u64) -> Seq<Seq<char>> {
    seq![data_dir, ".blazenet"@, "temp"@, text::decimal(game_id as nat)]
}

/// `{data_dir}/.blazenet/manifests/{game_id}`
pub open spec fn manifest_dir_spec(data_dir: Seq<char>, game_id: u64) -> Seq<Seq<char>> {
    seq![data_dir, ".blazenet"@, "manifests"@, text::decimal(game_id as nat)]
}

/// Where the files of a game are.
pub fn game_dir(data_dir: &str, game_id: u64) -> (dir: PathParts)
    ensures
        dir@ == game_dir_spec(data_dir@, game_id),
        dir@ == seq![data_dir@, "games"@, text::decimal(game_id as nat)],
{
    let dir = PathParts::new(data_dir).join("games").join(text::decimal_text(game_id).as_str());
    assert(dir@ =~= game_dir_spec(data_dir@, game_id));
    dir
}

/// Where the temporary blocks of a game are.
pub fn temp_dir(data_dir: &str, game_id: u64) -> (dir: PathParts)
    ensures
        dir@ == temp_dir_spec(data_dir@, game_id),
        dir@ == seq![data_dir@, ".blazenet"@, "temp"@, text::decimal(game_id as nat)],
{
    let own = PathParts::new(data_dir).join(".blazenet");
    let dir = own.join("temp").join(text::decimal_text(game_id).as_str());
    assert(dir@ =~= temp_dir_spec(data_dir@, game_id));
    dir
}

/// Where the manifests of a game are.
pub fn manifest_dir(data_dir: &str, game_id: u64) -> (dir: PathParts)
    ensures
        dir@ == manifest_dir_spec(data_dir@, game_id),
        dir@ == seq![data_dir@, ".blazenet"@, "manifests"@, text::decimal(game_id as nat)],
{
    let own = PathParts::new(data_dir).join(".blazenet");
    let dir = own.join("manifests").join(text::decimal_text(game_id).as_str());
    assert(dir@ =~= manifest_dir_spec(data_dir@, game_id));
    dir
}

/// The file that holds the number of the current version.
pub fn current_version_path(data_dir: &str, game_id: u64) -> (file: PathParts)
    ensures
        file@ == manifest_dir_spec(data_dir@, game_id).push("current.version"@),
        file@ == seq![
            data_dir@,
            ".blazenet"@,
            "manifests"@,
            text::decimal(game_id as nat),
            "current.version"@,
        ],
{
    manifest_dir(data_dir, game_id).join("current.version")
}

/// `{version}.gameindex`
pub fn manifest_name(version: u64) -> (name: String)
    ensures
        name@ == text::decimal(version as nat) + ".gameindex"@,
{
    text::join2(text::decimal_text(version).as_str(), ".gameindex")
}

/// The file name of a temporary block: the hash in hexadecimal, then `.blk`.
pub open spec fn block_name_spec(hash: Seq<u8>) -> Seq<char> {
    hex::hex_spec(hash) + ".blk"@
}

/// The file name of a temporary block.
pub fn block_name(hash: &[u8; 32]) -> (name: String)
    ensures
        name@ == block_name_spec(hash@),
        name@ == hex::hex_spec(hash@) + ".blk"@,
{
    text::join2(hex::hex(hash.as_slice()).as_str(), ".blk")
}

/// Where a chunk lies in the files of a version.
#[derive(Debug, Clone, Copy, PartialEq, Eq)]
pub struct FilePlace {
    /// Which file of the manifest.
    pub file: usize,
    pub offset: u64,
    pub len: u32,
}

/// Whether the chunk `k` of file `i` comes before chunk `m` of file `j`.
pub open spec fn earlier(i: int, k: int, j: int, m: int) -> bool {
    i < j || i == j && k < m
}

/// Whether `place` is that of chunk `k` of its file, and the first place of
/// the chunk in the files.
pub open spec fn is_first_place(files: Seq<FileEntry>, hash: [u8; 32], place: FilePlace, k: int) -> bool {
    let i = place.file as int;
    &&& 0 <= i < files.len()
    &&& 0 <= k < files[i].chunks@.len()
    &&& files[i].chunks@[k].hash == hash
    &&& place.offset == manifest::total_len(files[i].chunks@.take(k))
    &&& place.len == files[i].chunks@[k].len
    &&& forall|j: int, m: int|
        0 <= j < files.len() && 0 <= m < files[j].chunks@.len() && earlier(j, m, i, k) ==> (
        #[trigger] files[j].chunks@[m]).hash != hash
}

/// Whether `place` is the first place of the chunk in the files.
pub open spec fn has_first_place(files: Seq<FileEntry>, hash: [u8; 32], place: FilePlace) -> bool {
    exists|k: int| is_first_place(files, hash, place, k)
}

/// Whether a file has the chunk.
pub open spec fn has_chunk(files: Seq<FileEntry>, hash: [u8; 32]) -> bool {
    exists|i: int, k: int|
        0 <= i < files.len() && 0 <= k < files[i].chunks@.len() && (#[trigger] files[i].chunks@[k]).hash == hash
}

/// Whether the lengths in each file add up to a 64-bit number.
pub open spec fn files_fit(files: Seq<FileEntry>) -> bool {
    forall|i: int| 0 <= i < files.len() ==> manifest::total_len((#[trigger] files[i]).chunks@) <= u64::MAX
}

/// The first place of every chunk of a version.
#[derive(Debug)]
pub struct ChunkMap {
    pub hashes: ChunkSet,
    pub places: Vec<FilePlace>,
    /// The file names of the version.
    pub names: Vec<String>,
}

/// Whether the map is that of the files.
pub open spec fn maps(map: ChunkMap, files: Seq<FileEntry>) -> bool {
    &&& map.names@.len() == files.len()
    &&& forall|i: int| 0 <= i < files.len() ==> (#[trigger] map.names@[i])@ == files[i].name@
    &&& map.places@.len() == map.hashes@.len()
    &&& forall|m: int| 0 <= m < map.places@.len() ==> has_first_place(
        files,
        map.hashes@[m],
        #[trigger] map.places@[m],
    )
    &&& forall|h: [u8; 32]| #[trigger] map.hashes@.contains(h) <==> has_chunk(files, h)
}

/// Whether a file has the chunk, looking no further than chunk `k` of file `i`.
spec fn has_chunk_before(files: Seq<FileEntry>, hash: [u8; 32], i: int, k: int) -> bool {
    exists|j: int, m: int|
        0 <= j < files.len() && 0 <= m < files[j].chunks@.len() && earlier(j, m, i, k) && (
        #[trigger] files[j].chunks@[m]).hash == hash
}

/// The map of a version.
pub fn build_map(index: &GameIndex) -> (map: ChunkMap)
    requires
        files_fit(index.files@),
    ensures
        maps(map, index.files@),
{
    let ghost files = index.files@;
    let mut hashes = ChunkSet::new();
    let mut places: Vec<FilePlace> = Vec::new();
    let mut names: Vec<String> = Vec::new();
    let mut i: usize = 0;
    while i < index.files.len()
        invariant
            i <= index.files@.len(),
            files == index.files@,
            files_fit(files),
            names@.len() == i,
            forall|j: int| 0 <= j < i ==> (#[trigger] names@[j])@ == files[j].name@,
            places@.len() == hashes@.len(),
            forall|m: int| 0 <= m < places@.len() ==> has_first_place(files, hashes@[m], #[trigger] places@[m]),
            forall|h: [u8; 32]| #[trigger] hashes@.contains(h) <==> has_chunk_before(files, h, i as int, 0),
        decreases index.files.len() - i,
    {
        let chunks = &index.files[i].chunks;
        let mut offset: u64 = 0;
        let mut k: usize = 0;
        assert(chunks@.take(0) =~= Seq::empty());
        assert(manifest::total_len(files[i as int].chunks@) <= u64::MAX);
        while k < chunks.len()
            invariant
                i < index.files@.len(),
                files == index.files@,
                k <= chunks@.len(),
                *chunks == files[i as int].chunks,
                manifest::total_len(chunks@) <= u64::MAX,
                offset == manifest::total_len(chunks@.take(k as int)),
                places@.len() == hashes@.len(),
                forall|m: int| 0 <= m < places@.len() ==> has_first_place(files, hashes@[m], #[trigger] places@[m]),
                forall|h: [u8; 32]| #[trigger] hashes@.contains(h) <==> has_chunk_before(files, h, i as int, k as int),
            decreases chunks.len() - k,
        {
            let c = chunks[k];
            let ghost hashes0 = hashes@;
            let ghost places0 = places@;
            proof {
                assert(chunks@.take(k + 1).drop_last() =~= chunks@.take(k as int));
                manifest::lemma_total_len_take(chunks@, k + 1);
            }
            if hashes.insert(c.hash) {
                let place = FilePlace { file: i, offset, len: c.len };
                places.push(place);
                proof {
                    assert(is_first_place(files, c.hash, place, k as int)) by {
                        assert(!hashes0.contains(c.hash));
                        assert(!has_chunk_before(files, c.hash, i as int, k as int));
                    }
                    assert forall|m: int| 0 <= m < places@.len() implies has_first_place(
                        files,
                        hashes@[m],
                        #[trigger] places@[m],
                    ) by {
                        if m < places0.len() {
                            assert(places@[m] == places0[m] && hashes@[m] == hashes0[m]);
                        } else {
                            assert(is_first_place(files, hashes@[m], places@[m], k as int));
                        }
                    }
                }
            }
            proof {
                assert forall|h: [u8; 32]| #[trigger] hashes@.contains(h) <==> has_chunk_before(
                    files,
                    h,
                    i as int,
                    k + 1,
                ) by {
                    order::lemma_push_contains(hashes0, c.hash, h);
                    assert(hashes0.contains(h) <==> has_chunk_before(files, h, i as int, k as int));
                    if has_chunk_before(files, h, i as int, k as int) {
                        let (j, m) = choose|j: int, m: int|
                            0 <= j < files.len() && 0 <= m < files[j].chunks@.len() && earlier(j, m, i as int, k as int)
                                && (#[trigger] files[j].chunks@[m]).hash == h;
                        assert(earlier(j, m, i as int, k + 1));
                        assert(files[j].chunks@[m].hash == h);
                    }
                    if h == c.hash {
                        assert(earlier(i as int, k as int, i as int, k + 1));
                        assert(files[i as int].chunks@[k as int].hash == h);
                    }
                    if has_chunk_before(files, h, i as int, k + 1) && h != c.hash {
                        let (j, m) = choose|j: int, m: int|
                            0 <= j < files.len() && 0 <= m < files[j].chunks@.len() && earlier(j, m, i as int, k + 1)
                                && (#[trigger] files[j].chunks@[m]).hash == h;
                        assert(earlier(j, m, i as int, k as int));
                        assert(files[j].chunks@[m].hash == h);
                    }
                }
            }
            offset = offset + c.len as u64;
            k = k + 1;
        }
        names.push(index.files[i].name.clone());
        proof {
            assert forall|h: [u8; 32]| #[trigger] hashes@.contains(h) <==> has_chunk_before(files, h, i + 1, 0) by {
                assert(hashes@.contains(h) <==> has_chunk_before(files, h, i as int, k as int));
                if has_chunk_before(files, h, i as int, k as int) {
                    let (j, m) = choose|j: int, m: int|
                        0 <= j < files.len() && 0 <= m < files[j].chunks@.len() && earlier(j, m, i as int, k as int) && (
                        #[trigger] files[j].chunks@[m]).hash == h;
                    assert(earlier(j, m, i + 1, 0));
                    assert(files[j].chunks@[m].hash == h);
                }
                if has_chunk_before(files, h, i + 1, 0) {
                    let (j, m) = choose|j: int, m: int|
                        0 <= j < files.len() && 0 <= m < files[j].chunks@.len() && earlier(j, m, i + 1, 0) && (
                        #[trigger] files[j].chunks@[m]).hash == h;
                    assert(earlier(j, m, i as int, k as int));
                    assert(files[j].chunks@[m].hash == h);
                }
            }
        }
        i = i + 1;
    }
    let map = ChunkMap { hashes, places, names };
    proof {
        assert forall|h: [u8; 32]| #[trigger] map.hashes@.contains(h) <==> has_chunk(files, h) by {
            assert(map.hashes@.contains(h) <==> has_chunk_before(files, h, i as int, 0));
            if has_chunk(files, h) {
                let (j, m) = choose|j: int, m: int|
                    0 <= j < files.len() && 0 <= m < files[j].chunks@.len() && (#[trigger] files[j].chunks@[m]).hash == h;
                assert(earlier(j, m, i as int, 0));
                assert(files[j].chunks@[m].hash == h);
            }
        }
    }
    map
}

/// A map finds every chunk of a version, and only those, each at its first
/// place: no earlier file has it, and no earlier chunk of its file.
pub proof fn map_finds_every_chunk(map: ChunkMap, files: Seq<FileEntry>, h: [u8; 32], m: int)
    requires
        maps(map, files),
    ensures
        map.places@.len() == map.hashes@.len(),
        map.names@.len() == files.len(),
        map.hashes@.contains(h) <==> exists|i: int, k: int|
            0 <= i < files.len() && 0 <= k < files[i].chunks@.len() && (#[trigger] files[i].chunks@[k]).hash == h,
        0 <= m < map.places@.len() ==> map.places@[m].file < files.len(),
        0 <= m < map.places@.len() ==> map.names@[map.places@[m].file as int]@
            == files[map.places@[m].file as int].name@,
        0 <= m < map.places@.len() ==> exists|k: int|
            0 <= k < files[map.places@[m].file as int].chunks@.len() && (
            #[trigger] files[map.places@[m].file as int].chunks@[k]).hash == map.hashes@[m] && map.places@[m].offset
                == manifest::total_len(files[map.places@[m].file as int].chunks@.take(k)) && map.places@[m].len
                == files[map.places@[m].file as int].chunks@[k].len && forall|j: int, n: int|
                0 <= j < files.len() && 0 <= n < files[j].chunks@.len() && (j < map.places@[m].file || (j
                    == map.places@[m].file && n < k)) ==> (#[trigger] files[j].chunks@[n]).hash != map.hashes@[m],
{
    assert(map.hashes@.contains(h) <==> has_chunk(files, h));
    if 0 <= m < map.places@.len() {
        let place = map.places@[m];
        assert(has_first_place(files, map.hashes@[m], place));
        let k = choose|k: int| is_first_place(files, map.hashes@[m], place, k);
        assert(files[place.file as int].chunks@[k].hash == map.hashes@[m]);
        assert(map.names@[place.file as int]@ == files[place.file as int].name@);
        assert forall|j: int, n: int|
            0 <= j < files.len() && 0 <= n < files[j].chunks@.len() && (j < place.file || (j == place.file && n
                < k)) implies (#[trigger] files[j].chunks@[n]).hash != map.hashes@[m] by {
            assert(earlier(j, n, place.file as int, k));
        }
    }
}

/// Why a manifest cannot become the current one.
#[derive(Debug, Clone, Copy, PartialEq, Eq, Structural)]
pub enum SetCurrentError {
    BadManifest(ManifestError),
    /// The lengths in a file do not add up to a 64-bit number.
    TooLarge,
}

/// Where to read a chunk.
#[derive(Debug, Clone, PartialEq, Eq)]
pub enum ChunkPlace {
    /// A temporary block file.
    Temp(PathParts),
    /// A range of a game file.
    File { path: PathParts, offset: u64, len: u32 },
    Nowhere,
}

/// The chunk source of one game.
#[derive(Debug)]
pub struct CafeStore {
    pub game_id: u64,
    pub data_dir: String,
    pub game_dir: PathParts,
    pub temp_dir: PathParts,
    pub manifest_dir: PathParts,
    pub current: Option<ChunkMap>,
}

impl CafeStore {
    /// The source of a game without a current version.
    pub fn new(data_dir: &str, game_id: u64) -> (s: Self)
        ensures
            s.game_id == game_id,
            s.data_dir@ == data_dir@,
            s.game_dir@ == game_dir_spec(data_dir@, game_id),
            s.temp_dir@ == temp_dir_spec(data_dir@, game_id),
            s.manifest_dir@ == manifest_dir_spec(data_dir@, game_id),
            s.current is None,
            s.game_dir@ == seq![data_dir@, "games"@, text::decimal(game_id as nat)],
            s.temp_dir@ == seq![data_dir@, ".blazenet"@, "temp"@, text::decimal(game_id as nat)],
            s.manifest_dir@ == seq![data_dir@, ".blazenet"@, "manifests"@, text::decimal(game_id as nat)],
    {
        CafeStore {
            game_id,
            data_dir: data_dir.to_owned(),
            game_dir: game_dir(data_dir, game_id),
            temp_dir: temp_dir(data_dir, game_id),
            manifest_dir: manifest_dir(data_dir, game_id),
            current: None,
        }
    }

    /// Makes a manifest the current one.
    pub fn set_current(&mut self, manifest: &[u8]) -> (r: Result<(), SetCurrentError>)
        ensures
            final(self).game_id == old(self).game_id,
            final(self).data_dir == old(self).data_dir,
            final(self).game_dir == old(self).game_dir,
            final(self).temp_dir == old(self).temp_dir,
            final(self).manifest_dir == old(self).manifest_dir,
            match r {
                Ok(_) => exists|files: Seq<FileEntry>|
                    manifest::decode_spec(manifest@) is Ok && manifest::decode_spec(manifest@)->Ok_0.files
                        == manifest::file_views(files) && final(self).current is Some && #[trigger] maps(
                        final(self).current->0,
                        files,
                    ),
                Err(e) => final(self).current == old(self).current && match e {
                    SetCurrentError::BadManifest(m) => manifest::decode_spec(manifest@) == Err::<
                        manifest::IndexView,
                        ManifestError,
                    >(m),
                    SetCurrentError::TooLarge => exists|files: Seq<FileEntry>|
                        manifest::decode_spec(manifest@) is Ok && manifest::decode_spec(manifest@)->Ok_0.files
                            == manifest::file_views(files) && !#[trigger] files_fit(files),
                },
            },
    {
        match GameIndex::decode(manifest) {
            Err(e) => Err(SetCurrentError::BadManifest(e)),
            Ok(index) => {
                if !check_files_fit(&index) {
                    assert(!files_fit(index.files@));
                    return Err(SetCurrentError::TooLarge);
                }
                let map = build_map(&index);
                self.current = Some(map);
                assert(maps(self.current->0, index.files@));
                Ok(())
            },
        }
    }

    /// Where to read a chunk: from its temporary block if there is one, else
    /// out of the file that has it in the current version.
    pub fn locate(&self, hash: &[u8; 32], temp_is_file: bool) -> (place: ChunkPlace)
        requires
            self.current matches Some(map) ==> map.places@.len() == map.hashes@.len() && forall|m: int|
                0 <= m < map.places@.len() ==> (#[trigger] map.places@[m]).file < map.names@.len(),
        ensures
            match place {
                ChunkPlace::Temp(p) => temp_is_file && p@ == self.temp_dir@.push(block_name_spec(hash@)),
                ChunkPlace::File { path, offset, len } => !temp_is_file && self.current is Some && exists|m: int|
                    0 <= m < self.current->0.places@.len() && self.current->0.hashes@[m] == *hash && (
                    #[trigger] self.current->0.places@[m]).offset == offset && self.current->0.places@[m].len == len
                        && path@ == self.game_dir@.push(
                        self.current->0.names@[self.current->0.places@[m].file as int]@,
                    ),
                ChunkPlace::Nowhere => !temp_is_file && (self.current matches Some(map) ==> !map.hashes@.contains(
                    *hash,
                )),
            },
    {
        if temp_is_file {
            return ChunkPlace::Temp(self.temp_dir.join(block_name(hash).as_str()));
        }
        match &self.current {
            None => ChunkPlace::Nowhere,
            Some(map) => match map.hashes.position(hash) {
                None => ChunkPlace::Nowhere,
                Some(m) => {
                    let p = map.places[m];
                    ChunkPlace::File {
                        path: self.game_dir.join(map.names[p.file].as_str()),
                        offset: p.offset,
                        len: p.len,
                    }
                },
            },
        }
    }
}

/// Whether the lengths in each file add up to a 64-bit number.
pub fn check_files_fit(index: &GameIndex) -> (fit: bool)
    ensures
        fit == files_fit(index.files@),
        fit <==> forall|i: int|
            0 <= i < index.files@.len() ==> manifest::total_len((#[trigger] index.files@[i]).chunks@) <= u64::MAX,
{
    let mut i: usize = 0;
    while i < index.files.len()
        invariant
            i <= index.files@.len(),
            forall|j: int| 0 <= j < i ==> manifest::total_len((#[trigger] index.files@[j]).chunks@) <= u64::MAX,
        decreases index.files.len() - i,
    {
        let chunks = &index.files[i].chunks;
        let mut total: u64 = 0;
        let mut k: usize = 0;
        assert(chunks@.take(0) =~= Seq::empty());
        while k < chunks.len()
            invariant
                i < index.files@.len(),
                *chunks == index.files@[i as int].chunks,
                k <= chunks@.len(),
                total == manifest::total_len(chunks@.take(k as int)),
            decreases chunks.len() - k,
        {
            let len: u64 = chunks[k].len as u64;
            proof {
                assert(chunks@.take(k + 1).drop_last() =~= chunks@.take(k as int));
                manifest::lemma_total_len_take(chunks@, k + 1);
            }
            if len > u64::MAX - total {
                assert(manifest::total_len(index.files@[i as int].chunks@) > u64::MAX);
                return false;
            }
            total = total + len;
            k = k + 1;
        }
        assert(chunks@.take(k as int) =~= chunks@);
        i = i + 1;
    }
    true
}

/// The version that the file of the current version names: one decimal number,
/// with white space around it at most.
pub open spec fn version_spec(content: Seq<char>) -> Option<u64> {
    let list = words::words(content);
    if list.len() == 1 {
        text::u64_spec(encode_utf8(list[0]))
    } else {
        None
    }
}

/// The version that the file of the current version names. `None` stands for a
/// file that is not there, and then there is no version.
pub fn current_version(content: Option<&str>) -> (version: Result<Option<u64>, BadVersion>)
    ensures
        match (content, version) {
            (None, Ok(None)) => true,
            (Some(c), Ok(Some(v))) => version_spec(c@) == Some(v),
            (Some(c), Err(_)) => version_spec(c@) is None,
            _ => false,
        },
        match (content, version) {
            (Some(c), Ok(v)) => v is Some && words::words(c@).len() == 1 && text::u64_spec(
                encode_utf8(words::words(c@)[0]),
            ) == v,
            (Some(c), Err(_)) => words::words(c@).len() != 1 || text::u64_spec(encode_utf8(words::words(c@)[0])) is None,
            (None, v) => v is Ok && v->Ok_0 is None,
        },
{
    match content {
        None => Ok(None),
        Some(c) => {
            let list = words::split_words(c);
            if list.len() != 1 {
                return Err(BadVersion);
            }
            assert(list@[0]@ == words::words(c@)[0]);
            match text::parse_u64_bytes(list[0].as_str().as_bytes()) {
                Some(v) => Ok(Some(v)),
                None => Err(BadVersion),
            }
        },
    }
}

/// The file of the current version names none.
#[derive(Debug, Clone, Copy, PartialEq, Eq)]
pub struct BadVersion;

impl BadVersion {
    /// What to tell a user.
    pub fn message(&self) -> (out: &'static str)
        ensures
            out@ == "当前版本号非法"@,
    {
        "当前版本号非法"
    }
}

/// The range of a chunk in the pieces of a file.
pub proof fn lemma_piece_range(pieces: Seq<Seq<u8>>, chunks: Seq<ChunkMeta>, k: int)
    requires
        pieces.len() == chunks.len(),
        0 <= k < pieces.len(),
        forall|i: int| 0 <= i < pieces.len() ==> (#[trigger] pieces[i]).len() == chunks[i].len,
    ensures
        ({
            let at = manifest::total_len(chunks.take(k)) as int;
            &&& at + pieces[k].len() <= chunker::joined(pieces).len()
            &&& chunker::joined(pieces).subrange(at, at + pieces[k].len()) == pieces[k]
        }),
    decreases pieces.len(),
{
    let init = pieces.drop_last();
    let at = manifest::total_len(chunks.take(k)) as int;
    assert forall|i: int| 0 <= i < init.len() implies (#[trigger] init[i]).len() == chunks.drop_last()[i].len by {
        assert(init[i] == pieces[i]);
    }
    if k < init.len() {
        lemma_piece_range(init, chunks.drop_last(), k);
        assert(chunks.drop_last().take(k) =~= chunks.take(k));
        assert(chunker::joined(pieces).subrange(at, at + pieces[k].len()) =~= pieces[k]);
    } else {
        assert(chunks.take(k) =~= chunks.drop_last());
        chunker::lemma_joined_len(init, chunks.drop_last());
        assert(chunker::joined(pieces).subrange(at, at + pieces[k].len()) =~= pieces[k]);
    }
}

/// The place of a chunk holds the chunk: where a file is made of its chunks, in
/// order, the range of a place reads the bytes of its chunk.
pub proof fn place_reads_chunk(
    files: Seq<FileEntry>,
    hash: [u8; 32],
    place: FilePlace,
    k: int,
    pieces: Seq<Seq<u8>>,
)
    requires
        is_first_place(files, hash, place, k),
        pieces.len() == files[place.file as int].chunks@.len(),
        forall|i: int| 0 <= i < pieces.len() ==> (#[trigger] pieces[i]).len()
            == files[place.file as int].chunks@[i].len,
    ensures
        place.offset + place.len <= chunker::joined(pieces).len(),
        chunker::joined(pieces).subrange(place.offset as int, place.offset + place.len) == pieces[k],
{
    lemma_piece_range(pieces, files[place.file as int].chunks@, k);
    assert(pieces[k].len() == place.len);
}

/// Whether a file name is that of a temporary block.
pub open spec fn is_block_file(name: Seq<u8>) -> bool {
    name.len() > 4 && text::ends(name, seq![46u8, 98, 108, 107])
}

/// Whether a temporary block is to be removed: its name ends in `.blk`, and
/// it was last written longer ago than the time to live. The times are
/// nanoseconds since a common start; a time in the future counts as now.
pub fn is_expired(name: &str, now: u128, modified: u128, ttl_hours: u64) -> (expired: bool)
    ensures
        expired == (is_block_file(encode_utf8(name@)) && now - modified > ttl_hours * 3_600_000_000_000int),
        expired <==> encode_utf8(name@).len() > 4 && encode_utf8(name@).skip(encode_utf8(name@).len() - 4)
            == seq![46u8, 98, 108, 107] && now - modified > ttl_hours * 3600 * 1_000_000_000int,
{
    let b = name.as_bytes();
    let suffix: [u8; 4] = [46, 98, 108, 107];
    assert(suffix@ =~= seq![46u8, 98, 108, 107]);
    if b.len() <= 4 || !text::bytes_end(b, suffix.as_slice()) {
        return false;
    }
    let age: u128 = if now > modified {
        now - modified
    } else {
        0
    };
    age > ttl_hours as u128 * 3_600_000_000_000
}

} // verus!
