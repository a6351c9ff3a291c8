//! The binary form of a version manifest (`.gameindex`).
//!
//! ```text
//! magic "BLZGI" | version u16 | flags u16 | file count u32
//! per file:  name length u16 | name | file hash | chunk count u32
//! per chunk: hash | length u32
//! BLAKE3 hash of all of the above
//! ```
//!
//! Integers are little-endian, hashes are 32 bytes.
use vstd::prelude::*;
use vstd::utf8::*;

use crate::common::bytes;
use crate::common::chunk_set;
use crate::common::chunk_set::ChunkSet;
use crate::common::digest;
use crate::common::order;
use crate::common::text;
use crate::producer::chunker::ChunkMeta;

verus! {

broadcast use vstd::array::group_array_axioms;

/// The first bytes of every manifest: `BLZGI`.
pub const MAGIC: [u8; 5] = [66, 76, 90, 71, 73];

/// The format version that `GameIndex::build` writes.
pub const FORMAT_VERSION: u16 = 1;

/// A file of a game version: its relative name, the hash of its content, and
/// its chunks in order.
#[derive(Debug, Clone, PartialEq, Eq)]
pub struct FileEntry {
    pub name: String,
    pub file_hash: [u8; 32],
    pub chunks: Vec<ChunkMeta>,
}

/// A version manifest.
#[derive(Debug, Clone, PartialEq, Eq)]
pub struct GameIndex {
    pub format_version: u16,
    pub files: Vec<FileEntry>,
    /// BLAKE3 hash of the encoded manifest without this hash.
    pub manifest_hash: [u8; 32],
}

/// Why bytes are not a manifest.
#[derive(Debug, Clone, Copy, PartialEq, Eq, Structural)]
pub enum ManifestError {
    /// Fewer bytes than an empty manifest has.
    TooShort,
    /// The first bytes are not the magic.
    BadMagic,
    /// The data ends inside a file entry.
    Truncated,
    /// A file name is not UTF-8.
    NameNotUtf8,
    /// Bytes are left between the last file entry and the hash.
    TrailingData,
    /// The hash at the end is not that of the rest.
    HashMismatch,
}

impl ManifestError {
    /// What to tell a user.
    pub open spec fn text(self) -> Seq<char> {
        match self {
            ManifestError::TooShort => "清单长度不足"@,
            ManifestError::BadMagic => "清单 magic 错误"@,
            ManifestError::Truncated => "failed to fill whole buffer"@,
            ManifestError::NameNotUtf8 => "文件名不是 UTF-8"@,
            ManifestError::TrailingData => "清单存在多余数据"@,
            ManifestError::HashMismatch => "清单哈希校验失败"@,
        }
    }

    /// What to tell a user.
    pub fn message(&self) -> (text: String)
        ensures
            text@ == self.text(),
            text@ == (match *self {
                ManifestError::TooShort => "清单长度不足"@,
                ManifestError::BadMagic => "清单 magic 错误"@,
                ManifestError::Truncated => "failed to fill whole buffer"@,
                ManifestError::NameNotUtf8 => "文件名不是 UTF-8"@,
                ManifestError::TrailingData => "清单存在多余数据"@,
                ManifestError::HashMismatch => "清单哈希校验失败"@,
            }),
    {
        let text: &str = match self {
            ManifestError::TooShort => "清单长度不足",
            ManifestError::BadMagic => "清单 magic 错误",
            ManifestError::Truncated => "failed to fill whole buffer",
            ManifestError::NameNotUtf8 => "文件名不是 UTF-8",
            ManifestError::TrailingData => "清单存在多余数据",
            ManifestError::HashMismatch => "清单哈希校验失败",
        };
        text.to_owned()
    }
}

/// What a file entry says.
#[verifier::ext_equal]
pub struct FileView {
    pub name: Seq<char>,
    pub file_hash: Seq<u8>,
    pub chunks: Seq<(Seq<u8>, u32)>,
}

/// What a manifest says.
#[verifier::ext_equal]
pub struct IndexView {
    pub format_version: u16,
    pub files: Seq<FileView>,
    pub manifest_hash: Seq<u8>,
}

/// What chunk descriptions say.
pub open spec fn chunk_views(chunks: Seq<ChunkMeta>) -> Seq<(Seq<u8>, u32)> {
    chunks.map_values(|c: ChunkMeta| c@)
}

/// What file entries say.
pub open spec fn file_views(files: Seq<FileEntry>) -> Seq<FileView> {
    files.map_values(|f: FileEntry| f@)
}

impl View for FileEntry {
    type V = FileView;

    open spec fn view(&self) -> FileView {
        FileView { name: self.name@, file_hash: self.file_hash@, chunks: chunk_views(self.chunks@) }
    }
}

impl View for GameIndex {
    type V = IndexView;

    open spec fn view(&self) -> IndexView {
        IndexView {
            format_version: self.format_version,
            files: file_views(self.files@),
            manifest_hash: self.manifest_hash@,
        }
    }
}

/// The encoding of a chunk description.
pub open spec fn chunk_bytes(c: (Seq<u8>, u32)) -> Seq<u8> {
    c.0 + bytes::le_bytes(c.1 as nat, 4)
}

/// The encodings of chunk descriptions, one after the other.
pub open spec fn chunks_bytes(chunks: Seq<(Seq<u8>, u32)>) -> Seq<u8>
    decreases chunks.len(),
{
    if chunks.len() == 0 {
        Seq::empty()
    } else {
        chunks_bytes(chunks.drop_last()) + chunk_bytes(chunks.last())
    }
}

/// The encoding of a file entry. Lengths that do not fit keep their low bytes.
pub open spec fn file_bytes(f: FileView) -> Seq<u8> {
    bytes::le_bytes(encode_utf8(f.name).len(), 2) + encode_utf8(f.name) + f.file_hash + bytes::le_bytes(f.chunks.len(), 4)
        + chunks_bytes(f.chunks)
}

/// The encodings of file entries, one after the other.
pub open spec fn files_bytes(files: Seq<FileView>) -> Seq<u8>
    decreases files.len(),
{
    if files.len() == 0 {
        Seq::empty()
    } else {
        files_bytes(files.drop_last()) + file_bytes(files.last())
    }
}

/// The fixed-length start of a manifest.
pub open spec fn header_bytes(version: u16, flags: nat, file_count: nat) -> Seq<u8> {
    MAGIC@ + bytes::le_bytes(version as nat, 2) + bytes::le_bytes(flags, 2) + bytes::le_bytes(file_count, 4)
}

/// The encoding of a manifest without its hash.
pub open spec fn body_bytes(version: u16, files: Seq<FileView>) -> Seq<u8> {
    header_bytes(version, 0, files.len()) + files_bytes(files)
}

/// The encoding of a manifest.
pub open spec fn index_bytes(index: IndexView) -> Seq<u8> {
    body_bytes(index.format_version, index.files) + index.manifest_hash
}

/// The file entry at the start of `s`, and its length in bytes.
pub open spec fn parse_file(s: Seq<u8>) -> Result<(FileView, int), ManifestError> {
    let name_len = bytes::le_value(s.subrange(0, 2)) as int;
    let at_count = 2 + name_len + 32;
    let count = bytes::le_value(s.subrange(at_count, at_count + 4)) as int;
    let used = at_count + 4 + 36 * count;
    if s.len() < 2 || s.len() < 2 + name_len {
        Err(ManifestError::Truncated)
    } else if !valid_utf8(s.subrange(2, 2 + name_len)) {
        Err(ManifestError::NameNotUtf8)
    } else if s.len() < at_count + 4 || s.len() < used {
        Err(ManifestError::Truncated)
    } else {
        Ok(
            (
                FileView {
                    name: decode_utf8(s.subrange(2, 2 + name_len)),
                    file_hash: s.subrange(2 + name_len, at_count),
                    chunks: parse_chunks(s.subrange(at_count + 4, used), count as nat),
                },
                used,
            ),
        )
    }
}

/// The `count` chunk descriptions in `s`.
pub open spec fn parse_chunks(s: Seq<u8>, count: nat) -> Seq<(Seq<u8>, u32)> {
    Seq::new(
        count,
        |i: int| (s.subrange(36 * i, 36 * i + 32), bytes::le_value(s.subrange(36 * i + 32, 36 * i + 36)) as u32),
    )
}

/// The `count` file entries at the start of `s`, and their length in bytes.
pub open spec fn parse_files(s: Seq<u8>, count: nat) -> Result<(Seq<FileView>, int), ManifestError>
    decreases count,
{
    if count == 0 {
        Ok((Seq::empty(), 0))
    } else {
        match parse_file(s) {
            Err(e) => Err(e),
            Ok((f, used)) => match parse_files(s.skip(used), (count - 1) as nat) {
                Err(e) => Err(e),
                Ok((rest, more)) => Ok((seq![f] + rest, used + more)),
            },
        }
    }
}

/// The manifest that `b` encodes, or what is wrong with `b`.
pub open spec fn decode_spec(b: Seq<u8>) -> Result<IndexView, ManifestError> {
    let body = b.take(b.len() - 32);
    let tail = b.skip(b.len() - 32);
    if b.len() < 45 {
        Err(ManifestError::TooShort)
    } else if body.take(5) != MAGIC@ {
        Err(ManifestError::BadMagic)
    } else {
        match parse_files(body.skip(13), bytes::le_value(body.subrange(9, 13))) {
            Err(e) => Err(e),
            Ok((files, used)) => if 13 + used != body.len() {
                Err(ManifestError::TrailingData)
            } else if digest::blake3_digest(body) != tail {
                Err(ManifestError::HashMismatch)
            } else {
                Ok(
                    IndexView {
                        format_version: bytes::le_value(body.subrange(5, 7)) as u16,
                        files,
                        manifest_hash: tail,
                    },
                )
            },
        }
    }
}

impl GameIndex {
    /// A manifest of `files`, with its hash.
    pub fn build(files: Vec<FileEntry>) -> (index: Self)
        ensures
            index.format_version == FORMAT_VERSION,
            index.files@ == files@,
            index.manifest_hash@ == digest::blake3_digest(body_bytes(FORMAT_VERSION, file_views(files@))),
    {
        let mut index = GameIndex { format_version: FORMAT_VERSION, files, manifest_hash: [0u8; 32] };
        let body = index.encode_body();
        index.manifest_hash = digest::blake3_hash(body.as_slice());
        index
    }

    /// The manifest as bytes, hash at the end.
    pub fn encode(&self) -> (bytes: Result<Vec<u8>, ManifestError>)
        ensures
            bytes matches Ok(b) && b@ == index_bytes(self@),
    {
        let mut body = self.encode_body();
        bytes::push_bytes(&mut body, self.manifest_hash.as_slice());
        Ok(body)
    }

    /// The manifest as bytes, without the hash.
    pub fn encode_body(&self) -> (out: Vec<u8>)
        ensures
            out@ == body_bytes(self.format_version, file_views(self.files@)),
    {
        let mut out: Vec<u8> = Vec::new();
        bytes::push_bytes(&mut out, MAGIC.as_slice());
        bytes::push_u16_le(&mut out, self.format_version);
        bytes::push_u16_le(&mut out, 0);
        bytes::push_le(&mut out, self.files.len() as u64, 4);
        let ghost head = header_bytes(self.format_version, 0, self.files@.len());
        assert(out@ =~= head);
        let ghost all = file_views(self.files@);
        let mut i: usize = 0;
        assert(all.take(0) =~= Seq::empty());
        assert(out@ =~= head + files_bytes(all.take(0)));
        while i < self.files.len()
            invariant
                i <= self.files@.len(),
                all == file_views(self.files@),
                out@ == head + files_bytes(all.take(i as int)),
            decreases self.files.len() - i,
        {
            push_file(&mut out, &self.files[i]);
            i = i + 1;
            proof {
                assert(all.take(i as int).drop_last() =~= all.take(i - 1));
                assert(all.take(i as int).last() == self.files@[i - 1]@);
                assert(out@ =~= head + files_bytes(all.take(i as int)));
            }
        }
        assert(all.take(i as int) =~= all);
        out
    }
}

/// Appends the encoding of a file entry.
fn push_file(out: &mut Vec<u8>, file: &FileEntry)
    ensures
        final(out)@ == old(out)@ + file_bytes(file@),
{
    let name = file.name.as_str().as_bytes();
    bytes::push_le(out, name.len() as u64, 2);
    bytes::push_bytes(out, name);
    bytes::push_bytes(out, file.file_hash.as_slice());
    bytes::push_le(out, file.chunks.len() as u64, 4);
    let ghost head = bytes::le_bytes(encode_utf8(file.name@).len(), 2) + encode_utf8(file.name@) + file.file_hash@
        + bytes::le_bytes(file.chunks@.len(), 4);
    let ghost start = out@;
    assert(start =~= old(out)@ + head);
    let ghost all = chunk_views(file.chunks@);
    let mut i: usize = 0;
    assert(all.take(0) =~= Seq::empty());
    assert(out@ =~= start + chunks_bytes(all.take(0)));
    while i < file.chunks.len()
        invariant
            i <= file.chunks@.len(),
            all == chunk_views(file.chunks@),
            out@ == start + chunks_bytes(all.take(i as int)),
        decreases file.chunks.len() - i,
    {
        bytes::push_bytes(out, file.chunks[i].hash.as_slice());
        bytes::push_u32_le(out, file.chunks[i].len);
        i = i + 1;
        proof {
            assert(all.take(i as int).drop_last() =~= all.take(i - 1));
            assert(all.take(i as int).last() == file.chunks@[i - 1]@);
            assert(out@ =~= start + chunks_bytes(all.take(i as int)));
        }
    }
    assert(all.take(i as int) =~= all);
    assert(out@ =~= old(out)@ + file_bytes(file@));
}

/// Reads the file entry at `at`; also gives the position after it.
fn read_file(data: &[u8], at: usize) -> (r: Result<(FileEntry, usize), ManifestError>)
    requires
        at <= data@.len(),
    ensures
        match r {
            Ok((f, next)) => at <= next <= data@.len() && parse_file(data@.skip(at as int)) == Ok::<
                (FileView, int),
                ManifestError,
            >((f@, next - at)),
            Err(e) => parse_file(data@.skip(at as int)) == Err::<(FileView, int), ManifestError>(e),
        },
{
    let ghost s = data@.skip(at as int);
    let left: usize = data.len() - at;
    if left < 2 {
        return Err(ManifestError::Truncated);
    }
    let name_len: usize = bytes::u16_le_at(data, at) as usize;
    assert(data@.subrange(at as int, at + 2) =~= s.subrange(0, 2));
    if left - 2 < name_len {
        return Err(ManifestError::Truncated);
    }
    let name_bytes = vstd::slice::slice_to_vec(vstd::slice::slice_subrange(data, at + 2, at + 2 + name_len));
    assert(name_bytes@ =~= s.subrange(2, 2 + name_len));
    let name = match text::text_from_utf8(name_bytes) {
        None => {
            return Err(ManifestError::NameNotUtf8);
        },
        Some(t) => t,
    };
    proof {
        encode_utf8_valid_utf8(name@);
        encode_utf8_decode_utf8(name@);
    }
    if left - 2 - name_len < 36 {
        return Err(ManifestError::Truncated);
    }
    let at_hash: usize = at + 2 + name_len;
    let file_hash = chunk_set::hash_at(data, at_hash);
    let count: u32 = bytes::u32_le_at(data, at_hash + 32);
    let ghost at_count = 2 + name_len + 32;
    assert(data@.subrange(at_hash + 32, at_hash + 36) =~= s.subrange(at_count, at_count + 4));
    assert(file_hash@ =~= s.subrange(2 + name_len, at_count));
    let rest: usize = left - 2 - name_len - 36;
    if ((rest / 36) as u64) < count as u64 {
        return Err(ManifestError::Truncated);
    }
    let first: usize = at_hash + 36;
    let n: usize = count as usize;
    let ghost used = at_count + 4 + 36 * count;
    let ghost table = s.subrange(at_count + 4, used);
    let ghost want = parse_chunks(table, count as nat);
    let mut chunks: Vec<ChunkMeta> = Vec::new();
    let mut i: usize = 0;
    while i < n
        invariant
            i <= n,
            n == count,
            36 * n <= rest,
            first + rest == data.len(),
            data.len() == data@.len(),
            table == data@.subrange(first as int, first + 36 * n),
            want == parse_chunks(table, count as nat),
            chunks@.len() == i,
            forall|j: int| 0 <= j < i ==> (#[trigger] chunks@[j])@ == want[j],
        decreases n - i,
    {
        let hash = chunk_set::hash_at(data, first + 36 * i);
        let len: u32 = bytes::u32_le_at(data, first + 36 * i + 32);
        proof {
            assert(data@.subrange(first + 36 * i, first + 36 * i + 32) =~= table.subrange(36 * i, 36 * i + 32));
            assert(data@.subrange(first + 36 * i + 32, first + 36 * i + 36) =~= table.subrange(
                36 * i + 32,
                36 * i + 36,
            ));
        }
        chunks.push(ChunkMeta { hash, len });
        i = i + 1;
    }
    let f = FileEntry { name, file_hash, chunks };
    assert(chunk_views(f.chunks@) =~= want);
    Ok((f, first + 36 * n))
}

/// What `parse_files` gives of a longer input whose first entries are known.
spec fn prefixed(
    done: Seq<FileView>,
    at: int,
    rest: Result<(Seq<FileView>, int), ManifestError>,
) -> Result<(Seq<FileView>, int), ManifestError> {
    match rest {
        Err(e) => Err(e),
        Ok((fs, used)) => Ok((done + fs, at + used)),
    }
}

impl GameIndex {
    /// The manifest that `data` encodes.
    pub fn decode(data: &[u8]) -> (r: Result<GameIndex, ManifestError>)
        ensures
            match r {
                Ok(index) => decode_spec(data@) == Ok::<IndexView, ManifestError>(index@),
                Err(e) => decode_spec(data@) == Err::<IndexView, ManifestError>(e),
            },
    {
        if data.len() < 45 {
            return Err(ManifestError::TooShort);
        }
        let body_len: usize = data.len() - 32;
        let body = vstd::slice::slice_subrange(data, 0, body_len);
        assert(body@ =~= data@.take(data@.len() - 32));
        if !text::same_bytes(vstd::slice::slice_subrange(body, 0, 5), MAGIC.as_slice()) {
            assert(body@.subrange(0, 5) =~= body@.take(5));
            return Err(ManifestError::BadMagic);
        }
        assert(body@.subrange(0, 5) =~= body@.take(5));
        let format_version: u16 = bytes::u16_le_at(body, 5);
        let file_count: u32 = bytes::u32_le_at(body, 9);
        let ghost whole = parse_files(body@.skip(13), file_count as nat);
        let mut files: Vec<FileEntry> = Vec::new();
        let mut at: usize = 13;
        let mut i: u32 = 0;
        proof {
            assert(body@.skip(13).skip(0) =~= body@.skip(13));
            match whole {
                Ok((fs, _)) => {
                    assert(file_views(files@) + fs =~= fs);
                },
                Err(_) => {},
            }
        }
        while i < file_count
            invariant
                i <= file_count,
                13 <= at <= body@.len(),
                whole == prefixed(
                    file_views(files@),
                    at - 13,
                    parse_files(body@.skip(at as int), (file_count - i) as nat),
                ),
                data@.len() >= 45,
                body@ == data@.take(data@.len() - 32),
                body@.take(5) == MAGIC@,
                file_count == bytes::le_value(body@.subrange(9, 13)),
                whole == parse_files(body@.skip(13), file_count as nat),
            decreases file_count - i,
        {
            match read_file(body, at) {
                Err(e) => {
                    return Err(e);
                },
                Ok((f, next)) => {
                    let ghost before = file_views(files@);
                    proof {
                        assert(body@.skip(at as int).skip(next - at) =~= body@.skip(next as int));
                        match parse_files(body@.skip(next as int), (file_count - i - 1) as nat) {
                            Ok((rest, _)) => {
                                assert(before + (seq![f@] + rest) =~= before.push(f@) + rest);
                            },
                            Err(_) => {},
                        }
                    }
                    files.push(f);
                    assert(file_views(files@) =~= before.push(f@));
                    at = next;
                },
            }
            i = i + 1;
        }
        assert(whole == Ok::<(Seq<FileView>, int), ManifestError>((file_views(files@), at - 13))) by {
            assert(file_views(files@) + Seq::<FileView>::empty() =~= file_views(files@));
        }
        if at != body_len {
            return Err(ManifestError::TrailingData);
        }
        let manifest_hash = chunk_set::hash_at(data, body_len);
        assert(data@.subrange(body_len as int, body_len + 32) =~= data@.skip(data@.len() - 32));
        let actual = digest::blake3_hash(body);
        if !text::same_bytes(actual.as_slice(), manifest_hash.as_slice()) {
            return Err(ManifestError::HashMismatch);
        }
        Ok(GameIndex { format_version, files, manifest_hash })
    }
}

/// Whether every length of a file entry fits its field.
pub open spec fn file_fits(f: FileView) -> bool {
    &&& encode_utf8(f.name).len() <= 0xffff
    &&& f.file_hash.len() == 32
    &&& f.chunks.len() <= 0xffff_ffff
    &&& forall|i: int| 0 <= i < f.chunks.len() ==> (#[trigger] f.chunks[i]).0.len() == 32
}

/// Whether every length of a manifest fits its field.
pub open spec fn index_fits(index: IndexView) -> bool {
    &&& index.files.len() <= 0xffff_ffff
    &&& index.manifest_hash.len() == 32
    &&& forall|i: int| 0 <= i < index.files.len() ==> file_fits(#[trigger] index.files[i])
}

proof fn lemma_widths()
    ensures
        bytes::width_bound(2) == 0x1_0000,
        bytes::width_bound(4) == 0x1_0000_0000,
{
    reveal_with_fuel(bytes::width_bound, 5);
}

proof fn lemma_chunks_bytes(chunks: Seq<(Seq<u8>, u32)>)
    requires
        forall|i: int| 0 <= i < chunks.len() ==> (#[trigger] chunks[i]).0.len() == 32,
    ensures
        chunks_bytes(chunks).len() == 36 * chunks.len(),
        forall|i: int| 0 <= i < chunks.len() ==> chunks_bytes(chunks).subrange(36 * i, 36 * i + 36) == chunk_bytes(
            #[trigger] chunks[i],
        ),
    decreases chunks.len(),
{
    if chunks.len() > 0 {
        let init = chunks.drop_last();
        let n = init.len() as int;
        assert forall|i: int| 0 <= i < init.len() implies (#[trigger] init[i]).0.len() == 32 by {
            assert(init[i] == chunks[i]);
        }
        lemma_chunks_bytes(init);
        bytes::lemma_le_bytes_len(chunks.last().1 as nat, 4);
        assert(chunks[n].0.len() == 32);
        let all = chunks_bytes(chunks);
        assert forall|i: int| 0 <= i < chunks.len() implies all.subrange(36 * i, 36 * i + 36) == chunk_bytes(
            #[trigger] chunks[i],
        ) by {
            if i < n {
                assert(init[i] == chunks[i]);
                assert(all.subrange(36 * i, 36 * i + 36) =~= chunks_bytes(init).subrange(36 * i, 36 * i + 36));
            } else {
                assert(all.subrange(36 * i, 36 * i + 36) =~= chunk_bytes(chunks.last()));
            }
        }
    }
}

proof fn lemma_parse_chunks_of_bytes(chunks: Seq<(Seq<u8>, u32)>)
    requires
        forall|i: int| 0 <= i < chunks.len() ==> (#[trigger] chunks[i]).0.len() == 32,
    ensures
        parse_chunks(chunks_bytes(chunks), chunks.len()) == chunks,
{
    lemma_chunks_bytes(chunks);
    lemma_widths();
    let all = chunks_bytes(chunks);
    let got = parse_chunks(all, chunks.len());
    assert forall|i: int| 0 <= i < chunks.len() implies got[i] == chunks[i] by {
        let piece = all.subrange(36 * i, 36 * i + 36);
        assert(piece == chunk_bytes(chunks[i]));
        bytes::lemma_le_roundtrip(chunks[i].1 as nat, 4);
        assert(all.subrange(36 * i, 36 * i + 32) =~= piece.subrange(0, 32));
        assert(all.subrange(36 * i + 32, 36 * i + 36) =~= piece.subrange(32, 36));
        assert(piece.subrange(0, 32) =~= chunks[i].0);
        assert(piece.subrange(32, 36) =~= bytes::le_bytes(chunks[i].1 as nat, 4));
    }
    assert(got =~= chunks);
}

proof fn lemma_parse_file_of_bytes(f: FileView, rest: Seq<u8>)
    requires
        file_fits(f),
    ensures
        parse_file(file_bytes(f) + rest) == Ok::<(FileView, int), ManifestError>((f, file_bytes(f).len() as int)),
{
    lemma_widths();
    let name = encode_utf8(f.name);
    let s = file_bytes(f) + rest;
    let table = chunks_bytes(f.chunks);
    lemma_chunks_bytes(f.chunks);
    lemma_parse_chunks_of_bytes(f.chunks);
    bytes::lemma_le_roundtrip(name.len(), 2);
    bytes::lemma_le_roundtrip(f.chunks.len(), 4);
    encode_utf8_valid_utf8(f.name);
    encode_utf8_decode_utf8(f.name);
    let at_count = 2 + name.len() as int + 32;
    assert(s.subrange(0, 2) =~= bytes::le_bytes(name.len(), 2));
    assert(s.subrange(2, 2 + name.len() as int) =~= name);
    assert(s.subrange(2 + name.len() as int, at_count) =~= f.file_hash);
    assert(s.subrange(at_count, at_count + 4) =~= bytes::le_bytes(f.chunks.len(), 4));
    let used = at_count + 4 + 36 * f.chunks.len();
    assert(s.subrange(at_count + 4, used) =~= table);
    assert(file_bytes(f).len() == used);
}

proof fn lemma_files_bytes_front(files: Seq<FileView>)
    requires
        files.len() > 0,
    ensures
        files_bytes(files) == file_bytes(files[0]) + files_bytes(files.skip(1)),
    decreases files.len(),
{
    let init = files.drop_last();
    if files.len() == 1 {
        assert(files.skip(1) =~= Seq::empty());
        assert(init =~= Seq::empty());
        assert(files_bytes(files) =~= file_bytes(files[0]) + files_bytes(files.skip(1)));
    } else {
        lemma_files_bytes_front(init);
        assert(init.skip(1) =~= files.skip(1).drop_last());
        assert(files_bytes(files) =~= file_bytes(files[0]) + files_bytes(files.skip(1)));
    }
}

proof fn lemma_parse_files_of_bytes(files: Seq<FileView>, rest: Seq<u8>)
    requires
        forall|i: int| 0 <= i < files.len() ==> file_fits(#[trigger] files[i]),
    ensures
        parse_files(files_bytes(files) + rest, files.len()) == Ok::<(Seq<FileView>, int), ManifestError>(
            (files, files_bytes(files).len() as int),
        ),
    decreases files.len(),
{
    let s = files_bytes(files) + rest;
    if files.len() > 0 {
        lemma_files_bytes_front(files);
        let tail = files.skip(1);
        let head = file_bytes(files[0]);
        let after = files_bytes(tail) + rest;
        assert(s =~= head + after);
        lemma_parse_file_of_bytes(files[0], after);
        assert forall|i: int| 0 <= i < tail.len() implies file_fits(#[trigger] tail[i]) by {
            assert(tail[i] == files[i + 1]);
        }
        lemma_parse_files_of_bytes(tail, rest);
        assert(s.skip(head.len() as int) =~= after);
        assert(seq![files[0]] + tail =~= files);
    } else {
        assert(files =~= Seq::empty());
    }
}

/// Decoding an encoded manifest gives the manifest back, provided that its
/// lengths fit their fields and that its hash is that of its body.
pub proof fn decode_of_encode(index: IndexView)
    requires
        index_fits(index),
        index.manifest_hash == digest::blake3_digest(body_bytes(index.format_version, index.files)),
    ensures
        decode_spec(index_bytes(index)) == Ok::<IndexView, ManifestError>(index),
{
    lemma_widths();
    let b = index_bytes(index);
    let body = body_bytes(index.format_version, index.files);
    let head = header_bytes(index.format_version, 0, index.files.len());
    bytes::lemma_le_roundtrip(index.format_version as nat, 2);
    bytes::lemma_le_bytes_len(0, 2);
    bytes::lemma_le_roundtrip(index.files.len(), 4);
    assert(MAGIC@.len() == 5);
    assert(head.len() == 13);
    assert(b.take(b.len() - 32) =~= body);
    assert(b.skip(b.len() - 32) =~= index.manifest_hash);
    assert(body.take(5) =~= MAGIC@);
    assert(body.subrange(5, 7) =~= bytes::le_bytes(index.format_version as nat, 2));
    assert(body.subrange(9, 13) =~= bytes::le_bytes(index.files.len(), 4));
    assert(body.skip(13) =~= files_bytes(index.files) + Seq::<u8>::empty());
    lemma_parse_files_of_bytes(index.files, Seq::empty());
}

proof fn lemma_chunks_bytes_of_parse(s: Seq<u8>, count: nat)
    requires
        s.len() == 36 * count,
    ensures
        chunks_bytes(parse_chunks(s, count)) == s,
    decreases count,
{
    let got = parse_chunks(s, count);
    if count == 0 {
        assert(s =~= Seq::empty());
    } else {
        let init = s.take(36 * (count - 1));
        lemma_chunks_bytes_of_parse(init, (count - 1) as nat);
        let shorter = parse_chunks(init, (count - 1) as nat);
        assert forall|i: int| 0 <= i < count - 1 implies shorter[i] == got[i] by {
            assert(init.subrange(36 * i, 36 * i + 32) =~= s.subrange(36 * i, 36 * i + 32));
            assert(init.subrange(36 * i + 32, 36 * i + 36) =~= s.subrange(36 * i + 32, 36 * i + 36));
        }
        assert(got.drop_last() =~= shorter);
        let last = s.subrange(36 * (count - 1) + 32, 36 * (count - 1) + 36);
        lemma_widths();
        bytes::lemma_le_value_bytes(last);
        assert(chunk_bytes(got.last()) =~= s.subrange(36 * (count - 1), 36 * (count - 1) + 36));
        assert(chunks_bytes(got) =~= s);
    }
}

proof fn lemma_file_bytes_of_parse(s: Seq<u8>)
    ensures
        match parse_file(s) {
            Ok((f, used)) => 0 <= used <= s.len() && file_bytes(f) == s.take(used) && file_fits(f),
            Err(_) => true,
        },
{
    if let Ok((f, used)) = parse_file(s) {
        lemma_widths();
        let name = s.subrange(2, 2 + le_len(s));
        bytes::lemma_le_value_bytes(s.subrange(0, 2));
        let at_count = 2 + name.len() as int + 32;
        bytes::lemma_le_value_bytes(s.subrange(at_count, at_count + 4));
        decode_utf8_encode_utf8(name);
        let table = s.subrange(at_count + 4, used);
        let count = bytes::le_value(s.subrange(at_count, at_count + 4));
        lemma_chunks_bytes_of_parse(table, count);
        assert(file_bytes(f) =~= s.take(used));
    }
}

spec fn le_len(s: Seq<u8>) -> int {
    bytes::le_value(s.subrange(0, 2)) as int
}

proof fn lemma_files_bytes_of_parse(s: Seq<u8>, count: nat)
    ensures
        match parse_files(s, count) {
            Ok((files, used)) => 0 <= used <= s.len() && files.len() == count && files_bytes(files) == s.take(used)
                && forall|i: int| 0 <= i < files.len() ==> file_fits(#[trigger] files[i]),
            Err(_) => true,
        },
    decreases count,
{
    if count == 0 {
        assert(s.take(0) =~= Seq::empty());
    } else {
        lemma_file_bytes_of_parse(s);
        if let Ok((f, used)) = parse_file(s) {
            lemma_files_bytes_of_parse(s.skip(used), (count - 1) as nat);
            if let Ok((rest, more)) = parse_files(s.skip(used), (count - 1) as nat) {
                let files = seq![f] + rest;
                assert(files.skip(1) =~= rest);
                lemma_files_bytes_front(files);
                assert(files_bytes(files) =~= s.take(used + more));
                assert forall|i: int| 0 <= i < files.len() implies file_fits(#[trigger] files[i]) by {
                    if i > 0 {
                        assert(files[i] == rest[i - 1]);
                    }
                }
            }
        }
    }
}

/// What decodes is an encoding: the accepted bytes are those of the decoded
/// manifest, up to the two flag bytes, which are not kept, and the hash at
/// their end is that of all bytes before it.
pub proof fn decode_accepts_encodings(b: Seq<u8>)
    ensures
        decode_spec(b) matches Ok(index) ==> {
            &&& index_fits(index)
            &&& b == header_bytes(
                index.format_version,
                bytes::le_value(b.subrange(7, 9)),
                index.files.len(),
            ) + files_bytes(index.files) + index.manifest_hash
            &&& index.manifest_hash == digest::blake3_digest(b.take(b.len() - 32))
        },
{
    if let Ok(index) = decode_spec(b) {
        lemma_widths();
        let body = b.take(b.len() - 32);
        let count = bytes::le_value(body.subrange(9, 13));
        bytes::lemma_le_value_bytes(body.subrange(5, 7));
        bytes::lemma_le_value_bytes(body.subrange(7, 9));
        bytes::lemma_le_value_bytes(body.subrange(9, 13));
        lemma_files_bytes_of_parse(body.skip(13), count);
        assert(b.subrange(7, 9) =~= body.subrange(7, 9));
        assert(body.skip(13).take(body.len() - 13) =~= body.skip(13));
        assert(b =~= header_bytes(
            index.format_version,
            bytes::le_value(b.subrange(7, 9)),
            index.files.len(),
        ) + files_bytes(index.files) + index.manifest_hash);
    }
}

/// What an entry says is all that it holds.
pub proof fn entries_say_all(f: FileEntry, index: GameIndex, i: int)
    ensures
        f@.name == f.name@,
        f@.file_hash == f.file_hash@,
        f@.chunks.len() == f.chunks@.len(),
        0 <= i < f.chunks@.len() ==> f@.chunks[i] == (f.chunks@[i].hash@, f.chunks@[i].len),
        index@.format_version == index.format_version,
        index@.manifest_hash == index.manifest_hash@,
        index@.files.len() == index.files@.len(),
        0 <= i < index.files@.len() ==> index@.files[i] == index.files@[i]@,
{
}

/// Every manifest whose lengths fit their fields survives: its encoding decodes
/// to it. Names may have up to 65535 bytes; files, and chunks of a file, must be
/// fewer than 2^32.
pub proof fn manifests_read_back(version: u16, files: Seq<FileView>)
    requires
        files.len() < 0x1_0000_0000,
        forall|i: int| 0 <= i < files.len() ==> encode_utf8((#[trigger] files[i]).name).len() < 0x10000
            && files[i].file_hash.len() == 32 && files[i].chunks.len() < 0x1_0000_0000,
        forall|i: int, k: int| 0 <= i < files.len() && 0 <= k < files[i].chunks.len() ==> (
        #[trigger] files[i].chunks[k]).0.len() == 32,
    ensures
        ({
            let hash = digest::blake3_digest(body_bytes(version, files));
            let index = IndexView { format_version: version, files, manifest_hash: hash };
            hash.len() == 32 ==> decode_spec(body_bytes(version, files) + hash) == Ok::<IndexView, ManifestError>(index)
        }),
{
    let hash = digest::blake3_digest(body_bytes(version, files));
    let index = IndexView { format_version: version, files, manifest_hash: hash };
    if hash.len() == 32 {
        assert forall|i: int| 0 <= i < files.len() implies file_fits(#[trigger] files[i]) by {
            assert forall|k: int| 0 <= k < files[i].chunks.len() implies (#[trigger] files[i].chunks[k]).0.len()
                == 32 by {}
        }
        decode_of_encode(index);
    }
}

/// How a manifest is laid out: after a header of thirteen bytes come the
/// entries one after the other, each with the length of its name, the name, the
/// hash of the file, the number of its chunks, and for each chunk its hash and
/// its length.
pub proof fn manifest_layout(
    version: u16,
    a: Seq<FileView>,
    b: Seq<FileView>,
    f: FileView,
    x: Seq<(Seq<u8>, u32)>,
    y: Seq<(Seq<u8>, u32)>,
    c: (Seq<u8>, u32),
)
    ensures
        body_bytes(version, a) == seq![66u8, 76, 90, 71, 73] + bytes::le_bytes(version as nat, 2) + seq![0u8, 0]
            + bytes::le_bytes(a.len(), 4) + files_bytes(a),
        files_bytes(a + b) == files_bytes(a) + files_bytes(b),
        files_bytes(seq![f]) == bytes::le_bytes(encode_utf8(f.name).len(), 2) + encode_utf8(f.name) + f.file_hash
            + bytes::le_bytes(f.chunks.len(), 4) + chunks_bytes(f.chunks),
        chunks_bytes(x + y) == chunks_bytes(x) + chunks_bytes(y),
        chunks_bytes(seq![c]) == c.0 + bytes::le_bytes(c.1 as nat, 4),
    decreases b.len() + y.len(),
{
    bytes::little_endian_layout(0);
    assert(bytes::le_bytes(0, 2) =~= seq![0u8, 0]);
    assert(MAGIC@ =~= seq![66u8, 76, 90, 71, 73]);
    assert(body_bytes(version, a) =~= seq![66u8, 76, 90, 71, 73] + bytes::le_bytes(version as nat, 2) + seq![0u8, 0]
        + bytes::le_bytes(a.len(), 4) + files_bytes(a));
    assert(seq![f].drop_last() =~= Seq::empty());
    assert(files_bytes(seq![f].drop_last()) =~= Seq::<u8>::empty());
    assert(files_bytes(seq![f]) =~= file_bytes(f));
    assert(seq![c].drop_last() =~= Seq::empty());
    assert(chunks_bytes(seq![c].drop_last()) =~= Seq::<u8>::empty());
    assert(chunks_bytes(seq![c]) =~= chunk_bytes(c));
    if b.len() > 0 {
        manifest_layout(version, a, b.drop_last(), f, x, y, c);
        assert((a + b).drop_last() =~= a + b.drop_last());
        assert(files_bytes(a + b) =~= files_bytes(a) + files_bytes(b));
    } else {
        assert(a + b =~= a);
        assert(files_bytes(a) + files_bytes(b) =~= files_bytes(a));
        if y.len() > 0 {
            manifest_layout(version, a, b, f, x, y.drop_last(), c);
        }
    }
    if y.len() > 0 {
        assert((x + y).drop_last() =~= x + y.drop_last());
        assert(chunks_bytes(x + y) =~= chunks_bytes(x) + chunks_bytes(y));
    } else {
        assert(x + y =~= x);
        assert(chunks_bytes(x) + chunks_bytes(y) =~= chunks_bytes(x));
    }
}

/// What is not a manifest is refused: bytes that are too few, that start
/// otherwise, or whose end is not the hash of what is before it.
pub proof fn damaged_manifests_are_refused(b: Seq<u8>)
    ensures
        b.len() < 45 ==> decode_spec(b) == Err::<IndexView, ManifestError>(ManifestError::TooShort),
        b.len() >= 45 && b.take(5) != seq![66u8, 76, 90, 71, 73] ==> decode_spec(b) == Err::<IndexView, ManifestError>(
            ManifestError::BadMagic,
        ),
        decode_spec(b) is Ok ==> b.len() >= 45 && digest::blake3_digest(b.take(b.len() - 32)) == b.skip(b.len() - 32),
{
    assert(MAGIC@ =~= seq![66u8, 76, 90, 71, 73]);
    if b.len() >= 45 {
        assert(b.take(b.len() - 32).take(5) =~= b.take(5));
    }
}

/// The chunks of the files, file after file.
pub open spec fn all_chunks(files: Seq<FileEntry>) -> Seq<ChunkMeta>
    decreases files.len(),
{
    if files.len() == 0 {
        Seq::empty()
    } else {
        all_chunks(files.drop_last()) + files.last().chunks@
    }
}

/// The hashes of the chunks.
pub open spec fn hashes_of(chunks: Seq<ChunkMeta>) -> Seq<[u8; 32]> {
    chunks.map_values(|c: ChunkMeta| c.hash)
}

/// Whether one of the files has a chunk with that hash.
pub open spec fn has_chunk(files: Seq<FileView>, hash: Seq<u8>) -> bool {
    exists|i: int, j: int| #[trigger] chunk_at(files, i, j, hash)
}

/// Whether chunk `j` of file `i` has that hash.
pub open spec fn chunk_at(files: Seq<FileView>, i: int, j: int, hash: Seq<u8>) -> bool {
    0 <= i < files.len() && 0 <= j < files[i].chunks.len() && files[i].chunks[j].0 == hash
}

/// A chunk of a file is among all chunks.
pub proof fn lemma_file_chunk(files: Seq<FileEntry>, i: int, j: int)
    requires
        0 <= i < files.len(),
        0 <= j < files[i].chunks@.len(),
    ensures
        hashes_of(all_chunks(files)).contains(files[i].chunks@[j].hash),
    decreases files.len(),
{
    let init = files.drop_last();
    let all = all_chunks(files);
    let before = all_chunks(init);
    if i < init.len() {
        lemma_file_chunk(init, i, j);
        let hashes = hashes_of(before);
        let k = choose|k: int| 0 <= k < hashes.len() && hashes[k] == init[i].chunks@[j].hash;
        assert(hashes_of(all)[k] == files[i].chunks@[j].hash);
    } else {
        assert(hashes_of(all)[before.len() + j] == files[i].chunks@[j].hash);
    }
}

/// Any of all chunks is a chunk of a file.
proof fn lemma_chunk_of_file(files: Seq<FileEntry>, k: int) -> (at: (int, int))
    requires
        0 <= k < all_chunks(files).len(),
    ensures
        0 <= at.0 < files.len(),
        0 <= at.1 < files[at.0].chunks@.len(),
        files[at.0].chunks@[at.1] == all_chunks(files)[k],
    decreases files.len(),
{
    let before = all_chunks(files.drop_last());
    if k < before.len() {
        lemma_chunk_of_file(files.drop_last(), k)
    } else {
        (files.len() - 1, k - before.len())
    }
}

/// The hash of a chunk of the files.
pub proof fn lemma_chunk_hash(files: Seq<FileEntry>, hash: Seq<u8>) -> (h: [u8; 32])
    requires
        has_chunk(file_views(files), hash),
    ensures
        h@ == hash,
        hashes_of(all_chunks(files)).contains(h),
{
    let (i, j) = choose|i: int, j: int| #[trigger] chunk_at(file_views(files), i, j, hash);
    lemma_file_chunk(files, i, j);
    files[i].chunks@[j].hash
}

/// The hashes of all chunks are those that the files have.
pub proof fn lemma_has_chunk(files: Seq<FileEntry>)
    ensures
        forall|h: [u8; 32]| #[trigger]
            hashes_of(all_chunks(files)).contains(h) <==> has_chunk(file_views(files), h@),
{
    assert forall|h: [u8; 32]| #[trigger] hashes_of(all_chunks(files)).contains(h) <==> has_chunk(
        file_views(files),
        h@,
    ) by {
        let hashes = hashes_of(all_chunks(files));
        if hashes.contains(h) {
            let k = choose|k: int| 0 <= k < hashes.len() && hashes[k] == h;
            let at = lemma_chunk_of_file(files, k);
            assert(chunk_at(file_views(files), at.0, at.1, h@));
        }
        if has_chunk(file_views(files), h@) {
            let g = lemma_chunk_hash(files, h@);
            assert(g =~= h);
        }
    }
}

/// All chunks are those of the files, file after file; a hash is among theirs
/// exactly where a chunk of a file has it.
pub proof fn all_chunks_are_those_of_the_files(files: Seq<FileEntry>)
    ensures
        all_chunks(files) == files.map_values(|f: FileEntry| f.chunks@).flatten(),
        forall|h: [u8; 32]| #[trigger]
            hashes_of(all_chunks(files)).contains(h) <==> exists|i: int, k: int|
                0 <= i < files.len() && 0 <= k < files[i].chunks@.len() && (#[trigger] files[i].chunks@[k]).hash == h,
    decreases files.len(),
{
    let lists = files.map_values(|f: FileEntry| f.chunks@);
    if files.len() == 0 {
        assert(lists.flatten() =~= Seq::empty());
    } else {
        let init = files.drop_last();
        all_chunks_are_those_of_the_files(init);
        assert(lists.drop_last() =~= init.map_values(|f: FileEntry| f.chunks@));
        lists.lemma_flatten_and_flatten_alt_are_equivalent();
        lists.drop_last().lemma_flatten_and_flatten_alt_are_equivalent();
        assert(all_chunks(files) =~= lists.flatten());
    }
    assert forall|h: [u8; 32]| #[trigger] hashes_of(all_chunks(files)).contains(h) <==> exists|i: int, k: int|
        0 <= i < files.len() && 0 <= k < files[i].chunks@.len() && (#[trigger] files[i].chunks@[k]).hash == h by {
        let hashes = hashes_of(all_chunks(files));
        if hashes.contains(h) {
            let k = choose|k: int| 0 <= k < hashes.len() && hashes[k] == h;
            let at = lemma_chunk_of_file(files, k);
            assert(files[at.0].chunks@[at.1].hash == h);
        }
        if exists|i: int, k: int|
            0 <= i < files.len() && 0 <= k < files[i].chunks@.len() && (#[trigger] files[i].chunks@[k]).hash == h {
            let (i, k) = choose|i: int, k: int|
                0 <= i < files.len() && 0 <= k < files[i].chunks@.len() && (#[trigger] files[i].chunks@[k]).hash == h;
            lemma_file_chunk(files, i, k);
        }
    }
}

/// Bytes are counted chunk by chunk: two lists have as many as both together.
pub proof fn lengths_add_up(a: Seq<ChunkMeta>, b: Seq<ChunkMeta>, c: ChunkMeta)
    ensures
        total_len(a + b) == total_len(a) + total_len(b),
        total_len(seq![c]) == c.len,
        total_len(Seq::empty()) == 0,
    decreases b.len(),
{
    assert(seq![c].drop_last() =~= Seq::empty());
    assert(total_len(Seq::empty()) == 0);
    if b.len() == 0 {
        assert(a + b =~= a);
    } else {
        lengths_add_up(a, b.drop_last(), c);
        assert((a + b).drop_last() =~= a + b.drop_last());
    }
}

/// The number of bytes in the chunks.
pub open spec fn total_len(chunks: Seq<ChunkMeta>) -> nat
    decreases chunks.len(),
{
    if chunks.len() == 0 {
        0
    } else {
        total_len(chunks.drop_last()) + chunks.last().len as nat
    }
}

/// The chunks at the first occurrence of each hash that is not skipped.
pub open spec fn fresh_chunks(chunks: Seq<ChunkMeta>, skip: spec_fn([u8; 32]) -> bool) -> Seq<ChunkMeta>
    decreases chunks.len(),
{
    if chunks.len() == 0 {
        Seq::empty()
    } else {
        let before = fresh_chunks(chunks.drop_last(), skip);
        let c = chunks.last();
        if skip(c.hash) || hashes_of(before).contains(c.hash) {
            before
        } else {
            before.push(c)
        }
    }
}

/// `fresh_chunks` holds each unskipped hash exactly once, and nothing else.
pub proof fn lemma_fresh_chunks(chunks: Seq<ChunkMeta>, skip: spec_fn([u8; 32]) -> bool)
    ensures
        hashes_of(fresh_chunks(chunks, skip)).no_duplicates(),
        forall|h: [u8; 32]| #[trigger]
            hashes_of(fresh_chunks(chunks, skip)).contains(h) <==> hashes_of(chunks).contains(h) && !skip(h),
        total_len(fresh_chunks(chunks, skip)) <= total_len(chunks),
        fresh_chunks(chunks, skip).len() <= chunks.len(),
    decreases chunks.len(),
{
    if chunks.len() > 0 {
        let init = chunks.drop_last();
        let c = chunks.last();
        let before = fresh_chunks(init, skip);
        lemma_fresh_chunks(init, skip);
        let now = fresh_chunks(chunks, skip);
        if now != before {
            assert(now.drop_last() =~= before);
            assert(hashes_of(now) =~= hashes_of(before).push(c.hash));
        }
        assert(hashes_of(chunks) =~= hashes_of(init).push(c.hash));
        assert forall|h: [u8; 32]| #[trigger] hashes_of(now).contains(h) <==> hashes_of(chunks).contains(h) && !skip(
            h,
        ) by {
            order::lemma_push_contains(hashes_of(init), c.hash, h);
            order::lemma_push_contains(hashes_of(before), c.hash, h);
        }
    }
}

/// The fresh chunks are the first of their hash among those that are not
/// skipped, in their order: each of these is there, and nothing else.
pub proof fn fresh_chunks_are_first_occurrences(chunks: Seq<ChunkMeta>, skip: spec_fn([u8; 32]) -> bool)
    ensures
        forall|c: ChunkMeta| #[trigger]
            fresh_chunks(chunks, skip).contains(c) <==> !skip(c.hash) && exists|i: int|
                0 <= i < chunks.len() && #[trigger] chunks[i] == c && forall|m: int|
                    0 <= m < i ==> (#[trigger] chunks[m]).hash != c.hash,
        hashes_of(fresh_chunks(chunks, skip)).no_duplicates(),
        forall|a: int, b: int|
            #![trigger fresh_chunks(chunks, skip)[a], fresh_chunks(chunks, skip)[b]]
            0 <= a < b < fresh_chunks(chunks, skip).len() ==> exists|i: int, j: int|
                0 <= i < j < chunks.len() && #[trigger] chunks[i] == fresh_chunks(chunks, skip)[a]
                    && #[trigger] chunks[j] == fresh_chunks(chunks, skip)[b],
    decreases chunks.len(),
{
    lemma_fresh_chunks(chunks, skip);
    if chunks.len() > 0 {
        let init = chunks.drop_last();
        let last = chunks.last();
        let before = fresh_chunks(init, skip);
        let now = fresh_chunks(chunks, skip);
        fresh_chunks_are_first_occurrences(init, skip);
        lemma_fresh_chunks(init, skip);
        assert(hashes_of(before).contains(last.hash) <==> hashes_of(init).contains(last.hash) && !skip(last.hash));
        assert forall|c: ChunkMeta| #[trigger] now.contains(c) <==> !skip(c.hash) && exists|i: int|
            0 <= i < chunks.len() && #[trigger] chunks[i] == c && forall|m: int|
                0 <= m < i ==> (#[trigger] chunks[m]).hash != c.hash by {
            order::lemma_push_contains(before, last, c);
            assert(before.contains(c) <==> !skip(c.hash) && exists|i: int|
                0 <= i < init.len() && #[trigger] init[i] == c && forall|m: int|
                    0 <= m < i ==> (#[trigger] init[m]).hash != c.hash);
            if before.contains(c) {
                let i = choose|i: int|
                    0 <= i < init.len() && #[trigger] init[i] == c && forall|m: int|
                        0 <= m < i ==> (#[trigger] init[m]).hash != c.hash;
                assert(chunks[i] == c);
                assert forall|m: int| 0 <= m < i implies (#[trigger] chunks[m]).hash != c.hash by {
                    assert(init[m].hash != c.hash);
                }
            }
            if now.contains(c) && !before.contains(c) {
                assert(c == last);
                assert(chunks[chunks.len() - 1] == c);
                assert forall|m: int| 0 <= m < chunks.len() - 1 implies (#[trigger] chunks[m]).hash != c.hash by {
                    assert(hashes_of(init)[m] == chunks[m].hash);
                    if chunks[m].hash == c.hash {
                        assert(hashes_of(init).contains(c.hash));
                    }
                }
            }
            if !skip(c.hash) && exists|i: int|
                0 <= i < chunks.len() && #[trigger] chunks[i] == c && forall|m: int|
                    0 <= m < i ==> (#[trigger] chunks[m]).hash != c.hash {
                let i = choose|i: int|
                    0 <= i < chunks.len() && #[trigger] chunks[i] == c && forall|m: int|
                        0 <= m < i ==> (#[trigger] chunks[m]).hash != c.hash;
                if i < init.len() {
                    assert(init[i] == c);
                    assert forall|m: int| 0 <= m < i implies (#[trigger] init[m]).hash != c.hash by {
                        assert(chunks[m].hash != c.hash);
                    }
                } else {
                    if hashes_of(init).contains(c.hash) {
                        let m = choose|m: int| 0 <= m < hashes_of(init).len() && hashes_of(init)[m] == c.hash;
                        assert(chunks[m].hash == c.hash);
                    }
                    assert(now == before.push(last));
                }
            }
        }
        assert forall|a: int, b: int|
            #![trigger now[a], now[b]]
            0 <= a < b < now.len() implies exists|i: int, j: int|
            0 <= i < j < chunks.len() && #[trigger] chunks[i] == now[a] && #[trigger] chunks[j] == now[b] by {
            assert(now[a] == before[a]);
            if b < before.len() {
                assert(now[b] == before[b]);
                let (i, j) = choose|i: int, j: int|
                    0 <= i < j < init.len() && #[trigger] init[i] == before[a] && #[trigger] init[j] == before[b];
                assert(chunks[i] == now[a] && chunks[j] == now[b]);
            } else {
                assert(before.contains(before[a]));
                let i = choose|i: int|
                    0 <= i < init.len() && #[trigger] init[i] == before[a] && forall|m: int|
                        0 <= m < i ==> (#[trigger] init[m]).hash != before[a].hash;
                assert(chunks[i] == now[a] && chunks[chunks.len() - 1] == now[b]);
            }
        }
    }
}

/// Fewer chunks hold no more bytes.
pub proof fn lemma_total_len_take(chunks: Seq<ChunkMeta>, n: int)
    requires
        0 <= n <= chunks.len(),
    ensures
        total_len(chunks.take(n)) <= total_len(chunks),
    decreases chunks.len(),
{
    if n < chunks.len() {
        lemma_total_len_take(chunks.drop_last(), n);
        assert(chunks.drop_last().take(n) =~= chunks.take(n));
    } else {
        assert(chunks.take(n) =~= chunks);
    }
}

impl GameIndex {
    /// The chunks of all files, file after file.
    pub fn list_chunks(&self) -> (chunks: Vec<ChunkMeta>)
        ensures
            chunks@ == all_chunks(self.files@),
    {
        let mut out: Vec<ChunkMeta> = Vec::new();
        let mut i: usize = 0;
        assert(self.files@.take(0) =~= Seq::empty());
        while i < self.files.len()
            invariant
                i <= self.files@.len(),
                out@ == all_chunks(self.files@.take(i as int)),
            decreases self.files.len() - i,
        {
            let chunks = &self.files[i].chunks;
            let mut k: usize = 0;
            let ghost before = out@;
            assert(before + chunks@.take(0) =~= before);
            while k < chunks.len()
                invariant
                    k <= chunks@.len(),
                    out@ == before + chunks@.take(k as int),
                decreases chunks.len() - k,
            {
                out.push(chunks[k]);
                k = k + 1;
                assert(out@ =~= before + chunks@.take(k as int));
            }
            i = i + 1;
            proof {
                assert(chunks@.take(k as int) =~= chunks@);
                assert(self.files@.take(i as int).drop_last() =~= self.files@.take(i - 1));
            }
        }
        assert(self.files@.take(i as int) =~= self.files@);
        out
    }

    /// The number of bytes in all chunks, where it is a 64-bit number.
    pub fn byte_count(&self) -> (n: Option<u64>)
        ensures
            match n {
                Some(t) => t == total_len(all_chunks(self.files@)),
                None => total_len(all_chunks(self.files@)) > u64::MAX,
            },
    {
        let chunks = self.list_chunks();
        let mut total: u64 = 0;
        let mut i: usize = 0;
        assert(chunks@.take(0) =~= Seq::empty());
        while i < chunks.len()
            invariant
                i <= chunks@.len(),
                chunks@ == all_chunks(self.files@),
                total == total_len(chunks@.take(i as int)),
            decreases chunks.len() - i,
        {
            let len: u64 = chunks[i].len as u64;
            proof {
                assert(chunks@.take(i + 1).drop_last() =~= chunks@.take(i as int));
                lemma_total_len_take(chunks@, i + 1);
            }
            if len > u64::MAX - total {
                return None;
            }
            total = total + len;
            i = i + 1;
        }
        assert(chunks@.take(i as int) =~= chunks@);
        Some(total)
    }

    /// The distinct chunk hashes, at their first occurrence.
    pub fn chunk_set(&self) -> (set: ChunkSet)
        ensures
            set@ == chunk_set::first_occurrences(hashes_of(all_chunks(self.files@))),
    {
        let chunks = self.list_chunks();
        let ghost hashes = hashes_of(chunks@);
        let mut set = ChunkSet::new();
        let mut i: usize = 0;
        assert(hashes.take(0) =~= Seq::empty());
        while i < chunks.len()
            invariant
                i <= chunks@.len(),
                hashes == hashes_of(chunks@),
                set@ == chunk_set::first_occurrences(hashes.take(i as int)),
            decreases chunks.len() - i,
        {
            set.insert(chunks[i].hash);
            i = i + 1;
            assert(hashes.take(i as int).drop_last() =~= hashes.take(i - 1));
        }
        assert(hashes.take(i as int) =~= hashes);
        set
    }
}

} // verus!
