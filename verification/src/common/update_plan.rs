//! What an update from one version to another has to download, replace and
//! delete.
use vstd::prelude::*;
use vstd::utf8::*;

use crate::common::chunk_set;
use crate::common::chunk_set::{same_hash, ChunkSet};
use crate::common::order;
use crate::common::text;
use crate::producer::chunker::ChunkMeta;
use crate::producer::delta;
use crate::producer::delta::DeltaPlan;
use crate::producer::manifest;
use crate::producer::manifest::{FileEntry, GameIndex};

verus! {

/// The differences between two versions.
#[derive(Debug, Clone, PartialEq, Eq)]
pub struct UpdatePlan {
    /// New files.
    pub files_to_download: Vec<String>,
    /// Files of the same name whose content differs.
    pub files_to_update: Vec<String>,
    /// Files that the new version no longer has, sorted by name.
    pub files_to_delete: Vec<String>,
    /// Distinct chunks to download, in the order of the new manifest.
    pub chunks_to_download: Vec<[u8; 32]>,
    /// The number of bytes in the chunks to download.
    pub download_bytes: u64,
}

/// The last of the files with the name.
pub open spec fn last_named(files: Seq<FileEntry>, name: Seq<char>) -> Option<FileEntry>
    decreases files.len(),
{
    if files.len() == 0 {
        None
    } else if files.last().name@ == name {
        Some(files.last())
    } else {
        last_named(files.drop_last(), name)
    }
}

/// Whether one of the files has the name.
pub open spec fn has_name(files: Seq<FileEntry>, name: Seq<char>) -> bool {
    exists|i: int| 0 <= i < files.len() && (#[trigger] files[i]).name@ == name
}

/// The names of the files that satisfy `p`, in order.
pub open spec fn names_where(files: Seq<FileEntry>, p: spec_fn(FileEntry) -> bool) -> Seq<Seq<char>>
    decreases files.len(),
{
    if files.len() == 0 {
        Seq::empty()
    } else {
        let before = names_where(files.drop_last(), p);
        if p(files.last()) {
            before.push(files.last().name@)
        } else {
            before
        }
    }
}

/// The files of a version; none where there is no version.
pub open spec fn version_files(index: Option<&GameIndex>) -> Seq<FileEntry> {
    match index {
        Some(i) => i.files@,
        None => Seq::empty(),
    }
}

/// Whether a file is new.
pub open spec fn is_added(old: Seq<FileEntry>) -> spec_fn(FileEntry) -> bool {
    |f: FileEntry| last_named(old, f.name@) is None
}

/// Whether a file replaces one with other content.
pub open spec fn is_changed(old: Seq<FileEntry>) -> spec_fn(FileEntry) -> bool {
    |f: FileEntry| last_named(old, f.name@) is Some && last_named(old, f.name@)->0.file_hash != f.file_hash
}

/// Whether a chunk need not be downloaded.
pub open spec fn at_hand(old: Seq<[u8; 32]>, temp: Seq<[u8; 32]>) -> spec_fn([u8; 32]) -> bool {
    |h: [u8; 32]| old.contains(h) || temp.contains(h)
}

/// Whether names are in strictly ascending byte order.
pub open spec fn names_ascending(names: Seq<Seq<char>>) -> bool {
    forall|i: int, j: int| 0 <= i < j < names.len() ==> names[i] != names[j] && order::bytes_le(
        encode_utf8(#[trigger] names[i]),
        encode_utf8(#[trigger] names[j]),
    )
}

/// Ascending names come in byte order, none twice.
pub proof fn ascending_names_are_sorted(names: Seq<Seq<char>>, i: int, j: int)
    requires
        names_ascending(names),
        0 <= i < j < names.len(),
    ensures
        names[i] != names[j],
        order::bytes_le(encode_utf8(names[i]), encode_utf8(names[j])),
{
}

pub proof fn lemma_last_named(files: Seq<FileEntry>, name: Seq<char>)
    ensures
        match last_named(files, name) {
            Some(f) => has_name(files, name) && f.name@ == name && files.contains(f),
            None => !has_name(files, name),
        },
    decreases files.len(),
{
    if files.len() > 0 {
        let init = files.drop_last();
        lemma_last_named(init, name);
        if files.last().name@ == name {
            assert(files[files.len() - 1].name@ == name);
        } else {
            if has_name(init, name) {
                let i = choose|i: int| 0 <= i < init.len() && (#[trigger] init[i]).name@ == name;
                assert(files[i].name@ == name);
                let f = last_named(init, name)->0;
                let k = choose|k: int| 0 <= k < init.len() && init[k] == f;
                assert(files[k] == f);
            }
            if has_name(files, name) {
                let i = choose|i: int| 0 <= i < files.len() && (#[trigger] files[i]).name@ == name;
                assert(init[i].name@ == name);
            }
        }
    }
}

/// `last_named` gives a file with the name that no other file with the name
/// follows; it gives none only where no file has the name.
pub proof fn last_named_comes_last(files: Seq<FileEntry>, name: Seq<char>)
    ensures
        match last_named(files, name) {
            Some(f) => exists|k: int|
                0 <= k < files.len() && #[trigger] files[k] == f && f.name@ == name && forall|m: int|
                    k < m < files.len() ==> (#[trigger] files[m]).name@ != name,
            None => forall|m: int| 0 <= m < files.len() ==> (#[trigger] files[m]).name@ != name,
        },
    decreases files.len(),
{
    if files.len() > 0 {
        let init = files.drop_last();
        last_named_comes_last(init, name);
        assert forall|m: int| 0 <= m < init.len() implies init[m] == files[m] by {}
        if files.last().name@ == name {
            assert(files[files.len() - 1] == last_named(files, name)->0);
        } else if last_named(init, name) is Some {
            let f = last_named(init, name)->0;
            let k = choose|k: int|
                0 <= k < init.len() && #[trigger] init[k] == f && f.name@ == name && forall|m: int|
                    k < m < init.len() ==> (#[trigger] init[m]).name@ != name;
            assert(files[k] == f);
            assert forall|m: int| k < m < files.len() implies (#[trigger] files[m]).name@ != name by {
                if m < init.len() {
                    assert(init[m].name@ != name);
                }
            }
        } else {
            assert forall|m: int| 0 <= m < files.len() implies (#[trigger] files[m]).name@ != name by {
                if m < init.len() {
                    assert(init[m].name@ != name);
                }
            }
        }
    }
}

/// The names of the files that satisfy a predicate are exactly that: those of
/// the files that satisfy it, each as often and in the order of the files.
pub proof fn names_where_keeps_all_matches(files: Seq<FileEntry>, p: spec_fn(FileEntry) -> bool)
    ensures
        names_where(files, p) == files.filter(p).map_values(|f: FileEntry| f.name@),
        forall|n: Seq<char>| #[trigger]
            names_where(files, p).contains(n) <==> exists|i: int|
                0 <= i < files.len() && (#[trigger] files[i]).name@ == n && p(files[i]),
    decreases files.len(),
{
    reveal(Seq::filter);
    let name = |f: FileEntry| f.name@;
    if files.len() == 0 {
        assert(names_where(files, p) =~= files.filter(p).map_values(name));
    } else {
        let init = files.drop_last();
        let f = files.last();
        names_where_keeps_all_matches(init, p);
        if p(f) {
            assert(init.filter(p).push(f).map_values(name) =~= init.filter(p).map_values(name).push(f.name@));
        }
        assert(names_where(files, p) =~= files.filter(p).map_values(name));
        assert forall|n: Seq<char>| #[trigger] names_where(files, p).contains(n) <==> exists|i: int|
            0 <= i < files.len() && (#[trigger] files[i]).name@ == n && p(files[i]) by {
            let before = names_where(init, p);
            order::lemma_push_contains(before, f.name@, n);
            assert(before.contains(n) <==> exists|i: int|
                0 <= i < init.len() && (#[trigger] init[i]).name@ == n && p(init[i]));
            if before.contains(n) {
                let i = choose|i: int| 0 <= i < init.len() && (#[trigger] init[i]).name@ == n && p(init[i]);
                assert(files[i].name@ == n && p(files[i]));
            }
            if f.name@ == n && p(f) {
                assert(files[files.len() - 1].name@ == n);
            }
            if exists|i: int| 0 <= i < files.len() && (#[trigger] files[i]).name@ == n && p(files[i]) {
                let i = choose|i: int| 0 <= i < files.len() && (#[trigger] files[i]).name@ == n && p(files[i]);
                if i < init.len() {
                    assert(init[i].name@ == n && p(init[i]));
                }
            }
        }
    }
}

/// The position of the last file with the name.
pub fn find_last(files: &Vec<FileEntry>, name: &str) -> (found: Option<usize>)
    ensures
        match found {
            Some(i) => i < files@.len() && last_named(files@, name@) == Some(files@[i as int]),
            None => last_named(files@, name@) is None,
        },
{
    let mut left: usize = files.len();
    assert(files@.take(left as int) =~= files@);
    while left > 0
        invariant
            left <= files@.len(),
            last_named(files@, name@) == last_named(files@.take(left as int), name@),
        decreases left,
    {
        assert(files@.take(left as int).drop_last() =~= files@.take(left - 1));
        if text::same_text(files[left - 1].name.as_str(), name) {
            return Some(left - 1);
        }
        left = left - 1;
    }
    None
}

/// Puts `name` at its place in a sorted list that lacks it.
fn insert_sorted(names: &mut Vec<String>, name: String)
    requires
        names_ascending(text::text_views(old(names)@)),
        !text::text_views(old(names)@).contains(name@),
    ensures
        names_ascending(text::text_views(final(names)@)),
        forall|n: Seq<char>| #[trigger]
            text::text_views(final(names)@).contains(n) <==> text::text_views(old(names)@).contains(n) || n == name@,
{
    let ghost before = text::text_views(names@);
    let ghost key = encode_utf8(name@);
    let mut at: usize = 0;
    while at < names.len() && order::bytes_at_most(names[at].as_str().as_bytes(), name.as_str().as_bytes())
        invariant
            at <= names@.len(),
            before == text::text_views(names@),
            names_ascending(before),
            key == encode_utf8(name@),
            forall|i: int| 0 <= i < at ==> order::bytes_le(encode_utf8(#[trigger] before[i]), key),
        decreases names.len() - at,
    {
        assert(before[at as int] == names@[at as int]@);
        at = at + 1;
    }
    proof {
        if at < before.len() {
            assert(before[at as int] == names@[at as int]@);
            order::lemma_bytes_le_total(encode_utf8(before[at as int]), key);
            assert forall|i: int| at <= i < before.len() implies order::bytes_le(key, encode_utf8(#[trigger] before[i])) by {
                if i > at {
                    order::lemma_bytes_le_transitive(
                        key,
                        encode_utf8(before[at as int]),
                        encode_utf8(before[i]),
                    );
                }
            }
        }
    }
    let ghost word = name@;
    names.insert(at, name);
    proof {
        let after = text::text_views(names@);
        assert(after =~= before.insert(at as int, word));
        assert forall|i: int, j: int| 0 <= i < j < after.len() implies after[i] != after[j] && order::bytes_le(
            encode_utf8(#[trigger] after[i]),
            encode_utf8(#[trigger] after[j]),
        ) by {
            let i0 = if i < at { i } else { i - 1 };
            let j0 = if j < at { j } else { j - 1 };
            if i != at && j != at {
                assert(before[i0] == after[i] && before[j0] == after[j]);
            } else if i == at {
                assert(before[j0] == after[j]);
                assert(before.contains(before[j0]));
            } else {
                assert(before[i0] == after[i]);
                assert(before.contains(before[i0]));
            }
        }
        assert forall|n: Seq<char>| #[trigger] after.contains(n) <==> before.contains(n) || n == word by {
            if before.contains(n) {
                let k = choose|k: int| 0 <= k < before.len() && before[k] == n;
                assert(after[if k < at { k } else { k + 1 }] == n);
            }
            if n == word {
                assert(after[at as int] == n);
            }
            if after.contains(n) && n != word {
                let k = choose|k: int| 0 <= k < after.len() && after[k] == n;
                assert(before[if k < at { k } else { k - 1 }] == n);
            }
        }
    }
}

/// Whether the list holds the text.
fn holds_text(names: &Vec<String>, name: &str) -> (found: bool)
    ensures
        found == text::text_views(names@).contains(name@),
{
    let mut i: usize = 0;
    while i < names.len()
        invariant
            i <= names@.len(),
            forall|k: int| 0 <= k < i ==> (#[trigger] names@[k])@ != name@,
        decreases names.len() - i,
    {
        if text::same_text(names[i].as_str(), name) {
            assert(text::text_views(names@)[i as int] == name@);
            return true;
        }
        i = i + 1;
    }
    assert forall|k: int| 0 <= k < names@.len() implies text::text_views(names@)[k] != name@ by {
        assert(names@[k]@ != name@);
    }
    false
}

/// The names of `old` that `new` lacks, sorted.
pub fn removed_names(old: &Vec<FileEntry>, new: &Vec<FileEntry>) -> (names: Vec<String>)
    ensures
        names_ascending(text::text_views(names@)),
        forall|n: Seq<char>| #[trigger]
            text::text_views(names@).contains(n) <==> has_name(old@, n) && !has_name(new@, n),
{
    let mut names: Vec<String> = Vec::new();
    let mut i: usize = 0;
    assert(text::text_views(names@) =~= Seq::empty());
    while i < old.len()
        invariant
            i <= old@.len(),
            names_ascending(text::text_views(names@)),
            forall|n: Seq<char>| #[trigger]
                text::text_views(names@).contains(n) <==> has_name(old@.take(i as int), n) && !has_name(new@, n),
        decreases old.len() - i,
    {
        let name = &old[i].name;
        let ghost before = text::text_views(names@);
        proof {
            lemma_last_named(new@, name@);
        }
        if find_last(new, name.as_str()).is_none() && !holds_text(&names, name.as_str()) {
            insert_sorted(&mut names, name.clone());
        }
        proof {
            assert forall|n: Seq<char>| #[trigger]
                text::text_views(names@).contains(n) <==> has_name(old@.take(i + 1), n) && !has_name(new@, n) by {
                assert(before.contains(n) <==> has_name(old@.take(i as int), n) && !has_name(new@, n));
                if has_name(old@.take(i as int), n) {
                    let k = choose|k: int| 0 <= k < i && (#[trigger] old@.take(i as int)[k]).name@ == n;
                    assert(old@.take(i + 1)[k].name@ == n);
                }
                if n == name@ {
                    assert(old@.take(i + 1)[i as int].name@ == n);
                }
                if has_name(old@.take(i + 1), n) && n != name@ {
                    let k = choose|k: int| 0 <= k < i + 1 && (#[trigger] old@.take(i + 1)[k]).name@ == n;
                    assert(old@.take(i as int)[k].name@ == n);
                }
            }
        }
        i = i + 1;
    }
    assert(old@.take(i as int) =~= old@);
    names
}

/// The hashes at the first occurrence of each chunk that is in neither set,
/// and the number of bytes in those chunks.
fn pick_fresh(chunks: &Vec<ChunkMeta>, old: &ChunkSet, temp: &ChunkSet) -> (r: (Vec<[u8; 32]>, u64))
    requires
        manifest::total_len(chunks@) <= u64::MAX,
    ensures
        r.0@ == manifest::hashes_of(manifest::fresh_chunks(chunks@, at_hand(old@, temp@))),
        r.1 == manifest::total_len(manifest::fresh_chunks(chunks@, at_hand(old@, temp@))),
{
    let ghost skip = at_hand(old@, temp@);
    let mut hashes: Vec<[u8; 32]> = Vec::new();
    let mut seen = ChunkSet::new();
    let mut size: u64 = 0;
    let mut i: usize = 0;
    proof {
        assert(chunks@.take(0) =~= Seq::<ChunkMeta>::empty());
        assert(manifest::hashes_of(Seq::<ChunkMeta>::empty()) =~= Seq::empty());
    }
    while i < chunks.len()
        invariant
            i <= chunks@.len(),
            skip == at_hand(old@, temp@),
            manifest::total_len(chunks@) <= u64::MAX,
            hashes@ == manifest::hashes_of(manifest::fresh_chunks(chunks@.take(i as int), skip)),
            size == manifest::total_len(manifest::fresh_chunks(chunks@.take(i as int), skip)),
            seen@ == hashes@,
        decreases chunks.len() - i,
    {
        let c = chunks[i];
        proof {
            let part = chunks@.take(i as int);
            let next = chunks@.take(i + 1);
            assert(next.drop_last() =~= part);
            assert(next.last() == c);
            manifest::lemma_fresh_chunks(next, skip);
            manifest::lemma_total_len_take(chunks@, i + 1);
            let g = manifest::fresh_chunks(part, skip);
            assert(g.push(c).drop_last() =~= g);
            assert(manifest::hashes_of(g.push(c)) =~= manifest::hashes_of(g).push(c.hash));
        }
        if !(old.contains(&c.hash) || temp.contains(&c.hash)) {
            if seen.insert(c.hash) {
                hashes.push(c.hash);
                size = size + c.len as u64;
            }
        }
        i = i + 1;
    }
    assert(chunks@.take(i as int) =~= chunks@);
    (hashes, size)
}

/// Whether this is the plan of an update with the given chunks at hand.
pub open spec fn plans(plan: UpdatePlan, new: GameIndex, old: Option<&GameIndex>, temp: Seq<[u8; 32]>) -> bool {
    let fresh = manifest::fresh_chunks(
        manifest::all_chunks(new.files@),
        at_hand(delta::version_hashes(old), temp),
    );
    &&& text::text_views(plan.files_to_download@) == names_where(new.files@, is_added(version_files(old)))
    &&& text::text_views(plan.files_to_update@) == names_where(new.files@, is_changed(version_files(old)))
    &&& names_ascending(text::text_views(plan.files_to_delete@))
    &&& forall|n: Seq<char>| #[trigger]
        text::text_views(plan.files_to_delete@).contains(n) <==> has_name(version_files(old), n) && !has_name(
            new.files@,
            n,
        )
    &&& plan.chunks_to_download@ == manifest::hashes_of(fresh)
    &&& plan.download_bytes == manifest::total_len(fresh)
}

/// Compares a new version with the old one, if there is one; chunks in `temp`
/// are at hand already. The lengths in the new manifest must add up to a
/// 64-bit number.
pub fn compute(new: &GameIndex, old: Option<&GameIndex>, temp: &ChunkSet) -> (plan: UpdatePlan)
    requires
        manifest::total_len(manifest::all_chunks(new.files@)) <= u64::MAX,
    ensures
        plans(plan, *new, old, temp@),
{
    let none: Vec<FileEntry> = Vec::new();
    let old_files: &Vec<FileEntry> = match old {
        Some(o) => &o.files,
        None => &none,
    };
    assert(old_files@ =~= version_files(old));
    let mut files_to_download: Vec<String> = Vec::new();
    let mut files_to_update: Vec<String> = Vec::new();
    let mut i: usize = 0;
    let ghost added = is_added(old_files@);
    let ghost changed = is_changed(old_files@);
    proof {
        assert(new.files@.take(0) =~= Seq::<FileEntry>::empty());
        assert(text::text_views(Seq::<String>::empty()) =~= Seq::empty());
    }
    while i < new.files.len()
        invariant
            i <= new.files@.len(),
            added == is_added(old_files@),
            changed == is_changed(old_files@),
            text::text_views(files_to_download@) == names_where(new.files@.take(i as int), added),
            text::text_views(files_to_update@) == names_where(new.files@.take(i as int), changed),
        decreases new.files.len() - i,
    {
        let file = &new.files[i];
        let ghost down0 = text::text_views(files_to_download@);
        let ghost up0 = text::text_views(files_to_update@);
        assert(new.files@.take(i + 1).drop_last() =~= new.files@.take(i as int));
        match find_last(old_files, file.name.as_str()) {
            None => {
                files_to_download.push(file.name.clone());
                assert(text::text_views(files_to_download@) =~= down0.push(file.name@));
            },
            Some(k) => {
                if !same_hash(&old_files[k].file_hash, &file.file_hash) {
                    files_to_update.push(file.name.clone());
                    assert(text::text_views(files_to_update@) =~= up0.push(file.name@));
                }
            },
        }
        i = i + 1;
    }
    assert(new.files@.take(i as int) =~= new.files@);
    let files_to_delete = removed_names(old_files, &new.files);
    let old_chunks = delta::version_set(old);
    let chunks = new.list_chunks();
    let (chunks_to_download, download_bytes) = pick_fresh(&chunks, &old_chunks, temp);
    UpdatePlan { files_to_download, files_to_update, files_to_delete, chunks_to_download, download_bytes }
}

/// A file name is to be downloaded exactly where the new version has it and
/// the old one, with `files`, has not.
pub proof fn new_files_are_downloaded(
    plan: UpdatePlan,
    new: GameIndex,
    old: Option<&GameIndex>,
    temp: Seq<[u8; 32]>,
    files: Seq<FileEntry>,
    name: Seq<char>,
)
    requires
        plans(plan, new, old, temp),
        match old {
            Some(o) => files == o.files@,
            None => files.len() == 0,
        },
    ensures
        (exists|k: int| 0 <= k < plan.files_to_download@.len() && (#[trigger] plan.files_to_download@[k])@ == name) <==> (
        exists|i: int| 0 <= i < new.files@.len() && (#[trigger] new.files@[i]).name@ == name) && (forall|j: int|
            0 <= j < files.len() ==> (#[trigger] files[j]).name@ != name),
{
    assert(version_files(old) =~= files);
    names_where_keeps_all_matches(new.files@, is_added(files));
    last_named_comes_last(files, name);
    text::texts_say_what_they_hold(plan.files_to_download@, name);
    let down = text::text_views(plan.files_to_download@);
    assert(down.contains(name) <==> exists|i: int|
        0 <= i < new.files@.len() && (#[trigger] new.files@[i]).name@ == name && is_added(files)(new.files@[i]));
    if (exists|i: int| 0 <= i < new.files@.len() && (#[trigger] new.files@[i]).name@ == name) && (forall|j: int|
        0 <= j < files.len() ==> (#[trigger] files[j]).name@ != name) {
        let i = choose|i: int| 0 <= i < new.files@.len() && (#[trigger] new.files@[i]).name@ == name;
        assert(is_added(files)(new.files@[i]));
    }
}

/// A file name is to be updated exactly where a new file of that name has
/// another hash than the file of the old version, with `files`. (Of several old
/// files with one name, the last counts.)
pub proof fn changed_files_are_updated(
    plan: UpdatePlan,
    new: GameIndex,
    old: Option<&GameIndex>,
    temp: Seq<[u8; 32]>,
    files: Seq<FileEntry>,
    name: Seq<char>,
)
    requires
        plans(plan, new, old, temp),
        match old {
            Some(o) => files == o.files@,
            None => files.len() == 0,
        },
    ensures
        (exists|k: int| 0 <= k < plan.files_to_update@.len() && (#[trigger] plan.files_to_update@[k])@ == name) <==> (
        exists|i: int, j: int|
            0 <= i < new.files@.len() && 0 <= j < files.len() && (#[trigger] new.files@[i]).name@ == name && (
            #[trigger] files[j]).name@ == name && files[j].file_hash != new.files@[i].file_hash && forall|m: int|
                j < m < files.len() ==> (#[trigger] files[m]).name@ != name),
{
    assert(version_files(old) =~= files);
    names_where_keeps_all_matches(new.files@, is_changed(files));
    last_named_comes_last(files, name);
    text::texts_say_what_they_hold(plan.files_to_update@, name);
    let up = text::text_views(plan.files_to_update@);
    assert(up.contains(name) <==> exists|i: int|
        0 <= i < new.files@.len() && (#[trigger] new.files@[i]).name@ == name && is_changed(files)(new.files@[i]));
    if up.contains(name) {
        let i = choose|i: int|
            0 <= i < new.files@.len() && (#[trigger] new.files@[i]).name@ == name && is_changed(files)(new.files@[i]);
        let f = last_named(files, name)->0;
        let j = choose|k: int|
            0 <= k < files.len() && #[trigger] files[k] == f && f.name@ == name && forall|m: int|
                k < m < files.len() ==> (#[trigger] files[m]).name@ != name;
        assert(new.files@[i].name@ == name && files[j].name@ == name);
    }
    if exists|i: int, j: int|
        0 <= i < new.files@.len() && 0 <= j < files.len() && (#[trigger] new.files@[i]).name@ == name && (
        #[trigger] files[j]).name@ == name && files[j].file_hash != new.files@[i].file_hash && forall|m: int|
            j < m < files.len() ==> (#[trigger] files[m]).name@ != name {
        let (i, j) = choose|i: int, j: int|
            0 <= i < new.files@.len() && 0 <= j < files.len() && (#[trigger] new.files@[i]).name@ == name && (
            #[trigger] files[j]).name@ == name && files[j].file_hash != new.files@[i].file_hash && forall|m: int|
                j < m < files.len() ==> (#[trigger] files[m]).name@ != name;
        assert(last_named(files, name) is Some);
        let f = last_named(files, name)->0;
        let k = choose|k: int|
            0 <= k < files.len() && #[trigger] files[k] == f && f.name@ == name && forall|m: int|
                k < m < files.len() ==> (#[trigger] files[m]).name@ != name;
        assert(k == j);
        assert(is_changed(files)(new.files@[i]));
    }
}

/// A file name is to be deleted exactly where the old version, with `files`,
/// has it and the new one has not; none is listed twice.
pub proof fn vanished_files_are_deleted(
    plan: UpdatePlan,
    new: GameIndex,
    old: Option<&GameIndex>,
    temp: Seq<[u8; 32]>,
    files: Seq<FileEntry>,
    name: Seq<char>,
)
    requires
        plans(plan, new, old, temp),
        match old {
            Some(o) => files == o.files@,
            None => files.len() == 0,
        },
    ensures
        (exists|k: int| 0 <= k < plan.files_to_delete@.len() && (#[trigger] plan.files_to_delete@[k])@ == name) <==> (
        exists|j: int| 0 <= j < files.len() && (#[trigger] files[j]).name@ == name) && (forall|i: int|
            0 <= i < new.files@.len() ==> (#[trigger] new.files@[i]).name@ != name),
        forall|a: int, b: int|
            0 <= a < b < plan.files_to_delete@.len() ==> (#[trigger] plan.files_to_delete@[a])@ != (
            #[trigger] plan.files_to_delete@[b])@,
{
    assert(version_files(old) =~= files);
    text::texts_say_what_they_hold(plan.files_to_delete@, name);
    let gone = text::text_views(plan.files_to_delete@);
    assert(gone.contains(name) <==> has_name(files, name) && !has_name(new.files@, name));
    assert forall|a: int, b: int| 0 <= a < b < plan.files_to_delete@.len() implies (#[trigger] plan.files_to_delete@[a])@
        != (#[trigger] plan.files_to_delete@[b])@ by {
        assert(gone[a] != gone[b]);
    }
}

/// A chunk is to be downloaded exactly where a file of the new version has it,
/// no file of the old one, and it is not at hand; none is downloaded twice. The
/// bytes are those of these chunks, as the new manifest counts them.
pub proof fn missing_chunks_are_downloaded(
    plan: UpdatePlan,
    new: GameIndex,
    old: Option<&GameIndex>,
    temp: Seq<[u8; 32]>,
    h: [u8; 32],
)
    requires
        plans(plan, new, old, temp),
    ensures
        plan.chunks_to_download@.no_duplicates(),
        plan.chunks_to_download@.contains(h) <==> (exists|i: int, k: int|
            0 <= i < new.files@.len() && 0 <= k < new.files@[i].chunks@.len() && (
            #[trigger] new.files@[i].chunks@[k]).hash == h) && !temp.contains(h) && !(old matches Some(o)
            && exists|i: int, k: int|
            0 <= i < o.files@.len() && 0 <= k < o.files@[i].chunks@.len() && (#[trigger] o.files@[i].chunks@[k]).hash
                == h),
        exists|metas: Seq<ChunkMeta>| #[trigger]
            manifest::total_len(metas) == plan.download_bytes && metas.len() == plan.chunks_to_download@.len() && forall|
                i: int,
            |
                0 <= i < metas.len() ==> (#[trigger] metas[i]).hash == plan.chunks_to_download@[i]
                    && manifest::all_chunks(new.files@).contains(metas[i]),
{
    let skip = at_hand(delta::version_hashes(old), temp);
    let chunks = manifest::all_chunks(new.files@);
    let fresh = manifest::fresh_chunks(chunks, skip);
    manifest::lemma_fresh_chunks(chunks, skip);
    manifest::fresh_chunks_are_first_occurrences(chunks, skip);
    manifest::all_chunks_are_those_of_the_files(new.files@);
    delta::old_chunks_are_those_of_the_version(old);
    assert(plan.chunks_to_download@.contains(h) <==> manifest::hashes_of(chunks).contains(h) && !skip(h));
    assert(manifest::hashes_of(chunks).contains(h) <==> exists|i: int, k: int|
        0 <= i < new.files@.len() && 0 <= k < new.files@[i].chunks@.len() && (#[trigger] new.files@[i].chunks@[k]).hash
            == h);
    assert(delta::version_hashes(old).contains(h) <==> (old matches Some(o) && exists|i: int, k: int|
        0 <= i < o.files@.len() && 0 <= k < o.files@[i].chunks@.len() && (#[trigger] o.files@[i].chunks@[k]).hash == h));
    assert forall|i: int| 0 <= i < fresh.len() implies (#[trigger] fresh[i]).hash == plan.chunks_to_download@[i]
        && chunks.contains(fresh[i]) by {
        assert(manifest::hashes_of(fresh)[i] == fresh[i].hash);
        assert(fresh.contains(fresh[i]));
        let j = choose|j: int|
            0 <= j < chunks.len() && #[trigger] chunks[j] == fresh[i] && forall|m: int|
                0 <= m < j ==> (#[trigger] chunks[m]).hash != fresh[i].hash;
        assert(chunks.contains(chunks[j]));
    }
    assert(manifest::total_len(fresh) == plan.download_bytes);
}

/// An update downloads exactly what is missing: no chunk twice, none that the
/// old version or the temporary directory has, and every chunk of the new
/// version is downloaded, in the old version, or in the temporary directory.
pub proof fn update_fetches_what_is_missing(files: Seq<FileEntry>, old: Seq<[u8; 32]>, temp: Seq<[u8; 32]>)
    ensures
        ({
            let fresh = manifest::hashes_of(manifest::fresh_chunks(manifest::all_chunks(files), at_hand(old, temp)));
            &&& fresh.no_duplicates()
            &&& forall|h: [u8; 32]| #[trigger] fresh.contains(h) ==> !old.contains(h) && !temp.contains(h)
            &&& forall|h: [u8; 32]| #[trigger]
                manifest::hashes_of(manifest::all_chunks(files)).contains(h) ==> fresh.contains(h) || old.contains(h)
                    || temp.contains(h)
        }),
{
    manifest::lemma_fresh_chunks(manifest::all_chunks(files), at_hand(old, temp));
}

/// An update to the version at hand changes nothing: no file is added
/// or changed, and no chunk is downloaded. (Where two entries have one name,
/// only the last counts, so names must be distinct.)
pub proof fn update_to_same_version_is_empty(index: &GameIndex, temp: Seq<[u8; 32]>)
    requires
        forall|i: int, j: int| 0 <= i < j < index.files@.len() ==> (#[trigger] index.files@[i]).name@ != (
        #[trigger] index.files@[j]).name@,
    ensures
        names_where(index.files@, is_added(index.files@)).len() == 0,
        names_where(index.files@, is_changed(index.files@)).len() == 0,
        manifest::fresh_chunks(
            manifest::all_chunks(index.files@),
            at_hand(delta::version_hashes(Some(index)), temp),
        ).len() == 0,
{
    let files = index.files@;
    lemma_none_where(files, files, is_added(files));
    assert forall|i: int| 0 <= i < files.len() implies !is_changed(files)(#[trigger] files[i]) by {
        lemma_last_named(files, files[i].name@);
        let f = last_named(files, files[i].name@)->0;
        let k = choose|k: int| 0 <= k < files.len() && files[k] == f;
        assert(k == i);
    }
    lemma_no_names(files, is_changed(files));
    let skip = at_hand(delta::version_hashes(Some(index)), temp);
    let chunks = manifest::all_chunks(files);
    manifest::lemma_fresh_chunks(chunks, skip);
    chunk_set::lemma_first_occurrences(manifest::hashes_of(chunks));
    let fresh = manifest::fresh_chunks(chunks, skip);
    if fresh.len() > 0 {
        let h = manifest::hashes_of(fresh)[0];
        assert(manifest::hashes_of(fresh).contains(h));
        assert(delta::version_hashes(Some(index)).contains(h));
    }
}

proof fn lemma_none_where(files: Seq<FileEntry>, all: Seq<FileEntry>, p: spec_fn(FileEntry) -> bool)
    requires
        p == is_added(all),
        forall|i: int| 0 <= i < files.len() ==> all.contains(#[trigger] files[i]),
    ensures
        names_where(files, p).len() == 0,
    decreases files.len(),
{
    if files.len() > 0 {
        let init = files.drop_last();
        assert forall|i: int| 0 <= i < init.len() implies all.contains(#[trigger] init[i]) by {
            assert(init[i] == files[i]);
        }
        lemma_none_where(init, all, p);
        let f = files[files.len() - 1];
        assert(all.contains(f));
        let k = choose|k: int| 0 <= k < all.len() && all[k] == f;
        assert(all[k].name@ == f.name@);
        lemma_last_named(all, f.name@);
    }
}

proof fn lemma_no_names(files: Seq<FileEntry>, p: spec_fn(FileEntry) -> bool)
    requires
        forall|i: int| 0 <= i < files.len() ==> !p(#[trigger] files[i]),
    ensures
        names_where(files, p).len() == 0,
    decreases files.len(),
{
    if files.len() > 0 {
        let init = files.drop_last();
        assert forall|i: int| 0 <= i < init.len() implies !p(#[trigger] init[i]) by {
            assert(init[i] == files[i]);
        }
        lemma_no_names(init, p);
        assert(!p(files[files.len() - 1]));
    }
}

/// Skipping more chunks leaves the others, in their order, and no more bytes.
proof fn lemma_skip_more(
    chunks: Seq<ChunkMeta>,
    skip: spec_fn([u8; 32]) -> bool,
    more: spec_fn([u8; 32]) -> bool,
    keep: spec_fn([u8; 32]) -> bool,
)
    requires
        forall|h: [u8; 32]| #[trigger] more(h) <==> skip(h) || !keep(h),
    ensures
        manifest::hashes_of(manifest::fresh_chunks(chunks, more)) == manifest::hashes_of(
            manifest::fresh_chunks(chunks, skip),
        ).filter(keep),
        manifest::total_len(manifest::fresh_chunks(chunks, more)) <= manifest::total_len(
            manifest::fresh_chunks(chunks, skip),
        ),
    decreases chunks.len(),
{
    reveal(Seq::filter);
    if chunks.len() > 0 {
        let init = chunks.drop_last();
        let c = chunks.last();
        lemma_skip_more(init, skip, more, keep);
        manifest::lemma_fresh_chunks(init, skip);
        manifest::lemma_fresh_chunks(init, more);
        let a = manifest::fresh_chunks(init, skip);
        let b = manifest::fresh_chunks(init, more);
        let ha = manifest::hashes_of(a);
        let hb = manifest::hashes_of(b);
        assert(more(c.hash) <==> skip(c.hash) || !keep(c.hash));
        assert(ha.contains(c.hash) <==> manifest::hashes_of(init).contains(c.hash) && !skip(c.hash));
        assert(hb.contains(c.hash) <==> manifest::hashes_of(init).contains(c.hash) && !more(c.hash));
        if !skip(c.hash) && !ha.contains(c.hash) {
            assert(manifest::hashes_of(a.push(c)) =~= ha.push(c.hash));
            assert(ha.push(c.hash).drop_last() =~= ha);
            assert(a.push(c).drop_last() =~= a);
            if keep(c.hash) {
                assert(manifest::hashes_of(b.push(c)) =~= hb.push(c.hash));
                assert(b.push(c).drop_last() =~= b);
            }
        }
    } else {
        assert(manifest::hashes_of(manifest::fresh_chunks(chunks, skip)) =~= Seq::empty());
        assert(manifest::hashes_of(manifest::fresh_chunks(chunks, more)) =~= Seq::empty());
    }
}

/// Names in strictly ascending order are told by which they are.
proof fn lemma_names_unique(a: Seq<Seq<char>>, b: Seq<Seq<char>>)
    requires
        names_ascending(a),
        names_ascending(b),
        forall|n: Seq<char>| #[trigger] a.contains(n) <==> b.contains(n),
    ensures
        a == b,
    decreases a.len(),
{
    if a.len() == 0 {
        if b.len() > 0 {
            assert(b.contains(b[0]));
            assert(a.contains(b[0]));
        }
        assert(a =~= b);
    } else {
        assert(a.contains(a[0]));
        assert(b.len() > 0);
        let x = a.last();
        let y = b.last();
        assert(a.contains(x) && b.contains(y));
        assert(a.contains(y));
        let i = choose|i: int| 0 <= i < b.len() && b[i] == x;
        let j = choose|j: int| 0 <= j < a.len() && a[j] == y;
        if x != y {
            assert(order::bytes_le(encode_utf8(b[i]), encode_utf8(b[b.len() - 1])));
            assert(order::bytes_le(encode_utf8(a[j]), encode_utf8(a[a.len() - 1])));
            order::lemma_bytes_le_antisymmetric(encode_utf8(x), encode_utf8(y));
            encode_utf8_decode_utf8(x);
            encode_utf8_decode_utf8(y);
        }
        let a0 = a.drop_last();
        let b0 = b.drop_last();
        assert forall|n: Seq<char>| #[trigger] a0.contains(n) <==> b0.contains(n) by {
            if a0.contains(n) {
                let k = choose|k: int| 0 <= k < a0.len() && a0[k] == n;
                assert(a[k] != a[a.len() - 1]);
                assert(a.contains(n));
                let m = choose|m: int| 0 <= m < b.len() && b[m] == n;
                assert(b0[m] == n);
            }
            if b0.contains(n) {
                let k = choose|k: int| 0 <= k < b0.len() && b0[k] == n;
                assert(b[k] != b[b.len() - 1]);
                assert(b.contains(n));
                assert(a.contains(n));
                let m = choose|m: int| 0 <= m < a.len() && a[m] == n;
                assert(a0[m] == n);
            }
        }
        assert forall|p: int, q: int| 0 <= p < q < a0.len() implies a0[p] != a0[q] && order::bytes_le(
            encode_utf8(#[trigger] a0[p]),
            encode_utf8(#[trigger] a0[q]),
        ) by {
            assert(a0[p] == a[p] && a0[q] == a[q]);
        }
        assert forall|p: int, q: int| 0 <= p < q < b0.len() implies b0[p] != b0[q] && order::bytes_le(
            encode_utf8(#[trigger] b0[p]),
            encode_utf8(#[trigger] b0[q]),
        ) by {
            assert(b0[p] == b[p] && b0[q] == b[q]);
        }
        lemma_names_unique(a0, b0);
        assert(a =~= a0.push(x));
        assert(b =~= b0.push(y));
    }
}

/// More chunks in the temporary directory only shorten the list of chunks to
/// download: of two plans for the same versions, the one that has the chunks
/// of `more` at hand too downloads those of the other without them, in the same
/// order, has no more bytes to download, and treats the files alike.
pub proof fn more_chunks_at_hand_only_filter(
    new: GameIndex,
    old: Option<&GameIndex>,
    temp: Seq<[u8; 32]>,
    more: Seq<[u8; 32]>,
    both: Seq<[u8; 32]>,
    a: UpdatePlan,
    b: UpdatePlan,
)
    requires
        forall|h: [u8; 32]| #[trigger] both.contains(h) <==> temp.contains(h) || more.contains(h),
        plans(a, new, old, temp),
        plans(b, new, old, both),
    ensures
        b.chunks_to_download@ == a.chunks_to_download@.filter(|h: [u8; 32]| !more.contains(h)),
        b.download_bytes <= a.download_bytes,
        text::text_views(b.files_to_download@) == text::text_views(a.files_to_download@),
        text::text_views(b.files_to_update@) == text::text_views(a.files_to_update@),
        text::text_views(b.files_to_delete@) == text::text_views(a.files_to_delete@),
{
    let hashes = delta::version_hashes(old);
    lemma_skip_more(
        manifest::all_chunks(new.files@),
        at_hand(hashes, temp),
        at_hand(hashes, both),
        |h: [u8; 32]| !more.contains(h),
    );
    lemma_names_unique(text::text_views(a.files_to_delete@), text::text_views(b.files_to_delete@));
}

/// What a producer uploads is what an agent downloads that has nothing in its
/// temporary directory; together with the reused chunks it is every distinct
/// chunk of the new version.
pub proof fn delta_is_update_with_nothing_at_hand(
    new: GameIndex,
    old: Option<&GameIndex>,
    delta: DeltaPlan,
    update: UpdatePlan,
)
    requires
        delta::plans_delta(delta, new, old),
        plans(update, new, old, Seq::empty()),
    ensures
        delta.new_chunks@ == update.chunks_to_download@,
        delta.new_bytes == update.download_bytes,
        delta.new_chunks@.len() + delta.reused_chunks == chunk_set::first_occurrences(
            manifest::hashes_of(manifest::all_chunks(new.files@)),
        ).len(),
{
    let hashes = delta::version_hashes(old);
    assert(at_hand(hashes, Seq::empty()) =~= delta::in_old(hashes));
    delta::delta_counts_add_up(new.files@, hashes);
}

} // verus!
