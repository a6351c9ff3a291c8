//! File paths as lists of parts.
//!
//! How parts are put together to a path is the platform's: which character
//! stands between them, and that an absolute part replaces what is before it.
use vstd::prelude::*;
use vstd::utf8::*;

use crate::common::order;
use crate::common::text;

verus! {

/// A path: where it starts, and the parts that are joined to that in turn.
#[derive(Debug, Clone, PartialEq, Eq)]
pub struct PathParts {
    pub parts: Vec<String>,
}

impl View for PathParts {
    type V = Seq<Seq<char>>;

    open spec fn view(&self) -> Seq<Seq<char>> {
        text::text_views(self.parts@)
    }
}

/// What paths say.
pub open spec fn path_views(paths: Seq<PathParts>) -> Seq<Seq<Seq<char>>> {
    paths.map_values(|p: PathParts| p@)
}

impl PathParts {
    /// The path with only that part.
    pub fn new(base: &str) -> (path: Self)
        ensures
            path@ == seq![base@],
    {
        let mut parts: Vec<String> = Vec::new();
        parts.push(base.to_owned());
        let path = PathParts { parts };
        assert(path@ =~= seq![base@]);
        path
    }

    /// The path with one more part.
    pub fn join(&self, part: &str) -> (path: Self)
        ensures
            path@ == self@.push(part@),
    {
        let mut parts: Vec<String> = Vec::new();
        let mut i: usize = 0;
        while i < self.parts.len()
            invariant
                i <= self.parts@.len(),
                parts@.len() == i,
                forall|k: int| 0 <= k < i ==> (#[trigger] parts@[k])@ == self.parts@[k]@,
            decreases self.parts.len() - i,
        {
            parts.push(self.parts[i].as_str().to_owned());
            i = i + 1;
        }
        parts.push(part.to_owned());
        let path = PathParts { parts };
        assert(path@ =~= self@.push(part@));
        path
    }
}

/// Whether path `a` comes no later than path `b`: paths are ordered by their
/// first part, then by the next; a path comes before those below it.
pub open spec fn path_le(a: Seq<Seq<char>>, b: Seq<Seq<char>>) -> bool
    decreases a.len(),
{
    if a.len() == 0 {
        true
    } else if b.len() == 0 {
        false
    } else if a[0] == b[0] {
        path_le(a.skip(1), b.skip(1))
    } else {
        order::bytes_le(encode_utf8(a[0]), encode_utf8(b[0]))
    }
}

/// Whether no path comes before an earlier one.
pub open spec fn paths_sorted(paths: Seq<Seq<Seq<char>>>) -> bool {
    forall|i: int, j: int| 0 <= i <= j < paths.len() ==> path_le(#[trigger] paths[i], #[trigger] paths[j])
}

/// What paths say, one by one and part by part.
pub proof fn paths_say_all(paths: Seq<PathParts>, i: int, k: int)
    requires
        0 <= i < paths.len(),
        0 <= k < paths[i].parts@.len(),
    ensures
        path_views(paths).len() == paths.len(),
        path_views(paths)[i].len() == paths[i].parts@.len(),
        path_views(paths)[i][k] == paths[i].parts@[k]@,
{
}

/// Of sorted paths, none comes before an earlier one.
pub proof fn sorted_paths_grow(paths: Seq<Seq<Seq<char>>>, i: int, j: int)
    requires
        paths_sorted(paths),
        0 <= i < j < paths.len(),
    ensures
        path_le(paths[i], paths[j]),
{
}

proof fn lemma_path_le_total(a: Seq<Seq<char>>, b: Seq<Seq<char>>)
    ensures
        path_le(a, b) || path_le(b, a),
    decreases a.len(),
{
    if a.len() > 0 && b.len() > 0 {
        if a[0] == b[0] {
            lemma_path_le_total(a.skip(1), b.skip(1));
        } else {
            order::lemma_bytes_le_total(encode_utf8(a[0]), encode_utf8(b[0]));
        }
    }
}

proof fn lemma_path_le_transitive(a: Seq<Seq<char>>, b: Seq<Seq<char>>, c: Seq<Seq<char>>)
    requires
        path_le(a, b),
        path_le(b, c),
    ensures
        path_le(a, c),
    decreases a.len(),
{
    if a.len() > 0 && b.len() > 0 && c.len() > 0 {
        if a[0] == b[0] && b[0] == c[0] {
            lemma_path_le_transitive(a.skip(1), b.skip(1), c.skip(1));
        } else if a[0] != b[0] && b[0] != c[0] {
            order::lemma_bytes_le_transitive(encode_utf8(a[0]), encode_utf8(b[0]), encode_utf8(c[0]));
            if a[0] == c[0] {
                order::lemma_bytes_le_antisymmetric(encode_utf8(a[0]), encode_utf8(b[0]));
                encode_utf8_decode_utf8(a[0]);
                encode_utf8_decode_utf8(b[0]);
            }
        }
    }
}

/// Paths that start with the same parts are ordered by the others.
proof fn lemma_path_le_skip(a: Seq<Seq<char>>, b: Seq<Seq<char>>, n: int)
    requires
        0 <= n <= a.len(),
        n <= b.len(),
        forall|i: int| 0 <= i < n ==> a[i] == b[i],
    ensures
        path_le(a, b) == path_le(a.skip(n), b.skip(n)),
    decreases n,
{
    if n == 0 {
        assert(a.skip(0) =~= a);
        assert(b.skip(0) =~= b);
    } else {
        assert(a.skip(1).skip(n - 1) =~= a.skip(n));
        assert(b.skip(1).skip(n - 1) =~= b.skip(n));
        lemma_path_le_skip(a.skip(1), b.skip(1), n - 1);
    }
}

/// Whether path `a` comes no later than path `b`.
pub fn path_at_most(a: &PathParts, b: &PathParts) -> (le: bool)
    ensures
        le == path_le(a@, b@),
{
    let mut i: usize = 0;
    while i < a.parts.len() && i < b.parts.len() && text::same_text(a.parts[i].as_str(), b.parts[i].as_str())
        invariant
            i <= a.parts@.len(),
            i <= b.parts@.len(),
            forall|k: int| 0 <= k < i ==> a@[k] == b@[k],
        decreases a.parts.len() - i,
    {
        i = i + 1;
    }
    proof {
        lemma_path_le_skip(a@, b@, i as int);
    }
    if i >= a.parts.len() {
        return true;
    }
    if i >= b.parts.len() {
        return false;
    }
    proof {
        assert(a@.skip(i as int)[0] == a.parts@[i as int]@);
        assert(b@.skip(i as int)[0] == b.parts@[i as int]@);
    }
    order::bytes_at_most(a.parts[i].as_str().as_bytes(), b.parts[i].as_str().as_bytes())
}

fn place_path(paths: &mut Vec<PathParts>, path: PathParts)
    requires
        paths_sorted(path_views(old(paths)@)),
    ensures
        paths_sorted(path_views(final(paths)@)),
        path_views(final(paths)@).to_multiset() == path_views(old(paths)@).to_multiset().insert(path@),
{
    let ghost before = path_views(paths@);
    let mut at: usize = paths.len();
    while at > 0 && !path_at_most(&paths[at - 1], &path)
        invariant
            at <= paths@.len(),
            before == path_views(paths@),
            paths_sorted(before),
            forall|i: int| at <= i < before.len() ==> path_le(path@, #[trigger] before[i]),
        decreases at,
    {
        proof {
            assert(before[at - 1] == paths@[at - 1]@);
            lemma_path_le_total(path@, before[at - 1]);
        }
        at = at - 1;
    }
    proof {
        lemma_path_le_total(path@, path@);
        if at > 0 {
            assert(before[at - 1] == paths@[at - 1]@);
            assert forall|i: int| 0 <= i < at implies path_le(#[trigger] before[i], path@) by {
                assert(path_le(before[i], before[at - 1]));
                lemma_path_le_transitive(before[i], before[at - 1], path@);
            }
        }
    }
    let ghost name = path@;
    paths.insert(at, path);
    proof {
        let after = path_views(paths@);
        assert(after =~= before.insert(at as int, name));
        vstd::seq_lib::to_multiset_insert(before, at as int, name);
        assert forall|i: int, j: int| 0 <= i <= j < after.len() implies path_le(
            #[trigger] after[i],
            #[trigger] after[j],
        ) by {
            let a = if i < at { i } else { i - 1 };
            let b = if j < at { j } else { j - 1 };
            if i != at {
                assert(after[i] == before[a]);
            }
            if j != at {
                assert(after[j] == before[b]);
            }
        }
    }
}

/// Puts paths in order.
pub fn sort_paths(paths: Vec<PathParts>) -> (sorted: Vec<PathParts>)
    ensures
        paths_sorted(path_views(sorted@)),
        path_views(sorted@).to_multiset() == path_views(paths@).to_multiset(),
{
    let ghost all = path_views(paths@);
    let mut rest = paths;
    let mut sorted: Vec<PathParts> = Vec::new();
    proof {
        assert(path_views(sorted@) =~= Seq::empty());
        path_views(sorted@).to_multiset_ensures();
        assert(path_views(sorted@).to_multiset().len() == 0);
        assert(path_views(sorted@).to_multiset().add(all.to_multiset()) =~= all.to_multiset());
    }
    while rest.len() > 0
        invariant
            paths_sorted(path_views(sorted@)),
            path_views(sorted@).to_multiset().add(path_views(rest@).to_multiset()) == all.to_multiset(),
        decreases rest@.len(),
    {
        let ghost rest0 = rest@;
        let ghost sorted0 = path_views(sorted@);
        let path = rest.pop().unwrap();
        proof {
            assert(path_views(rest0) =~= path_views(rest@).push(path@));
            path_views(rest@).to_multiset_ensures();
        }
        place_path(&mut sorted, path);
        assert(sorted0.to_multiset().add(path_views(rest0).to_multiset()) =~= path_views(
            sorted@,
        ).to_multiset().add(path_views(rest@).to_multiset()));
    }
    proof {
        assert(path_views(rest@) =~= Seq::empty());
        path_views(rest@).to_multiset_ensures();
        assert(path_views(rest@).to_multiset().len() == 0);
        assert(path_views(sorted@).to_multiset().add(path_views(rest@).to_multiset()) =~= path_views(
            sorted@,
        ).to_multiset());
    }
    sorted
}

/// Paths are ordered by the first part in which they differ, by its bytes;
/// where they differ in none, the shorter comes first.
pub proof fn first_different_part_decides(a: Seq<Seq<char>>, b: Seq<Seq<char>>, k: int)
    requires
        0 <= k <= a.len(),
        k <= b.len(),
        a.take(k) == b.take(k),
        k < a.len() && k < b.len() ==> a[k] != b[k],
    ensures
        k == a.len() ==> path_le(a, b),
        k < a.len() && k == b.len() ==> !path_le(a, b),
        k < a.len() && k < b.len() ==> (path_le(a, b) <==> order::bytes_le(encode_utf8(a[k]), encode_utf8(b[k]))),
{
    assert forall|i: int| 0 <= i < k implies a[i] == b[i] by {
        assert(a.take(k)[i] == b.take(k)[i]);
    }
    lemma_path_le_skip(a, b, k);
}

} // verus!
