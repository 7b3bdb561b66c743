//! Path sets kept in sorted order, and the path structure: parents, basenames
//! and the directories that a snapshot implies.
use vstd::prelude::*;
use crate::files::{FileMap, FileType};
use crate::text::{
    path_lt, lemma_path_lt_irreflexive, lemma_path_lt_total, lemma_path_lt_transitive, str_eq,
    str_lt, views_of,
};

verus! {

/// Strictly ascending under `path_lt`; hence without repeats.
pub open spec fn sorted_paths(s: Seq<Seq<char>>) -> bool {
    forall|i: int, j: int| 0 <= i < j < s.len() ==> path_lt(#[trigger] s[i], #[trigger] s[j])
}

/// A strictly ascending sequence has no repeats.
pub proof fn lemma_sorted_no_duplicates(s: Seq<Seq<char>>)
    requires
        sorted_paths(s),
    ensures
        s.no_duplicates(),
{
    assert forall|i: int, j: int| 0 <= i < s.len() && 0 <= j < s.len() && i != j implies s[i] != s[j] by {
        lemma_path_lt_irreflexive(s[i]);
        if i < j {
            assert(path_lt(s[i], s[j]));
        } else {
            assert(path_lt(s[j], s[i]));
        }
    }
}

/// A set of paths, kept in ascending order.
pub struct PathSet {
    paths: Vec<String>,
}

impl View for PathSet {
    type V = Set<Seq<char>>;

    open spec fn view(&self) -> Set<Seq<char>> {
        self.items().to_set()
    }
}

impl PathSet {
    /// The paths in ascending order.
    pub closed spec fn items(&self) -> Seq<Seq<char>> {
        views_of(self.paths@)
    }

    pub open spec fn wf(&self) -> bool {
        sorted_paths(self.items())
    }

    pub fn new() -> (r: PathSet)
        ensures
            r.wf(),
            r.items().len() == 0,
            r@ == Set::<Seq<char>>::empty(),
    {
        let r = PathSet { paths: Vec::new() };
        assert(r.items() =~= Seq::<Seq<char>>::empty());
        assert(r@ =~= Set::<Seq<char>>::empty());
        r
    }

    pub fn len(&self) -> (r: usize)
        ensures
            r == self.items().len(),
    {
        self.paths.len()
    }

    pub fn at(&self, i: usize) -> (r: &String)
        requires
            i < self.items().len(),
        ensures
            r@ == self.items()[i as int],
    {
        &self.paths[i]
    }

    /// The first position whose path is not below `p`, and whether it holds `p`.
    fn position(&self, p: &str) -> (r: (usize, bool))
        requires
            self.wf(),
        ensures
            r.0 <= self.items().len(),
            forall|j: int| 0 <= j < r.0 ==> path_lt(#[trigger] self.items()[j], p@),
            r.1 ==> r.0 < self.items().len() && self.items()[r.0 as int] == p@,
            !r.1 ==> forall|j: int| r.0 <= j < self.items().len() ==> path_lt(p@, #[trigger] self.items()[j]),
    {
        let ghost s = self.items();
        let mut lo: usize = 0;
        let mut hi: usize = self.paths.len();
        while lo < hi
            invariant
                s == self.items(),
                sorted_paths(s),
                lo <= hi <= s.len(),
                forall|j: int| 0 <= j < lo ==> path_lt(#[trigger] s[j], p@),
                forall|j: int| hi <= j < s.len() ==> path_lt(p@, #[trigger] s[j]),
            decreases hi - lo,
        {
            let mid = lo + (hi - lo) / 2;
            assert(s[mid as int] == self.paths@[mid as int]@);
            if str_lt(self.paths[mid].as_str(), p) {
                assert forall|j: int| 0 <= j < mid + 1 implies path_lt(#[trigger] s[j], p@) by {
                    if j < mid {
                        lemma_path_lt_transitive(s[j], s[mid as int], p@);
                    }
                }
                lo = mid + 1;
            } else if str_eq(self.paths[mid].as_str(), p) {
                return (mid, true);
            } else {
                proof {
                    lemma_path_lt_total(s[mid as int], p@);
                }
                assert forall|j: int| mid <= j < s.len() implies path_lt(p@, #[trigger] s[j]) by {
                    if j > mid {
                        lemma_path_lt_transitive(p@, s[mid as int], s[j]);
                    }
                }
                hi = mid;
            }
        }
        (lo, false)
    }

    pub fn contains(&self, p: &str) -> (r: bool)
        requires
            self.wf(),
        ensures
            r == self@.contains(p@),
    {
        let (i, found) = self.position(p);
        proof {
            if !found && self@.contains(p@) {
                let j = choose|j: int| 0 <= j < self.items().len() && self.items()[j] == p@;
                lemma_path_lt_irreflexive(p@);
                assert(path_lt(self.items()[j], p@) || path_lt(p@, self.items()[j]));
            }
        }
        found
    }

    pub fn insert(&mut self, p: String)
        requires
            old(self).wf(),
        ensures
            final(self).wf(),
            final(self)@ == old(self)@.insert(p@),
    {
        let (i, found) = self.position(p.as_str());
        if found {
            assert(self@.insert(p@) =~= self@);
            return;
        }
        let ghost s = self.items();
        self.paths.insert(i, p);
        let ghost t = self.items();
        assert(t =~= s.insert(i as int, p@));
        assert forall|a: int, b: int| 0 <= a < b < t.len() implies path_lt(#[trigger] t[a], #[trigger] t[b]) by {
            if b < i {
            } else if a < i && b == i {
            } else if a < i {
                lemma_path_lt_transitive(t[a], p@, t[b]);
            } else if a == i {
            } else {
            }
        }
        assert forall|x: Seq<char>| #[trigger] t.contains(x) <==> s.to_set().insert(p@).contains(x) by {
            if t.contains(x) {
                let k = choose|k: int| 0 <= k < t.len() && t[k] == x;
                if k < i {
                    assert(s[k] == x);
                } else if k > i {
                    assert(s[k - 1] == x);
                }
            }
            if s.contains(x) {
                let k = choose|k: int| 0 <= k < s.len() && s[k] == x;
                if k < i {
                    assert(t[k] == x);
                } else {
                    assert(t[k + 1] == x);
                }
            }
            if x == p@ {
                assert(t[i as int] == x);
            }
        }
        assert(self@ =~= old(self)@.insert(p@));
    }
}

/// Position of the last `'/'` of `p`, or `-1`.
pub open spec fn last_slash(p: Seq<char>) -> int
    decreases p.len(),
{
    if p.len() == 0 {
        -1
    } else if p.last() == '/' {
        p.len() - 1
    } else {
        last_slash(p.drop_last())
    }
}

pub proof fn lemma_last_slash_bounds(p: Seq<char>)
    ensures
        -1 <= last_slash(p) < p.len(),
        last_slash(p) >= 0 ==> p[last_slash(p)] == '/',
        forall|j: int| last_slash(p) < j < p.len() ==> p[j] != '/',
    decreases p.len(),
{
    if p.len() > 0 && p.last() != '/' {
        lemma_last_slash_bounds(p.drop_last());
        assert forall|j: int| last_slash(p) < j < p.len() implies p[j] != '/' by {
            if j < p.len() - 1 {
                assert(p.drop_last()[j] == p[j]);
            }
        }
    }
}

/// The last `'/'`-separated segment of a path.
pub open spec fn basename(p: Seq<char>) -> Seq<char> {
    p.subrange(last_slash(p) + 1, p.len() as int)
}

/// The parent of a path: `None` for a path right under the root.
pub open spec fn parent_of(p: Seq<char>) -> Option<Seq<char>> {
    if last_slash(p) <= 0 {
        None
    } else {
        Some(p.subrange(0, last_slash(p)))
    }
}

/// Position of the last `'/'` of `p` in characters, if any.
pub fn find_last_slash(p: &str) -> (r: Option<usize>)
    ensures
        match r {
            Some(i) => i == last_slash(p@),
            None => last_slash(p@) == -1,
        },
{
    proof {
        lemma_last_slash_bounds(p@);
    }
    let mut i: usize = p.unicode_len();
    while i > 0
        invariant
            i <= p@.len(),
            forall|j: int| i <= j < p@.len() ==> p@[j] != '/',
        decreases i,
    {
        if p.get_char(i - 1) == '/' {
            proof {
                lemma_last_slash_suffix(p@, i - 1);
            }
            return Some(i - 1);
        }
        i = i - 1;
    }
    proof {
        lemma_last_slash_suffix(p@, -1);
    }
    None
}

proof fn lemma_last_slash_suffix(p: Seq<char>, i: int)
    requires
        -1 <= i < p.len(),
        i >= 0 ==> p[i] == '/',
        forall|j: int| i < j < p.len() ==> p[j] != '/',
    ensures
        last_slash(p) == i,
    decreases p.len(),
{
    if p.len() > 0 && i < p.len() - 1 {
        lemma_last_slash_suffix(p.drop_last(), i);
    }
}

/// The last `'/'`-separated segment of a path.
pub fn basename_of(p: &str) -> (r: &str)
    ensures
        r@ == basename(p@),
{
    let n = p.unicode_len();
    proof {
        lemma_last_slash_bounds(p@);
    }
    match find_last_slash(p) {
        Some(i) => p.substring_char(i + 1, n),
        None => p.substring_char(0, n),
    }
}

/// `d` names a directory above `k`: a non-empty part of `k` that a `'/'`
/// follows.
pub open spec fn is_dir_prefix(d: Seq<char>, k: Seq<char>) -> bool {
    0 < d.len() < k.len() && k[d.len() as int] == '/' && k.subrange(0, d.len() as int) == d
}

/// The directories of a snapshot: its directory entries and every directory
/// above one of its paths.
pub open spec fn dirs_of(m: Map<Seq<char>, (FileType, Seq<char>)>) -> Set<Seq<char>> {
    Set::new(
        |d: Seq<char>|
            (m.contains_key(d) && m[d].0 == FileType::Directory) || exists|k: Seq<char>|
                m.contains_key(k) && #[trigger] is_dir_prefix(d, k),
    )
}

/// The paths of a snapshot's file entries.
pub open spec fn file_paths_of(m: Map<Seq<char>, (FileType, Seq<char>)>) -> Set<Seq<char>> {
    Set::new(|k: Seq<char>| m.contains_key(k) && m[k].0 == FileType::File)
}

/// Adds every directory above `k` to `dirs`.
fn add_dir_prefixes(dirs: &mut PathSet, k: &str)
    requires
        old(dirs).wf(),
    ensures
        final(dirs).wf(),
        final(dirs)@ == old(dirs)@.union(Set::new(|d: Seq<char>| is_dir_prefix(d, k@))),
{
    let n = k.unicode_len();
    let ghost start = dirs@;
    let mut c: usize = 1;
    while c < n
        invariant
            n == k@.len(),
            1 <= c,
            dirs.wf(),
            dirs@ == start.union(Set::new(|d: Seq<char>| is_dir_prefix(d, k@) && d.len() < c)),
        decreases n - c,
    {
        let ghost before = dirs@;
        if k.get_char(c) == '/' {
            let d = k.substring_char(0, c).to_string();
            dirs.insert(d);
        }
        c = c + 1;
        assert(dirs@ =~= start.union(Set::new(|d: Seq<char>| is_dir_prefix(d, k@) && d.len() < c)));
    }
    assert(dirs@ =~= start.union(Set::new(|d: Seq<char>| is_dir_prefix(d, k@))));
}

/// The directories that a snapshot holds or implies.
pub fn collect_directories(files: &FileMap) -> (r: PathSet)
    ensures
        r.wf(),
        r@ == dirs_of(files@),
{
    let mut dirs = PathSet::new();
    let n = files.len();
    let mut i: usize = 0;
    while i < n
        invariant
            n == files.entry_seq().len(),
            i <= n,
            dirs.wf(),
            dirs@ == Set::new(
                |d: Seq<char>| exists|j: int| 0 <= j < i && {
                    let k = #[trigger] files.entry_seq()[j].0@;
                    (d == k && files@[k].0 == FileType::Directory) || is_dir_prefix(d, k)
                }),
        decreases n - i,
    {
        let (k, e) = files.entry_at(i);
        let ghost before = dirs@;
        if e.file_type == FileType::Directory {
            dirs.insert(k.clone());
        }
        add_dir_prefixes(&mut dirs, k.as_str());
        i = i + 1;
        assert(dirs@ =~= Set::new(
                |d: Seq<char>| exists|j: int| 0 <= j < i && {
                    let k = #[trigger] files.entry_seq()[j].0@;
                    (d == k && files@[k].0 == FileType::Directory) || is_dir_prefix(d, k)
                })) by {
            assert forall|d: Seq<char>| #[trigger] dirs@.contains(d) implies exists|j: int| 0 <= j < i && {
                    let k = #[trigger] files.entry_seq()[j].0@;
                    (d == k && files@[k].0 == FileType::Directory) || is_dir_prefix(d, k)
                } by {
                if !before.contains(d) {
                    assert(files.entry_seq()[i - 1].0@ == k@);
                }
            }
        }
    }
    assert(dirs@ =~= dirs_of(files@)) by {
        assert forall|d: Seq<char>| #[trigger] dirs_of(files@).contains(d) implies dirs@.contains(d) by {
            if files@.contains_key(d) && files@[d].0 == FileType::Directory {
                files.lemma_domain(d);
            } else {
                let k = choose|k: Seq<char>| files@.contains_key(k) && #[trigger] is_dir_prefix(d, k);
                files.lemma_domain(k);
            }
        }
        assert forall|d: Seq<char>| #[trigger] dirs@.contains(d) implies dirs_of(files@).contains(d) by {
            let j = choose|j: int| 0 <= j < n && {
                    let k = #[trigger] files.entry_seq()[j].0@;
                    (d == k && files@[k].0 == FileType::Directory) || is_dir_prefix(d, k)
                };
            files.lemma_domain(files.entry_seq()[j].0@);
        }
    }
    dirs
}

/// The paths of a snapshot's file entries.
pub fn collect_file_paths(files: &FileMap) -> (r: PathSet)
    ensures
        r.wf(),
        r@ == file_paths_of(files@),
{
    let mut paths = PathSet::new();
    let n = files.len();
    let mut i: usize = 0;
    while i < n
        invariant
            n == files.entry_seq().len(),
            i <= n,
            paths.wf(),
            paths@ == Set::new(
                |k: Seq<char>| exists|j: int| 0 <= j < i && #[trigger] files.entry_seq()[j].0@ == k
                    && files@[k].0 == FileType::File),
        decreases n - i,
    {
        let (k, e) = files.entry_at(i);
        if e.file_type == FileType::File {
            paths.insert(k.clone());
        }
        i = i + 1;
        assert(paths@ =~= Set::new(
                |k: Seq<char>| exists|j: int| 0 <= j < i && #[trigger] files.entry_seq()[j].0@ == k
                    && files@[k].0 == FileType::File));
    }
    assert(paths@ =~= file_paths_of(files@)) by {
        assert forall|k: Seq<char>| #[trigger] file_paths_of(files@).contains(k) implies paths@.contains(k) by {
            files.lemma_domain(k);
        }
        assert forall|k: Seq<char>| #[trigger] paths@.contains(k) implies file_paths_of(files@).contains(k) by {
            files.lemma_domain(k);
        }
    }
    paths
}

} // verus!
