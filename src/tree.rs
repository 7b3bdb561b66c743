//! The diff tree: its node type, what each node must hold, and the builder
//! that assembles the tree and propagates statuses and line counts.
use vstd::prelude::*;
use crate::differ::{ChangeTag, count_diff, count_tag, text_diff};
use crate::files::{FileMap, FileType, Snapshot};
use crate::paths::{
    PathSet, collect_directories, collect_file_paths, dirs_of, file_paths_of, find_last_slash,
    lemma_last_slash_bounds, parent_of, sorted_paths,
};
use crate::rename::{detect_renames, pairs_view, rename_pairs, renames_valid};
use crate::similarity::Threshold;
use crate::text::{line_count, path_lt, split_by_char, str_eq};

verus! {

broadcast use vstd::std_specs::vec::group_vec_axioms;

/// The change status of a node.
#[derive(Clone, Copy, Debug, PartialEq, Eq, Structural)]
pub enum DiffStatus {
    Added,
    Removed,
    Modified,
    Unchanged,
    Renamed,
}

/// A node of the diff tree.
pub struct DiffFileEntry {
    pub path: String,
    pub old_path: Option<String>,
    pub file_type: FileType,
    pub status: DiffStatus,
    pub added: u64,
    pub removed: u64,
    pub children: Vec<DiffFileEntry>,
}

/// `p` is a file entry of the snapshot.
pub open spec fn has_file(m: Snapshot, p: Seq<char>) -> bool {
    m.contains_key(p) && m[p].0 == FileType::File
}

/// The type of a node: the entry's own where either snapshot has one (the old
/// snapshot first), a directory otherwise.
pub open spec fn resolve_type(from: Snapshot, to: Snapshot, p: Seq<char>) -> FileType {
    if from.contains_key(p) {
        from[p].0
    } else if to.contains_key(p) {
        to[p].0
    } else {
        FileType::Directory
    }
}

/// Paths of the old snapshot's files that the new one lacks.
pub open spec fn deleted_paths(from: Snapshot, to: Snapshot) -> Set<Seq<char>> {
    file_paths_of(from).difference(file_paths_of(to))
}

/// Paths of the new snapshot's files that the old one lacks.
pub open spec fn added_paths(from: Snapshot, to: Snapshot) -> Set<Seq<char>> {
    file_paths_of(to).difference(file_paths_of(from))
}

/// The old paths of a list of renames.
pub open spec fn old_paths(rs: Seq<(String, String)>) -> Set<Seq<char>> {
    Set::new(|p: Seq<char>| exists|j: int| 0 <= j < rs.len() && #[trigger] rs[j].1@ == p)
}

/// Every path of the tree but the root: the entries of both snapshots and
/// their directories, less the old paths of renamed files.
pub open spec fn tree_paths(from: Snapshot, to: Snapshot, rs: Seq<(String, String)>) -> Set<Seq<char>> {
    from.dom().union(to.dom()).union(dirs_of(from)).union(dirs_of(to)).remove("/"@).difference(old_paths(rs))
}

/// The old path of the file renamed to `p`, if any.
pub open spec fn renamed_from(rs: Seq<(String, String)>, p: Seq<char>) -> Option<Seq<char>> {
    if exists|j: int| 0 <= j < rs.len() && #[trigger] rs[j].0@ == p {
        Some(rs[choose|j: int| 0 <= j < rs.len() && #[trigger] rs[j].0@ == p].1@)
    } else {
        None
    }
}

/// Status and counts of a file that is not renamed.
pub open spec fn plain_file_ok(from: Snapshot, to: Snapshot, n: DiffFileEntry) -> bool {
    let p = n.path@;
    if has_file(from, p) && has_file(to, p) {
        if from[p].1 == to[p].1 {
            n.status == DiffStatus::Unchanged && n.added == 0 && n.removed == 0
        } else {
            &&& n.status == DiffStatus::Modified
            &&& n.added == count_tag(text_diff(from[p].1, to[p].1), ChangeTag::Insert)
            &&& n.removed == count_tag(text_diff(from[p].1, to[p].1), ChangeTag::Delete)
        }
    } else if has_file(from, p) {
        n.status == DiffStatus::Removed && n.added == 0 && n.removed == line_count(from[p].1)
    } else if has_file(to, p) {
        n.status == DiffStatus::Added && n.added == line_count(to[p].1) && n.removed == 0
    } else {
        n.status == DiffStatus::Unchanged && n.added == 0 && n.removed == 0
    }
}

/// The fields of a file node.
pub open spec fn file_fields_ok(from: Snapshot, to: Snapshot, rs: Seq<(String, String)>, n: DiffFileEntry) -> bool {
    let p = n.path@;
    let o = renamed_from(rs, p);
    &&& n.children@.len() == 0
    &&& if o is Some && has_file(from, o->0) && has_file(to, p) {
        let (fc, tc) = (from[o->0].1, to[p].1);
        &&& n.status == DiffStatus::Renamed
        &&& n.old_path is Some && n.old_path->0@ == o->0
        &&& n.added == count_tag(text_diff(fc, tc), ChangeTag::Insert)
        &&& n.removed == count_tag(text_diff(fc, tc), ChangeTag::Delete)
        &&& fc == tc ==> n.added == 0 && n.removed == 0
    } else {
        n.old_path is None && plain_file_ok(from, to, n)
    }
}

/// `x` capped at the largest `u64`.
pub open spec fn capped(x: int) -> int {
    if x > u64::MAX { u64::MAX as int } else { x }
}

pub open spec fn sum_added(cs: Seq<DiffFileEntry>) -> int
    decreases cs.len(),
{
    if cs.len() == 0 { 0 } else { sum_added(cs.drop_last()) + cs.last().added }
}

pub open spec fn sum_removed(cs: Seq<DiffFileEntry>) -> int
    decreases cs.len(),
{
    if cs.len() == 0 { 0 } else { sum_removed(cs.drop_last()) + cs.last().removed }
}

pub open spec fn all_unchanged(cs: Seq<DiffFileEntry>) -> bool {
    forall|i: int| 0 <= i < cs.len() ==> (#[trigger] cs[i]).status == DiffStatus::Unchanged
}

/// The status of a directory: by which snapshots hold it, then by its children.
pub open spec fn dir_status(in_from: bool, in_to: bool, children_unchanged: bool) -> DiffStatus {
    if !in_from && in_to {
        DiffStatus::Added
    } else if in_from && !in_to {
        DiffStatus::Removed
    } else if children_unchanged {
        DiffStatus::Unchanged
    } else {
        DiffStatus::Modified
    }
}

/// The fields of a directory node.
pub open spec fn dir_fields_ok(in_from: bool, in_to: bool, n: DiffFileEntry) -> bool {
    &&& n.old_path is None
    &&& n.added == capped(sum_added(n.children@))
    &&& n.removed == capped(sum_removed(n.children@))
    &&& n.status == dir_status(in_from, in_to, all_unchanged(n.children@))
}

/// The paths of a node's children.
pub open spec fn child_paths(n: DiffFileEntry) -> Seq<Seq<char>> {
    n.children@.map_values(|c: DiffFileEntry| c.path@)
}

/// The children of a directory are the tree paths right under it, in
/// ascending order.
pub open spec fn children_ok(
    from: Snapshot,
    to: Snapshot,
    rs: Seq<(String, String)>,
    parent: Option<Seq<char>>,
    n: DiffFileEntry,
) -> bool {
    &&& sorted_paths(child_paths(n))
    &&& child_paths(n).to_set() == tree_paths(from, to, rs).filter(|c: Seq<char>| parent_of(c) == parent)
}

/// A node below the root and its whole subtree.
pub open spec fn node_ok(from: Snapshot, to: Snapshot, rs: Seq<(String, String)>, n: DiffFileEntry) -> bool
    decreases n,
{
    let p = n.path@;
    &&& tree_paths(from, to, rs).contains(p)
    &&& n.file_type == resolve_type(from, to, p)
    &&& if n.file_type == FileType::File {
        file_fields_ok(from, to, rs, n)
    } else {
        &&& children_ok(from, to, rs, Some(p), n)
        &&& dir_fields_ok(dirs_of(from).contains(p), dirs_of(to).contains(p), n)
        &&& forall|i: int| 0 <= i < n.children@.len() ==> node_ok(from, to, rs, #[trigger] n.children@[i])
    }
}

/// The root `"/"` and the whole tree. The root belongs to a snapshot that
/// has any entry.
pub open spec fn root_ok(from: Snapshot, to: Snapshot, rs: Seq<(String, String)>, n: DiffFileEntry) -> bool {
    &&& n.path@ == "/"@
    &&& n.file_type == FileType::Directory
    &&& children_ok(from, to, rs, None, n)
    &&& dir_fields_ok(from.dom() != Set::<Seq<char>>::empty(), to.dom() != Set::<Seq<char>>::empty(), n)
    &&& forall|i: int| 0 <= i < n.children@.len() ==> node_ok(from, to, rs, #[trigger] n.children@[i])
}

/// The diff tree of two snapshots: the tree built from the renames found
/// between the deleted and the added paths, each taken in ascending order.
pub open spec fn is_diff_tree(thr: Threshold, from: Snapshot, to: Snapshot, n: DiffFileEntry) -> bool {
    exists|rs: Seq<(String, String)>, ds: Seq<Seq<char>>, as_: Seq<Seq<char>>|
        sorted_paths(ds) && ds.to_set() == deleted_paths(from, to)
            && sorted_paths(as_) && as_.to_set() == added_paths(from, to)
            && renames_valid(thr, from, to, deleted_paths(from, to), added_paths(from, to), rs)
            && #[trigger] pairs_view(rs) == #[trigger] rename_pairs(thr, from, to, ds, as_)
            && #[trigger] root_ok(from, to, rs, n)
}

/// The paths of a list of nodes.
pub open spec fn paths_of(cs: Seq<DiffFileEntry>) -> Seq<Seq<char>> {
    cs.map_values(|c: DiffFileEntry| c.path@)
}

/// Content of the file at `path`, if the snapshot has one there.
pub(crate) fn file_content_opt<'a>(files: &'a FileMap, path: &str) -> (r: Option<&'a str>)
    ensures
        r is Some <==> has_file(files@, path@),
        r is Some ==> r->0@ == files@[path@].1,
{
    match files.get(path) {
        Some(e) => {
            if e.file_type == FileType::File {
                Some(e.content.as_str())
            } else {
                None
            }
        },
        None => None,
    }
}

/// Number of lines of a text under the `'\n'` split rule.
pub fn count_lines(s: &str) -> (r: u64)
    ensures
        r == line_count(s@),
{
    let lines = split_by_char(s, '\n');
    lines.len() as u64
}

/// The old path of the file renamed to `path`, if any.
fn find_rename<'a>(rs: &'a Vec<(String, String)>, path: &str) -> (r: Option<&'a String>)
    requires
        forall|k1: int, k2: int| 0 <= k1 < rs@.len() && 0 <= k2 < rs@.len() && k1 != k2 ==>
            #[trigger] rs@[k1].0@ != #[trigger] rs@[k2].0@,
    ensures
        match renamed_from(rs@, path@) {
            Some(o) => r is Some && r->0@ == o,
            None => r is None,
        },
{
    let mut j: usize = 0;
    while j < rs.len()
        invariant
            j <= rs@.len(),
            forall|k: int| 0 <= k < j ==> #[trigger] rs@[k].0@ != path@,
            forall|k1: int, k2: int| 0 <= k1 < rs@.len() && 0 <= k2 < rs@.len() && k1 != k2 ==>
                #[trigger] rs@[k1].0@ != #[trigger] rs@[k2].0@,
        decreases rs@.len() - j,
    {
        if str_eq(rs[j].0.as_str(), path) {
            let ghost c = choose|k: int| 0 <= k < rs@.len() && #[trigger] rs@[k].0@ == path@;
            assert(rs@[c].0@ == path@);
            proof {
                assert(rs@[j as int].0@ == path@);
                if c != j as int {
                    assert(rs@[c].0@ != rs@[j as int].0@);
                }
            }
            return Some(&rs[j].1);
        }
        j = j + 1;
    }
    None
}

/// A directory node over built children.
fn dir_node(path: String, children: Vec<DiffFileEntry>, in_from: bool, in_to: bool) -> (r: DiffFileEntry)
    ensures
        r.path == path,
        r.file_type == FileType::Directory,
        r.children == children,
        dir_fields_ok(in_from, in_to, r),
{
    let mut added: u64 = 0;
    let mut removed: u64 = 0;
    let mut unchanged = true;
    let mut i: usize = 0;
    while i < children.len()
        invariant
            i <= children@.len(),
            added == capped(sum_added(children@.subrange(0, i as int))),
            removed == capped(sum_removed(children@.subrange(0, i as int))),
            unchanged == all_unchanged(children@.subrange(0, i as int)),
        decreases children@.len() - i,
    {
        let c = &children[i];
        assert(children@.subrange(0, i + 1).drop_last() =~= children@.subrange(0, i as int));
        added = added.saturating_add(c.added);
        removed = removed.saturating_add(c.removed);
        if c.status != DiffStatus::Unchanged {
            unchanged = false;
        }
        i = i + 1;
        assert(unchanged == all_unchanged(children@.subrange(0, i as int))) by {
            if !all_unchanged(children@.subrange(0, i - 1)) {
                let k = choose|k: int| 0 <= k < i - 1
                    && (#[trigger] children@.subrange(0, i - 1)[k]).status != DiffStatus::Unchanged;
                assert(children@.subrange(0, i as int)[k] == children@.subrange(0, i - 1)[k]);
            }
        }
    }
    assert(children@.subrange(0, i as int) =~= children@);
    let status = if !in_from && in_to {
        DiffStatus::Added
    } else if in_from && !in_to {
        DiffStatus::Removed
    } else if unchanged {
        DiffStatus::Unchanged
    } else {
        DiffStatus::Modified
    };
    DiffFileEntry { path, old_path: None, file_type: FileType::Directory, status, added, removed, children }
}

/// A tool that holds two snapshots and builds their diff tree.
pub struct DiffTreeBuilder {
    from_files: FileMap,
    to_files: FileMap,
    from_file_paths: PathSet,
    to_file_paths: PathSet,
    from_dirs: PathSet,
    to_dirs: PathSet,
    similarity_threshold: Threshold,
}

impl DiffTreeBuilder {
    pub closed spec fn from_view(&self) -> Snapshot {
        self.from_files@
    }

    pub closed spec fn to_view(&self) -> Snapshot {
        self.to_files@
    }

    pub closed spec fn threshold(&self) -> Threshold {
        self.similarity_threshold
    }

    pub closed spec fn wf(&self) -> bool {
        &&& self.from_file_paths.wf()
        &&& self.to_file_paths.wf()
        &&& self.from_dirs.wf()
        &&& self.to_dirs.wf()
        &&& self.from_file_paths@ == file_paths_of(self.from_files@)
        &&& self.to_file_paths@ == file_paths_of(self.to_files@)
        &&& self.from_dirs@ == dirs_of(self.from_files@)
        &&& self.to_dirs@ == dirs_of(self.to_files@)
        &&& self.similarity_threshold.wf()
    }

    /// A builder with two empty snapshots.
    pub fn new(similarity_threshold: Threshold) -> (r: DiffTreeBuilder)
        requires
            similarity_threshold.wf(),
        ensures
            r.wf(),
            r.threshold() == similarity_threshold,
            r.from_view() == Map::<Seq<char>, (FileType, Seq<char>)>::empty(),
            r.to_view() == Map::<Seq<char>, (FileType, Seq<char>)>::empty(),
    {
        let from_files = FileMap::new();
        let to_files = FileMap::new();
        let from_file_paths = collect_file_paths(&from_files);
        let to_file_paths = collect_file_paths(&to_files);
        let from_dirs = collect_directories(&from_files);
        let to_dirs = collect_directories(&to_files);
        DiffTreeBuilder {
            from_files,
            to_files,
            from_file_paths,
            to_file_paths,
            from_dirs,
            to_dirs,
            similarity_threshold,
        }
    }

    /// Sets the old snapshot.
    pub fn set_from_files(&mut self, files: FileMap)
        requires
            old(self).wf(),
        ensures
            final(self).wf(),
            final(self).from_view() == files@,
            final(self).to_view() == old(self).to_view(),
            final(self).threshold() == old(self).threshold(),
    {
        self.from_file_paths = collect_file_paths(&files);
        self.from_dirs = collect_directories(&files);
        self.from_files = files;
    }

    /// Sets the new snapshot.
    pub fn set_to_files(&mut self, files: FileMap)
        requires
            old(self).wf(),
        ensures
            final(self).wf(),
            final(self).to_view() == files@,
            final(self).from_view() == old(self).from_view(),
            final(self).threshold() == old(self).threshold(),
    {
        self.to_file_paths = collect_file_paths(&files);
        self.to_dirs = collect_directories(&files);
        self.to_files = files;
    }

    fn resolve_file_type(&self, path: &str) -> (r: FileType)
        ensures
            r == resolve_type(self.from_view(), self.to_view(), path@),
    {
        match self.from_files.get(path) {
            Some(e) => e.file_type,
            None => match self.to_files.get(path) {
                Some(e) => e.file_type,
                None => FileType::Directory,
            },
        }
    }

    /// The node of the file at `path`, with its status and line counts.
    fn file_node(&self, rs: &Vec<(String, String)>, path: &String) -> (r: DiffFileEntry)
        requires
            forall|k1: int, k2: int| 0 <= k1 < rs@.len() && 0 <= k2 < rs@.len() && k1 != k2 ==>
                #[trigger] rs@[k1].0@ != #[trigger] rs@[k2].0@,
        ensures
            r.path@ == path@,
            r.file_type == FileType::File,
            file_fields_ok(self.from_view(), self.to_view(), rs@, r),
    {
        if let Some(old_path) = find_rename(rs, path.as_str()) {
            let fc = file_content_opt(&self.from_files, old_path.as_str());
            let tc = file_content_opt(&self.to_files, path.as_str());
            if let (Some(f), Some(t)) = (fc, tc) {
                let (added, removed) = count_diff(f, t);
                return DiffFileEntry {
                    path: path.clone(),
                    old_path: Some(old_path.clone()),
                    file_type: FileType::File,
                    status: DiffStatus::Renamed,
                    added,
                    removed,
                    children: Vec::new(),
                };
            }
        }
        let fc = file_content_opt(&self.from_files, path.as_str());
        let tc = file_content_opt(&self.to_files, path.as_str());
        let (status, added, removed) = match (fc, tc) {
            (Some(f), Some(t)) => {
                if str_eq(f, t) {
                    (DiffStatus::Unchanged, 0u64, 0u64)
                } else {
                    let (a, r) = count_diff(f, t);
                    (DiffStatus::Modified, a, r)
                }
            },
            (Some(f), None) => (DiffStatus::Removed, 0u64, count_lines(f)),
            (None, Some(t)) => (DiffStatus::Added, count_lines(t), 0u64),
            (None, None) => (DiffStatus::Unchanged, 0u64, 0u64),
        };
        DiffFileEntry {
            path: path.clone(),
            old_path: None,
            file_type: FileType::File,
            status,
            added,
            removed,
            children: Vec::new(),
        }
    }
}

/// The longest length among some paths.
pub open spec fn max_len(s: Seq<Seq<char>>) -> nat
    decreases s.len(),
{
    if s.len() == 0 {
        0
    } else {
        let m = max_len(s.drop_last());
        if s.last().len() > m { s.last().len() } else { m }
    }
}

proof fn lemma_max_len(s: Seq<Seq<char>>)
    ensures
        forall|i: int| 0 <= i < s.len() ==> (#[trigger] s[i]).len() <= max_len(s),
    decreases s.len(),
{
    if s.len() > 0 {
        lemma_max_len(s.drop_last());
        assert forall|i: int| 0 <= i < s.len() implies (#[trigger] s[i]).len() <= max_len(s) by {
            if i < s.len() - 1 {
                assert(s.drop_last()[i] == s[i]);
            }
        }
    }
}

/// The view of an optional path.
pub open spec fn opt_view(p: Option<&str>) -> Option<Seq<char>> {
    match p {
        Some(x) => Some(x@),
        None => None,
    }
}

/// Whether `parent` is the parent of `c` (`None` for the root).
fn is_child_of(c: &str, parent: Option<&str>) -> (r: bool)
    ensures
        r == (parent_of(c@) == opt_view(parent)),
{
    proof {
        lemma_last_slash_bounds(c@);
    }
    match find_last_slash(c) {
        None => parent.is_none(),
        Some(k) => {
            if k == 0 {
                parent.is_none()
            } else {
                match parent {
                    None => false,
                    Some(p) => str_eq(c.substring_char(0, k), p),
                }
            }
        },
    }
}

/// The paths of `a` not in `b`.
fn set_difference(a: &PathSet, b: &PathSet) -> (r: PathSet)
    requires
        a.wf(),
        b.wf(),
    ensures
        r.wf(),
        r@ == a@.difference(b@),
{
    let mut r = PathSet::new();
    let mut i: usize = 0;
    while i < a.len()
        invariant
            a.wf(),
            b.wf(),
            r.wf(),
            i <= a.items().len(),
            r@ == a.items().subrange(0, i as int).to_set().difference(b@),
        decreases a.items().len() - i,
    {
        let x = a.at(i);
        proof {
            assert(a.items().subrange(0, i + 1) =~= a.items().subrange(0, i as int).push(x@));
            a.items().subrange(0, i as int).lemma_push_to_set_commute(x@);
        }
        if !b.contains(x.as_str()) {
            r.insert(x.clone());
        }
        i = i + 1;
        assert(r@ =~= a.items().subrange(0, i as int).to_set().difference(b@));
    }
    assert(a.items().subrange(0, i as int) =~= a.items());
    r
}

/// Adds the paths of `a` to `acc`.
fn add_all(acc: &mut PathSet, a: &PathSet)
    requires
        old(acc).wf(),
    ensures
        final(acc).wf(),
        final(acc)@ == old(acc)@.union(a@),
{
    let ghost start = acc@;
    let mut i: usize = 0;
    while i < a.len()
        invariant
            acc.wf(),
            i <= a.items().len(),
            acc@ == start.union(a.items().subrange(0, i as int).to_set()),
        decreases a.items().len() - i,
    {
        let x = a.at(i);
        proof {
            assert(a.items().subrange(0, i + 1) =~= a.items().subrange(0, i as int).push(x@));
            a.items().subrange(0, i as int).lemma_push_to_set_commute(x@);
        }
        acc.insert(x.clone());
        i = i + 1;
        assert(acc@ =~= start.union(a.items().subrange(0, i as int).to_set()));
    }
    assert(a.items().subrange(0, i as int) =~= a.items());
}

/// Adds the paths of a snapshot's entries to `acc`.
fn add_keys(acc: &mut PathSet, files: &FileMap)
    requires
        old(acc).wf(),
    ensures
        final(acc).wf(),
        final(acc)@ == old(acc)@.union(files@.dom()),
{
    let ghost start = acc@;
    let n = files.len();
    let mut i: usize = 0;
    while i < n
        invariant
            n == files.entry_seq().len(),
            acc.wf(),
            i <= n,
            acc@ == start.union(Set::new(|k: Seq<char>| exists|j: int| 0 <= j < i && #[trigger] files.entry_seq()[j].0@ == k)),
        decreases n - i,
    {
        let (k, _) = files.entry_at(i);
        acc.insert(k.clone());
        i = i + 1;
        assert(acc@ =~= start.union(Set::new(|k: Seq<char>| exists|j: int| 0 <= j < i && #[trigger] files.entry_seq()[j].0@ == k)));
    }
    assert(acc@ =~= start.union(files@.dom())) by {
        assert forall|k: Seq<char>| #[trigger] files@.dom().contains(k) implies acc@.contains(k) by {
            files.lemma_domain(k);
        }
        assert forall|k: Seq<char>| #[trigger] acc@.contains(k) && !start.contains(k) implies files@.dom().contains(k) by {
            files.lemma_domain(k);
        }
    }
}

/// The old paths of a list of renames, as a set.
fn rename_sources(rs: &Vec<(String, String)>) -> (r: PathSet)
    ensures
        r.wf(),
        r@ == old_paths(rs@),
{
    let mut r = PathSet::new();
    let mut i: usize = 0;
    while i < rs.len()
        invariant
            i <= rs@.len(),
            r.wf(),
            r@ == Set::new(|p: Seq<char>| exists|j: int| 0 <= j < i && #[trigger] rs@[j].1@ == p),
        decreases rs@.len() - i,
    {
        r.insert(rs[i].1.clone());
        i = i + 1;
        assert(r@ =~= Set::new(|p: Seq<char>| exists|j: int| 0 <= j < i && #[trigger] rs@[j].1@ == p));
    }
    assert(r@ =~= old_paths(rs@));
    r
}

impl DiffTreeBuilder {
    /// The nodes right under `parent` (the root where `None`), each with its
    /// subtree, in ascending order of path.
    fn build_children(
        &self,
        rs: &Vec<(String, String)>,
        all: &PathSet,
        olds: &PathSet,
        parent: Option<&str>,
        Ghost(bound): Ghost<nat>,
    ) -> (r: Vec<DiffFileEntry>)
        requires
            self.wf(),
            all.wf(),
            olds.wf(),
            all@.remove("/"@).difference(olds@) == tree_paths(self.from_view(), self.to_view(), rs@),
            forall|i: int| 0 <= i < all.items().len() ==> (#[trigger] all.items()[i]).len() <= bound,
            parent is Some ==> parent->0@.len() <= bound,
            forall|k1: int, k2: int| 0 <= k1 < rs@.len() && 0 <= k2 < rs@.len() && k1 != k2 ==>
                #[trigger] rs@[k1].0@ != #[trigger] rs@[k2].0@,
        ensures
            sorted_paths(paths_of(r@)),
            paths_of(r@).to_set() == tree_paths(self.from_view(), self.to_view(), rs@).filter(
                |c: Seq<char>| parent_of(c) == opt_view(parent)),
            forall|i: int| 0 <= i < r@.len() ==> node_ok(self.from_view(), self.to_view(), rs@, #[trigger] r@[i]),
        decreases (if parent is Some { bound - parent->0@.len() } else { bound + 1int }),
    {
        let ghost from = self.from_view();
        let ghost to = self.to_view();
        let ghost items = all.items();
        let ghost pv = opt_view(parent);
        let mut r: Vec<DiffFileEntry> = Vec::new();
        let mut i: usize = 0;
        while i < all.len()
            invariant
                self.wf(),
                from == self.from_view(),
                to == self.to_view(),
                items == all.items(),
                pv == opt_view(parent),
                all.wf(),
                olds.wf(),
                all@.remove("/"@).difference(olds@) == tree_paths(from, to, rs@),
                forall|i: int| 0 <= i < items.len() ==> (#[trigger] items[i]).len() <= bound,
                parent is Some ==> parent->0@.len() <= bound,
                forall|k1: int, k2: int| 0 <= k1 < rs@.len() && 0 <= k2 < rs@.len() && k1 != k2 ==>
                    #[trigger] rs@[k1].0@ != #[trigger] rs@[k2].0@,
                i <= items.len(),
                sorted_paths(paths_of(r@)),
                forall|k: int| 0 <= k < r@.len() ==> exists|j: int| 0 <= j < i && #[trigger] items[j] == (#[trigger] r@[k]).path@,
                paths_of(r@).to_set() == Set::new(|x: Seq<char>| exists|j: int| 0 <= j < i && #[trigger] items[j] == x
                    && x != "/"@ && !olds@.contains(x) && parent_of(x) == pv),
                forall|k: int| 0 <= k < r@.len() ==> node_ok(from, to, rs@, #[trigger] r@[k]),
            decreases items.len() - i,
        {
            let c = all.at(i);
            let ghost before = r@;
            if !str_eq(c.as_str(), "/") && !olds.contains(c.as_str()) && is_child_of(c.as_str(), parent) {
                proof {
                    assert(all@.contains(c@));
                    assert(tree_paths(from, to, rs@).contains(c@));
                    lemma_last_slash_bounds(c@);
                }
                let ft = self.resolve_file_type(c.as_str());
                let node = if ft == FileType::File {
                    self.file_node(rs, c)
                } else {
                    let kids = self.build_children(rs, all, olds, Some(c.as_str()), Ghost(bound));
                    let in_from = self.from_dirs.contains(c.as_str());
                    let in_to = self.to_dirs.contains(c.as_str());
                    let n = dir_node(c.clone(), kids, in_from, in_to);
                    assert(child_paths(n) == paths_of(n.children@));
                    n
                };
                r.push(node);
                proof {
                    assert(paths_of(r@) =~= paths_of(before).push(c@));
                    paths_of(before).lemma_push_to_set_commute(c@);
                    assert forall|a: int, b: int| 0 <= a < b < paths_of(r@).len() implies
                        path_lt(#[trigger] paths_of(r@)[a], #[trigger] paths_of(r@)[b]) by {
                        if b == r@.len() - 1 {
                            assert(r@[a] == before[a]);
                            let j = choose|j: int| 0 <= j < i && #[trigger] items[j] == (#[trigger] before[a]).path@;
                            assert(path_lt(items[j], items[i as int]));
                        } else {
                            assert(paths_of(r@)[a] == paths_of(before)[a]);
                            assert(paths_of(r@)[b] == paths_of(before)[b]);
                        }
                    }
                    assert forall|k: int| 0 <= k < r@.len() implies exists|j: int| 0 <= j < i + 1 && #[trigger] items[j] == (#[trigger] r@[k]).path@ by {
                        if k < r@.len() - 1 {
                            assert(r@[k] == before[k]);
                        } else {
                            assert(items[i as int] == r@[k].path@);
                        }
                    }
                    assert forall|k: int| 0 <= k < r@.len() implies node_ok(from, to, rs@, #[trigger] r@[k]) by {
                        if k < r@.len() - 1 {
                            assert(r@[k] == before[k]);
                        }
                    }
                }
            }
            i = i + 1;
            assert(paths_of(r@).to_set() =~= Set::new(|x: Seq<char>| exists|j: int| 0 <= j < i && #[trigger] items[j] == x
                    && x != "/"@ && !olds@.contains(x) && parent_of(x) == pv));
        }
        assert(paths_of(r@).to_set() =~= tree_paths(from, to, rs@).filter(|c: Seq<char>| parent_of(c) == pv)) by {
            assert forall|x: Seq<char>| tree_paths(from, to, rs@).contains(x) && parent_of(x) == pv
                implies #[trigger] paths_of(r@).to_set().contains(x) by {
                assert(all@.contains(x));
                let j = choose|j: int| 0 <= j < items.len() && items[j] == x;
                assert(items[j] == x);
            }
        }
        r
    }

    /// The diff tree of the two snapshots.
    pub fn build_tree(&self) -> (r: DiffFileEntry)
        requires
            self.wf(),
        ensures
            is_diff_tree(self.threshold(), self.from_view(), self.to_view(), r),
    {
        let ghost from = self.from_view();
        let ghost to = self.to_view();
        let deleted = set_difference(&self.from_file_paths, &self.to_file_paths);
        let added = set_difference(&self.to_file_paths, &self.from_file_paths);
        let rs = detect_renames(&self.similarity_threshold, &self.from_files, &self.to_files, &deleted, &added);

        let mut all = PathSet::new();
        add_keys(&mut all, &self.from_files);
        add_keys(&mut all, &self.to_files);
        add_all(&mut all, &self.from_dirs);
        add_all(&mut all, &self.to_dirs);
        let olds = rename_sources(&rs);
        assert(all@.remove("/"@).difference(olds@) =~= tree_paths(from, to, rs@));
        let ghost bound = max_len(all.items());
        proof {
            lemma_max_len(all.items());
        }
        let children = self.build_children(&rs, &all, &olds, None, Ghost(bound));
        let in_from = self.from_files.len() > 0;
        let in_to = self.to_files.len() > 0;
        proof {
            self.from_files.lemma_nonempty();
            self.to_files.lemma_nonempty();
        }
        let root = dir_node(String::from_str("/"), children, in_from, in_to);
        assert(child_paths(root) == paths_of(root.children@));
        assert(root_ok(from, to, rs@, root));
        assert(pairs_view(rs@) == rename_pairs(self.similarity_threshold, from, to, deleted.items(), added.items()));
        root
    }
}

/// The diff tree of two snapshots, with the similarity threshold for renames.
pub fn build_diff_tree(from_files: FileMap, to_files: FileMap, similarity_threshold: Threshold) -> (r: DiffFileEntry)
    requires
        similarity_threshold.wf(),
    ensures
        is_diff_tree(similarity_threshold, from_files@, to_files@, r),
{
    let ghost (f, t) = (from_files@, to_files@);
    let mut builder = DiffTreeBuilder::new(similarity_threshold);
    builder.set_from_files(from_files);
    builder.set_to_files(to_files);
    builder.build_tree()
}

} // verus!
