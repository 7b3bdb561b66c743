//! Properties that hold of every diff tree, proved from the node rules.
use vstd::prelude::*;
use crate::files::{FileType, Snapshot};
use crate::paths::{file_paths_of, last_slash, lemma_last_slash_bounds, lemma_sorted_no_duplicates, parent_of, sorted_paths};
use crate::rename::renames_valid;
use crate::similarity::Threshold;
use crate::text::{line_count, lemma_path_lt_irreflexive, lemma_path_lt_transitive, path_lt};
use crate::tree::{
    DiffFileEntry, DiffStatus, added_paths, all_unchanged, capped, child_paths,
    deleted_paths, has_file, is_diff_tree, resolve_type, tree_paths, node_ok, old_paths, renamed_from, root_ok, sum_added,
    sum_removed,
};
use crate::rename::{content_at, exact_phase, first_equal, pairs_view, rename_pairs, similar_phase};

verus! {

broadcast use vstd::std_specs::vec::group_vec_axioms;

/// The children of every node are in ascending order of path.
pub proof fn law_children_sorted(from: Snapshot, to: Snapshot, rs: Seq<(String, String)>, n: DiffFileEntry)
    requires
        node_ok(from, to, rs, n) || root_ok(from, to, rs, n),
    ensures
        sorted_paths(child_paths(n)),
{
    if n.file_type == FileType::File && !root_ok(from, to, rs, n) {
        assert(child_paths(n).len() == 0);
    }
}

/// The line counts of every directory are the sums of its children's
/// (capped at the largest `u64`).
pub proof fn law_directory_sums(from: Snapshot, to: Snapshot, rs: Seq<(String, String)>, n: DiffFileEntry)
    requires
        node_ok(from, to, rs, n) || root_ok(from, to, rs, n),
        n.file_type == FileType::Directory,
    ensures
        n.added == capped(sum_added(n.children@)),
        n.removed == capped(sum_removed(n.children@)),
{
}

/// A node is `Unchanged` only if all its children are; a directory that both
/// snapshots hold is `Unchanged` exactly when all its children are.
pub proof fn law_unchanged_status(from: Snapshot, to: Snapshot, rs: Seq<(String, String)>, n: DiffFileEntry)
    requires
        node_ok(from, to, rs, n) || root_ok(from, to, rs, n),
    ensures
        n.status == DiffStatus::Unchanged ==> all_unchanged(n.children@),
        n.file_type == FileType::Directory && n.status != DiffStatus::Added && n.status != DiffStatus::Removed
            ==> (n.status == DiffStatus::Unchanged <==> all_unchanged(n.children@)),
{
}

/// `old_path` is set exactly on `Renamed` nodes, and those are files.
pub proof fn law_old_path_on_renamed_files(from: Snapshot, to: Snapshot, rs: Seq<(String, String)>, n: DiffFileEntry)
    requires
        node_ok(from, to, rs, n) || root_ok(from, to, rs, n),
    ensures
        n.old_path is Some <==> n.status == DiffStatus::Renamed,
        n.status == DiffStatus::Renamed ==> n.file_type == FileType::File,
{
}

proof fn lemma_no_renames(thr: Threshold, from: Snapshot, to: Snapshot, rs: Seq<(String, String)>, p: Seq<char>)
    requires
        renames_valid(thr, from, to, deleted_paths(from, to), added_paths(from, to), rs),
        added_paths(from, to) =~= Set::<Seq<char>>::empty(),
    ensures
        renamed_from(rs, p) is None,
{
    if exists|j: int| 0 <= j < rs.len() && #[trigger] rs[j].0@ == p {
        let j = choose|j: int| 0 <= j < rs.len() && #[trigger] rs[j].0@ == p;
        assert(added_paths(from, to).contains(rs[j].0@));
    }
}

proof fn lemma_zero_sums(cs: Seq<DiffFileEntry>)
    requires
        forall|i: int| 0 <= i < cs.len() ==> (#[trigger] cs[i]).added == 0 && cs[i].removed == 0,
    ensures
        sum_added(cs) == 0,
        sum_removed(cs) == 0,
    decreases cs.len(),
{
    if cs.len() > 0 {
        assert(cs.last() == cs[cs.len() - 1]);
        lemma_zero_sums(cs.drop_last());
    }
}

/// Comparing a snapshot with itself: every node below the root is
/// `Unchanged` with no added or removed lines.
pub proof fn law_identical_snapshots_nodes(thr: Threshold, m: Snapshot, rs: Seq<(String, String)>, n: DiffFileEntry)
    requires
        renames_valid(thr, m, m, deleted_paths(m, m), added_paths(m, m), rs),
        node_ok(m, m, rs, n),
    ensures
        n.status == DiffStatus::Unchanged,
        n.added == 0,
        n.removed == 0,
    decreases n,
{
    assert(added_paths(m, m) =~= Set::<Seq<char>>::empty());
    lemma_no_renames(thr, m, m, rs, n.path@);
    if n.file_type == FileType::Directory {
        assert forall|i: int| 0 <= i < n.children@.len() implies
            (#[trigger] n.children@[i]).status == DiffStatus::Unchanged && n.children@[i].added == 0
                && n.children@[i].removed == 0 by {
            law_identical_snapshots_nodes(thr, m, rs, n.children@[i]);
        }
        lemma_zero_sums(n.children@);
    }
}

/// Comparing a snapshot with itself: the root and every node are
/// `Unchanged`, with no added or removed lines.
pub proof fn law_identical_snapshots(thr: Threshold, m: Snapshot, rs: Seq<(String, String)>, root: DiffFileEntry)
    requires
        renames_valid(thr, m, m, deleted_paths(m, m), added_paths(m, m), rs),
        root_ok(m, m, rs, root),
    ensures
        root.status == DiffStatus::Unchanged,
        root.added == 0,
        root.removed == 0,
        forall|i: int| 0 <= i < root.children@.len() ==> (#[trigger] root.children@[i]).status
            == DiffStatus::Unchanged,
{
    assert forall|i: int| 0 <= i < root.children@.len() implies
        (#[trigger] root.children@[i]).status == DiffStatus::Unchanged && root.children@[i].added == 0
            && root.children@[i].removed == 0 by {
        law_identical_snapshots_nodes(thr, m, rs, root.children@[i]);
    }
    lemma_zero_sums(root.children@);
}

/// Against an empty new snapshot, every file is `Removed`, with no added
/// lines and all its lines removed.
pub proof fn law_empty_new_snapshot(thr: Threshold, from: Snapshot, rs: Seq<(String, String)>, n: DiffFileEntry)
    requires
        renames_valid(thr, from, Map::empty(), deleted_paths(from, Map::empty()), added_paths(from, Map::empty()), rs),
        node_ok(from, Map::empty(), rs, n),
        n.file_type == FileType::File,
    ensures
        n.status == DiffStatus::Removed,
        n.added == 0,
        n.removed == line_count(from[n.path@].1),
{
    let to = Map::<Seq<char>, (FileType, Seq<char>)>::empty();
    assert(added_paths(from, to) =~= Set::<Seq<char>>::empty());
    lemma_no_renames(thr, from, to, rs, n.path@);
}

/// A file that both snapshots hold with the same content is `Unchanged`,
/// with counts `(0, 0)`.
pub proof fn law_identical_file(thr: Threshold, from: Snapshot, to: Snapshot, rs: Seq<(String, String)>, n: DiffFileEntry)
    requires
        renames_valid(thr, from, to, deleted_paths(from, to), added_paths(from, to), rs),
        node_ok(from, to, rs, n),
        n.file_type == FileType::File,
        has_file(from, n.path@),
        has_file(to, n.path@),
        from[n.path@].1 == to[n.path@].1,
    ensures
        n.status == DiffStatus::Unchanged,
        n.added == 0,
        n.removed == 0,
{
    let p = n.path@;
    if exists|j: int| 0 <= j < rs.len() && #[trigger] rs[j].0@ == p {
        let j = choose|j: int| 0 <= j < rs.len() && #[trigger] rs[j].0@ == p;
        assert(added_paths(from, to).contains(rs[j].0@));
        assert(file_paths_of(from).contains(p));
    }
}

/// A file renamed without a change of content counts `(0, 0)`.
pub proof fn law_pure_rename(from: Snapshot, to: Snapshot, rs: Seq<(String, String)>, n: DiffFileEntry)
    requires
        node_ok(from, to, rs, n),
        n.status == DiffStatus::Renamed,
        from[n.old_path->0@].1 == to[n.path@].1,
    ensures
        n.added == 0,
        n.removed == 0,
{
}

/// The old path of a renamed file has no node of its own.
pub proof fn law_rename_source_absent(from: Snapshot, to: Snapshot, rs: Seq<(String, String)>, n: DiffFileEntry)
    requires
        node_ok(from, to, rs, n),
    ensures
        !old_paths(rs).contains(n.path@),
{
}

/// Added lines of the files in a subtree.
pub open spec fn files_added(n: DiffFileEntry) -> int
    decreases n, 1nat,
{
    if n.file_type == FileType::File {
        n.added as int
    } else {
        files_added_upto(n, n.children@.len() as int)
    }
}

/// Added lines of the files under the first `k` children of `n`.
pub open spec fn files_added_upto(n: DiffFileEntry, k: int) -> int
    decreases n, 0nat, k,
{
    if k <= 0 || k > n.children@.len() {
        0
    } else {
        files_added_upto(n, k - 1) + files_added(n.children@[k - 1])
    }
}

/// Removed lines of the files in a subtree.
pub open spec fn files_removed(n: DiffFileEntry) -> int
    decreases n, 1nat,
{
    if n.file_type == FileType::File {
        n.removed as int
    } else {
        files_removed_upto(n, n.children@.len() as int)
    }
}

/// Removed lines of the files under the first `k` children of `n`.
pub open spec fn files_removed_upto(n: DiffFileEntry, k: int) -> int
    decreases n, 0nat, k,
{
    if k <= 0 || k > n.children@.len() {
        0
    } else {
        files_removed_upto(n, k - 1) + files_removed(n.children@[k - 1])
    }
}

proof fn lemma_capped_add(a: int, b: int, x: int)
    requires
        a >= 0,
        b >= 0,
        x >= 0,
        capped(a) == capped(b),
    ensures
        capped(a + capped(x)) == capped(b + x),
{
}

proof fn lemma_sums_upto(from: Snapshot, to: Snapshot, rs: Seq<(String, String)>, n: DiffFileEntry, k: int)
    requires
        0 <= k <= n.children@.len(),
        forall|i: int| 0 <= i < n.children@.len() ==> node_ok(from, to, rs, #[trigger] n.children@[i]),
    ensures
        capped(sum_added(n.children@.subrange(0, k))) == capped(files_added_upto(n, k)),
        capped(sum_removed(n.children@.subrange(0, k))) == capped(files_removed_upto(n, k)),
        sum_added(n.children@.subrange(0, k)) >= 0,
        sum_removed(n.children@.subrange(0, k)) >= 0,
        files_added_upto(n, k) >= 0,
        files_removed_upto(n, k) >= 0,
    decreases n, 0nat, k,
{
    if k > 0 {
        lemma_sums_upto(from, to, rs, n, k - 1);
        let c = n.children@[k - 1];
        assert(n.children@.subrange(0, k).drop_last() =~= n.children@.subrange(0, k - 1));
        lemma_subtree_sums(from, to, rs, c);
        lemma_capped_add(sum_added(n.children@.subrange(0, k - 1)), files_added_upto(n, k - 1), files_added(c));
        lemma_capped_add(sum_removed(n.children@.subrange(0, k - 1)), files_removed_upto(n, k - 1), files_removed(c));
    } else {
        assert(n.children@.subrange(0, 0) =~= Seq::<DiffFileEntry>::empty());
    }
}

proof fn lemma_subtree_sums(from: Snapshot, to: Snapshot, rs: Seq<(String, String)>, n: DiffFileEntry)
    requires
        node_ok(from, to, rs, n),
    ensures
        n.added == capped(files_added(n)),
        n.removed == capped(files_removed(n)),
        files_added(n) >= 0,
        files_removed(n) >= 0,
    decreases n, 1nat,
{
    if n.file_type == FileType::Directory {
        lemma_sums_upto(from, to, rs, n, n.children@.len() as int);
        assert(n.children@.subrange(0, n.children@.len() as int) =~= n.children@);
    }
}

/// The line counts of every node are the sums over the files below it
/// (capped at the largest `u64`); those of a file are its own.
pub proof fn law_subtree_sums(from: Snapshot, to: Snapshot, rs: Seq<(String, String)>, n: DiffFileEntry)
    requires
        node_ok(from, to, rs, n) || root_ok(from, to, rs, n),
    ensures
        n.added == capped(files_added(n)),
        n.removed == capped(files_removed(n)),
{
    if node_ok(from, to, rs, n) {
        lemma_subtree_sums(from, to, rs, n);
    } else {
        lemma_sums_upto(from, to, rs, n, n.children@.len() as int);
        assert(n.children@.subrange(0, n.children@.len() as int) =~= n.children@);
    }
}

/// `m` lies strictly below `n`.
pub open spec fn below(n: DiffFileEntry, m: DiffFileEntry) -> bool
    decreases n,
{
    exists|i: int| 0 <= i < n.children@.len() && (#[trigger] n.children@[i] == m || below(n.children@[i], m))
}

/// `m` is `root` or lies below it.
pub open spec fn in_tree(root: DiffFileEntry, m: DiffFileEntry) -> bool {
    m == root || below(root, m)
}

/// Every node below a node that meets the node rules meets them too.
pub proof fn lemma_below_node_ok(from: Snapshot, to: Snapshot, rs: Seq<(String, String)>, n: DiffFileEntry, m: DiffFileEntry)
    requires
        node_ok(from, to, rs, n) || root_ok(from, to, rs, n),
        below(n, m),
    ensures
        node_ok(from, to, rs, m),
    decreases n,
{
    let i = choose|i: int| 0 <= i < n.children@.len() && (#[trigger] n.children@[i] == m || below(n.children@[i], m));
    if n.file_type == FileType::File && !root_ok(from, to, rs, n) {
        assert(n.children@.len() == 0);
    }
    let c = n.children@[i];
    assert(node_ok(from, to, rs, c));
    if c != m {
        lemma_below_node_ok(from, to, rs, c, m);
    }
}

/// The renames that a diff tree was built from.
pub open spec fn tree_renames(thr: Threshold, from: Snapshot, to: Snapshot, root: DiffFileEntry) -> Seq<(String, String)> {
    (choose|rs: Seq<(String, String)>, ds: Seq<Seq<char>>, as_: Seq<Seq<char>>|
        sorted_paths(ds) && ds.to_set() == deleted_paths(from, to)
            && sorted_paths(as_) && as_.to_set() == added_paths(from, to)
            && renames_valid(thr, from, to, deleted_paths(from, to), added_paths(from, to), rs)
            && #[trigger] pairs_view(rs) == #[trigger] rename_pairs(thr, from, to, ds, as_)
            && #[trigger] root_ok(from, to, rs, root)).0
}

/// Every node of a diff tree meets the rules, for the renames it was built from.
pub proof fn lemma_tree_node(thr: Threshold, from: Snapshot, to: Snapshot, root: DiffFileEntry, m: DiffFileEntry)
    requires
        is_diff_tree(thr, from, to, root),
        in_tree(root, m),
    ensures
        renames_valid(thr, from, to, deleted_paths(from, to), added_paths(from, to), tree_renames(thr, from, to, root)),
        root_ok(from, to, tree_renames(thr, from, to, root), root),
        m != root ==> node_ok(from, to, tree_renames(thr, from, to, root), m),
{
    let rs = tree_renames(thr, from, to, root);
    if m != root {
        lemma_below_node_ok(from, to, rs, root, m);
    }
}

/// In a diff tree, the children of every node are in ascending order of path.
pub proof fn law_tree_children_sorted(thr: Threshold, from: Snapshot, to: Snapshot, root: DiffFileEntry, m: DiffFileEntry)
    requires
        is_diff_tree(thr, from, to, root),
        in_tree(root, m),
    ensures
        sorted_paths(child_paths(m)),
{
    lemma_tree_node(thr, from, to, root, m);
    law_children_sorted(from, to, tree_renames(thr, from, to, root), m);
}

/// In a diff tree, the counts of every node are the sums over the files
/// below it (capped at the largest `u64`).
pub proof fn law_tree_sums(thr: Threshold, from: Snapshot, to: Snapshot, root: DiffFileEntry, m: DiffFileEntry)
    requires
        is_diff_tree(thr, from, to, root),
        in_tree(root, m),
    ensures
        m.added == capped(files_added(m)),
        m.removed == capped(files_removed(m)),
{
    lemma_tree_node(thr, from, to, root, m);
    law_subtree_sums(from, to, tree_renames(thr, from, to, root), m);
}

/// In a diff tree, a node is `Unchanged` only if all its children are; a
/// directory that is neither `Added` nor `Removed` is `Unchanged` exactly
/// when all its children are.
pub proof fn law_tree_unchanged_status(thr: Threshold, from: Snapshot, to: Snapshot, root: DiffFileEntry, m: DiffFileEntry)
    requires
        is_diff_tree(thr, from, to, root),
        in_tree(root, m),
    ensures
        m.status == DiffStatus::Unchanged ==> all_unchanged(m.children@),
        m.file_type == FileType::Directory && m.status != DiffStatus::Added && m.status != DiffStatus::Removed
            ==> (m.status == DiffStatus::Unchanged <==> all_unchanged(m.children@)),
{
    lemma_tree_node(thr, from, to, root, m);
    law_unchanged_status(from, to, tree_renames(thr, from, to, root), m);
}

/// In a diff tree, `old_path` is set exactly on `Renamed` nodes; those are
/// files at a path that only the new snapshot has, renamed from one that only
/// the old snapshot has.
pub proof fn law_tree_old_path(thr: Threshold, from: Snapshot, to: Snapshot, root: DiffFileEntry, m: DiffFileEntry)
    requires
        is_diff_tree(thr, from, to, root),
        in_tree(root, m),
    ensures
        m.old_path is Some <==> m.status == DiffStatus::Renamed,
        m.status == DiffStatus::Renamed ==> m.file_type == FileType::File
            && deleted_paths(from, to).contains(m.old_path->0@) && added_paths(from, to).contains(m.path@),
{
    let rs = tree_renames(thr, from, to, root);
    lemma_tree_node(thr, from, to, root, m);
    law_old_path_on_renamed_files(from, to, rs, m);
    if m.status == DiffStatus::Renamed {
        let p = m.path@;
        let j = choose|j: int| 0 <= j < rs.len() && #[trigger] rs[j].0@ == p;
        assert(added_paths(from, to).contains(rs[j].0@));
    }
}

/// In a diff tree, the old path of a renamed file has no node below the root.
pub proof fn law_tree_rename_source_absent(
    thr: Threshold,
    from: Snapshot,
    to: Snapshot,
    root: DiffFileEntry,
    renamed: DiffFileEntry,
    m: DiffFileEntry,
)
    requires
        is_diff_tree(thr, from, to, root),
        in_tree(root, renamed),
        renamed.status == DiffStatus::Renamed,
        below(root, m),
    ensures
        m.path@ != renamed.old_path->0@,
{
    let rs = tree_renames(thr, from, to, root);
    lemma_tree_node(thr, from, to, root, renamed);
    lemma_tree_node(thr, from, to, root, root);
    lemma_below_node_ok(from, to, rs, root, m);
    law_old_path_on_renamed_files(from, to, rs, renamed);
    law_rename_source_absent(from, to, rs, m);
    let p = renamed.path@;
    let j = choose|j: int| 0 <= j < rs.len() && #[trigger] rs[j].0@ == p;
    assert(old_paths(rs).contains(rs[j].1@));
}

/// Comparing a snapshot with itself: every node of the tree, the root
/// included, is `Unchanged` with no added or removed lines.
pub proof fn law_tree_identical_snapshots(thr: Threshold, m: Snapshot, root: DiffFileEntry, n: DiffFileEntry)
    requires
        is_diff_tree(thr, m, m, root),
        in_tree(root, n),
    ensures
        n.status == DiffStatus::Unchanged,
        n.added == 0,
        n.removed == 0,
        n.old_path is None,
{
    let rs = tree_renames(thr, m, m, root);
    lemma_tree_node(thr, m, m, root, n);
    law_identical_snapshots(thr, m, rs, root);
    if n != root {
        law_identical_snapshots_nodes(thr, m, rs, n);
    }
    law_old_path_on_renamed_files(m, m, rs, n);
}

/// Against an empty new snapshot, every file of the tree is `Removed`, with
/// no added lines and all its lines removed.
pub proof fn law_tree_empty_new_snapshot(thr: Threshold, from: Snapshot, root: DiffFileEntry, n: DiffFileEntry)
    requires
        is_diff_tree(thr, from, Map::empty(), root),
        below(root, n),
        n.file_type == FileType::File,
    ensures
        n.status == DiffStatus::Removed,
        n.added == 0,
        n.removed == line_count(from[n.path@].1),
{
    let rs = tree_renames(thr, from, Map::empty(), root);
    lemma_tree_node(thr, from, Map::empty(), root, n);
    law_empty_new_snapshot(thr, from, rs, n);
}

/// In a diff tree, a file that both snapshots hold with the same content is
/// `Unchanged`, with counts `(0, 0)`.
pub proof fn law_tree_identical_file(thr: Threshold, from: Snapshot, to: Snapshot, root: DiffFileEntry, n: DiffFileEntry)
    requires
        is_diff_tree(thr, from, to, root),
        below(root, n),
        n.file_type == FileType::File,
        has_file(from, n.path@),
        has_file(to, n.path@),
        from[n.path@].1 == to[n.path@].1,
    ensures
        n.status == DiffStatus::Unchanged,
        n.added == 0,
        n.removed == 0,
{
    let rs = tree_renames(thr, from, to, root);
    lemma_tree_node(thr, from, to, root, n);
    law_identical_file(thr, from, to, rs, n);
}

/// In a diff tree, a file renamed without a change of content counts `(0, 0)`.
pub proof fn law_tree_pure_rename(thr: Threshold, from: Snapshot, to: Snapshot, root: DiffFileEntry, n: DiffFileEntry)
    requires
        is_diff_tree(thr, from, to, root),
        below(root, n),
        n.status == DiffStatus::Renamed,
        from[n.old_path->0@].1 == to[n.path@].1,
    ensures
        n.added == 0,
        n.removed == 0,
{
    lemma_tree_node(thr, from, to, root, n);
    law_pure_rename(from, to, tree_renames(thr, from, to, root), n);
}

/// How many nodes strictly below `n` have path `p`.
pub open spec fn count_below(n: DiffFileEntry, p: Seq<char>) -> nat
    decreases n, 1nat,
{
    count_upto(n, p, n.children@.len() as int)
}

/// How many nodes among the first `k` children of `n` and below them have
/// path `p`.
pub open spec fn count_upto(n: DiffFileEntry, p: Seq<char>, k: int) -> nat
    decreases n, 0nat, k,
{
    if k <= 0 || k > n.children@.len() {
        0
    } else {
        count_upto(n, p, k - 1) + (if n.children@[k - 1].path@ == p { 1nat } else { 0nat })
            + count_below(n.children@[k - 1], p)
    }
}

/// `d` followed by `'/'` starts `p`.
pub open spec fn dir_prefix(d: Seq<char>, p: Seq<char>) -> bool {
    d.len() < p.len() && p.subrange(0, d.len() as int) == d && p[d.len() as int] == '/'
}

/// `p` is `c` or lies under it.
pub open spec fn in_region(c: Seq<char>, p: Seq<char>) -> bool {
    p == c || (c.len() > 0 && dir_prefix(c, p))
}

proof fn lemma_parent_prefix(c: Seq<char>)
    requires
        parent_of(c) is Some,
    ensures
        dir_prefix(parent_of(c)->0, c),
        parent_of(c)->0.len() > 0,
{
    lemma_last_slash_bounds(c);
}

proof fn lemma_dir_prefix_trans(d: Seq<char>, c: Seq<char>, p: Seq<char>)
    requires
        dir_prefix(d, c),
        dir_prefix(c, p),
    ensures
        dir_prefix(d, p),
{
    assert(p.subrange(0, d.len() as int) =~= c.subrange(0, d.len() as int)) by {
        assert forall|j: int| 0 <= j < d.len() implies p[j] == c[j] by {
            assert(p.subrange(0, c.len() as int)[j] == p[j]);
        }
    }
    assert(p.subrange(0, c.len() as int)[d.len() as int] == p[d.len() as int]);
}

/// Two different paths with the same parent have no common point below them.
proof fn lemma_regions_disjoint(c1: Seq<char>, c2: Seq<char>, p: Seq<char>)
    requires
        c1 != c2,
        parent_of(c1) == parent_of(c2),
    ensures
        !(in_region(c1, p) && in_region(c2, p)),
{
    if c1.len() > c2.len() {
        lemma_regions_disjoint_ordered(c2, c1, p);
    } else {
        lemma_regions_disjoint_ordered(c1, c2, p);
    }
}

proof fn lemma_regions_disjoint_ordered(c1: Seq<char>, c2: Seq<char>, p: Seq<char>)
    requires
        c1 != c2,
        c1.len() <= c2.len(),
        parent_of(c1) == parent_of(c2),
    ensures
        !(in_region(c1, p) && in_region(c2, p)),
{
    if !(in_region(c1, p) && in_region(c2, p)) {
        return;
    }
    lemma_last_slash_bounds(c1);
    lemma_last_slash_bounds(c2);
    assert forall|j: int| 0 <= j < c1.len() implies c1[j] == c2[j] by {
        if p != c1 {
            assert(p.subrange(0, c1.len() as int)[j] == p[j]);
        }
        if p != c2 {
            assert(p.subrange(0, c2.len() as int)[j] == p[j]);
        }
    }
    if c1.len() == c2.len() {
        assert(c1 =~= c2);
    } else {
        assert(p != c1);
        assert(p[c1.len() as int] == '/');
        if p != c2 {
            assert(p.subrange(0, c2.len() as int)[c1.len() as int] == p[c1.len() as int]);
        }
        assert(c2[c1.len() as int] == '/');
        assert(last_slash(c2) >= c1.len());
        assert(c1.len() > 0);
        assert(parent_of(c2) is Some && parent_of(c2)->0.len() >= c1.len());
        assert(parent_of(c1) is Some ==> parent_of(c1)->0.len() < c1.len());
    }
}

/// Nodes below a node lie under its path.
proof fn lemma_count_region(from: Snapshot, to: Snapshot, rs: Seq<(String, String)>, n: DiffFileEntry, p: Seq<char>, k: int)
    requires
        node_ok(from, to, rs, n),
        0 <= k <= n.children@.len(),
        count_upto(n, p, k) > 0,
    ensures
        dir_prefix(n.path@, p),
        n.path@.len() > 0,
    decreases n, 0nat, k,
{
    if n.file_type == FileType::File {
        assert(n.children@.len() == 0);
    }
    let c = n.children@[k - 1];
    assert(child_paths(n).to_set().contains(c.path@)) by {
        assert(child_paths(n)[k - 1] == c.path@);
    }
    lemma_parent_prefix(c.path@);
    if count_upto(n, p, k - 1) > 0 {
        lemma_count_region(from, to, rs, n, p, k - 1);
    } else if c.path@ != p {
        assert(count_below(c, p) == count_upto(c, p, c.children@.len() as int));
        lemma_count_region(from, to, rs, c, p, c.children@.len() as int);
        lemma_dir_prefix_trans(n.path@, c.path@, p);
    }
}

/// At most one node below a node has a given path.
proof fn lemma_count_upto_at_most_one(from: Snapshot, to: Snapshot, rs: Seq<(String, String)>, n: DiffFileEntry, p: Seq<char>, k: int)
    requires
        node_ok(from, to, rs, n) || root_ok(from, to, rs, n),
        0 <= k <= n.children@.len(),
    ensures
        count_upto(n, p, k) <= 1,
        count_upto(n, p, k) == 1 ==> exists|j: int| 0 <= j < k && in_region(#[trigger] n.children@[j].path@, p),
    decreases n, 0nat, k,
{
    if k > 0 {
        lemma_count_upto_at_most_one(from, to, rs, n, p, k - 1);
        if n.file_type == FileType::File && !root_ok(from, to, rs, n) {
            assert(n.children@.len() == 0);
        }
        let c = n.children@[k - 1];
        assert(node_ok(from, to, rs, c));
        lemma_count_upto_at_most_one(from, to, rs, c, p, c.children@.len() as int);
        let own: nat = if c.path@ == p { 1nat } else { 0nat };
        assert(count_below(c, p) == count_upto(c, p, c.children@.len() as int));
        if count_below(c, p) > 0 {
            lemma_count_region(from, to, rs, c, p, c.children@.len() as int);
        }
        if own + count_below(c, p) > 0 && count_upto(n, p, k - 1) == 1 {
            let j = choose|j: int| 0 <= j < k - 1 && in_region(#[trigger] n.children@[j].path@, p);
            let cj = n.children@[j];
            lemma_sorted_no_duplicates(child_paths(n));
            assert(child_paths(n)[j] != child_paths(n)[k - 1]);
            assert(child_paths(n).to_set().contains(cj.path@)) by {
                assert(child_paths(n)[j] == cj.path@);
            }
            assert(child_paths(n).to_set().contains(c.path@)) by {
                assert(child_paths(n)[k - 1] == c.path@);
            }
            lemma_regions_disjoint(cj.path@, c.path@, p);
        }
        if own + count_below(c, p) > 0 {
            assert(in_region(n.children@[k - 1].path@, p));
        } else if count_upto(n, p, k) == 1 {
            let j = choose|j: int| 0 <= j < k - 1 && in_region(#[trigger] n.children@[j].path@, p);
            assert(in_region(n.children@[j].path@, p));
        }
    }
}

/// In a diff tree, no two nodes below the root share a path.
pub proof fn law_tree_path_at_most_once(thr: Threshold, from: Snapshot, to: Snapshot, root: DiffFileEntry, p: Seq<char>)
    requires
        is_diff_tree(thr, from, to, root),
    ensures
        count_below(root, p) <= 1,
{
    lemma_tree_node(thr, from, to, root, root);
    lemma_count_upto_at_most_one(from, to, tree_renames(thr, from, to, root), root, p, root.children@.len() as int);
}

/// Every directory above `p` is a path of the tree, of directory type.
pub open spec fn ancestors_are_dirs(from: Snapshot, to: Snapshot, rs: Seq<(String, String)>, p: Seq<char>) -> bool {
    forall|i: int| 0 < i < p.len() && p[i] == '/' ==> tree_paths(from, to, rs).contains(#[trigger] p.subrange(0, i))
        && resolve_type(from, to, p.subrange(0, i)) == FileType::Directory
}

proof fn lemma_below_child(n: DiffFileEntry, m: DiffFileEntry, i: int)
    requires
        below(n, m),
        0 <= i < m.children@.len(),
    ensures
        below(n, m.children@[i]),
    decreases n,
{
    let j = choose|j: int| 0 <= j < n.children@.len() && (#[trigger] n.children@[j] == m || below(n.children@[j], m));
    let c = n.children@[j];
    if c == m {
        assert(below(c, m.children@[i]));
    } else {
        lemma_below_child(c, m, i);
    }
    assert(below(c, m.children@[i]));
}

proof fn lemma_count_upto_grows(n: DiffFileEntry, p: Seq<char>, i: int, k: int)
    requires
        0 <= i < k <= n.children@.len(),
    ensures
        count_upto(n, p, k) >= (if n.children@[i].path@ == p { 1nat } else { 0nat }) + count_below(n.children@[i], p),
    decreases k,
{
    if i < k - 1 {
        lemma_count_upto_grows(n, p, i, k - 1);
    }
}

/// A node below `n` is counted among the nodes below `n` with its path.
proof fn lemma_below_counted(n: DiffFileEntry, m: DiffFileEntry)
    requires
        below(n, m),
    ensures
        count_below(n, m.path@) >= 1,
    decreases n,
{
    let j = choose|j: int| 0 <= j < n.children@.len() && (#[trigger] n.children@[j] == m || below(n.children@[j], m));
    let c = n.children@[j];
    lemma_count_upto_grows(n, m.path@, j, n.children@.len() as int);
    if c != m {
        lemma_below_counted(c, m);
    }
}

proof fn lemma_path_has_node(from: Snapshot, to: Snapshot, rs: Seq<(String, String)>, root: DiffFileEntry, p: Seq<char>)
    requires
        root_ok(from, to, rs, root),
        tree_paths(from, to, rs).contains(p),
        ancestors_are_dirs(from, to, rs, p),
    ensures
        exists|m: DiffFileEntry| below(root, m) && m.path@ == p,
    decreases p.len(),
{
    lemma_last_slash_bounds(p);
    match parent_of(p) {
        None => {
            assert(child_paths(root).to_set().contains(p));
            let i = choose|i: int| 0 <= i < child_paths(root).len() && child_paths(root)[i] == p;
            assert(below(root, root.children@[i]));
        },
        Some(d) => {
            let ls = last_slash(p);
            assert(d == p.subrange(0, ls));
            assert(ancestors_are_dirs(from, to, rs, d)) by {
                assert forall|i: int| 0 < i < d.len() && d[i] == '/' implies tree_paths(from, to, rs).contains(#[trigger] d.subrange(0, i))
                    && resolve_type(from, to, d.subrange(0, i)) == FileType::Directory by {
                    assert(p[i] == d[i]);
                    assert(p.subrange(0, i) =~= d.subrange(0, i));
                }
            }
            lemma_path_has_node(from, to, rs, root, d);
            let m = choose|m: DiffFileEntry| below(root, m) && m.path@ == d;
            lemma_below_node_ok(from, to, rs, root, m);
            assert(m.file_type == FileType::Directory);
            assert(child_paths(m).to_set().contains(p));
            let i = choose|i: int| 0 <= i < child_paths(m).len() && child_paths(m)[i] == p;
            lemma_below_child(root, m, i);
        },
    }
}

/// In a diff tree, every path of the tree whose directories above it are all
/// directory nodes has a node, and no path has two.
pub proof fn law_tree_path_once(thr: Threshold, from: Snapshot, to: Snapshot, root: DiffFileEntry, p: Seq<char>)
    requires
        is_diff_tree(thr, from, to, root),
        tree_paths(from, to, tree_renames(thr, from, to, root)).contains(p),
        ancestors_are_dirs(from, to, tree_renames(thr, from, to, root), p),
    ensures
        count_below(root, p) == 1,
{
    let rs = tree_renames(thr, from, to, root);
    lemma_tree_node(thr, from, to, root, root);
    lemma_path_has_node(from, to, rs, root, p);
    let m = choose|m: DiffFileEntry| below(root, m) && m.path@ == p;
    lemma_below_counted(root, m);
    law_tree_path_at_most_once(thr, from, to, root, p);
}

/// In a diff tree, a file of either snapshot has exactly one node, unless it
/// is the old path of a rename or a directory above it is a file.
pub proof fn law_tree_file_once(thr: Threshold, from: Snapshot, to: Snapshot, root: DiffFileEntry, p: Seq<char>)
    requires
        is_diff_tree(thr, from, to, root),
        file_paths_of(from).contains(p) || file_paths_of(to).contains(p),
        p != "/"@,
        !old_paths(tree_renames(thr, from, to, root)).contains(p),
        ancestors_are_dirs(from, to, tree_renames(thr, from, to, root), p),
    ensures
        count_below(root, p) == 1,
{
    law_tree_path_once(thr, from, to, root, p);
}

/// Two ascending sequences of the same paths are the same sequence.
proof fn lemma_sorted_unique(a: Seq<Seq<char>>, b: Seq<Seq<char>>)
    requires
        sorted_paths(a),
        sorted_paths(b),
        a.to_set() == b.to_set(),
    ensures
        a == b,
    decreases a.len(),
{
    if a.len() == 0 {
        if b.len() > 0 {
            assert(b.to_set().contains(b[0]));
        }
        assert(a =~= b);
    } else {
        assert(a.to_set().contains(a[0]));
        assert(b.len() > 0);
        assert(b.to_set().contains(b[0]));
        let j = choose|j: int| 0 <= j < b.len() && b[j] == a[0];
        let i = choose|i: int| 0 <= i < a.len() && a[i] == b[0];
        lemma_path_lt_irreflexive(a[0]);
        if j > 0 {
            assert(path_lt(b[0], b[j]));
            if i > 0 {
                assert(path_lt(a[0], a[i]));
                lemma_path_lt_transitive(a[0], a[i], a[0]);
            }
        }
        assert(a[0] == b[0]);
        lemma_sorted_no_duplicates(a);
        lemma_sorted_no_duplicates(b);
        let a1 = a.drop_first();
        let b1 = b.drop_first();
        assert(a1.to_set() =~= b1.to_set()) by {
            assert forall|x: Seq<char>| #[trigger] a1.to_set().contains(x) implies b1.to_set().contains(x) by {
                let k = choose|k: int| 0 <= k < a1.len() && a1[k] == x;
                assert(a[k + 1] == x);
                assert(b.to_set().contains(x));
                let l = choose|l: int| 0 <= l < b.len() && b[l] == x;
                assert(l != 0);
                assert(b1[l - 1] == x);
            }
            assert forall|x: Seq<char>| #[trigger] b1.to_set().contains(x) implies a1.to_set().contains(x) by {
                let k = choose|k: int| 0 <= k < b1.len() && b1[k] == x;
                assert(b[k + 1] == x);
                assert(a.to_set().contains(x));
                let l = choose|l: int| 0 <= l < a.len() && a[l] == x;
                assert(l != 0);
                assert(a1[l - 1] == x);
            }
        }
        lemma_sorted_unique(a1, b1);
        assert(a =~= seq![a[0]] + a1);
        assert(b =~= seq![b[0]] + b1);
    }
}

/// Two nodes agree on every field, paths and old paths by view, and so do
/// their children, pairwise.
pub open spec fn tree_eq(a: DiffFileEntry, b: DiffFileEntry) -> bool
    decreases a,
{
    &&& a.path@ == b.path@
    &&& a.old_path is Some <==> b.old_path is Some
    &&& a.old_path is Some ==> a.old_path->0@ == b.old_path->0@
    &&& a.file_type == b.file_type
    &&& a.status == b.status
    &&& a.added == b.added
    &&& a.removed == b.removed
    &&& a.children@.len() == b.children@.len()
    &&& forall|i: int| 0 <= i < a.children@.len() ==> tree_eq(#[trigger] a.children@[i], b.children@[i])
}

proof fn lemma_renamed_from_same(rs1: Seq<(String, String)>, rs2: Seq<(String, String)>, p: Seq<char>)
    requires
        pairs_view(rs1) == pairs_view(rs2),
        forall|k1: int, k2: int| 0 <= k1 < rs1.len() && 0 <= k2 < rs1.len() && k1 != k2 ==>
            #[trigger] rs1[k1].0@ != #[trigger] rs1[k2].0@,
    ensures
        renamed_from(rs1, p) == renamed_from(rs2, p),
{
    assert(rs1.len() == pairs_view(rs1).len());
    assert forall|j: int| 0 <= j < rs1.len() implies rs1[j].0@ == rs2[j].0@ && rs1[j].1@ == rs2[j].1@ by {
        assert(pairs_view(rs1)[j] == pairs_view(rs2)[j]);
    }
    if exists|j: int| 0 <= j < rs1.len() && #[trigger] rs1[j].0@ == p {
        let j1 = choose|j: int| 0 <= j < rs1.len() && #[trigger] rs1[j].0@ == p;
        assert(rs2[j1].0@ == p);
        let j2 = choose|j: int| 0 <= j < rs2.len() && #[trigger] rs2[j].0@ == p;
        assert(rs1[j2].0@ == p);
        assert(j1 == j2);
    } else {
        if exists|j: int| 0 <= j < rs2.len() && #[trigger] rs2[j].0@ == p {
            let j2 = choose|j: int| 0 <= j < rs2.len() && #[trigger] rs2[j].0@ == p;
            assert(rs1[j2].0@ == p);
        }
    }
}

proof fn lemma_sums_same(a: Seq<DiffFileEntry>, b: Seq<DiffFileEntry>)
    requires
        a.len() == b.len(),
        forall|i: int| 0 <= i < a.len() ==> tree_eq(#[trigger] a[i], b[i]),
    ensures
        sum_added(a) == sum_added(b),
        sum_removed(a) == sum_removed(b),
        all_unchanged(a) == all_unchanged(b),
    decreases a.len(),
{
    if a.len() > 0 {
        assert(tree_eq(a[a.len() - 1], b[b.len() - 1]));
        lemma_sums_same(a.drop_last(), b.drop_last());
        if all_unchanged(a) != all_unchanged(b) {
            if !all_unchanged(a) {
                let k = choose|k: int| 0 <= k < a.len() && (#[trigger] a[k]).status != DiffStatus::Unchanged;
                assert(tree_eq(a[k], b[k]));
            } else {
                let k = choose|k: int| 0 <= k < b.len() && (#[trigger] b[k]).status != DiffStatus::Unchanged;
                assert(tree_eq(a[k], b[k]));
            }
        }
    }
}

/// Children that meet the rules for equal renames agree pairwise.
proof fn lemma_children_same(
    from: Snapshot,
    to: Snapshot,
    rs1: Seq<(String, String)>,
    rs2: Seq<(String, String)>,
    a: DiffFileEntry,
    b: DiffFileEntry,
)
    requires
        pairs_view(rs1) == pairs_view(rs2),
        forall|k1: int, k2: int| 0 <= k1 < rs1.len() && 0 <= k2 < rs1.len() && k1 != k2 ==>
            #[trigger] rs1[k1].0@ != #[trigger] rs1[k2].0@,
        tree_paths(from, to, rs1) == tree_paths(from, to, rs2),
        sorted_paths(child_paths(a)),
        sorted_paths(child_paths(b)),
        child_paths(a).to_set() == child_paths(b).to_set(),
        forall|i: int| 0 <= i < a.children@.len() ==> node_ok(from, to, rs1, #[trigger] a.children@[i]),
        forall|i: int| 0 <= i < b.children@.len() ==> node_ok(from, to, rs2, #[trigger] b.children@[i]),
    ensures
        a.children@.len() == b.children@.len(),
        forall|i: int| 0 <= i < a.children@.len() ==> tree_eq(#[trigger] a.children@[i], b.children@[i]),
    decreases a, 0nat,
{
    lemma_sorted_unique(child_paths(a), child_paths(b));
    assert(a.children@.len() == child_paths(a).len());
    assert forall|i: int| 0 <= i < a.children@.len() implies tree_eq(#[trigger] a.children@[i], b.children@[i]) by {
        assert(child_paths(a)[i] == child_paths(b)[i]);
        lemma_node_same(from, to, rs1, rs2, a.children@[i], b.children@[i]);
    }
}

/// Nodes at one path that meet the rules for equal renames agree.
proof fn lemma_node_same(
    from: Snapshot,
    to: Snapshot,
    rs1: Seq<(String, String)>,
    rs2: Seq<(String, String)>,
    a: DiffFileEntry,
    b: DiffFileEntry,
)
    requires
        pairs_view(rs1) == pairs_view(rs2),
        forall|k1: int, k2: int| 0 <= k1 < rs1.len() && 0 <= k2 < rs1.len() && k1 != k2 ==>
            #[trigger] rs1[k1].0@ != #[trigger] rs1[k2].0@,
        tree_paths(from, to, rs1) == tree_paths(from, to, rs2),
        node_ok(from, to, rs1, a),
        node_ok(from, to, rs2, b),
        a.path@ == b.path@,
    ensures
        tree_eq(a, b),
    decreases a, 1nat,
{
    lemma_renamed_from_same(rs1, rs2, a.path@);
    if a.file_type == FileType::Directory {
        lemma_children_same(from, to, rs1, rs2, a, b);
        lemma_sums_same(a.children@, b.children@);
    }
}

proof fn lemma_old_paths_same(rs1: Seq<(String, String)>, rs2: Seq<(String, String)>)
    requires
        pairs_view(rs1) == pairs_view(rs2),
    ensures
        old_paths(rs1) == old_paths(rs2),
{
    assert(rs1.len() == pairs_view(rs1).len());
    assert forall|j: int| 0 <= j < rs1.len() implies rs1[j].1@ == rs2[j].1@ by {
        assert(pairs_view(rs1)[j] == pairs_view(rs2)[j]);
    }
    assert(old_paths(rs1) =~= old_paths(rs2));
}

/// The diff tree of two snapshots is determined by their contents: any two
/// trees that meet the contract for the same snapshots agree node by node.
/// So the order in which the snapshots' entries were inserted does not matter.
pub proof fn law_tree_determined(thr: Threshold, from: Snapshot, to: Snapshot, a: DiffFileEntry, b: DiffFileEntry)
    requires
        is_diff_tree(thr, from, to, a),
        is_diff_tree(thr, from, to, b),
    ensures
        tree_eq(a, b),
{
    let (rs1, ds1, as1) = choose|rs: Seq<(String, String)>, ds: Seq<Seq<char>>, as_: Seq<Seq<char>>|
        sorted_paths(ds) && ds.to_set() == deleted_paths(from, to)
            && sorted_paths(as_) && as_.to_set() == added_paths(from, to)
            && renames_valid(thr, from, to, deleted_paths(from, to), added_paths(from, to), rs)
            && #[trigger] pairs_view(rs) == #[trigger] rename_pairs(thr, from, to, ds, as_)
            && #[trigger] root_ok(from, to, rs, a);
    let (rs2, ds2, as2) = choose|rs: Seq<(String, String)>, ds: Seq<Seq<char>>, as_: Seq<Seq<char>>|
        sorted_paths(ds) && ds.to_set() == deleted_paths(from, to)
            && sorted_paths(as_) && as_.to_set() == added_paths(from, to)
            && renames_valid(thr, from, to, deleted_paths(from, to), added_paths(from, to), rs)
            && #[trigger] pairs_view(rs) == #[trigger] rename_pairs(thr, from, to, ds, as_)
            && #[trigger] root_ok(from, to, rs, b);
    lemma_sorted_unique(ds1, ds2);
    lemma_sorted_unique(as1, as2);
    lemma_old_paths_same(rs1, rs2);
    lemma_children_same(from, to, rs1, rs2, a, b);
    lemma_sums_same(a.children@, b.children@);
}

/// With one unused candidate of content `c`, the search finds it.
proof fn lemma_first_equal_unique(from: Snapshot, ds: Seq<Seq<char>>, used: Seq<bool>, c: Seq<char>, kq: int, j: int)
    requires
        0 <= kq < ds.len(),
        j <= ds.len(),
        used.len() == ds.len(),
        !used[kq],
        content_at(from, ds[kq]) == c,
        forall|k: int| 0 <= k < ds.len() && k != kq ==> !(!used[k] && content_at(from, #[trigger] ds[k]) == c),
    ensures
        first_equal(from, ds, used, c, j) == if kq < j { Some(kq) } else { None },
    decreases j,
{
    if j > 0 {
        lemma_first_equal_unique(from, ds, used, c, kq, j - 1);
    }
}

proof fn lemma_first_equal_content(from: Snapshot, ds: Seq<Seq<char>>, used: Seq<bool>, c: Seq<char>, j: int)
    requires
        first_equal(from, ds, used, c, j) is Some,
    ensures
        0 <= first_equal(from, ds, used, c, j)->0 < j,
        content_at(from, ds[first_equal(from, ds, used, c, j)->0]) == c,
    decreases j,
{
    if j > 0 && first_equal(from, ds, used, c, j - 1) is Some {
        lemma_first_equal_content(from, ds, used, c, j - 1);
    }
}

/// A deleted file is used by the identical-content pass only for an earlier
/// added file of the same content; the pass keeps the pairs it made.
proof fn lemma_exact_phase_facts(from: Snapshot, to: Snapshot, ds: Seq<Seq<char>>, as_: Seq<Seq<char>>, i: int)
    requires
        0 <= i <= as_.len(),
    ensures
        exact_phase(from, to, ds, as_, i).0.len() == ds.len(),
        exact_phase(from, to, ds, as_, i).1.len() == as_.len(),
        forall|k: int| 0 <= k < ds.len() && #[trigger] exact_phase(from, to, ds, as_, i).0[k] ==>
            exists|i2: int| 0 <= i2 < i && content_at(from, ds[k]) == content_at(to, #[trigger] as_[i2]),
    decreases i,
{
    if i > 0 {
        lemma_exact_phase_facts(from, to, ds, as_, i - 1);
        let (u, m, p) = exact_phase(from, to, ds, as_, i - 1);
        let c = content_at(to, as_[i - 1]);
        if first_equal(from, ds, u, c, ds.len() as int) is Some {
            lemma_first_equal_content(from, ds, u, c, ds.len() as int);
            let kf = first_equal(from, ds, u, c, ds.len() as int)->0;
            assert forall|k: int| 0 <= k < ds.len() && #[trigger] exact_phase(from, to, ds, as_, i).0[k] implies
                exists|i2: int| 0 <= i2 < i && content_at(from, ds[k]) == content_at(to, #[trigger] as_[i2]) by {
                if k == kf {
                    assert(content_at(from, ds[k]) == content_at(to, as_[i - 1]));
                } else {
                    assert(u[k]);
                }
            }
        } else {
            assert forall|k: int| 0 <= k < ds.len() && #[trigger] exact_phase(from, to, ds, as_, i).0[k] implies
                exists|i2: int| 0 <= i2 < i && content_at(from, ds[k]) == content_at(to, #[trigger] as_[i2]) by {
                assert(u[k]);
            }
        }
    }
}

proof fn lemma_exact_keeps(from: Snapshot, to: Snapshot, ds: Seq<Seq<char>>, as_: Seq<Seq<char>>, x: (int, int), i: int, i0: int)
    requires
        0 <= i0 <= i <= as_.len(),
        exact_phase(from, to, ds, as_, i0).2.contains(x),
    ensures
        exact_phase(from, to, ds, as_, i).2.contains(x),
    decreases i,
{
    if i > i0 {
        lemma_exact_keeps(from, to, ds, as_, x, i - 1, i0);
        let p = exact_phase(from, to, ds, as_, i - 1).2;
        let j = choose|j: int| 0 <= j < p.len() && p[j] == x;
        assert(exact_phase(from, to, ds, as_, i).2[j] == x);
    }
}

proof fn lemma_similar_keeps(thr: Threshold, from: Snapshot, to: Snapshot, ds: Seq<Seq<char>>, as_: Seq<Seq<char>>, x: (int, int), i: int)
    requires
        0 <= i,
        exact_phase(from, to, ds, as_, as_.len() as int).2.contains(x),
    ensures
        similar_phase(thr, from, to, ds, as_, i).2.contains(x),
    decreases i,
{
    if i > 0 {
        lemma_similar_keeps(thr, from, to, ds, as_, x, i - 1);
        let p = similar_phase(thr, from, to, ds, as_, i - 1).2;
        let j = choose|j: int| 0 <= j < p.len() && p[j] == x;
        assert(similar_phase(thr, from, to, ds, as_, i).2[j] == x);
    }
}

/// In a diff tree, a file that only the new snapshot has, whose content only
/// one file that only the old snapshot has shares (and no other new-only file
/// has), is `Renamed` from that file with counts `(0, 0)`.
pub proof fn law_tree_unique_pure_rename(
    thr: Threshold,
    from: Snapshot,
    to: Snapshot,
    root: DiffFileEntry,
    n: DiffFileEntry,
    q: Seq<char>,
)
    requires
        is_diff_tree(thr, from, to, root),
        below(root, n),
        added_paths(from, to).contains(n.path@),
        !from.contains_key(n.path@),
        deleted_paths(from, to).contains(q),
        from[q].1 == to[n.path@].1,
        forall|x: Seq<char>| deleted_paths(from, to).contains(x) && x != q ==> #[trigger] from[x].1 != to[n.path@].1,
        forall|x: Seq<char>| added_paths(from, to).contains(x) && x != n.path@ ==> #[trigger] to[x].1 != to[n.path@].1,
    ensures
        n.status == DiffStatus::Renamed,
        n.old_path is Some && n.old_path->0@ == q,
        n.added == 0,
        n.removed == 0,
{
    let p = n.path@;
    let c = to[p].1;
    let (rs, ds, as_) = choose|rs: Seq<(String, String)>, ds: Seq<Seq<char>>, as_: Seq<Seq<char>>|
        sorted_paths(ds) && ds.to_set() == deleted_paths(from, to)
            && sorted_paths(as_) && as_.to_set() == added_paths(from, to)
            && renames_valid(thr, from, to, deleted_paths(from, to), added_paths(from, to), rs)
            && #[trigger] pairs_view(rs) == #[trigger] rename_pairs(thr, from, to, ds, as_)
            && #[trigger] root_ok(from, to, rs, root);
    lemma_sorted_no_duplicates(ds);
    lemma_sorted_no_duplicates(as_);
    assert(as_.to_set().contains(p));
    let ip = choose|i: int| 0 <= i < as_.len() && as_[i] == p;
    assert(ds.to_set().contains(q));
    let kq = choose|k: int| 0 <= k < ds.len() && ds[k] == q;
    lemma_exact_phase_facts(from, to, ds, as_, ip);
    let (u, m, pr) = exact_phase(from, to, ds, as_, ip);
    assert(!u[kq]) by {
        if u[kq] {
            let i2 = choose|i2: int| 0 <= i2 < ip && content_at(from, ds[kq]) == content_at(to, #[trigger] as_[i2]);
            assert(as_.to_set().contains(as_[i2]));
            assert(as_[i2] != p);
        }
    }
    assert forall|k: int| 0 <= k < ds.len() && k != kq implies !(!u[k] && content_at(from, #[trigger] ds[k]) == c) by {
        assert(ds.to_set().contains(ds[k]));
        assert(ds[k] != q);
    }
    assert(as_[ip] == p);
    lemma_first_equal_unique(from, ds, u, c, kq, ds.len() as int);
    assert(exact_phase(from, to, ds, as_, ip + 1).2 == pr.push((ip, kq)));
    assert(exact_phase(from, to, ds, as_, ip + 1).2.contains((ip, kq))) by {
        assert(pr.push((ip, kq))[pr.len() as int] == (ip, kq));
    }
    lemma_exact_keeps(from, to, ds, as_, (ip, kq), as_.len() as int, ip + 1);
    lemma_similar_keeps(thr, from, to, ds, as_, (ip, kq), as_.len() as int);
    let prs = similar_phase(thr, from, to, ds, as_, as_.len() as int).2;
    let j = choose|j: int| 0 <= j < prs.len() && prs[j] == (ip, kq);
    assert(rename_pairs(thr, from, to, ds, as_).len() == prs.len());
    assert(pairs_view(rs).len() == rs.len());
    assert(rename_pairs(thr, from, to, ds, as_)[j] == (p, q));
    assert(pairs_view(rs)[j] == (rs[j].0@, rs[j].1@));
    assert(rs[j].0@ == p && rs[j].1@ == q);
    let j2 = choose|j2: int| 0 <= j2 < rs.len() && #[trigger] rs[j2].0@ == p;
    if j2 != j {
        assert(rs[j2].0@ != rs[j].0@);
    }
    assert(renamed_from(rs, p) == Some(q));
    lemma_below_node_ok(from, to, rs, root, n);
    assert(file_paths_of(from).contains(q));
    assert(file_paths_of(to).contains(p));
}

} // verus!
