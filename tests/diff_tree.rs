use diff_wasm::files::{FileMap, FileMapEntry, FileType};
use diff_wasm::similarity::Threshold;
use diff_wasm::tree::{build_diff_tree, DiffFileEntry, DiffStatus, DiffTreeBuilder};

fn snapshot(files: &[(&str, &str)]) -> FileMap {
    let mut m = FileMap::new();
    for (path, content) in files {
        m.insert(
            path.to_string(),
            FileMapEntry { file_type: FileType::File, content: content.to_string() },
        );
    }
    m
}

fn child<'a>(n: &'a DiffFileEntry, path: &str) -> &'a DiffFileEntry {
    n.children.iter().find(|c| c.path == path).expect("missing child")
}

fn seventy() -> Threshold {
    Threshold::new(7, 10)
}

#[test]
fn identical_file_is_unchanged() {
    let from = snapshot(&[("a.txt", "hello\nworld\n")]);
    let to = snapshot(&[("a.txt", "hello\nworld\n")]);
    let root = build_diff_tree(from, to, seventy());
    assert_eq!(root.path, "/");
    assert_eq!(root.status, DiffStatus::Unchanged);
    assert_eq!(root.children.len(), 1);
    let a = child(&root, "a.txt");
    assert_eq!(a.status, DiffStatus::Unchanged);
    assert_eq!((a.added, a.removed), (0, 0));
    assert!(a.old_path.is_none());
}

#[test]
fn exact_rename_is_detected() {
    let root = build_diff_tree(snapshot(&[("a.txt", "x\n")]), snapshot(&[("b.txt", "x\n")]), seventy());
    assert_eq!(root.children.len(), 1);
    let b = &root.children[0];
    assert_eq!(b.path, "b.txt");
    assert_eq!(b.status, DiffStatus::Renamed);
    assert_eq!(b.old_path.as_deref(), Some("a.txt"));
    assert_eq!((b.added, b.removed), (0, 0));
    assert!(root.children.iter().all(|c| c.path != "a.txt"));
}

#[test]
fn changed_content_is_modified() {
    let root = build_diff_tree(snapshot(&[("a.txt", "foo\n")]), snapshot(&[("a.txt", "bar\n")]), seventy());
    let a = child(&root, "a.txt");
    assert_eq!(a.status, DiffStatus::Modified);
    assert_eq!((a.added, a.removed), (1, 1));
    assert_eq!(root.status, DiffStatus::Modified);
    assert_eq!((root.added, root.removed), (1, 1));
}

#[test]
fn new_file_in_new_directory() {
    let root = build_diff_tree(snapshot(&[]), snapshot(&[("dir/new.txt", "alpha\nbeta\n")]), seventy());
    assert_eq!(root.status, DiffStatus::Added);
    let dir = child(&root, "dir");
    assert_eq!(dir.file_type, FileType::Directory);
    assert_eq!(dir.status, DiffStatus::Added);
    assert_eq!((dir.added, dir.removed), (3, 0));
    let f = child(dir, "dir/new.txt");
    assert_eq!(f.status, DiffStatus::Added);
    assert_eq!((f.added, f.removed), (3, 0));
    assert_eq!((root.added, root.removed), (3, 0));
}

#[test]
fn similar_file_moved_with_same_basename() {
    let root = build_diff_tree(
        snapshot(&[("a.txt", "line1\nline2\nline3\n")]),
        snapshot(&[("moved/a.txt", "line1\nline2\nline3\nline4\n")]),
        seventy(),
    );
    let moved = child(&root, "moved");
    assert_eq!(moved.status, DiffStatus::Added);
    let f = child(moved, "moved/a.txt");
    assert_eq!(f.status, DiffStatus::Renamed);
    assert_eq!(f.old_path.as_deref(), Some("a.txt"));
    assert_eq!((f.added, f.removed), (1, 0));
    assert!(root.children.iter().all(|c| c.path != "a.txt"));
}

#[test]
fn unrelated_files_are_not_renamed() {
    let root = build_diff_tree(
        snapshot(&[("a.txt", "totally different\n")]),
        snapshot(&[("b.txt", "completely unrelated content here\n")]),
        Threshold::new(9, 10),
    );
    let a = child(&root, "a.txt");
    let b = child(&root, "b.txt");
    assert_eq!(a.status, DiffStatus::Removed);
    assert_eq!((a.added, a.removed), (0, 2));
    assert_eq!(b.status, DiffStatus::Added);
    assert_eq!((b.added, b.removed), (2, 0));
    assert!(b.old_path.is_none());
}

#[test]
fn identical_snapshots_are_unchanged_throughout() {
    let files = [("src/lib.rs", "fn a() {}\n"), ("src/x/y.rs", "y\n"), ("README", "r")];
    let root = build_diff_tree(snapshot(&files), snapshot(&files), seventy());
    fn check(n: &DiffFileEntry) {
        assert_eq!(n.status, DiffStatus::Unchanged);
        assert_eq!((n.added, n.removed), (0, 0));
        n.children.iter().for_each(check);
    }
    check(&root);
    assert_eq!(root.children.len(), 2);
}

#[test]
fn empty_new_snapshot_removes_everything() {
    let root = build_diff_tree(snapshot(&[("a.txt", "x\ny"), ("d/b.txt", "1\n2\n3\n")]), snapshot(&[]), seventy());
    assert_eq!(root.status, DiffStatus::Removed);
    let a = child(&root, "a.txt");
    assert_eq!((a.status, a.added, a.removed), (DiffStatus::Removed, 0, 2));
    let d = child(&root, "d");
    assert_eq!(d.status, DiffStatus::Removed);
    let b = child(d, "d/b.txt");
    assert_eq!((b.status, b.added, b.removed), (DiffStatus::Removed, 0, 4));
    assert_eq!((root.added, root.removed), (0, 6));
}

#[test]
fn children_sorted_and_sums_add_up() {
    let root = build_diff_tree(
        snapshot(&[("z.txt", "a\n"), ("b/c.txt", "q\n"), ("b/a.txt", "k\n"), ("B.txt", "u\n")]),
        snapshot(&[("z.txt", "a\nb\n"), ("b/c.txt", "r\n"), ("b/a.txt", "k\n"), ("a.txt", "new\n")]),
        seventy(),
    );
    fn check(n: &DiffFileEntry) {
        for w in n.children.windows(2) {
            assert!(w[0].path < w[1].path);
        }
        if n.file_type == FileType::Directory {
            assert_eq!(n.added, n.children.iter().map(|c| c.added).sum::<u64>());
            assert_eq!(n.removed, n.children.iter().map(|c| c.removed).sum::<u64>());
        }
        assert_eq!(n.old_path.is_some(), n.status == DiffStatus::Renamed);
        n.children.iter().for_each(check);
    }
    check(&root);
    let paths: Vec<&str> = root.children.iter().map(|c| c.path.as_str()).collect();
    assert_eq!(paths, vec!["B.txt", "a.txt", "b", "z.txt"]);
    let b = child(&root, "b");
    assert_eq!(b.status, DiffStatus::Modified);
    assert_eq!(child(b, "b/a.txt").status, DiffStatus::Unchanged);
}

#[test]
fn renamed_without_change_counts_nothing() {
    let content = "one\ntwo\nthree\n";
    let root = build_diff_tree(snapshot(&[("old/x.rs", content)]), snapshot(&[("new/y.rs", content)]), seventy());
    let f = child(child(&root, "new"), "new/y.rs");
    assert_eq!(f.status, DiffStatus::Renamed);
    assert_eq!(f.old_path.as_deref(), Some("old/x.rs"));
    assert_eq!((f.added, f.removed), (0, 0));
    let old = child(&root, "old");
    assert_eq!(old.status, DiffStatus::Removed);
    assert!(old.children.is_empty());
}

#[test]
fn threshold_is_clamped() {
    let low = Threshold::new(-3, 10);
    assert_eq!((low.num(), low.den()), (0, 10));
    let high = Threshold::new(25, 10);
    assert_eq!((high.num(), high.den()), (10, 10));
    let mid = Threshold::new(7, 10);
    assert_eq!((mid.num(), mid.den()), (7, 10));
}

#[test]
fn directory_entries_and_builder() {
    let mut from = snapshot(&[("a/x.txt", "x\n")]);
    from.insert("empty".to_string(), FileMapEntry { file_type: FileType::Directory, content: String::new() });
    let to = snapshot(&[("a/x.txt", "x\n")]);
    let mut builder = DiffTreeBuilder::new(seventy());
    builder.set_from_files(from);
    builder.set_to_files(to);
    let root = builder.build_tree();
    let e = child(&root, "empty");
    assert_eq!(e.file_type, FileType::Directory);
    assert_eq!(e.status, DiffStatus::Removed);
    assert_eq!(child(&root, "a").status, DiffStatus::Unchanged);
    assert_eq!(root.status, DiffStatus::Modified);
}

#[test]
fn best_similar_candidate_wins() {
    let root = build_diff_tree(
        snapshot(&[("p.txt", "1\n2\n3\n4\n5\n6\n7\n8\n9\n"), ("q.txt", "1\n2\n3\n4\n5\n6\n7\n8\nX\n")]),
        snapshot(&[("r.txt", "1\n2\n3\n4\n5\n6\n7\n8\n9\n0\n")]),
        seventy(),
    );
    let r = child(&root, "r.txt");
    assert_eq!(r.status, DiffStatus::Renamed);
    assert_eq!(r.old_path.as_deref(), Some("p.txt"));
    assert_eq!(child(&root, "q.txt").status, DiffStatus::Removed);
}

#[test]
fn later_candidate_wins_a_tie() {
    let root = build_diff_tree(
        snapshot(&[("a.txt", "1\n2\n3\nX\n"), ("b.txt", "1\n2\n3\nY\n")]),
        snapshot(&[("c.txt", "1\n2\n3\nZ\n")]),
        Threshold::new(6, 10),
    );
    let c = child(&root, "c.txt");
    assert_eq!(c.status, DiffStatus::Renamed);
    assert_eq!(c.old_path.as_deref(), Some("b.txt"));
    assert_eq!((c.added, c.removed), (1, 1));
    assert_eq!(child(&root, "a.txt").status, DiffStatus::Removed);
}

#[test]
fn exact_match_takes_first_unused_source() {
    let root = build_diff_tree(
        snapshot(&[("a.txt", "same\n"), ("b.txt", "same\n")]),
        snapshot(&[("c.txt", "same\n"), ("d.txt", "same\n")]),
        seventy(),
    );
    assert_eq!(child(&root, "c.txt").old_path.as_deref(), Some("a.txt"));
    assert_eq!(child(&root, "d.txt").old_path.as_deref(), Some("b.txt"));
    assert_eq!(root.children.len(), 2);
}
