use diff_wasm::differ::{count_diff, diff_texts, ChangeTag};
use diff_wasm::patch::{build_diff_result, get_diff_content};
use diff_wasm::similarity::{calculate_similarity, can_be_similar, Threshold};

#[test]
fn patch_formatting() {
    let p = get_diff_content("f", "a\nb\n", "a\nc\n");
    assert!(p.starts_with("--- from/f\n+++ to/f\n"));
    let lines: Vec<&str> = p.split('\n').collect();
    assert!(lines.contains(&"  a"));
    assert!(lines.contains(&"- b"));
    assert!(lines.contains(&"+ c"));
    assert_eq!(*lines.last().unwrap(), "  ");
    assert_eq!(lines.len(), 2 + 4);
}

#[test]
fn counts_of_line_diff() {
    assert_eq!(count_diff("foo\n", "bar\n"), (1, 1));
    assert_eq!(count_diff("same\ntext", "same\ntext"), (0, 0));
    assert_eq!(count_diff("", "a\nb"), (2, 1));
    assert_eq!(count_diff("line1\nline2\nline3\n", "line1\nline2\nline3\nline4\n"), (1, 0));
}

#[test]
fn diff_changes_carry_lines() {
    let cs = diff_texts("x\ny", "x\nz");
    let kept: Vec<(ChangeTag, &str)> = cs.iter().map(|c| (c.tag, c.value.as_str())).collect();
    assert!(kept.contains(&(ChangeTag::Equal, "x")));
    assert!(kept.contains(&(ChangeTag::Delete, "y")));
    assert!(kept.contains(&(ChangeTag::Insert, "z")));
}

#[test]
fn similarity_shares() {
    assert_eq!(calculate_similarity("a\n", "a\n"), (1, 1));
    assert_eq!(calculate_similarity("", "a\n"), (0, 1));
    assert_eq!(calculate_similarity("line1\nline2\nline3\n", "line1\nline2\nline3\nline4\n"), (4, 5));
}

#[test]
fn length_ratio_filter() {
    let t = Threshold::new(7, 10);
    assert!(can_be_similar(&t, "0123456789", "01234567"));
    assert!(!can_be_similar(&t, "0123456789", "0123"));
    assert!(!can_be_similar(&t, "01", "0123456789"));
    assert!(can_be_similar(&Threshold::new(0, 10), "", "0123456789"));
}

#[test]
fn diff_result_cases() {
    let none = build_diff_result("f", None, None);
    assert_eq!(none.data, "File not present in either version.");
    assert!(!none.is_diff);
    let added = build_diff_result("f", None, Some("a\nb"));
    assert_eq!(added.data, "--- /dev/null\n+++ to/f\n+ a\n+ b");
    assert!(added.is_diff);
    let removed = build_diff_result("f", Some("a\n"), None);
    assert_eq!(removed.data, "--- from/f\n+++ /dev/null\n- a\n- ");
    assert!(removed.is_diff);
    let same = build_diff_result("f", Some("q\n"), Some("q\n"));
    assert_eq!(same.data, "q\n");
    assert!(!same.is_diff);
    let changed = build_diff_result("f", Some("a\n"), Some("b\n"));
    assert_eq!(changed.data, get_diff_content("f", "a\n", "b\n"));
    assert!(changed.is_diff);
}
