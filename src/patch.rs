//! The simplified unified patch of one file and the per-file diff result.
use vstd::prelude::*;
use crate::differ::{ChangeTag, LineChange, changes_view, diff_texts, new_side, old_side, text_diff};
use crate::text::{split_lines, split_by_char, str_eq, views_of};

verus! {

/// The sign that starts the patch line of a change.
pub open spec fn sign_of(tag: ChangeTag) -> Seq<char> {
    match tag {
        ChangeTag::Delete => "-"@,
        ChangeTag::Insert => "+"@,
        ChangeTag::Equal => " "@,
    }
}

/// One patch line per change, each after a newline: sign, space, content.
pub open spec fn change_lines(cs: Seq<(ChangeTag, Seq<char>)>) -> Seq<char>
    decreases cs.len(),
{
    if cs.len() == 0 {
        Seq::empty()
    } else {
        change_lines(cs.drop_last()) + "\n"@ + sign_of(cs.last().0) + " "@ + cs.last().1
    }
}

/// The patch text of `filename` for a change list.
pub open spec fn patch_text(filename: Seq<char>, cs: Seq<(ChangeTag, Seq<char>)>) -> Seq<char> {
    "--- from/"@ + filename + "\n+++ to/"@ + filename + change_lines(cs)
}

/// Each line after a newline and `prefix`.
pub open spec fn prefixed_lines(prefix: Seq<char>, lines: Seq<Seq<char>>) -> Seq<char>
    decreases lines.len(),
{
    if lines.len() == 0 {
        Seq::empty()
    } else {
        prefixed_lines(prefix, lines.drop_last()) + "\n"@ + prefix + lines.last()
    }
}

/// Formats a change list as the patch of `filename`.
pub fn format_patch(filename: &str, changes: &Vec<LineChange>) -> (r: String)
    ensures
        r@ == patch_text(filename@, changes_view(changes@)),
{
    let mut r = String::new();
    r.append("--- from/");
    r.append(filename);
    r.append("\n+++ to/");
    r.append(filename);
    let ghost head = "--- from/"@ + filename@ + "\n+++ to/"@ + filename@;
    assert(r@ =~= head);
    let mut i: usize = 0;
    while i < changes.len()
        invariant
            i <= changes@.len(),
            r@ == head + change_lines(changes_view(changes@.subrange(0, i as int))),
        decreases changes@.len() - i,
    {
        let ghost before = changes_view(changes@.subrange(0, i as int));
        assert(changes_view(changes@.subrange(0, i + 1)).drop_last() =~= before);
        let c = &changes[i];
        let sign: &str = match c.tag {
            ChangeTag::Delete => "-",
            ChangeTag::Insert => "+",
            ChangeTag::Equal => " ",
        };
        r.append("\n");
        r.append(sign);
        r.append(" ");
        r.append(c.value.as_str());
        i = i + 1;
        assert(r@ =~= head + change_lines(changes_view(changes@.subrange(0, i as int))));
    }
    assert(changes@.subrange(0, i as int) =~= changes@);
    r
}

/// The unified patch between two texts of the file `filename`.
pub fn get_diff_content(filename: &str, from_content: &str, to_content: &str) -> (r: String)
    ensures
        r@ == patch_text(filename@, text_diff(from_content@, to_content@)),
        old_side(text_diff(from_content@, to_content@)) == split_lines(from_content@),
        new_side(text_diff(from_content@, to_content@)) == split_lines(to_content@),
{
    let changes = diff_texts(from_content, to_content);
    format_patch(filename, &changes)
}

/// What the browser shows for one file: a text and whether it is a patch.
pub struct DiffResult {
    pub data: String,
    pub is_diff: bool,
}

/// The text shown for a file present in neither version.
pub open spec fn absent_text() -> Seq<char> {
    "File not present in either version."@
}

/// Appends each line, after a newline and `prefix`, to `r`.
fn append_prefixed(r: &mut String, prefix: &str, lines: &Vec<String>)
    ensures
        final(r)@ == old(r)@ + prefixed_lines(prefix@, views_of(lines@)),
{
    let ghost start = r@;
    let mut i: usize = 0;
    while i < lines.len()
        invariant
            i <= lines@.len(),
            r@ == start + prefixed_lines(prefix@, views_of(lines@.subrange(0, i as int))),
        decreases lines@.len() - i,
    {
        let ghost before = views_of(lines@.subrange(0, i as int));
        assert(views_of(lines@.subrange(0, i + 1)).drop_last() =~= before);
        r.append("\n");
        r.append(prefix);
        r.append(lines[i].as_str());
        i = i + 1;
        assert(r@ =~= start + prefixed_lines(prefix@, views_of(lines@.subrange(0, i as int))));
    }
    assert(lines@.subrange(0, i as int) =~= lines@);
}

/// What the browser shows for a file, from its content in each version
/// (`None` where the file is absent).
pub open spec fn diff_result_ok(
    filename: Seq<char>,
    from_content: Option<Seq<char>>,
    to_content: Option<Seq<char>>,
    r: DiffResult,
) -> bool {
    match (from_content, to_content) {
        (None, None) => r.data@ == absent_text() && !r.is_diff,
        (None, Some(to)) => r.is_diff && r.data@ == "--- /dev/null\n+++ to/"@ + filename + prefixed_lines(
            "+ "@,
            split_lines(to),
        ),
        (Some(from), None) => r.is_diff && r.data@ == "--- from/"@ + filename + "\n+++ /dev/null"@
            + prefixed_lines("- "@, split_lines(from)),
        (Some(from), Some(to)) => if from == to {
            !r.is_diff && r.data@ == to
        } else {
            r.is_diff && r.data@ == patch_text(filename, text_diff(from, to))
        },
    }
}

/// The view of an optional text.
pub open spec fn opt_text(s: Option<&str>) -> Option<Seq<char>> {
    match s {
        Some(x) => Some(x@),
        None => None,
    }
}

/// The per-file diff result, from the file's content in each version (`None`
/// where the file is absent).
pub fn build_diff_result(filename: &str, from_content: Option<&str>, to_content: Option<&str>) -> (r: DiffResult)
    ensures
        diff_result_ok(filename@, opt_text(from_content), opt_text(to_content), r),
{
    match (from_content, to_content) {
        (None, None) => {
            let data = String::from_str("File not present in either version.");
            DiffResult { data, is_diff: false }
        },
        (None, Some(to)) => {
            let mut data = String::new();
            data.append("--- /dev/null\n+++ to/");
            data.append(filename);
            let lines = split_by_char(to, '\n');
            append_prefixed(&mut data, "+ ", &lines);
            DiffResult { data, is_diff: true }
        },
        (Some(from), None) => {
            let mut data = String::new();
            data.append("--- from/");
            data.append(filename);
            data.append("\n+++ /dev/null");
            let lines = split_by_char(from, '\n');
            append_prefixed(&mut data, "- ", &lines);
            DiffResult { data, is_diff: true }
        },
        (Some(from), Some(to)) => {
            if str_eq(from, to) {
                DiffResult { data: String::from_str(to), is_diff: false }
            } else {
                DiffResult { data: get_diff_content(filename, from, to), is_diff: true }
            }
        },
    }
}

} // verus!
