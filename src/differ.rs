//! Line-level differ: change lists between two texts, their counts, and the
//! simplified unified patch.
use vstd::prelude::*;
use crate::text::{split_lines, split_by_char, views_of};

verus! {

/// The kind of one change of a line diff.
#[derive(Clone, Copy, Debug, PartialEq, Eq, Structural)]
pub enum ChangeTag {
    Equal,
    Delete,
    Insert,
}

/// One line of a diff with its tag.
pub struct LineChange {
    pub tag: ChangeTag,
    pub value: String,
}

impl View for LineChange {
    type V = (ChangeTag, Seq<char>);

    open spec fn view(&self) -> (ChangeTag, Seq<char>) {
        (self.tag, self.value@)
    }
}

/// The views of a vector of changes.
pub open spec fn changes_view(v: Seq<LineChange>) -> Seq<(ChangeTag, Seq<char>)> {
    v.map_values(|c: LineChange| c@)
}

/// The change list that the Myers line differ gives for `old` against `new`.
pub uninterp spec fn line_diff(old: Seq<Seq<char>>, new: Seq<Seq<char>>) -> Seq<(ChangeTag, Seq<char>)>;

/// The lines a change list keeps from the old side (equal and deleted ones).
pub open spec fn old_side(cs: Seq<(ChangeTag, Seq<char>)>) -> Seq<Seq<char>>
    decreases cs.len(),
{
    if cs.len() == 0 {
        Seq::empty()
    } else if cs.last().0 == ChangeTag::Insert {
        old_side(cs.drop_last())
    } else {
        old_side(cs.drop_last()).push(cs.last().1)
    }
}

/// The lines a change list gives on the new side (equal and inserted ones).
pub open spec fn new_side(cs: Seq<(ChangeTag, Seq<char>)>) -> Seq<Seq<char>>
    decreases cs.len(),
{
    if cs.len() == 0 {
        Seq::empty()
    } else if cs.last().0 == ChangeTag::Delete {
        new_side(cs.drop_last())
    } else {
        new_side(cs.drop_last()).push(cs.last().1)
    }
}

/// How many changes of `cs` carry `tag`.
pub open spec fn count_tag(cs: Seq<(ChangeTag, Seq<char>)>, tag: ChangeTag) -> nat
    decreases cs.len(),
{
    if cs.len() == 0 {
        0
    } else {
        count_tag(cs.drop_last(), tag) + if cs.last().0 == tag { 1nat } else { 0nat }
    }
}

/// The change list between the lines of two texts.
pub open spec fn text_diff(from: Seq<char>, to: Seq<char>) -> Seq<(ChangeTag, Seq<char>)> {
    line_diff(split_lines(from), split_lines(to))
}

/// Relies on `similar::TextDiff::from_slices` (Myers, no deadline) and
/// `iter_all_changes`: the changes in order, equal and deleted ones spelling
/// the old lines, equal and inserted ones the new lines, and nothing but
/// equal lines when both sides are the same.
#[verifier::external_body]
fn diff_lines(old: &Vec<String>, new: &Vec<String>) -> (r: Vec<LineChange>)
    ensures
        changes_view(r@) == line_diff(views_of(old@), views_of(new@)),
        old_side(changes_view(r@)) == views_of(old@),
        new_side(changes_view(r@)) == views_of(new@),
        views_of(old@) == views_of(new@) ==> forall|i: int|
            0 <= i < r@.len() ==> #[trigger] r@[i].tag == ChangeTag::Equal,
{
    let a: Vec<&str> = old.iter().map(|l| l.as_str()).collect();
    let b: Vec<&str> = new.iter().map(|l| l.as_str()).collect();
    let diff = similar::TextDiff::from_slices(&a, &b);
    diff.iter_all_changes().map(|c| {
        let tag = match c.tag() {
            similar::ChangeTag::Equal => ChangeTag::Equal,
            similar::ChangeTag::Delete => ChangeTag::Delete,
            similar::ChangeTag::Insert => ChangeTag::Insert,
        };
        LineChange { tag, value: c.value().to_string() }
    }).collect()
}

/// The changes between the lines of `from` and of `to`.
pub fn diff_texts(from: &str, to: &str) -> (r: Vec<LineChange>)
    ensures
        changes_view(r@) == text_diff(from@, to@),
        old_side(changes_view(r@)) == split_lines(from@),
        new_side(changes_view(r@)) == split_lines(to@),
        from@ == to@ ==> forall|i: int| 0 <= i < r@.len() ==> #[trigger] r@[i].tag == ChangeTag::Equal,
{
    let a = split_by_char(from, '\n');
    let b = split_by_char(to, '\n');
    diff_lines(&a, &b)
}

/// Counts of inserted and deleted lines of a change list.
pub fn count_changes(changes: &Vec<LineChange>) -> (r: (u64, u64))
    ensures
        r.0 == count_tag(changes_view(changes@), ChangeTag::Insert),
        r.1 == count_tag(changes_view(changes@), ChangeTag::Delete),
{
    let mut added: u64 = 0;
    let mut removed: u64 = 0;
    let mut i: usize = 0;
    while i < changes.len()
        invariant
            i <= changes@.len(),
            added == count_tag(changes_view(changes@.subrange(0, i as int)), ChangeTag::Insert),
            removed == count_tag(changes_view(changes@.subrange(0, i as int)), ChangeTag::Delete),
            added + removed <= i,
        decreases changes@.len() - i,
    {
        let ghost before = changes_view(changes@.subrange(0, i as int));
        assert(changes_view(changes@.subrange(0, i + 1)).drop_last() =~= before);
        match changes[i].tag {
            ChangeTag::Insert => {
                added = added + 1;
            },
            ChangeTag::Delete => {
                removed = removed + 1;
            },
            ChangeTag::Equal => {},
        }
        i = i + 1;
    }
    assert(changes@.subrange(0, i as int) =~= changes@);
    (added, removed)
}

/// Number of lines added and removed between `from` and `to`, as the line
/// differ counts them.
pub fn count_diff(from: &str, to: &str) -> (r: (u64, u64))
    ensures
        r.0 == count_tag(text_diff(from@, to@), ChangeTag::Insert),
        r.1 == count_tag(text_diff(from@, to@), ChangeTag::Delete),
        from@ == to@ ==> r == (0u64, 0u64),
        old_side(text_diff(from@, to@)) == split_lines(from@),
        new_side(text_diff(from@, to@)) == split_lines(to@),
        r.1 <= split_lines(from@).len(),
        r.0 <= split_lines(to@).len(),
        split_lines(from@).len() - r.1 == split_lines(to@).len() - r.0,
{
    let changes = diff_texts(from, to);
    let r = count_changes(&changes);
    proof {
        if from@ == to@ {
            lemma_all_equal_counts(changes_view(changes@));
        }
        lemma_side_lengths(changes_view(changes@));
    }
    r
}

/// The old side has the equal and deleted lines, the new side the equal and
/// inserted ones.
pub proof fn lemma_side_lengths(cs: Seq<(ChangeTag, Seq<char>)>)
    ensures
        old_side(cs).len() == count_tag(cs, ChangeTag::Equal) + count_tag(cs, ChangeTag::Delete),
        new_side(cs).len() == count_tag(cs, ChangeTag::Equal) + count_tag(cs, ChangeTag::Insert),
    decreases cs.len(),
{
    if cs.len() > 0 {
        lemma_side_lengths(cs.drop_last());
    }
}

/// A change list made of equal lines only has no insertion and no deletion.
pub proof fn lemma_all_equal_counts(cs: Seq<(ChangeTag, Seq<char>)>)
    requires
        forall|i: int| 0 <= i < cs.len() ==> #[trigger] cs[i].0 == ChangeTag::Equal,
    ensures
        count_tag(cs, ChangeTag::Insert) == 0,
        count_tag(cs, ChangeTag::Delete) == 0,
    decreases cs.len(),
{
    if cs.len() > 0 {
        lemma_all_equal_counts(cs.drop_last());
        assert(cs.last().0 == cs[cs.len() - 1].0);
    }
}

} // verus!
