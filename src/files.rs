//! The input snapshots: maps from path to file entry.
use vstd::prelude::*;
use crate::text::str_eq;

verus! {

/// Whether a path names a file or a directory.
#[derive(Clone, Copy, Debug, PartialEq, Eq, Structural)]
pub enum FileType {
    File,
    Directory,
}

/// A snapshot as a map from path to type and content.
pub type Snapshot = Map<Seq<char>, (FileType, Seq<char>)>;

/// One entry of a snapshot; the content of a directory is empty.
pub struct FileMapEntry {
    pub file_type: FileType,
    pub content: String,
}

impl View for FileMapEntry {
    type V = (FileType, Seq<char>);

    open spec fn view(&self) -> (FileType, Seq<char>) {
        (self.file_type, self.content@)
    }
}

impl FileMapEntry {
    /// A copy of the entry.
    pub fn duplicate(&self) -> (r: FileMapEntry)
        ensures
            r@ == self@,
    {
        FileMapEntry { file_type: self.file_type, content: self.content.clone() }
    }
}

/// A snapshot of a package: at most one entry per path.
pub struct FileMap {
    entries: Vec<(String, FileMapEntry)>,
}

/// The map that a list of entries spells, later entries overriding earlier.
pub open spec fn entries_map(s: Seq<(String, FileMapEntry)>) -> Map<Seq<char>, (FileType, Seq<char>)>
    decreases s.len(),
{
    if s.len() == 0 {
        Map::empty()
    } else {
        entries_map(s.drop_last()).insert(s.last().0@, s.last().1@)
    }
}

pub proof fn lemma_entries_map_domain(s: Seq<(String, FileMapEntry)>, k: Seq<char>)
    ensures
        entries_map(s).contains_key(k) <==> exists|j: int| 0 <= j < s.len() && #[trigger] s[j].0@ == k,
    decreases s.len(),
{
    if s.len() > 0 {
        lemma_entries_map_domain(s.drop_last(), k);
        if entries_map(s.drop_last()).contains_key(k) {
            let j = choose|j: int| 0 <= j < s.drop_last().len() && #[trigger] s.drop_last()[j].0@ == k;
            assert(s[j].0@ == k);
        }
        if exists|j: int| 0 <= j < s.len() && #[trigger] s[j].0@ == k {
            let j = choose|j: int| 0 <= j < s.len() && #[trigger] s[j].0@ == k;
            if j < s.len() - 1 {
                assert(s.drop_last()[j].0@ == k);
            }
        }
    }
}

/// Where no entry after `i` has key `k`, the entry at `i` gives the value.
pub proof fn lemma_entries_map_last(s: Seq<(String, FileMapEntry)>, i: int)
    requires
        0 <= i < s.len(),
        forall|j: int| i < j < s.len() ==> #[trigger] s[j].0@ != s[i].0@,
    ensures
        entries_map(s).contains_key(s[i].0@),
        entries_map(s)[s[i].0@] == s[i].1@,
    decreases s.len(),
{
    if i < s.len() - 1 {
        lemma_entries_map_last(s.drop_last(), i);
        assert(s.last().0@ != s[i].0@);
    }
}

pub proof fn lemma_entries_map_absent(s: Seq<(String, FileMapEntry)>, k: Seq<char>, from: int)
    requires
        0 <= from <= s.len(),
        forall|j: int| from <= j < s.len() ==> #[trigger] s[j].0@ != k,
    ensures
        entries_map(s).contains_key(k) == entries_map(s.subrange(0, from)).contains_key(k),
        entries_map(s).contains_key(k) ==> entries_map(s)[k] == entries_map(s.subrange(0, from))[k],
    decreases s.len(),
{
    if from < s.len() {
        assert(s.drop_last() =~= s.subrange(0, s.len() - 1));
        lemma_entries_map_absent(s.drop_last(), k, from);
        assert(s.drop_last().subrange(0, from) =~= s.subrange(0, from));
    } else {
        assert(s.subrange(0, from) =~= s);
    }
}

pub proof fn lemma_entries_map_update(s: Seq<(String, FileMapEntry)>, i: int, e: (String, FileMapEntry))
    requires
        0 <= i < s.len(),
        e.0@ == s[i].0@,
        forall|j: int| i < j < s.len() ==> #[trigger] s[j].0@ != s[i].0@,
    ensures
        entries_map(s.update(i, e)) == entries_map(s).insert(e.0@, e.1@),
    decreases s.len(),
{
    if i == s.len() - 1 {
        assert(s.update(i, e).drop_last() =~= s.drop_last());
        assert(entries_map(s.update(i, e)) =~= entries_map(s).insert(e.0@, e.1@));
    } else {
        assert(s.update(i, e).drop_last() =~= s.drop_last().update(i, e));
        lemma_entries_map_update(s.drop_last(), i, e);
        assert(s.last().0@ != e.0@);
        assert(entries_map(s.update(i, e)) =~= entries_map(s).insert(e.0@, e.1@));
    }
}

impl View for FileMap {
    type V = Map<Seq<char>, (FileType, Seq<char>)>;

    closed spec fn view(&self) -> Map<Seq<char>, (FileType, Seq<char>)> {
        entries_map(self.entries@)
    }
}

impl FileMap {
    /// The entries in their stored order.
    pub closed spec fn entry_seq(&self) -> Seq<(String, FileMapEntry)> {
        self.entries@
    }

    /// A path has an entry exactly when some stored position holds it.
    pub proof fn lemma_domain(&self, k: Seq<char>)
        ensures
            self@.contains_key(k) <==> exists|j: int|
                0 <= j < self.entry_seq().len() && #[trigger] self.entry_seq()[j].0@ == k,
    {
        lemma_entries_map_domain(self.entries@, k);
        assert(self.entry_seq() == self.entries@);
    }

    /// The snapshot has an entry exactly when it stores one.
    pub proof fn lemma_nonempty(&self)
        ensures
            (self.entry_seq().len() > 0) == (self@.dom() != Set::<Seq<char>>::empty()),
    {
        if self.entries@.len() > 0 {
            lemma_entries_map_domain(self.entries@, self.entries@[0].0@);
            assert(self@.dom().contains(self.entries@[0].0@));
        } else {
            assert(self@.dom() =~= Set::<Seq<char>>::empty());
        }
    }

    /// An empty snapshot.
    pub fn new() -> (r: FileMap)
        ensures
            r@ == Map::<Seq<char>, (FileType, Seq<char>)>::empty(),
    {
        FileMap { entries: Vec::new() }
    }

    /// Number of stored entries.
    pub fn len(&self) -> (r: usize)
        ensures
            r == self.entry_seq().len(),
    {
        self.entries.len()
    }

    /// Path and entry at a stored position.
    pub fn entry_at(&self, i: usize) -> (r: (&String, &FileMapEntry))
        requires
            i < self.entry_seq().len(),
        ensures
            r.0@ == self.entry_seq()[i as int].0@,
            self@.contains_key(r.0@),
            self@[r.0@] == r.1@,
    {
        let e = &self.entries[i];
        let r = (&e.0, &e.1);
        proof {
            lemma_entries_map_domain(self.entries@, e.0@);
        }
        let found = self.get(e.0.as_str());
        match found {
            Some(f) => (r.0, f),
            None => r,
        }
    }

    /// The entry stored under `path`, if any.
    pub fn get(&self, path: &str) -> (r: Option<&FileMapEntry>)
        ensures
            r.is_some() == self@.contains_key(path@),
            r.is_some() ==> self@[path@] == r.unwrap()@,
    {
        let mut i: usize = self.entries.len();
        while i > 0
            invariant
                i <= self.entries@.len(),
                forall|j: int| i <= j < self.entries@.len() ==> #[trigger] self.entries@[j].0@ != path@,
            decreases i,
        {
            if str_eq(self.entries[i - 1].0.as_str(), path) {
                proof {
                    lemma_entries_map_last(self.entries@, i - 1);
                }
                return Some(&self.entries[i - 1].1);
            }
            i = i - 1;
        }
        proof {
            lemma_entries_map_domain(self.entries@, path@);
        }
        None
    }

    /// A copy of the snapshot.
    pub fn duplicate(&self) -> (r: FileMap)
        ensures
            r@ == self@,
    {
        let mut r = FileMap::new();
        let mut i: usize = 0;
        while i < self.entries.len()
            invariant
                i <= self.entries@.len(),
                r@ == entries_map(self.entries@.subrange(0, i as int)),
            decreases self.entries@.len() - i,
        {
            let (k, e) = &self.entries[i];
            assert(self.entries@.subrange(0, i + 1).drop_last() =~= self.entries@.subrange(0, i as int));
            r.insert(k.clone(), e.duplicate());
            i = i + 1;
        }
        assert(self.entries@.subrange(0, i as int) =~= self.entries@);
        r
    }

    /// Stores `entry` under `path`, replacing what was there.
    pub fn insert(&mut self, path: String, entry: FileMapEntry)
        ensures
            final(self)@ == old(self)@.insert(path@, entry@),
    {
        let mut i: usize = self.entries.len();
        while i > 0
            invariant
                i <= self.entries@.len(),
                self.entries@ == old(self).entries@,
                forall|j: int| i <= j < self.entries@.len() ==> #[trigger] self.entries@[j].0@ != path@,
            decreases i,
        {
            if self.entries[i - 1].0 == path {
                proof {
                    lemma_entries_map_update(self.entries@, i - 1, (path, entry));
                }
                self.entries.set(i - 1, (path, entry));
                return;
            }
            i = i - 1;
        }
        let ghost s = self.entries@;
        self.entries.push((path, entry));
        assert(self.entries@.drop_last() =~= s);
    }
}

} // verus!
