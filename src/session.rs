//! The host session: snapshots cached by package version, and the pair of
//! versions that the last tree was built from.
use vstd::prelude::*;
use crate::files::{FileMap, Snapshot};
use crate::patch::{DiffResult, build_diff_result, diff_result_ok};
use crate::text::str_eq;
use crate::tree::{file_content_opt, has_file};

verus! {

/// The cache key of a package version: `registry:pkg:version`.
pub open spec fn cache_key_spec(registry: Seq<char>, pkg: Seq<char>, version: Seq<char>) -> Seq<char> {
    registry + ":"@ + pkg + ":"@ + version
}

/// The cache key of a package version.
pub fn cache_key(registry: &str, pkg: &str, version: &str) -> (r: String)
    ensures
        r@ == cache_key_spec(registry@, pkg@, version@),
{
    let mut r = String::from_str(registry);
    r.append(":");
    r.append(pkg);
    r.append(":");
    r.append(version);
    r
}

/// The map that a list of cache entries spells, later entries overriding
/// earlier ones.
pub open spec fn cache_map(s: Seq<(String, FileMap)>) -> Map<Seq<char>, Snapshot>
    decreases s.len(),
{
    if s.len() == 0 {
        Map::empty()
    } else {
        cache_map(s.drop_last()).insert(s.last().0@, s.last().1@)
    }
}

proof fn lemma_cache_map_last(s: Seq<(String, FileMap)>, i: int)
    requires
        0 <= i < s.len(),
        forall|j: int| i < j < s.len() ==> #[trigger] s[j].0@ != s[i].0@,
    ensures
        cache_map(s).contains_key(s[i].0@),
        cache_map(s)[s[i].0@] == s[i].1@,
    decreases s.len(),
{
    if i < s.len() - 1 {
        lemma_cache_map_last(s.drop_last(), i);
        assert(s.last().0@ != s[i].0@);
    }
}

proof fn lemma_cache_map_absent(s: Seq<(String, FileMap)>, k: Seq<char>)
    requires
        forall|j: int| 0 <= j < s.len() ==> #[trigger] s[j].0@ != k,
    ensures
        !cache_map(s).contains_key(k),
    decreases s.len(),
{
    if s.len() > 0 {
        lemma_cache_map_absent(s.drop_last(), k);
        assert(s.last().0@ != k);
    }
}

/// Content of the file at `path` in the cached snapshot under `key`, if any.
pub open spec fn cached_content(cache: Map<Seq<char>, Snapshot>, key: Seq<char>, path: Seq<char>) -> Option<Seq<char>> {
    if cache.contains_key(key) && has_file(cache[key], path) {
        Some(cache[key][path].1)
    } else {
        None
    }
}

/// Cached snapshots and the active pair of keys.
pub struct Session {
    cache: Vec<(String, FileMap)>,
    active: Option<(String, String)>,
}

impl Session {
    /// The cached snapshots by key.
    pub closed spec fn cache_view(&self) -> Map<Seq<char>, Snapshot> {
        cache_map(self.cache@)
    }

    /// The keys of the versions that the last tree was built from.
    pub closed spec fn active_view(&self) -> Option<(Seq<char>, Seq<char>)> {
        match self.active {
            Some((a, b)) => Some((a@, b@)),
            None => None,
        }
    }

    /// An empty session.
    pub fn new() -> (r: Session)
        ensures
            r.cache_view() == Map::<Seq<char>, Snapshot>::empty(),
            r.active_view() is None,
    {
        Session { cache: Vec::new(), active: None }
    }

    /// The snapshot cached under `key`.
    pub fn cached(&self, key: &str) -> (r: Option<&FileMap>)
        ensures
            r is Some <==> self.cache_view().contains_key(key@),
            r is Some ==> r->0@ == self.cache_view()[key@],
    {
        let mut i: usize = self.cache.len();
        while i > 0
            invariant
                i <= self.cache@.len(),
                forall|j: int| i <= j < self.cache@.len() ==> #[trigger] self.cache@[j].0@ != key@,
            decreases i,
        {
            if str_eq(self.cache[i - 1].0.as_str(), key) {
                proof {
                    lemma_cache_map_last(self.cache@, i - 1);
                }
                return Some(&self.cache[i - 1].1);
            }
            i = i - 1;
        }
        proof {
            lemma_cache_map_absent(self.cache@, key@);
        }
        None
    }

    /// Caches `files` under `key`.
    pub fn store(&mut self, key: String, files: FileMap)
        ensures
            final(self).cache_view() == old(self).cache_view().insert(key@, files@),
            final(self).active_view() == old(self).active_view(),
    {
        let ghost s = self.cache@;
        self.cache.push((key, files));
        assert(self.cache@.drop_last() =~= s);
    }

    /// Records the keys of the versions that the current tree compares.
    pub fn set_active(&mut self, from_key: String, to_key: String)
        ensures
            final(self).cache_view() == old(self).cache_view(),
            final(self).active_view() == Some((from_key@, to_key@)),
    {
        self.active = Some((from_key, to_key));
    }

    /// The diff of one file of the active pair of versions: `old_path` names
    /// the file in the old version where it was renamed.
    pub fn get_diff_for_path(&self, filename: &str, old_path: Option<&str>) -> (r: Result<DiffResult, String>)
        ensures
            match self.active_view() {
                None => r is Err && r->Err_0@ == "No active diff context"@,
                Some((fk, tk)) => {
                    let from_path = match old_path {
                        Some(p) => p@,
                        None => filename@,
                    };
                    r is Ok && diff_result_ok(
                        filename@,
                        cached_content(self.cache_view(), fk, from_path),
                        cached_content(self.cache_view(), tk, filename@),
                        r->Ok_0,
                    )
                },
            },
    {
        match &self.active {
            None => Err(String::from_str("No active diff context")),
            Some((from_key, to_key)) => {
                let from_path: &str = match old_path {
                    Some(p) => p,
                    None => filename,
                };
                let from_content = match self.cached(from_key.as_str()) {
                    Some(files) => file_content_opt(files, from_path),
                    None => None,
                };
                let to_content = match self.cached(to_key.as_str()) {
                    Some(files) => file_content_opt(files, filename),
                    None => None,
                };
                Ok(build_diff_result(filename, from_content, to_content))
            },
        }
    }
}

} // verus!
