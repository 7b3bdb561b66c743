//! Package tarballs: where a version is fetched from, and how the paths of
//! an unpacked tarball become a snapshot.
use vstd::prelude::*;
use crate::files::{FileMap, FileMapEntry, FileType, Snapshot};
use crate::paths::{PathSet, lemma_sorted_no_duplicates};
use crate::text::{lemma_split_on_nonempty, split_by_char, split_on, str_eq, views_of};

verus! {

/// The second `'/'`-separated segment of a package name, or the whole name.
pub open spec fn unscoped_name(pkg: Seq<char>) -> Seq<char> {
    let segs = split_on(pkg, '/');
    if segs.len() > 1 { segs[1] } else { pkg }
}

/// The second `'/'`-separated segment of a name, or empty.
pub open spec fn second_segment(pkg: Seq<char>) -> Seq<char> {
    let segs = split_on(pkg, '/');
    if segs.len() > 1 { segs[1] } else { Seq::empty() }
}

/// The tarball address of a package version, by registry.
pub open spec fn tarball_url_spec(registry: Seq<char>, pkg: Seq<char>, version: Seq<char>) -> Result<Seq<char>, Seq<char>> {
    if registry == "npm"@ {
        Ok("https://registry.npmjs.org/"@ + pkg + "/-/"@ + unscoped_name(pkg) + "-"@ + version + ".tgz"@)
    } else if registry == "crates"@ {
        Ok("https://static.crates.io/crates/"@ + pkg + "/"@ + pkg + "-"@ + version + ".crate"@)
    } else if registry == "zig"@ {
        let owner = split_on(pkg, '/')[0];
        let repo = second_segment(pkg);
        if owner.len() == 0 || repo.len() == 0 {
            Err("Invalid Zig package name"@)
        } else {
            Ok("https://codeload.github.com/"@ + owner + "/"@ + repo + "/tar.gz/"@ + version)
        }
    } else {
        Err("Unsupported registry: "@ + registry)
    }
}

/// The tarball address of a package version; an error for an unknown
/// registry or a Zig name that is not `owner/repo`.
pub fn build_tarball_url(registry: &str, pkg: &str, version: &str) -> (r: Result<String, String>)
    ensures
        match (r, tarball_url_spec(registry@, pkg@, version@)) {
            (Ok(u), Ok(v)) => u@ == v,
            (Err(e), Err(v)) => e@ == v,
            _ => false,
        },
{
    let segs = split_by_char(pkg, '/');
    proof {
        lemma_split_on_nonempty(pkg@, '/');
        assert(segs@[0]@ == split_on(pkg@, '/')[0]);
    }
    if str_eq(registry, "npm") {
        let mut u = String::from_str("https://registry.npmjs.org/");
        u.append(pkg);
        u.append("/-/");
        if segs.len() > 1 {
            assert(segs@[1]@ == split_on(pkg@, '/')[1]);
            u.append(segs[1].as_str());
        } else {
            u.append(pkg);
        }
        u.append("-");
        u.append(version);
        u.append(".tgz");
        Ok(u)
    } else if str_eq(registry, "crates") {
        let mut u = String::from_str("https://static.crates.io/crates/");
        u.append(pkg);
        u.append("/");
        u.append(pkg);
        u.append("-");
        u.append(version);
        u.append(".crate");
        Ok(u)
    } else if str_eq(registry, "zig") {
        let owner = segs[0].as_str();
        let repo: &str = if segs.len() > 1 {
            assert(segs@[1]@ == split_on(pkg@, '/')[1]);
            segs[1].as_str()
        } else {
            proof {
                reveal_strlit("");
            }
            ""
        };
        if owner.is_empty() || repo.is_empty() {
            return Err(String::from_str("Invalid Zig package name"));
        }
        let mut u = String::from_str("https://codeload.github.com/");
        u.append(owner);
        u.append("/");
        u.append(repo);
        u.append("/tar.gz/");
        u.append(version);
        Ok(u)
    } else {
        let mut e = String::from_str("Unsupported registry: ");
        e.append(registry);
        Err(e)
    }
}

/// `s` without any leading `"./"`.
pub open spec fn strip_dot_slash(s: Seq<char>) -> Seq<char>
    decreases s.len(),
{
    if s.len() >= 2 && s[0] == '.' && s[1] == '/' {
        strip_dot_slash(s.subrange(2, s.len() as int))
    } else {
        s
    }
}

/// `s` without leading `'/'`s.
pub open spec fn trim_start_slash(s: Seq<char>) -> Seq<char>
    decreases s.len(),
{
    if s.len() >= 1 && s[0] == '/' {
        trim_start_slash(s.subrange(1, s.len() as int))
    } else {
        s
    }
}

/// `s` without trailing `'/'`s.
pub open spec fn trim_end_slash(s: Seq<char>) -> Seq<char>
    decreases s.len(),
{
    if s.len() >= 1 && s.last() == '/' {
        trim_end_slash(s.drop_last())
    } else {
        s
    }
}

/// The path of a tarball entry as a snapshot key: without leading `"./"` or
/// `'/'`, without trailing `'/'` for a directory; empty for the archive root.
pub open spec fn normalized(path: Seq<char>, is_directory: bool) -> Seq<char> {
    let t = trim_start_slash(strip_dot_slash(path));
    if t.len() == 0 || t == "."@ {
        Seq::empty()
    } else if is_directory {
        trim_end_slash(t)
    } else {
        t
    }
}

/// The path of a tarball entry as a snapshot key.
pub fn normalize_path(path: &str, is_directory: bool) -> (r: String)
    ensures
        r@ == normalized(path@, is_directory),
{
    let mut t: &str = path;
    let mut n = t.unicode_len();
    while n >= 2 && t.get_char(0) == '.' && t.get_char(1) == '/'
        invariant
            n == t@.len(),
            strip_dot_slash(t@) == strip_dot_slash(path@),
        decreases n,
    {
        t = t.substring_char(2, n);
        n = n - 2;
    }
    while n >= 1 && t.get_char(0) == '/'
        invariant
            n == t@.len(),
            trim_start_slash(t@) == trim_start_slash(strip_dot_slash(path@)),
        decreases n,
    {
        t = t.substring_char(1, n);
        n = n - 1;
    }
    if n == 0 || str_eq(t, ".") {
        return String::new();
    }
    if is_directory {
        while n >= 1 && t.get_char(n - 1) == '/'
            invariant
                n == t@.len(),
                trim_end_slash(t@) == normalized(path@, is_directory),
            decreases n,
        {
            assert(t@.subrange(0, n - 1) =~= t@.drop_last());
            t = t.substring_char(0, n - 1);
            n = n - 1;
        }
    }
    t.to_string()
}

/// Every `'/'`-separated segment of `p` is non-empty.
pub open spec fn segments_nonempty(p: Seq<char>) -> bool {
    &&& p.len() > 0
    &&& p[0] != '/'
    &&& p.last() != '/'
    &&& forall|j: int| 0 <= j < p.len() - 1 ==> !(#[trigger] p[j] == '/' && p[j + 1] == '/')
}

/// `p` is a directory that `k` implies: a prefix of `k` that ends where a
/// segment of `k` ends, before the first empty segment.
pub open spec fn implied_dir(p: Seq<char>, k: Seq<char>) -> bool {
    &&& 0 < p.len() <= k.len()
    &&& k.subrange(0, p.len() as int) == p
    &&& (p.len() == k.len() || k[p.len() as int] == '/')
    &&& segments_nonempty(p)
}

/// `m` with a directory entry added at each path of `s` that it lacks.
pub open spec fn with_dirs(m: Snapshot, s: Set<Seq<char>>) -> Snapshot {
    Map::new(
        |p: Seq<char>| m.contains_key(p) || s.contains(p),
        |p: Seq<char>| if m.contains_key(p) { m[p] } else { (FileType::Directory, Seq::<char>::empty()) },
    )
}

/// `m` with an entry for every directory that its paths imply.
pub open spec fn with_implied_dirs(m: Snapshot) -> Snapshot {
    with_dirs(m, Set::new(|p: Seq<char>| exists|k: Seq<char>| m.contains_key(k) && #[trigger] implied_dir(p, k)))
}

proof fn lemma_with_dirs_twice(m: Snapshot, a: Set<Seq<char>>, b: Set<Seq<char>>)
    ensures
        with_dirs(with_dirs(m, a), b) == with_dirs(m, a.union(b)),
{
    assert(with_dirs(with_dirs(m, a), b) =~= with_dirs(m, a.union(b)));
}

/// The paths of a snapshot's entries, in stored order.
fn keys_of(files: &FileMap) -> (r: Vec<String>)
    ensures
        forall|k: Seq<char>| files@.contains_key(k) <==> views_of(r@).contains(k),
{
    let n = files.len();
    let mut r: Vec<String> = Vec::new();
    let mut i: usize = 0;
    while i < n
        invariant
            n == files.entry_seq().len(),
            i <= n,
            r@.len() == i,
            forall|j: int| 0 <= j < i ==> (#[trigger] r@[j])@ == files.entry_seq()[j].0@,
        decreases n - i,
    {
        let (k, _) = files.entry_at(i);
        r.push(k.clone());
        i = i + 1;
    }
    assert forall|k: Seq<char>| files@.contains_key(k) <==> views_of(r@).contains(k) by {
        files.lemma_domain(k);
        if files@.contains_key(k) {
            let j = choose|j: int| 0 <= j < files.entry_seq().len() && #[trigger] files.entry_seq()[j].0@ == k;
            assert(views_of(r@)[j] == k);
        }
        if views_of(r@).contains(k) {
            let j = choose|j: int| 0 <= j < views_of(r@).len() && views_of(r@)[j] == k;
            assert(files.entry_seq()[j].0@ == k);
        }
    }
    r
}

/// Every implied directory of `k` is shorter than `c` where the segment
/// that ends at `c` is empty.
proof fn lemma_empty_segment_stops(k: Seq<char>, c: int, p: Seq<char>)
    requires
        0 <= c <= k.len(),
        c == k.len() || k[c] == '/',
        c == 0 || (c >= 2 && k[c - 1] == '/'),
        implied_dir(p, k),
    ensures
        p.len() < c,
{
    if p.len() >= c {
        assert(forall|j: int| 0 <= j < p.len() ==> p[j] == #[trigger] k.subrange(0, p.len() as int)[j]);
        if c == 0 {
            assert(p[0] == k[0]);
        } else if p.len() == c {
            assert(p[c - 1] == k[c - 1]);
        } else {
            assert(p[c - 1] == k[c - 1]);
            assert(p[c] == k[c]);
            assert(p[c - 1] == '/' && p[c - 1 + 1] == '/');
        }
    }
}

/// The prefix of `k` that ends at a segment boundary `c` is implied when its
/// segments are non-empty.
proof fn lemma_prefix_implied(k: Seq<char>, c: int, seg_start: int)
    requires
        0 < c <= k.len(),
        c == k.len() || k[c] == '/',
        seg_start < c,
        seg_start == 0 || (seg_start >= 2 && k[seg_start - 1] == '/'
            && segments_nonempty(k.subrange(0, seg_start - 1))),
        forall|j: int| seg_start <= j < c ==> k[j] != '/',
    ensures
        implied_dir(k.subrange(0, c), k),
        segments_nonempty(k.subrange(0, c)),
{
    let pv = k.subrange(0, c);
    assert(pv[0] == k[0]);
    assert(pv.last() == k[c - 1]);
    assert forall|j: int| 0 <= j < pv.len() - 1 implies !(#[trigger] pv[j] == '/' && pv[j + 1] == '/') by {
        if seg_start > 0 && j < seg_start - 2 {
            assert(k.subrange(0, seg_start - 1)[j] == pv[j]);
            assert(k.subrange(0, seg_start - 1)[j + 1] == pv[j + 1]);
        }
    }
    assert(pv.subrange(0, c) =~= pv);
}

/// Adds a directory entry for each directory that `k` implies and `files`
/// lacks.
fn add_implied_dirs(files: &mut FileMap, k: &str)
    ensures
        final(files)@ == with_dirs(old(files)@, Set::new(|p: Seq<char>| implied_dir(p, k@))),
{
    let ghost start = files@;
    let n = k.unicode_len();
    let mut seg_start: usize = 0;
    let mut c: usize = 0;
    while c < n
        invariant
            start == old(files)@,
            n == k@.len(),
            seg_start <= c <= n,
            seg_start == 0 || (seg_start >= 2 && k@[seg_start - 1] == '/'
                && segments_nonempty(k@.subrange(0, seg_start - 1))),
            forall|j: int| seg_start <= j < c ==> k@[j] != '/',
            files@ == with_dirs(start, Set::new(|p: Seq<char>| implied_dir(p, k@) && p.len() < c)),
        decreases n - c,
    {
        if k.get_char(c) == '/' {
            if c == seg_start {
                assert(with_dirs(start, Set::new(|p: Seq<char>| implied_dir(p, k@) && p.len() < c))
                    =~= with_dirs(start, Set::new(|p: Seq<char>| implied_dir(p, k@)))) by {
                    assert forall|p: Seq<char>| implied_dir(p, k@) implies p.len() < c by {
                        lemma_empty_segment_stops(k@, c as int, p);
                    }
                }
                return;
            }
            let p = k.substring_char(0, c);
            proof {
                lemma_prefix_implied(k@, c as int, seg_start as int);
            }
            if files.get(p).is_none() {
                files.insert(p.to_string(), FileMapEntry { file_type: FileType::Directory, content: String::new() });
            }
            assert(files@ =~= with_dirs(start, Set::new(|q: Seq<char>| implied_dir(q, k@) && q.len() < c + 1))) by {
                assert forall|q: Seq<char>| implied_dir(q, k@) && q.len() == c implies q == p@ by {
                    assert(q =~= p@);
                }
            }
            seg_start = c + 1;
        } else {
            assert(with_dirs(start, Set::new(|p: Seq<char>| implied_dir(p, k@) && p.len() < c))
                =~= with_dirs(start, Set::new(|p: Seq<char>| implied_dir(p, k@) && p.len() < c + 1)));
        }
        c = c + 1;
    }
    if c == seg_start {
        assert(with_dirs(start, Set::new(|p: Seq<char>| implied_dir(p, k@) && p.len() < c))
            =~= with_dirs(start, Set::new(|p: Seq<char>| implied_dir(p, k@)))) by {
            assert forall|p: Seq<char>| implied_dir(p, k@) implies p.len() < c by {
                lemma_empty_segment_stops(k@, c as int, p);
            }
        }
        return;
    }
    proof {
        lemma_prefix_implied(k@, c as int, seg_start as int);
        assert(k@.subrange(0, c as int) =~= k@);
    }
    if files.get(k).is_none() {
        files.insert(k.to_string(), FileMapEntry { file_type: FileType::Directory, content: String::new() });
    }
    assert(files@ =~= with_dirs(start, Set::new(|q: Seq<char>| implied_dir(q, k@)))) by {
        assert forall|q: Seq<char>| implied_dir(q, k@) && q.len() == c implies q == k@ by {
            assert(q =~= k@);
        }
    }
}

/// Adds an entry for every directory that the snapshot's paths imply.
pub fn ensure_directories(files: &mut FileMap)
    ensures
        final(files)@ == with_implied_dirs(old(files)@),
{
    let ghost start = files@;
    let keys = keys_of(files);
    let mut i: usize = 0;
    while i < keys.len()
        invariant
            i <= keys@.len(),
            forall|k: Seq<char>| start.contains_key(k) <==> views_of(keys@).contains(k),
            files@ == with_dirs(start, Set::new(|p: Seq<char>| exists|j: int| 0 <= j < i
                && #[trigger] implied_dir(p, keys@[j]@))),
        decreases keys@.len() - i,
    {
        let ghost before = files@;
        add_implied_dirs(files, keys[i].as_str());
        proof {
            lemma_with_dirs_twice(start, Set::new(|p: Seq<char>| exists|j: int| 0 <= j < i
                && #[trigger] implied_dir(p, keys@[j]@)), Set::new(|p: Seq<char>| implied_dir(p, keys@[i as int]@)));
        }
        i = i + 1;
        assert(files@ =~= with_dirs(start, Set::new(|p: Seq<char>| exists|j: int| 0 <= j < i
                && #[trigger] implied_dir(p, keys@[j]@)))) by {
            assert(Set::new(|p: Seq<char>| exists|j: int| 0 <= j < i - 1 && #[trigger] implied_dir(p, keys@[j]@)).union(
                Set::new(|p: Seq<char>| implied_dir(p, keys@[i - 1]@))) =~= Set::new(|p: Seq<char>| exists|j: int| 0 <= j < i
                && #[trigger] implied_dir(p, keys@[j]@)));
        }
    }
    assert(files@ =~= with_implied_dirs(start)) by {
        let sa = Set::new(|p: Seq<char>| exists|j: int| 0 <= j < i && #[trigger] implied_dir(p, keys@[j]@));
        let sb = Set::new(|p: Seq<char>| exists|k: Seq<char>| start.contains_key(k) && #[trigger] implied_dir(p, k));
        assert forall|p: Seq<char>| #[trigger] sb.contains(p) implies sa.contains(p) by {
            let k = choose|k: Seq<char>| start.contains_key(k) && #[trigger] implied_dir(p, k);
            let j = choose|j: int| 0 <= j < views_of(keys@).len() && views_of(keys@)[j] == k;
            assert(implied_dir(p, keys@[j]@));
        }
        assert forall|p: Seq<char>| #[trigger] sa.contains(p) implies sb.contains(p) by {
            let j = choose|j: int| 0 <= j < i && #[trigger] implied_dir(p, keys@[j]@);
            assert(views_of(keys@)[j] == keys@[j]@);
            assert(start.contains_key(keys@[j]@));
        }
        assert(sa =~= sb);
    }
}

/// The first `'/'`-separated segment of a path.
pub open spec fn first_segment(k: Seq<char>) -> Seq<char> {
    split_on(k, '/')[0]
}

/// The non-empty first segments of a snapshot's paths.
pub open spec fn top_levels(m: Snapshot) -> Set<Seq<char>> {
    Set::new(|t: Seq<char>| t.len() > 0 && exists|k: Seq<char>| m.contains_key(k) && #[trigger] first_segment(k) == t)
}

/// The entries below `root/`, under their paths relative to it.
pub open spec fn under_root(m: Snapshot, root: Seq<char>) -> Snapshot {
    Map::new(
        |q: Seq<char>| q.len() > 0 && m.contains_key(root + "/"@ + q),
        |q: Seq<char>| m[root + "/"@ + q],
    )
}

/// The snapshot without its single top-level directory, where all its paths
/// lie in one that has entries below it; the snapshot itself otherwise.
pub open spec fn stripped(m: Snapshot) -> Snapshot {
    let tops = top_levels(m);
    if tops.len() == 1 {
        let root = tops.choose();
        if m.contains_key(root) && m[root].0 == FileType::Directory
            && under_root(m, root).dom() != Set::<Seq<char>>::empty() {
            under_root(m, root)
        } else {
            m
        }
    } else {
        m
    }
}

/// The first segment of a path.
fn first_segment_of(k: &str) -> (r: String)
    ensures
        r@ == first_segment(k@),
{
    let segs = split_by_char(k, '/');
    proof {
        lemma_split_on_nonempty(k@, '/');
        assert(segs@[0]@ == split_on(k@, '/')[0]);
    }
    segs[0].clone()
}

/// The non-empty first segments of a snapshot's paths.
fn collect_top_levels(files: &FileMap) -> (r: PathSet)
    ensures
        r.wf(),
        r@ == top_levels(files@),
{
    let mut tops = PathSet::new();
    let n = files.len();
    let mut i: usize = 0;
    while i < n
        invariant
            n == files.entry_seq().len(),
            i <= n,
            tops.wf(),
            tops@ == Set::new(|t: Seq<char>| t.len() > 0 && exists|j: int| 0 <= j < i
                && #[trigger] first_segment(files.entry_seq()[j].0@) == t),
        decreases n - i,
    {
        let (k, _) = files.entry_at(i);
        let t = first_segment_of(k.as_str());
        if !t.as_str().is_empty() {
            tops.insert(t);
        }
        i = i + 1;
        assert(tops@ =~= Set::new(|t: Seq<char>| t.len() > 0 && exists|j: int| 0 <= j < i
                && #[trigger] first_segment(files.entry_seq()[j].0@) == t));
    }
    assert(tops@ =~= top_levels(files@)) by {
        assert forall|t: Seq<char>| #[trigger] top_levels(files@).contains(t) implies tops@.contains(t) by {
            let k = choose|k: Seq<char>| files@.contains_key(k) && #[trigger] first_segment(k) == t;
            files.lemma_domain(k);
            let j = choose|j: int| 0 <= j < files.entry_seq().len() && #[trigger] files.entry_seq()[j].0@ == k;
            assert(first_segment(files.entry_seq()[j].0@) == t);
        }
        assert forall|t: Seq<char>| #[trigger] tops@.contains(t) implies top_levels(files@).contains(t) by {
            let j = choose|j: int| 0 <= j < n && #[trigger] first_segment(files.entry_seq()[j].0@) == t;
            files.lemma_domain(files.entry_seq()[j].0@);
        }
    }
    tops
}

/// The entries below `root/`, under their paths relative to it.
fn entries_under(files: &FileMap, root: &str) -> (r: FileMap)
    ensures
        r@ == under_root(files@, root@),
{
    let mut prefix = String::from_str(root);
    prefix.append("/");
    let plen = prefix.as_str().unicode_len();
    let mut out = FileMap::new();
    let n = files.len();
    let mut i: usize = 0;
    while i < n
        invariant
            n == files.entry_seq().len(),
            i <= n,
            prefix@ == root@ + "/"@,
            plen == prefix@.len(),
            out@ == Map::new(
                |q: Seq<char>| q.len() > 0 && exists|j: int| 0 <= j < i
                    && #[trigger] files.entry_seq()[j].0@ == root@ + "/"@ + q,
                |q: Seq<char>| files@[root@ + "/"@ + q],
            ),
        decreases n - i,
    {
        let (k, e) = files.entry_at(i);
        let klen = k.as_str().unicode_len();
        let ghost before = out@;
        if klen > plen && str_eq(k.as_str().substring_char(0, plen), prefix.as_str()) {
            let q = k.as_str().substring_char(plen, klen);
            proof {
                assert(k@ =~= prefix@ + q@);
            }
            out.insert(q.to_string(), e.duplicate());
            i = i + 1;
            assert(out@ =~= Map::new(
                |q: Seq<char>| q.len() > 0 && exists|j: int| 0 <= j < i
                    && #[trigger] files.entry_seq()[j].0@ == root@ + "/"@ + q,
                |q: Seq<char>| files@[root@ + "/"@ + q],
            )) by {
                assert forall|x: Seq<char>| x.len() > 0 && root@ + "/"@ + x == k@ implies x == q@ by {
                    assert(x =~= k@.subrange(plen as int, klen as int));
                }
            }
        } else {
            i = i + 1;
            assert(out@ =~= Map::new(
                |q: Seq<char>| q.len() > 0 && exists|j: int| 0 <= j < i
                    && #[trigger] files.entry_seq()[j].0@ == root@ + "/"@ + q,
                |q: Seq<char>| files@[root@ + "/"@ + q],
            )) by {
                assert forall|x: Seq<char>| x.len() > 0 implies root@ + "/"@ + x != k@ by {
                    if root@ + "/"@ + x == k@ {
                        assert(k@.subrange(0, plen as int) =~= prefix@);
                    }
                }
            }
        }
    }
    assert(out@ =~= under_root(files@, root@)) by {
        assert forall|q: Seq<char>| q.len() > 0 implies (files@.contains_key(root@ + "/"@ + q) <==> exists|j: int| 0 <= j < n
                    && #[trigger] files.entry_seq()[j].0@ == root@ + "/"@ + q) by {
            files.lemma_domain(root@ + "/"@ + q);
        }
    }
    out
}

/// Removes a single top-level directory that holds every path, where it has
/// entries below it.
pub fn strip_common_root(files: FileMap) -> (r: FileMap)
    ensures
        r@ == stripped(files@),
{
    broadcast use vstd::set::group_set_axioms, vstd::seq_lib::seq_to_set_is_finite;
    let tops = collect_top_levels(&files);
    proof {
        lemma_sorted_no_duplicates(tops.items());
        tops.items().unique_seq_to_set();
    }
    if tops.len() != 1 {
        return files;
    }
    let root = tops.at(0);
    proof {
        assert(tops@ =~= Set::<Seq<char>>::empty().insert(root@)) by {
            assert(tops.items().contains(root@));
            assert forall|x: Seq<char>| #[trigger] tops@.contains(x) implies x == root@ by {
                let j = choose|j: int| 0 <= j < tops.items().len() && tops.items()[j] == x;
            }
        }
        assert(top_levels(files@).choose() == root@) by {
            assert(top_levels(files@).contains(top_levels(files@).choose()));
        }
    }
    match files.get(root.as_str()) {
        Some(e) => {
            if e.file_type != FileType::Directory {
                return files;
            }
        },
        None => {
            return files;
        },
    }
    let out = entries_under(&files, root.as_str());
    proof {
        out.lemma_nonempty();
    }
    if out.len() > 0 {
        out
    } else {
        files
    }
}

} // verus!
